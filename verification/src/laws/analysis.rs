//! Laws of the functions that search and analyse points.
use vstd::prelude::*;
use crate::call::{Kernel, Question};
use crate::eval::{eval_call, Eval};
use crate::functions::ml::{distance_key, key_at, mirrored, nearest_distances, nearest_indices, nn2_result, nn_result, ranking, tsne_result};
use crate::functions::optics::{all_described, as_doubles, by_position, cluster_of, column_at, cut_of, optics_result, place, within};
use crate::functions::settings::{settings_of, Kind};
use crate::json::items_of;
use crate::laws::lists::integer;
use crate::laws::names::{lemma_color_name, lemma_nn2_name, lemma_nn_name, lemma_optics_name, lemma_tsne_name, lemma_umap_name};
use crate::number::num_key;
use crate::order::{is_order, lemma_sort_keeps_items, lemma_sort_sorts};
use crate::text::{ascii_lower_text, decimal};
use crate::value::{lemma_get_after_insert, obj_get, obj_insert, Json, Num};

verus! {

/// Whether a value is a list of points of a space with so many dimensions.
pub open spec fn are_points(value: Json, dimensions: nat) -> bool {
    value matches Json::Array(points) && forall|i: int|
        0 <= i < points.len() ==> {
            &&& (#[trigger] points[i]) is Array
            &&& points[i]->Array_0.len() == dimensions
            &&& forall|j: int| 0 <= j < dimensions ==> (#[trigger] points[i]->Array_0[j]) is Number
        }
}

/// Whether a search can be made: some points of one space to search for, and some to search among.
pub open spec fn is_search(rows: Json, neighbors: Json) -> bool {
    exists|dimensions: nat|
        {
            &&& dimensions > 0
            &&& #[trigger] are_points(rows, dimensions)
            &&& are_points(neighbors, dimensions)
            &&& rows->Array_0.len() > 0
            &&& neighbors->Array_0.len() > 0
        }
}

proof fn lemma_search(rows: Json, neighbors: Json, k: int)
    ensures
        crate::functions::ml::can_search(rows, neighbors, k) <==> k > 0 && is_search(rows, neighbors),
{
    use_points(rows);
    use_points(neighbors);
    if crate::functions::ml::can_search(rows, neighbors, k) {
        let width = crate::functions::ml::width_of(rows->Array_0[0]);
        assert(are_points(rows, width));
        assert(are_points(neighbors, width));
    }
    if k > 0 && is_search(rows, neighbors) {
        let dimensions = choose|dimensions: nat|
            {
                &&& dimensions > 0
                &&& #[trigger] are_points(rows, dimensions)
                &&& are_points(neighbors, dimensions)
                &&& rows->Array_0.len() > 0
                &&& neighbors->Array_0.len() > 0
            };
        assert(crate::functions::ml::width_of(rows->Array_0[0]) == dimensions);
    }
}

proof fn use_points(value: Json)
    ensures
        forall|n: nat| #[trigger] are_points(value, n) <==> crate::functions::ml::is_matrix(value) && crate::functions::ml::all_wide(
            value->Array_0,
            n,
        ) && forall|i: int| 0 <= i < value->Array_0.len() ==> (#[trigger] value->Array_0[i]) is Array,
{
    assert forall|n: nat| #[trigger] are_points(value, n) implies crate::functions::ml::is_matrix(value)
        && crate::functions::ml::all_wide(value->Array_0, n) by {
        let points = value->Array_0;
        assert forall|i: int| 0 <= i < points.len() implies crate::functions::ml::is_vector(#[trigger] points[i])
            && crate::functions::ml::width_of(points[i]) == n by {
            assert forall|j: int| 0 <= j < points[i]->Array_0.len() implies (#[trigger] points[i]->Array_0[j]) is Number by {}
        }
    }
}

/// `NN` asks for the nearest neighbours of points among others, by the distance that is named, the
/// Euclidean one where none is. Where the points do not fit, or the distance is none, it is null.
pub proof fn lemma_nn_question(rows: Json, neighbors: Json, k: usize, name: Seq<char>, answers: Seq<Json>, used: nat)
    requires
        used == answers.len(),
    ensures
        ({
            let input = Json::Array(seq![rows, neighbors, integer(k as int)]);
            let plain = eval_call("NN"@, seq![rows, neighbors, integer(k as int)], answers, used);
            let named = eval_call("NN"@, seq![rows, neighbors, integer(k as int), Json::Text(name)], answers, used);
            let lower = ascii_lower_text(name);
            if k > 0 && is_search(rows, neighbors) {
                &&& plain == Eval::Ask(Question::Kernel(Kernel::NearestL2, input))
                &&& lower == ascii_lower_text("cosine"@) && lower != ascii_lower_text("l2"@) && lower != ascii_lower_text(
                    "euclidean"@,
                ) ==> named == Eval::Ask(Question::Kernel(Kernel::NearestCosine, input))
                &&& lower == ascii_lower_text("l2"@) || lower == ascii_lower_text("euclidean"@) ==> named == Eval::Ask(
                    Question::Kernel(Kernel::NearestL2, input),
                )
                &&& lower != ascii_lower_text("l2"@) && lower != ascii_lower_text("euclidean"@) && lower != ascii_lower_text(
                    "cosine"@,
                ) ==> named == Eval::Done(Json::Null, used)
            } else {
                plain == Eval::Done(Json::Null, used) && named == Eval::Done(Json::Null, used)
            }
        }),
{
    lemma_nn_name(3);
    lemma_nn_name(4);
    lemma_search(rows, neighbors, k as int);
    let three = seq![rows, neighbors, integer(k as int)];
    let four = seq![rows, neighbors, integer(k as int), Json::Text(name)];
    assert(three[0] == rows && three[1] == neighbors && three[2] == integer(k as int) && three.len() == 3);
    assert(four[0] == rows && four[1] == neighbors && four[2] == integer(k as int) && four[3] == Json::Text(name) && four.len() == 4);
}

/// The names of distances are three different ones.
pub proof fn lemma_distance_names()
    ensures
        ascii_lower_text("cosine"@) != ascii_lower_text("l2"@),
        ascii_lower_text("cosine"@) != ascii_lower_text("euclidean"@),
        ascii_lower_text("euclidean"@) != ascii_lower_text("l2"@),
{
    reveal_strlit("cosine");
    reveal_strlit("l2");
    reveal_strlit("euclidean");
    assert(ascii_lower_text("cosine"@).len() == 6);
    assert(ascii_lower_text("l2"@).len() == 2);
    assert(ascii_lower_text("euclidean"@).len() == 9);
}

/// The result of a search holds the positions and the distances that were found, and, where there are
/// additional values, for every position the value at that place.
pub proof fn lemma_nn_result(positions: Seq<Json>, distances: Json, values: Seq<Json>, i: int, j: int)
    ensures
        ({
            let answer = Json::Array(seq![Json::Array(positions), distances]);
            let plain = nn_result(answer, None);
            let full = nn_result(answer, Some(Json::Array(values)));
            &&& plain is Object && full is Object
            &&& obj_get(plain->Object_0, "index"@) == Some(Json::Array(positions))
            &&& obj_get(plain->Object_0, "distance"@) == Some(distances)
            &&& obj_get(plain->Object_0, "additional"@) is None
            &&& obj_get(full->Object_0, "index"@) == Some(Json::Array(positions))
            &&& obj_get(full->Object_0, "distance"@) == Some(distances)
            &&& obj_get(full->Object_0, "additional"@) matches Some(Json::Array(rows)) && rows.len() == positions.len() && (0 <= i
                < positions.len() && positions[i] is Array && 0 <= j < positions[i]->Array_0.len() ==> rows[i] is Array
                && rows[i]->Array_0.len() == positions[i]->Array_0.len() && (forall|n: nat|
                n < values.len() && n <= i64::MAX && positions[i]->Array_0[j] == #[trigger] integer(n as int)
                    ==> rows[i]->Array_0[j] == values[n as int]))
        }),
{
    reveal_strlit("index");
    reveal_strlit("distance");
    reveal_strlit("additional");
    assert("index"@.len() == 5 && "distance"@.len() == 8 && "additional"@.len() == 10);
    let empty = Seq::<(Seq<char>, Json)>::empty();
    let parts = seq![Json::Array(positions), distances];
    assert(parts[0] == Json::Array(positions) && parts[1] == distances && parts.len() == 2);
    let first = obj_insert(empty, "distance"@, distances);
    let both = obj_insert(first, "index"@, Json::Array(positions));
    lemma_get_after_insert(empty, "distance"@, distances, "index"@);
    lemma_get_after_insert(empty, "distance"@, distances, "additional"@);
    lemma_get_after_insert(first, "index"@, Json::Array(positions), "distance"@);
    lemma_get_after_insert(first, "index"@, Json::Array(positions), "additional"@);
    let picked = crate::functions::ml::picked(values, Json::Array(positions));
    lemma_get_after_insert(both, "additional"@, picked, "distance"@);
    lemma_get_after_insert(both, "additional"@, picked, "index"@);
}

/// `NN2` of the distances of a row to all neighbours gives, for each of the nearest, its position and
/// its distance: as many as are wanted or there are, no position twice, nearest first, and none that
/// is left out is nearer.
pub proof fn lemma_nearest(distances: Seq<Json>, k: nat)
    requires
        distances.len() <= usize::MAX,
    ensures
        ({
            let positions = nearest_indices(distances, k)->Array_0;
            let lengths = nearest_distances(distances, k)->Array_0;
            &&& nearest_indices(distances, k) is Array && nearest_distances(distances, k) is Array
            &&& positions.len() == lengths.len() == if k < distances.len() {
                k
            } else {
                distances.len()
            }
            &&& positions.no_duplicates()
            &&& forall|c: int|
                0 <= c < positions.len() ==> exists|p: int|
                    0 <= p < distances.len() && #[trigger] positions[c] == integer(p) && lengths[c] == #[trigger] distances[p]
            &&& forall|c: int, d: int|
                0 <= c < d < lengths.len() ==> distance_key(#[trigger] lengths[c]) <= distance_key(#[trigger] lengths[d])
            &&& forall|p: int, c: int|
                0 <= p < distances.len() && 0 <= c < lengths.len() && !positions.contains(integer(p)) ==> distance_key(
                    #[trigger] lengths[c],
                ) <= distance_key(#[trigger] distances[p])
        }),
{
    let order = ranking(distances);
    let all = Seq::new(distances.len(), |i: int| i as usize);
    let after = |a: usize, b: usize| key_at(distances, a) > key_at(distances, b);
    assert(is_order(after));
    lemma_sort_sorts(all, after);
    lemma_sort_keeps_items(all, after);
    lemma_permutation(all, order);
    let m = if k < distances.len() {
        k as int
    } else {
        distances.len() as int
    };
    let positions = nearest_indices(distances, k)->Array_0;
    let lengths = nearest_distances(distances, k)->Array_0;
    assert forall|c: int| 0 <= c < m implies 0 <= #[trigger] order[c] < distances.len() && positions[c] == integer(order[c] as int)
        && lengths[c] == distances[order[c] as int] by {
        assert(all.contains(order[c]));
        let i = choose|i: int| 0 <= i < all.len() && all[i] == order[c];
        assert(all[i] == i as usize);
    }
    assert forall|c: int| 0 <= c < positions.len() implies exists|p: int|
        0 <= p < distances.len() && #[trigger] positions[c] == integer(p) && lengths[c] == #[trigger] distances[p] by {
        let p = order[c] as int;
        assert(lengths[c] == distances[p]);
    }
    assert forall|c: int, d: int| 0 <= c < positions.len() && 0 <= d < positions.len() && c != d implies positions[c] != positions[d] by {
        assert(order[c] != order[d]);
    }
    assert forall|c: int, d: int| 0 <= c < d < lengths.len() implies distance_key(#[trigger] lengths[c]) <= distance_key(
        #[trigger] lengths[d],
    ) by {
        assert(!after(order[c], order[d]));
    }
    assert forall|p: int, c: int|
        0 <= p < distances.len() && 0 <= c < lengths.len() && !positions.contains(integer(p)) implies distance_key(
        #[trigger] lengths[c],
    ) <= distance_key(#[trigger] distances[p]) by {
        assert(all[p] == p as usize);
        assert(all.contains(p as usize));
        assert(order.contains(p as usize));
        let d = choose|d: int| 0 <= d < order.len() && order[d] == p as usize;
        if d < m {
            assert(positions[d] == integer(p));
        }
        assert(!after(order[c], order[d]));
    }
}

proof fn lemma_permutation(all: Seq<usize>, order: Seq<usize>)
    requires
        order.to_multiset() == all.to_multiset(),
        forall|i: int| 0 <= i < all.len() ==> all[i] == i as usize,
        all.len() <= usize::MAX,
    ensures
        order.no_duplicates(),
        order.len() == all.len(),
        forall|p: usize| all.contains(p) <==> order.contains(p),
{
    broadcast use vstd::seq_lib::group_to_multiset_ensures;

    assert(all.no_duplicates());
    all.lemma_multiset_has_no_duplicates();
    order.lemma_multiset_has_no_duplicates_conv();
    assert forall|p: usize| all.contains(p) <==> order.contains(p) by {
        assert(all.contains(p) <==> all.to_multiset().count(p) > 0);
        assert(order.contains(p) <==> order.to_multiset().count(p) > 0);
    }
    assert(order.len() == order.to_multiset().len());
    assert(all.len() == all.to_multiset().len());
}

/// `NN2` asks for all distances and gives the nearest neighbours of each row at that row's place.
pub proof fn lemma_nn2(rows: Json, neighbors: Json, k: usize, distances: Seq<Json>, i: int, answers: Seq<Json>, used: nat)
    ensures
        ({
            let args = seq![rows, neighbors, integer(k as int)];
            &&& k > 0 && is_search(rows, neighbors) ==> eval_call("NN2"@, args, answers, answers.len()) == Eval::Ask(
                Question::Kernel(Kernel::Distances, Json::Array(args)),
            )
            &&& !(k > 0 && is_search(rows, neighbors)) ==> eval_call("NN2"@, args, answers, used) == Eval::Done(
                Json::Null,
                used,
            )
            &&& k > 0 && is_search(rows, neighbors) && used < answers.len() && answers[used as int] == Json::Array(distances)
                ==> ({
                &&& eval_call("NN2"@, args, answers, used) matches Eval::Done(Json::Object(found), _)
                &&& obj_get(found, "index"@) matches Some(Json::Array(positions))
                &&& obj_get(found, "distance"@) matches Some(Json::Array(lengths))
                &&& positions.len() == lengths.len() == distances.len()
                &&& 0 <= i < distances.len() && distances[i] is Array ==> positions[i] == nearest_indices(
                    distances[i]->Array_0,
                    k as nat,
                ) && lengths[i] == nearest_distances(distances[i]->Array_0, k as nat)
            })
        }),
{
    lemma_nn2_name(3);
    lemma_search(rows, neighbors, k as int);
    let args = seq![rows, neighbors, integer(k as int)];
    assert(args[0] == rows && args[1] == neighbors && args[2] == integer(k as int) && args.len() == 3);
    reveal_strlit("index");
    reveal_strlit("distance");
    assert("index"@.len() == 5 && "distance"@.len() == 8);
    let empty = Seq::<(Seq<char>, Json)>::empty();
    let lengths = Json::Array(Seq::new(distances.len(), |i: int| nearest_distances(items_of(distances[i]), k as nat)));
    let positions = Json::Array(Seq::new(distances.len(), |i: int| nearest_indices(items_of(distances[i]), k as nat)));
    let first = obj_insert(empty, "distance"@, lengths);
    lemma_get_after_insert(empty, "distance"@, lengths, "index"@);
    lemma_get_after_insert(first, "index"@, positions, "distance"@);
    if used < answers.len() && answers[used as int] == Json::Array(distances) {
        assert(nn2_result(answers[used as int], k as nat) == Json::Object(obj_insert(first, "index"@, positions)));
    }
}

/// An embedding given by dimension becomes one point for each row, whose coordinates are the entries
/// of the dimensions at the row's place.
pub proof fn lemma_embedding(dimensions: Seq<Json>, count: nat, i: int, j: int)
    requires
        0 <= i < count <= i64::MAX,
        0 <= j < dimensions.len(),
        dimensions[j] is Array,
        i < dimensions[j]->Array_0.len(),
    ensures
        ({
            &&& tsne_result(Json::Array(dimensions), count) matches Json::Array(points)
            &&& points.len() == count
            &&& points[i] matches Json::Array(point) && point.len() == dimensions.len() && point[j] == dimensions[j]->Array_0[i]
        }),
{
}

/// The clusters of an ordering of samples: one that is reached within the limit stays in the cluster
/// before it; else one whose core distance is within the limit begins the next cluster, which are
/// numbered from zero; and any other is in none.
pub proof fn lemma_clusters(samples: Seq<Json>, sample: Json, limit: int)
    ensures
        cut_of(Seq::empty(), limit).next == 0 && cut_of(Seq::empty(), limit).current is None,
        ({
            let (before, after) = (cut_of(samples, limit), cut_of(samples.push(sample), limit));
            if within(place(sample, 2), limit) && before.current is Some {
                after == before
            } else if within(place(sample, 1), limit) {
                after.current == Some(before.next) && after.next == before.next + 1
            } else {
                after.current is None && after.next == before.next
            }
        }),
        cluster_of(samples.push(sample), limit, samples.len() as int) == match cut_of(samples.push(sample), limit).current {
            Some(cluster) => integer(cluster as int),
            None => Json::Null,
        },
{
    let longer = samples.push(sample);
    assert(longer.drop_last() =~= samples);
    assert(longer.take(samples.len() as int + 1) =~= longer);
}

/// The result of an analysis holds five columns of one length, one entry of each for every sample, in
/// the order of the samples' positions. The entries at one place belong to one sample: its cluster,
/// its position, the row at that position, its core distance and its reachability distance.
pub proof fn lemma_optics_result(samples: Seq<Json>, rows: Seq<Json>, limit: int, j: int)
    requires
        0 <= j < samples.len(),
    ensures
        ({
            &&& optics_result(Json::Array(samples), Json::Array(rows), limit) matches Json::Object(found)
            &&& obj_get(found, "clusterIndex"@) matches Some(Json::Array(clusters))
            &&& obj_get(found, "index"@) matches Some(Json::Array(positions))
            &&& obj_get(found, "embedding"@) matches Some(Json::Array(points))
            &&& obj_get(found, "coreDistance"@) matches Some(Json::Array(cores))
            &&& obj_get(found, "reachabilityDistance"@) matches Some(Json::Array(reaches))
            &&& clusters.len() == positions.len() == points.len() == cores.len() == reaches.len() == samples.len()
            &&& exists|i: int|
                {
                    &&& 0 <= i < samples.len()
                    &&& clusters[j] == #[trigger] cluster_of(samples, limit, i)
                    &&& positions[j] == place(samples[i], 0)
                    &&& points[j] == as_doubles(crate::functions::array::item_at(rows, place(samples[i], 0)))
                    &&& cores[j] == place(samples[i], 1)
                    &&& reaches[j] == place(samples[i], 2)
                }
            &&& forall|k: int| 0 <= k < j ==> distance_key(#[trigger] positions[k]) <= distance_key(positions[j])
        }),
{
    let all = all_described(samples, rows, limit);
    let sorted = by_position(all);
    let after = |a: Json, b: Json| distance_key(place(a, 1)) > distance_key(place(b, 1));
    assert(is_order(after));
    lemma_sort_sorts(all, after);
    lemma_sort_keeps_items(all, after);
    lemma_five_entries(
        column_at(sorted, 0),
        column_at(sorted, 1),
        column_at(sorted, 2),
        column_at(sorted, 3),
        column_at(sorted, 4),
    );
    lemma_sorted_member(all, sorted, j);
    let i = choose|i: int| 0 <= i < all.len() && #[trigger] all[i] == sorted[j];
    let entries = sorted[j]->Array_0;
    assert(items_of(sorted[j]) == entries && entries.len() == 5);
    assert(sorted[j] == crate::functions::optics::described(samples, rows, limit, i));
    assert(place(sorted[j], 0) == cluster_of(samples, limit, i));
    assert forall|k: int| 0 <= k < j implies distance_key(place(#[trigger] sorted[k], 1)) <= distance_key(place(sorted[j], 1)) by {
        assert(!after(sorted[k], sorted[j]));
    }
    let positions = column_at(sorted, 1)->Array_0;
    assert forall|k: int| 0 <= k < j implies distance_key(#[trigger] positions[k]) <= distance_key(positions[j]) by {
        assert(positions[k] == place(sorted[k], 1));
    }
}

proof fn lemma_sorted_member(all: Seq<Json>, sorted: Seq<Json>, j: int)
    requires
        sorted.to_multiset() == all.to_multiset(),
        0 <= j < sorted.len(),
    ensures
        exists|i: int| 0 <= i < all.len() && #[trigger] all[i] == sorted[j],
{
    broadcast use vstd::seq_lib::group_to_multiset_ensures;

    assert(sorted.contains(sorted[j]));
    assert(sorted.to_multiset().count(sorted[j]) > 0);
    assert(all.to_multiset().count(sorted[j]) > 0);
    assert(all.contains(sorted[j]));
}

proof fn lemma_five_entries(v0: Json, v1: Json, v2: Json, v3: Json, v4: Json)
    ensures
        ({
            let one = obj_insert(Seq::empty(), "clusterIndex"@, v0);
            let two = obj_insert(one, "index"@, v1);
            let three = obj_insert(two, "embedding"@, v2);
            let four = obj_insert(three, "coreDistance"@, v3);
            let five = obj_insert(four, "reachabilityDistance"@, v4);
            &&& obj_get(five, "clusterIndex"@) == Some(v0)
            &&& obj_get(five, "index"@) == Some(v1)
            &&& obj_get(five, "embedding"@) == Some(v2)
            &&& obj_get(five, "coreDistance"@) == Some(v3)
            &&& obj_get(five, "reachabilityDistance"@) == Some(v4)
        }),
{
    reveal_strlit("clusterIndex");
    reveal_strlit("index");
    reveal_strlit("embedding");
    reveal_strlit("coreDistance");
    reveal_strlit("reachabilityDistance");
    assert("index"@.len() == 5 && "embedding"@.len() == 9 && "reachabilityDistance"@.len() == 20);
    assert("clusterIndex"@[1] != "coreDistance"@[1]);
    let zero = Seq::<(Seq<char>, Json)>::empty();
    let one = obj_insert(zero, "clusterIndex"@, v0);
    let two = obj_insert(one, "index"@, v1);
    let three = obj_insert(two, "embedding"@, v2);
    let four = obj_insert(three, "coreDistance"@, v3);
    lemma_get_after_insert(zero, "clusterIndex"@, v0, "clusterIndex"@);
    lemma_get_after_insert(one, "index"@, v1, "clusterIndex"@);
    lemma_get_after_insert(two, "embedding"@, v2, "clusterIndex"@);
    lemma_get_after_insert(two, "embedding"@, v2, "index"@);
    lemma_get_after_insert(three, "coreDistance"@, v3, "clusterIndex"@);
    lemma_get_after_insert(three, "coreDistance"@, v3, "index"@);
    lemma_get_after_insert(three, "coreDistance"@, v3, "embedding"@);
    lemma_get_after_insert(four, "reachabilityDistance"@, v4, "clusterIndex"@);
    lemma_get_after_insert(four, "reachabilityDistance"@, v4, "index"@);
    lemma_get_after_insert(four, "reachabilityDistance"@, v4, "embedding"@);
    lemma_get_after_insert(four, "reachabilityDistance"@, v4, "coreDistance"@);
}

/// Settings hold, under each key of their table, the value of the configuration for it: the first one
/// of the right type under one of its names, where that is in range, and else null.
pub proof fn lemma_settings(
    members: Seq<(Seq<char>, Json)>,
    table: Seq<(Seq<char>, Seq<Seq<char>>, Kind)>,
    t: int,
    n: int,
)
    requires
        0 <= t < table.len(),
        forall|u: int| t < u < table.len() ==> (#[trigger] table[u]).0 != table[t].0,
    ensures
        ({
            let (key, names, kind) = table[t];
            let found = obj_get(settings_of(members, table), key);
            &&& found is Some
            &&& (0 <= n < names.len() && is_first_typed(members, names, kind, n)) ==> found == Some(
                if fits_range(obj_get(members, names[n])->0, kind) {
                    obj_get(members, names[n])->0
                } else {
                    Json::Null
                },
            )
            &&& (forall|m: int| 0 <= m < names.len() ==> !is_typed(members, #[trigger] names[m], kind)) ==> found == Some(Json::Null)
        }),
    decreases table.len(),
{
    let rest = table.drop_last();
    let last = table[table.len() - 1];
    let (key, names, kind) = table[t];
    let value = crate::functions::settings::setting_of(members, last.1, last.2);
    lemma_get_after_insert(settings_of(members, rest), last.0, value, key);
    if t < rest.len() {
        assert(last.0 != key);
        assert(rest[t] == table[t]);
        assert forall|u: int| t < u < rest.len() implies (#[trigger] rest[u]).0 != rest[t].0 by {
            assert(rest[u] == table[u]);
        }
        lemma_settings(members, rest, t, n);
    } else {
        lemma_first_typed(members, names, kind, n);
    }
}

/// Whether a configuration has a value of a kind's type under a name.
pub open spec fn is_typed(members: Seq<(Seq<char>, Json)>, name: Seq<char>, kind: Kind) -> bool {
    match obj_get(members, name) {
        Some(value) => match kind {
            Kind::Text => value is Text,
            Kind::Whole => value is Number && value->Number_0 is PosInt,
            Kind::Flag => value is Bool,
            _ => value is Number,
        },
        None => false,
    }
}

/// Whether a name is the first under which a configuration has a value of a kind's type.
pub open spec fn is_first_typed(members: Seq<(Seq<char>, Json)>, names: Seq<Seq<char>>, kind: Kind, n: int) -> bool {
    is_typed(members, names[n], kind) && forall|m: int| 0 <= m < n ==> !is_typed(members, #[trigger] names[m], kind)
}

/// Whether a value of the right type is in the range of its kind.
pub open spec fn fits_range(value: Json, kind: Kind) -> bool {
    match kind {
        Kind::Whole => value->Number_0->PosInt_0 <= usize::MAX,
        Kind::Positive => crate::number::num_key(value->Number_0) > 0,
        Kind::NonNegative => crate::number::num_key(value->Number_0) >= 0,
        _ => true,
    }
}

proof fn lemma_first_typed(members: Seq<(Seq<char>, Json)>, names: Seq<Seq<char>>, kind: Kind, n: int)
    ensures
        (0 <= n < names.len() && is_first_typed(members, names, kind, n)) ==> crate::functions::settings::first_typed(
            members,
            names,
            kind,
        ) == obj_get(members, names[n]),
        (forall|m: int| 0 <= m < names.len() ==> !is_typed(members, #[trigger] names[m], kind))
            ==> crate::functions::settings::first_typed(members, names, kind) is None,
    decreases names.len(),
{
    if names.len() > 0 {
        let rest = names.drop_first();
        lemma_first_typed(members, rest, kind, n - 1);
        if 0 < n < names.len() && is_first_typed(members, names, kind, n) {
            assert(!is_typed(members, names[0], kind));
            assert(rest[n - 1] == names[n]);
            assert forall|m: int| 0 <= m < n - 1 implies !is_typed(members, #[trigger] rest[m], kind) by {
                assert(rest[m] == names[m + 1]);
            }
        }
        if forall|m: int| 0 <= m < names.len() ==> !is_typed(members, #[trigger] names[m], kind) {
            assert(!is_typed(members, names[0], kind));
            assert forall|m: int| 0 <= m < rest.len() implies !is_typed(members, #[trigger] rest[m], kind) by {
                assert(rest[m] == names[m + 1]);
            }
        }
    }
}

/// `COLOR` asks for the colour of the fraction whose binary digits behind the point are those of the
/// next index in reverse: twice an index puts a zero in front of them, and one more a one. The
/// answer's three parts are written as a colour.
pub proof fn lemma_color(index: usize, n: nat, red: u64, green: u64, blue: u64, answers: Seq<Json>, used: nat)
    requires
        index < u64::MAX,
        n > 0,
    ensures
        used == answers.len() ==> eval_call("COLOR"@, seq![integer(index as int)], answers, used) == Eval::Ask(
            Question::Kernel(
                Kernel::Color,
                Json::Array(
                    seq![
                        integer(mirrored((index + 1) as nat).0 as u64 as int),
                        integer(mirrored((index + 1) as nat).1 as u64 as int),
                    ],
                ),
            ),
        ),
        used < answers.len() && answers[used as int] == Json::Array(
            seq![integer(red as int), integer(green as int), integer(blue as int)],
        ) ==> eval_call("COLOR"@, seq![integer(index as int)], answers, used) == Eval::Done(
            Json::Text(
                "rgb("@ + decimal(red as nat) + ", "@ + decimal(green as nat) + ", "@ + decimal(blue as nat) + ")"@,
            ),
            used + 1,
        ),
        mirrored(1) == (1nat, 1nat),
        mirrored(2 * n) == (mirrored(n).0, mirrored(n).1 + 1),
        mirrored(2 * n + 1) == (
            (vstd::arithmetic::power2::pow2(mirrored(n).1) + mirrored(n).0) as nat,
            mirrored(n).1 + 1,
        ),
{
    lemma_color_name(1);
    assert(seq![integer(index as int)][0] == integer(index as int));
    vstd::arithmetic::power2::lemma2_to64();
    assert(mirrored(0) == (0nat, 0nat));
    assert((2 * n) / 2 == n && (2 * n) % 2 == 0);
    assert((2 * n + 1) / 2 == n && (2 * n + 1) % 2 == 1);
    assert(1nat / 2 == 0 && 1nat % 2 == 1);
    let digits = vstd::arithmetic::power2::pow2(mirrored(n).1);
    assert(0 * digits == 0 && 1 * digits == digits) by (nonlinear_arith);
    assert(1 * vstd::arithmetic::power2::pow2(0) == 1);
    let parts = seq![integer(red as int), integer(green as int), integer(blue as int)];
    assert(parts[0] == integer(red as int) && parts[1] == integer(green as int) && parts[2] == integer(blue as int) && parts.len() == 3);
}

/// `NN` comes to what the search found, with the additional values of the neighbours where they are
/// given.
pub proof fn lemma_nn_call(rows: Json, neighbors: Json, k: usize, additional: Seq<Json>, answers: Seq<Json>, used: nat)
    requires
        k > 0,
        is_search(rows, neighbors),
        used < answers.len(),
    ensures
        eval_call("NN"@, seq![rows, neighbors, integer(k as int)], answers, used) == Eval::Done(
            nn_result(answers[used as int], None),
            used + 1,
        ),
        additional.len() == neighbors->Array_0.len() ==> eval_call(
            "NN"@,
            seq![rows, neighbors, integer(k as int), Json::Null, Json::Array(additional)],
            answers,
            used,
        ) == Eval::Done(nn_result(answers[used as int], Some(Json::Array(additional))), used + 1),
        additional.len() != neighbors->Array_0.len() ==> eval_call(
            "NN"@,
            seq![rows, neighbors, integer(k as int), Json::Null, Json::Array(additional)],
            answers,
            used,
        ) == Eval::Done(Json::Null, used),
{
    lemma_nn_name(3);
    lemma_nn_name(5);
    lemma_search(rows, neighbors, k as int);
    let three = seq![rows, neighbors, integer(k as int)];
    let five = seq![rows, neighbors, integer(k as int), Json::Null, Json::Array(additional)];
    assert(three[0] == rows && three[1] == neighbors && three[2] == integer(k as int) && three.len() == 3);
    assert(five[0] == rows && five[1] == neighbors && five[2] == integer(k as int) && five[3] is Null && five[4] == Json::Array(
        additional,
    ) && five.len() == 5);
}

/// Whether a value is a set of points that can be analysed: at least two of one space.
pub open spec fn is_point_set(rows: Json) -> bool {
    exists|dimensions: nat| dimensions > 0 && #[trigger] are_points(rows, dimensions) && rows->Array_0.len() >= 2
}

proof fn lemma_point_set(rows: Json)
    ensures
        crate::functions::ml::can_analyse(rows) <==> is_point_set(rows),
{
    use_points(rows);
    if crate::functions::ml::can_analyse(rows) {
        assert(are_points(rows, crate::functions::ml::width_of(rows->Array_0[0])));
    }
    if is_point_set(rows) {
        let dimensions = choose|dimensions: nat|
            dimensions > 0 && #[trigger] are_points(rows, dimensions) && rows->Array_0.len() >= 2;
        assert(crate::functions::ml::width_of(rows->Array_0[0]) == dimensions);
    }
}

/// `UMAP` asks for an embedding of its points with the settings that its configuration gives, and
/// comes to the answer.
pub proof fn lemma_umap(rows: Json, members: Seq<(Seq<char>, Json)>, answers: Seq<Json>, used: nat)
    ensures
        ({
            let result = eval_call("UMAP"@, seq![rows, Json::Object(members)], answers, used);
            if !is_point_set(rows) {
                result == Eval::Done(Json::Null, used)
            } else if used < answers.len() {
                result == Eval::Done(answers[used as int], used + 1)
            } else {
                result == Eval::Ask(
                    Question::Kernel(
                        Kernel::Umap,
                        Json::Array(
                            seq![rows, Json::Object(settings_of(members, crate::functions::settings::umap_table_of()))],
                        ),
                    ),
                )
            }
        }),
{
    lemma_umap_name(2);
    lemma_point_set(rows);
    let args = seq![rows, Json::Object(members)];
    assert(args[0] == rows && args[1] == Json::Object(members) && args.len() == 2);
}

/// `TSNE` asks for an embedding of its points with the settings that its configuration gives, and
/// comes to one point for each of them. It is null where a setting has the wrong type.
pub proof fn lemma_tsne(rows: Json, members: Seq<(Seq<char>, Json)>, answers: Seq<Json>, used: nat)
    requires
        is_point_set(rows),
        is_given(members, "approx"@, Kind::Text),
        is_given(members, "seed"@, Kind::Whole),
        is_given(members, "verbose"@, Kind::Whole),
        is_given(members, "perplexity"@, Kind::Number),
        is_given(members, "n_dim"@, Kind::Whole),
    ensures
        ({
            let result = eval_call("TSNE"@, seq![rows, Json::Object(members)], answers, used);
            if used < answers.len() {
                result == Eval::Done(tsne_result(answers[used as int], rows->Array_0.len()), used + 1)
            } else {
                &&& result matches Eval::Ask(Question::Kernel(Kernel::Tsne, Json::Array(input)))
                &&& input.len() == 2 && input[0] == rows && input[1] is Object
                &&& obj_get(input[1]->Object_0, "approx"@) == obj_get(members, "approx"@)
                &&& obj_get(input[1]->Object_0, "seed"@) == obj_get(members, "seed"@)
                &&& obj_get(input[1]->Object_0, "verbose"@) == obj_get(members, "verbose"@)
                &&& obj_get(input[1]->Object_0, "perplexity"@) == obj_get(members, "perplexity"@)
                &&& obj_get(input[1]->Object_0, "n_dim"@) == obj_get(members, "n_dim"@)
            }
        }),
{
    lemma_tsne_name(2);
    lemma_point_set(rows);
    use_points(rows);
    let args = seq![rows, Json::Object(members)];
    assert(args[0] == rows && args[1] == Json::Object(members) && args.len() == 2);
    let table = crate::functions::settings::tsne_config_of();
    reveal_strlit("approx");
    reveal_strlit("seed");
    reveal_strlit("verbose");
    reveal_strlit("perplexity");
    reveal_strlit("n_dim");
    assert("approx"@.len() == 6 && "seed"@.len() == 4 && "verbose"@.len() == 7 && "perplexity"@.len() == 10 && "n_dim"@.len() == 5);
    assert(table[0].0 == "approx"@ && table[1].0 == "seed"@ && table[2].0 == "verbose"@ && table[3].0 == "perplexity"@
        && table[4].0 == "n_dim"@ && table.len() == 5);
    assert(table[0].1 == seq!["approx"@] && table[1].1 == seq!["seed"@] && table[2].1 == seq!["verbose"@] && table[3].1
        == seq!["perplexity"@] && table[4].1 == seq!["n_dim"@]);
    assert forall|t: int| 0 <= t < table.len() implies crate::functions::settings::has_type_of(
        obj_get(members, (#[trigger] table[t]).1[0])->0,
        table[t].2,
    ) && obj_get(members, table[t].1[0]) is Some && crate::functions::settings::in_range(
        obj_get(members, table[t].1[0])->0,
        table[t].2,
    ) && obj_get(settings_of(members, table), table[t].0) == obj_get(members, table[t].1[0]) by {
        assert(is_given(members, table[t].1[0], table[t].2));
        assert(is_first_typed(members, table[t].1, table[t].2, 0));
        lemma_settings(members, table, t, 0);
    }
    assert(crate::functions::settings::fits_table(members, table));
    assert(table[0].1[0] == "approx"@);
    assert(table[1].1[0] == "seed"@);
    assert(table[2].1[0] == "verbose"@);
    assert(table[3].1[0] == "perplexity"@);
    assert(table[4].1[0] == "n_dim"@);
}

/// Whether a configuration gives a setting of the right type and in range.
pub open spec fn is_given(members: Seq<(Seq<char>, Json)>, name: Seq<char>, kind: Kind) -> bool {
    is_typed(members, name, kind) && fits_range(obj_get(members, name)->0, kind)
}

/// `OPTICS` asks for an analysis of its points with the number of points that a cluster needs and the
/// largest distance that its configuration gives, and cuts clusters at the distance that it gives
/// for them.
pub proof fn lemma_optics(rows: Json, members: Seq<(Seq<char>, Json)>, needed: u64, eps: Num, cut: Num, answers: Seq<Json>, used: nat)
    requires
        is_point_set(rows),
        2 <= needed <= rows->Array_0.len(),
        needed <= usize::MAX,
        num_key(eps) > 0,
        num_key(cut) > 0,
        obj_get(members, "min_points"@) == Some(Json::Number(Num::PosInt(needed))),
        obj_get(members, "eps"@) == Some(Json::Number(eps)),
        obj_get(members, "cluster_eps"@) == Some(Json::Number(cut)),
    ensures
        eval_call("OPTICS"@, seq![rows, Json::Object(members)], answers, used) == if used < answers.len() {
            Eval::Done(optics_result(answers[used as int], rows, num_key(cut)), used + 1)
        } else {
            Eval::Ask(
                Question::Kernel(
                    Kernel::Optics,
                    Json::Array(seq![rows, Json::Number(Num::PosInt(needed)), Json::Number(eps)]),
                ),
            )
        },
{
    lemma_optics_name(2);
    lemma_point_set(rows);
    let args = seq![rows, Json::Object(members)];
    assert(args[0] == rows && args[1] == Json::Object(members) && args.len() == 2);
    let table = crate::functions::settings::optics_config_of();
    reveal_strlit("min_points");
    reveal_strlit("eps");
    reveal_strlit("cluster_eps");
    assert("min_points"@.len() == 10 && "eps"@.len() == 3 && "cluster_eps"@.len() == 11);
    assert(table[0].0 == "min_points"@ && table[1].0 == "eps"@ && table[2].0 == "cluster_eps"@ && table.len() == 3);
    assert(table[0].1 == seq!["min_points"@] && table[1].1 == seq!["eps"@] && table[2].1 == seq!["cluster_eps"@]);
    assert(table[0].1[0] == "min_points"@);
    assert(table[1].1[0] == "eps"@);
    assert(table[2].1[0] == "cluster_eps"@);
    assert forall|t: int| 0 <= t < table.len() implies match obj_get(members, (#[trigger] table[t]).1[0]) {
        Some(value) => value is Null || (crate::functions::settings::has_type_of(value, table[t].2)
            && crate::functions::settings::in_range(value, table[t].2)),
        None => true,
    } by {}
    lemma_settings(members, table, 0, 0);
    lemma_settings(members, table, 1, 0);
    lemma_settings(members, table, 2, 0);
}

/// The result of an analysis under a lenient configuration has one object for each sample, in the
/// order of the analysis, with the sample's cluster, position, row and distances.
pub proof fn lemma_optics_value(samples: Seq<Json>, rows: Seq<Json>, config: Option<Json>, i: int)
    requires
        0 <= i < samples.len(),
    ensures
        ({
            let limit = crate::functions::optics::cluster_tolerance(crate::functions::optics::lenient_settings(config));
            &&& crate::functions::optics::optics_value_of(Json::Array(samples), Json::Array(rows), config) matches Json::Array(found)
            &&& found.len() == samples.len()
            &&& found[i] matches Json::Object(sample)
            &&& obj_get(sample, "clusterIndex"@) == Some(cluster_of(samples, limit, i))
            &&& obj_get(sample, "index"@) == Some(place(samples[i], 0))
            &&& obj_get(sample, "embedding"@) == Some(
                as_doubles(crate::functions::array::item_at(rows, place(samples[i], 0))),
            )
            &&& obj_get(sample, "coreDistance"@) == Some(place(samples[i], 1))
            &&& obj_get(sample, "reachabilityDistance"@) == Some(place(samples[i], 2))
        }),
{
    let limit = crate::functions::optics::cluster_tolerance(crate::functions::optics::lenient_settings(config));
    let described = crate::functions::optics::described(samples, rows, limit, i);
    let entries = described->Array_0;
    assert(items_of(described) == entries && entries.len() == 5);
    lemma_five_entries(
        place(described, 0),
        place(described, 1),
        place(described, 2),
        place(described, 3),
        place(described, 4),
    );
    assert(all_described(samples, rows, limit)[i] == described);
}

/// Distances are compared by value, and what is no number is farther than any finite one. A distance
/// is within a limit where it is a number that is not above it.
pub proof fn lemma_distances(number: Num, other: Json, limit: int, items: Seq<Json>, i: int)
    requires
        !(other is Number),
    ensures
        distance_key(Json::Number(number)) == num_key(number),
        number matches Num::Float(bits) ==> (crate::value::finite_bits(bits) ==> num_key(number) < distance_key(other)),
        within(Json::Number(number), limit) <==> num_key(number) <= limit,
        !within(other, limit),
        place(Json::Array(items), i) == (if 0 <= i < items.len() {
            items[i]
        } else {
            Json::Null
        }),
        crate::functions::optics::as_double(Json::Number(number)) == Json::Number(
            Num::Float(crate::number::num_bits(number) as u64),
        ),
        as_doubles(Json::Array(items)) matches Json::Array(doubles) && doubles.len() == items.len() && (0 <= i < items.len()
            ==> doubles[i] == crate::functions::optics::as_double(items[i])),
{
}

} // verus!
