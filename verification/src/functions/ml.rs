//! Nearest neighbours, clusters and embeddings: what is asked for, and what is made of the answer.
//!
//! The numerical work on doubles is done outside; here stand the checks of its input and the
//! assembly of its results.
use vstd::prelude::*;
use crate::functions::array::{at, item_at};
use crate::functions::settings::{check_table, fits_table, read_settings, settings_of, tsne_config, tsne_config_of, umap_table, umap_table_of};
use crate::json::items_of;
use crate::number::{num_key, number_key};
use crate::order::{stable_sort, stable_sorted};
use crate::text::{ascii_lower_text, same_ignoring_case};
use crate::value::{jsons, lemma_array_json, lemma_jsons_push, obj_insert, Json, Num, Number, Object, Value};

verus! {

broadcast use {lemma_array_json, lemma_jsons_push};

/// How the distance of two points is measured.
#[derive(Debug, Clone, Copy, PartialEq, Eq, Structural)]
pub enum DistanceMetric {
    L2,
    Cosine,
}

/// The metric that a value names: L2 where there is none.
pub open spec fn metric_of(value: Option<Json>) -> Option<DistanceMetric> {
    match value {
        None => Some(DistanceMetric::L2),
        Some(Json::Null) => Some(DistanceMetric::L2),
        Some(Json::Text(name)) => {
            if ascii_lower_text(name) == ascii_lower_text("l2"@) || ascii_lower_text(name) == ascii_lower_text(
                "euclidean"@,
            ) {
                Some(DistanceMetric::L2)
            } else if ascii_lower_text(name) == ascii_lower_text("cosine"@) {
                Some(DistanceMetric::Cosine)
            } else {
                None
            }
        },
        _ => None,
    }
}

/// The mathematical value of an optional value.
pub open spec fn optional(value: Option<&Value>) -> Option<Json> {
    match value {
        Some(v) => Some(v@),
        None => None,
    }
}

impl DistanceMetric {
    /// The metric that a value names.
    pub fn parse(value: Option<&Value>) -> (metric: Option<DistanceMetric>)
        ensures
            metric == metric_of(optional(value)),
    {
        match value {
            None => Some(DistanceMetric::L2),
            Some(Value::Null) => Some(DistanceMetric::L2),
            Some(Value::String(name)) => {
                if same_ignoring_case(name.as_str(), "l2") || same_ignoring_case(name.as_str(), "euclidean") {
                    Some(DistanceMetric::L2)
                } else if same_ignoring_case(name.as_str(), "cosine") {
                    Some(DistanceMetric::Cosine)
                } else {
                    None
                }
            },
            Some(_) => None,
        }
    }
}

/// Whether a value is an array of numbers.
pub open spec fn is_vector(value: Json) -> bool {
    match value {
        Json::Array(items) => forall|i: int| 0 <= i < items.len() ==> (#[trigger] items[i]) is Number,
        _ => false,
    }
}

/// Whether a value is an array of arrays of numbers.
pub open spec fn is_matrix(value: Json) -> bool {
    match value {
        Json::Array(rows) => forall|i: int| 0 <= i < rows.len() ==> is_vector(#[trigger] rows[i]),
        _ => false,
    }
}

/// Whether a value is an array of numbers.
pub fn check_vector(value: &Value) -> (answer: bool)
    ensures
        answer == is_vector(value@),
{
    match value {
        Value::Array(items) => {
            let ghost all = jsons(items@);
            let mut i: usize = 0;
            while i < items.len()
                invariant
                    i <= items.len(),
                    all == jsons(items@),
                    value@ == Json::Array(all),
                    forall|j: int| 0 <= j < i ==> (#[trigger] all[j]) is Number,
                decreases items.len() - i,
            {
                assert(all[i as int] == items@[i as int]@);
                match &items[i] {
                    Value::Number(_) => {},
                    _ => {
                        return false;
                    },
                }
                i = i + 1;
            }
            true
        },
        _ => false,
    }
}

/// Whether a value is an array of arrays of numbers.
pub fn check_matrix(value: &Value) -> (answer: bool)
    ensures
        answer == is_matrix(value@),
{
    match value {
        Value::Array(rows) => {
            let ghost all = jsons(rows@);
            let mut i: usize = 0;
            while i < rows.len()
                invariant
                    i <= rows.len(),
                    all == jsons(rows@),
                    value@ == Json::Array(all),
                    forall|j: int| 0 <= j < i ==> is_vector(#[trigger] all[j]),
                decreases rows.len() - i,
            {
                assert(all[i as int] == rows@[i as int]@);
                if !check_vector(&rows[i]) {
                    assert(!is_vector(value@->Array_0[i as int]));
                    return false;
                }
                i = i + 1;
            }
            true
        },
        _ => false,
    }
}

/// The length of an array, zero for anything else.
pub open spec fn width_of(value: Json) -> nat {
    match value {
        Json::Array(items) => items.len(),
        _ => 0,
    }
}

/// Whether all rows have one width.
pub open spec fn all_wide(rows: Seq<Json>, width: nat) -> bool {
    forall|i: int| 0 <= i < rows.len() ==> width_of(#[trigger] rows[i]) == width
}

/// The length of an array, zero for anything else.
pub fn width(value: &Value) -> (width: usize)
    ensures
        width == width_of(value@),
{
    match value {
        Value::Array(items) => items.len(),
        _ => 0,
    }
}

fn check_wide(rows: &Vec<Value>, expected: usize) -> (answer: bool)
    ensures
        answer == all_wide(jsons(rows@), expected as nat),
{
    let mut i: usize = 0;
    while i < rows.len()
        invariant
            i <= rows.len(),
            forall|j: int| 0 <= j < i ==> width_of(#[trigger] jsons(rows@)[j]) == expected,
        decreases rows.len() - i,
    {
        assert(jsons(rows@)[i as int] == rows@[i as int]@);
        if width(&rows[i]) != expected {
            return false;
        }
        i = i + 1;
    }
    true
}

/// Whether rows and neighbours are points of one space of at least one dimension, with at least
/// one of each, and a neighbour is wanted.
pub open spec fn can_search(rows: Json, neighbors: Json, k: int) -> bool {
    &&& is_matrix(rows)
    &&& is_matrix(neighbors)
    &&& rows->Array_0.len() > 0
    &&& neighbors->Array_0.len() > 0
    &&& k > 0
    &&& width_of(rows->Array_0[0]) > 0
    &&& all_wide(rows->Array_0, width_of(rows->Array_0[0]))
    &&& all_wide(neighbors->Array_0, width_of(rows->Array_0[0]))
}

/// Whether a search for neighbours can be made.
pub fn check_search(rows: &Value, neighbors: &Value, k: usize) -> (answer: bool)
    ensures
        answer == can_search(rows@, neighbors@, k as int),
{
    if !check_matrix(rows) || !check_matrix(neighbors) {
        return false;
    }
    match (rows, neighbors) {
        (Value::Array(points), Value::Array(others)) => {
            if points.len() == 0 || others.len() == 0 || k == 0 {
                return false;
            }
            assert(jsons(points@)[0] == points@[0]@);
            let features: usize = width(&points[0]);
            features > 0 && check_wide(points, features) && check_wide(others, features)
        },
        _ => false,
    }
}

/// Whether additional values fit the neighbours: there are none, or one for each.
pub open spec fn additional_fits(additional: Option<Json>, neighbors: Json) -> bool {
    match additional {
        None => true,
        Some(Json::Null) => true,
        Some(Json::Array(values)) => values.len() == neighbors->Array_0.len(),
        Some(_) => false,
    }
}

fn check_additional(additional: Option<&Value>, neighbors: &Value) -> (answer: bool)
    requires
        neighbors@ is Array,
    ensures
        answer == additional_fits(optional(additional), neighbors@),
{
    match additional {
        None => true,
        Some(Value::Null) => true,
        Some(Value::Array(values)) => values.len() == width(neighbors),
        Some(_) => false,
    }
}

/// What a search for neighbours is given: the rows, the neighbours and how many are wanted.
pub open spec fn search_input(rows: Json, neighbors: Json, k: nat) -> Json {
    Json::Array(seq![rows, neighbors, Json::Number(Num::PosInt(k as u64))])
}

/// What a search for the nearest neighbours is given and by which metric; none where the
/// arguments do not fit.
pub open spec fn nn_question(
    rows: Json,
    neighbors: Json,
    k: nat,
    distance: Option<Json>,
    additional: Option<Json>,
) -> Option<(DistanceMetric, Json)> {
    if can_search(rows, neighbors, k as int) && additional_fits(additional, neighbors) && metric_of(distance) is Some {
        Some((metric_of(distance)->0, search_input(rows, neighbors, k)))
    } else {
        None
    }
}

fn make_search_input(rows: &Value, neighbors: &Value, k: usize) -> (input: Value)
    ensures
        input@ == search_input(rows@, neighbors@, k as nat),
{
    let parts = vec![rows.copy(), neighbors.copy(), Value::Number(Number::PosInt(k as u64))];
    assert(jsons(parts@) =~= seq![rows@, neighbors@, Json::Number(Num::PosInt(k as u64))]);
    Value::Array(parts)
}

/// What a search for the nearest neighbours is given and by which metric.
pub fn nn_ask(rows: &Value, neighbors: &Value, k: usize, distance: Option<&Value>, additional: Option<&Value>) -> (question: Option<(DistanceMetric, Value)>)
    ensures
        question is Some <==> nn_question(rows@, neighbors@, k as nat, optional(distance), optional(additional)) is Some,
        question matches Some(q) ==> nn_question(rows@, neighbors@, k as nat, optional(distance), optional(additional)) == Some((q.0, q.1@)),
{
    if !check_search(rows, neighbors, k) || !check_additional(additional, neighbors) {
        return None;
    }
    match DistanceMetric::parse(distance) {
        Some(metric) => Some((metric, make_search_input(rows, neighbors, k))),
        None => None,
    }
}

/// The additional values of the neighbours found for one row.
pub open spec fn picked_row(additional: Seq<Json>, indices: Json) -> Json {
    Json::Array(Seq::new(items_of(indices).len(), |i: int| item_at(additional, items_of(indices)[i])))
}

/// The additional values of the neighbours found, row by row.
pub open spec fn picked(additional: Seq<Json>, indices: Json) -> Json {
    Json::Array(Seq::new(items_of(indices).len(), |i: int| picked_row(additional, items_of(indices)[i])))
}

/// The result of a search: the distances and the positions of the neighbours of each row, and
/// their additional values where there are any. An answer of another shape is no result.
pub open spec fn nn_result(answer: Json, additional: Option<Json>) -> Json {
    match answer {
        Json::Array(parts) => if parts.len() == 2 {
            let found = obj_insert(obj_insert(Seq::empty(), "distance"@, parts[1]), "index"@, parts[0]);
            match additional {
                Some(Json::Array(values)) => Json::Object(obj_insert(found, "additional"@, picked(values, parts[0]))),
                _ => Json::Object(found),
            }
        } else {
            Json::Null
        },
        _ => Json::Null,
    }
}

fn pick_row(additional: &Vec<Value>, indices: &Value) -> (row: Value)
    ensures
        row@ == picked_row(jsons(additional@), indices@),
{
    let mut items: Vec<Value> = Vec::new();
    assert(jsons(items@) =~= Seq::<Json>::empty());
    crate::json::push_items(&mut items, indices);
    assert(jsons(items@) =~= items_of(indices@));
    let ghost whole = Seq::new(items_of(indices@).len(), |i: int| item_at(jsons(additional@), items_of(indices@)[i]));
    let mut row: Vec<Value> = Vec::new();
    let mut i: usize = 0;
    assert(jsons(row@) =~= whole.take(0));
    while i < items.len()
        invariant
            i <= items.len(),
            jsons(items@) == items_of(indices@),
            whole == Seq::new(items_of(indices@).len(), |i: int| item_at(jsons(additional@), items_of(indices@)[i])),
            jsons(row@) == whole.take(i as int),
        decreases items.len() - i,
    {
        assert(jsons(items@)[i as int] == items@[i as int]@);
        row.push(at(additional, &items[i]));
        assert(whole.take(i + 1) =~= whole.take(i as int).push(whole[i as int]));
        i = i + 1;
    }
    assert(whole.take(i as int) =~= whole);
    Value::Array(row)
}

fn pick(additional: &Vec<Value>, indices: &Value) -> (rows: Value)
    ensures
        rows@ == picked(jsons(additional@), indices@),
{
    let mut items: Vec<Value> = Vec::new();
    assert(jsons(items@) =~= Seq::<Json>::empty());
    crate::json::push_items(&mut items, indices);
    assert(jsons(items@) =~= items_of(indices@));
    let ghost whole = Seq::new(items_of(indices@).len(), |i: int| picked_row(jsons(additional@), items_of(indices@)[i]));
    let mut rows: Vec<Value> = Vec::new();
    let mut i: usize = 0;
    assert(jsons(rows@) =~= whole.take(0));
    while i < items.len()
        invariant
            i <= items.len(),
            jsons(items@) == items_of(indices@),
            whole == Seq::new(items_of(indices@).len(), |i: int| picked_row(jsons(additional@), items_of(indices@)[i])),
            jsons(rows@) == whole.take(i as int),
        decreases items.len() - i,
    {
        assert(jsons(items@)[i as int] == items@[i as int]@);
        rows.push(pick_row(additional, &items[i]));
        assert(whole.take(i + 1) =~= whole.take(i as int).push(whole[i as int]));
        i = i + 1;
    }
    assert(whole.take(i as int) =~= whole);
    Value::Array(rows)
}

/// The result of a search from the answer to it.
pub fn nn(answer: &Value, additional: Option<&Value>) -> (result: Value)
    ensures
        result@ == nn_result(answer@, optional(additional)),
{
    match answer {
        Value::Array(parts) => {
            if parts.len() != 2 {
                return Value::Null;
            }
            assert(jsons(parts@)[0] == parts@[0]@ && jsons(parts@)[1] == parts@[1]@);
            let mut found = Object::new();
            found.insert("distance".to_owned(), parts[1].copy());
            found.insert("index".to_owned(), parts[0].copy());
            match additional {
                Some(Value::Array(values)) => {
                    found.insert("additional".to_owned(), pick(values, &parts[0]));
                },
                _ => {},
            }
            Value::Object(found)
        },
        _ => Value::Null,
    }
}

/// The place of a distance in the order of distances; one that is no number is infinite.
pub open spec fn distance_key(distance: Json) -> int {
    match distance {
        Json::Number(n) => num_key(n),
        _ => 0x7ff0_0000_0000_0000,
    }
}

fn key_of_distance(distance: &Value) -> (key: i128)
    ensures
        key == distance_key(distance@),
{
    match distance {
        Value::Number(n) => number_key(n),
        _ => 0x7ff0_0000_0000_0000,
    }
}

/// The place of the distance at a position; positions without a distance have none.
pub open spec fn key_at(distances: Seq<Json>, position: usize) -> int {
    if position < distances.len() {
        distance_key(distances[position as int])
    } else {
        0
    }
}

fn key_at_position(distances: &Vec<Value>, position: usize) -> (key: i128)
    ensures
        key == key_at(jsons(distances@), position),
{
    if position < distances.len() {
        assert(jsons(distances@)[position as int] == distances@[position as int]@);
        key_of_distance(&distances[position])
    } else {
        0
    }
}

/// The positions of the distances, nearest first, ties by position.
pub open spec fn ranking(distances: Seq<Json>) -> Seq<usize> {
    stable_sorted(
        Seq::new(distances.len(), |i: int| i as usize),
        |a: usize, b: usize| key_at(distances, a) > key_at(distances, b),
    )
}

/// The positions of the nearest neighbours of one row.
pub open spec fn nearest(distances: Seq<Json>, k: nat) -> Seq<usize> {
    ranking(distances).take(
        if k < ranking(distances).len() {
            k as int
        } else {
            ranking(distances).len() as int
        },
    )
}

/// The positions of the nearest neighbours as numbers.
pub open spec fn nearest_indices(distances: Seq<Json>, k: nat) -> Json {
    let chosen = nearest(distances, k);
    Json::Array(Seq::new(chosen.len(), |i: int| Json::Number(Num::PosInt(chosen[i] as u64))))
}

/// The distances of the nearest neighbours.
pub open spec fn nearest_distances(distances: Seq<Json>, k: nat) -> Json {
    let chosen = nearest(distances, k);
    Json::Array(Seq::new(chosen.len(), |i: int| distances[chosen[i] as int]))
}

/// The result of an exhaustive search from the distances of every row to every neighbour.
pub open spec fn nn2_result(answer: Json, k: nat) -> Json {
    match answer {
        Json::Array(rows) => Json::Object(
            obj_insert(
                obj_insert(
                    Seq::empty(),
                    "distance"@,
                    Json::Array(Seq::new(rows.len(), |i: int| nearest_distances(items_of(rows[i]), k))),
                ),
                "index"@,
                Json::Array(Seq::new(rows.len(), |i: int| nearest_indices(items_of(rows[i]), k))),
            ),
        ),
        _ => Json::Null,
    }
}

proof fn lemma_ranking_positions(distances: Seq<Json>)
    requires
        distances.len() <= usize::MAX,
    ensures
        ranking(distances).len() == distances.len(),
        forall|i: int| 0 <= i < ranking(distances).len() ==> (#[trigger] ranking(distances)[i]) < distances.len(),
{
    let positions = Seq::new(distances.len(), |i: int| i as usize);
    let after = |a: usize, b: usize| key_at(distances, a) > key_at(distances, b);
    crate::order::lemma_sort_keeps_items(positions, after);
    let sorted = stable_sorted(positions, after);
    assert forall|i: int| 0 <= i < sorted.len() implies (#[trigger] sorted[i]) < distances.len() by {
        broadcast use vstd::seq_lib::group_to_multiset_ensures;

        assert(sorted.contains(sorted[i]));
        assert(sorted.to_multiset().count(sorted[i]) > 0);
        assert(positions.to_multiset().count(sorted[i]) > 0);
        assert(positions.contains(sorted[i]));
        let k = choose|k: int| 0 <= k < positions.len() && positions[k] == sorted[i];
        assert(positions[k] == k as usize);
    }
}

/// The nearest neighbours come in the order of their distances, and no neighbour that was left
/// out is nearer.
pub proof fn lemma_nearest_sorted(distances: Seq<Json>, k: nat, i: int, j: int)
    requires
        distances.len() <= usize::MAX,
        0 <= i < j < ranking(distances).len(),
    ensures
        distance_key(distances[ranking(distances)[i] as int]) <= distance_key(distances[ranking(distances)[j] as int]),
{
    lemma_ranking_positions(distances);
    let after = |a: usize, b: usize| key_at(distances, a) > key_at(distances, b);
    let positions = Seq::new(distances.len(), |i: int| i as usize);
    assert(crate::order::is_order(after));
    crate::order::lemma_sort_sorts(positions, after);
    assert(!after(stable_sorted(positions, after)[i], stable_sorted(positions, after)[j]));
}

fn rank_row(distances: &Vec<Value>, k: usize) -> (found: (Value, Value))
    ensures
        found.0@ == nearest_indices(jsons(distances@), k as nat),
        found.1@ == nearest_distances(jsons(distances@), k as nat),
{
    let ghost all = jsons(distances@);
    let mut positions: Vec<usize> = Vec::new();
    let mut n: usize = 0;
    while n < distances.len()
        invariant
            n <= distances.len(),
            positions@.len() == n,
            forall|i: int| 0 <= i < n ==> positions@[i] == i,
        decreases distances.len() - n,
    {
        positions.push(n);
        n = n + 1;
    }
    let ghost order = |a: usize, b: usize| key_at(all, a) > key_at(all, b);
    assert(positions@ =~= Seq::new(all.len(), |i: int| i as usize));
    let after = |a: &usize, b: &usize| -> (r: bool)
        ensures
            r == (key_at(jsons(distances@), *a) > key_at(jsons(distances@), *b)),
        { key_at_position(distances, *a) > key_at_position(distances, *b) };
    let sorted = stable_sort(positions, &after, Ghost(order));
    proof {
        assert(sorted@ == ranking(all));
        lemma_ranking_positions(all);
    }
    let count: usize = if k < sorted.len() {
        k
    } else {
        sorted.len()
    };
    let ghost chosen = nearest(all, k as nat);
    let ghost whole_indices = Seq::new(chosen.len(), |i: int| Json::Number(Num::PosInt(chosen[i] as u64)));
    let ghost whole_distances = Seq::new(chosen.len(), |i: int| all[chosen[i] as int]);
    let mut indices: Vec<Value> = Vec::new();
    let mut lengths: Vec<Value> = Vec::new();
    let mut i: usize = 0;
    assert(jsons(indices@) =~= whole_indices.take(0));
    assert(jsons(lengths@) =~= whole_distances.take(0));
    while i < count
        invariant
            i <= count <= sorted@.len(),
            all == jsons(distances@),
            chosen == sorted@.take(count as int),
            forall|j: int| 0 <= j < sorted@.len() ==> (#[trigger] sorted@[j]) < distances@.len(),
            whole_indices == Seq::new(chosen.len(), |i: int| Json::Number(Num::PosInt(chosen[i] as u64))),
            whole_distances == Seq::new(chosen.len(), |i: int| all[chosen[i] as int]),
            jsons(indices@) == whole_indices.take(i as int),
            jsons(lengths@) == whole_distances.take(i as int),
        decreases count - i,
    {
        let position: usize = sorted[i];
        assert(all[position as int] == distances@[position as int]@);
        indices.push(Value::Number(Number::PosInt(position as u64)));
        lengths.push(distances[position].copy());
        assert(whole_indices.take(i + 1) =~= whole_indices.take(i as int).push(whole_indices[i as int]));
        assert(whole_distances.take(i + 1) =~= whole_distances.take(i as int).push(whole_distances[i as int]));
        i = i + 1;
    }
    assert(whole_indices.take(i as int) =~= whole_indices);
    assert(whole_distances.take(i as int) =~= whole_distances);
    (Value::Array(indices), Value::Array(lengths))
}

/// The result of an exhaustive search from the distances of every row to every neighbour.
pub fn nn2(answer: &Value, k: usize) -> (result: Value)
    ensures
        result@ == nn2_result(answer@, k as nat),
{
    match answer {
        Value::Array(rows) => {
            let ghost all = jsons(rows@);
            let ghost whole_distances = Seq::new(all.len(), |i: int| nearest_distances(items_of(all[i]), k as nat));
            let ghost whole_indices = Seq::new(all.len(), |i: int| nearest_indices(items_of(all[i]), k as nat));
            let mut distances: Vec<Value> = Vec::new();
            let mut indices: Vec<Value> = Vec::new();
            let mut i: usize = 0;
            assert(jsons(distances@) =~= whole_distances.take(0));
            assert(jsons(indices@) =~= whole_indices.take(0));
            while i < rows.len()
                invariant
                    i <= rows.len(),
                    all == jsons(rows@),
                    whole_distances == Seq::new(all.len(), |i: int| nearest_distances(items_of(all[i]), k as nat)),
                    whole_indices == Seq::new(all.len(), |i: int| nearest_indices(items_of(all[i]), k as nat)),
                    jsons(distances@) == whole_distances.take(i as int),
                    jsons(indices@) == whole_indices.take(i as int),
                decreases rows.len() - i,
            {
                assert(all[i as int] == rows@[i as int]@);
                let mut items: Vec<Value> = Vec::new();
                assert(jsons(items@) =~= Seq::<Json>::empty());
                crate::json::push_items(&mut items, &rows[i]);
                assert(jsons(items@) =~= items_of(all[i as int]));
                let (found, lengths) = rank_row(&items, k);
                indices.push(found);
                distances.push(lengths);
                assert(whole_distances.take(i + 1) =~= whole_distances.take(i as int).push(whole_distances[i as int]));
                assert(whole_indices.take(i + 1) =~= whole_indices.take(i as int).push(whole_indices[i as int]));
                i = i + 1;
            }
            assert(whole_distances.take(i as int) =~= whole_distances);
            assert(whole_indices.take(i as int) =~= whole_indices);
            let mut result = Object::new();
            result.insert("distance".to_owned(), Value::Array(distances));
            result.insert("index".to_owned(), Value::Array(indices));
            Value::Object(result)
        },
        _ => Value::Null,
    }
}

/// What an exhaustive search is given; none where the arguments do not fit.
pub open spec fn nn2_question(rows: Json, neighbors: Json, k: nat) -> Option<Json> {
    if can_search(rows, neighbors, k as int) {
        Some(search_input(rows, neighbors, k))
    } else {
        None
    }
}

/// What an exhaustive search is given.
pub fn nn2_ask(rows: &Value, neighbors: &Value, k: usize) -> (question: Option<Value>)
    ensures
        question is Some <==> nn2_question(rows@, neighbors@, k as nat) is Some,
        question matches Some(q) ==> nn2_question(rows@, neighbors@, k as nat) == Some(q@),
{
    if check_search(rows, neighbors, k) {
        Some(make_search_input(rows, neighbors, k))
    } else {
        None
    }
}

/// Whether rows can be analysed: at least two points of one space.
pub open spec fn can_analyse(rows: Json) -> bool {
    &&& is_matrix(rows)
    &&& rows->Array_0.len() >= 2
    &&& width_of(rows->Array_0[0]) > 0
    &&& all_wide(rows->Array_0, width_of(rows->Array_0[0]))
}

/// Whether rows can be analysed.
pub fn check_points(rows: &Value) -> (answer: bool)
    ensures
        answer == can_analyse(rows@),
{
    if !check_matrix(rows) {
        return false;
    }
    match rows {
        Value::Array(points) => {
            if points.len() < 2 {
                return false;
            }
            assert(jsons(points@)[0] == points@[0]@);
            let features: usize = width(&points[0]);
            features > 0 && check_wide(points, features)
        },
        _ => false,
    }
}

/// The columns of an embedding as rows: entry `j` of row `i` is entry `i` of dimension `j`.
pub open spec fn transposed(dimensions: Seq<Json>, count: nat) -> Seq<Json> {
    Seq::new(
        count,
        |i: int|
            Json::Array(
                Seq::new(
                    dimensions.len(),
                    |j: int| item_at(items_of(dimensions[j]), Json::Number(Num::PosInt(i as u64))),
                ),
            ),
    )
}

/// The result of an embedding given by dimension: one point for each of the rows.
pub open spec fn tsne_result(answer: Json, count: nat) -> Json {
    match answer {
        Json::Array(dimensions) => Json::Array(transposed(dimensions, count)),
        _ => Json::Null,
    }
}

fn entry(dimension: &Value, i: usize) -> (item: Value)
    ensures
        item@ == item_at(items_of(dimension@), Json::Number(Num::PosInt(i as u64))),
{
    let position = Value::Number(Number::PosInt(i as u64));
    match dimension {
        Value::Array(items) => at(items, &position),
        _ => {
            let single = vec![dimension.copy()];
            assert(jsons(single@) =~= seq![dimension@]);
            at(&single, &position)
        },
    }
}

/// The result of an embedding given by dimension.
pub fn tsne(answer: &Value, count: usize) -> (result: Value)
    ensures
        result@ == tsne_result(answer@, count as nat),
{
    match answer {
        Value::Array(dimensions) => {
            let ghost all = jsons(dimensions@);
            let ghost whole = transposed(all, count as nat);
            let mut rows: Vec<Value> = Vec::new();
            let mut i: usize = 0;
            assert(jsons(rows@) =~= whole.take(0));
            while i < count
                invariant
                    i <= count,
                    all == jsons(dimensions@),
                    whole == transposed(all, count as nat),
                    jsons(rows@) == whole.take(i as int),
                decreases count - i,
            {
                let ghost point = Seq::new(
                    all.len(),
                    |j: int| item_at(items_of(all[j]), Json::Number(Num::PosInt(i as u64))),
                );
                let mut row: Vec<Value> = Vec::new();
                let mut j: usize = 0;
                assert(jsons(row@) =~= point.take(0));
                while j < dimensions.len()
                    invariant
                        j <= dimensions.len(),
                        all == jsons(dimensions@),
                        point == Seq::new(
                            all.len(),
                            |j: int| item_at(items_of(all[j]), Json::Number(Num::PosInt(i as u64))),
                        ),
                        jsons(row@) == point.take(j as int),
                    decreases dimensions.len() - j,
                {
                    assert(all[j as int] == dimensions@[j as int]@);
                    row.push(entry(&dimensions[j], i));
                    assert(point.take(j + 1) =~= point.take(j as int).push(point[j as int]));
                    j = j + 1;
                }
                assert(point.take(j as int) =~= point);
                rows.push(Value::Array(row));
                assert(whole[i as int] =~= Json::Array(point));
                assert(whole.take(i + 1) =~= whole.take(i as int).push(whole[i as int]));
                i = i + 1;
            }
            assert(whole.take(i as int) =~= whole);
            Value::Array(rows)
        },
        _ => Value::Null,
    }
}

/// The members of a configuration, none where there is no object.
pub open spec fn config_members(config: Option<Json>) -> Seq<(Seq<char>, Json)> {
    match config {
        Some(Json::Object(members)) => members,
        _ => Seq::empty(),
    }
}

/// What a t-SNE embedding is given: the rows and the settings. The configuration is an object
/// whose settings have the right types.
pub open spec fn tsne_question(rows: Json, config: Json) -> Option<Json> {
    match config {
        Json::Object(members) => if can_analyse(rows) && fits_table(members, tsne_config_of()) {
            Some(Json::Array(seq![rows, Json::Object(settings_of(members, tsne_config_of()))]))
        } else {
            None
        },
        _ => None,
    }
}

/// What a UMAP embedding is given: the rows and the settings.
pub open spec fn umap_question(rows: Json, config: Option<Json>) -> Option<Json> {
    if can_analyse(rows) {
        Some(Json::Array(seq![rows, Json::Object(settings_of(config_members(config), umap_table_of()))]))
    } else {
        None
    }
}

fn config_object<'a>(config: Option<&'a Value>) -> (object: Option<&'a Object>)
    ensures
        match object {
            Some(o) => o@ == config_members(optional(config)),
            None => config_members(optional(config)) == Seq::<(Seq<char>, Json)>::empty(),
        },
{
    match config {
        Some(Value::Object(members)) => Some(members),
        _ => None,
    }
}

/// What a t-SNE embedding is given.
pub fn tsne_ask(rows: &Value, config: &Value) -> (question: Option<Value>)
    ensures
        question is Some <==> tsne_question(rows@, config@) is Some,
        question matches Some(q) ==> tsne_question(rows@, config@) == Some(q@),
{
    match config {
        Value::Object(members) => {
            let table = tsne_config();
            if !check_points(rows) || !check_table(members, &table) {
                return None;
            }
            let settings = read_settings(Some(members), &table);
            let parts = vec![rows.copy(), Value::Object(settings)];
            assert(jsons(parts@) =~= seq![rows@, Json::Object(settings@)]);
            Some(Value::Array(parts))
        },
        _ => None,
    }
}

/// What a UMAP embedding is given.
pub fn umap_ask(rows: &Value, config: Option<&Value>) -> (question: Option<Value>)
    ensures
        question is Some <==> umap_question(rows@, optional(config)) is Some,
        question matches Some(q) ==> umap_question(rows@, optional(config)) == Some(q@),
{
    if !check_points(rows) {
        return None;
    }
    let settings = read_settings(config_object(config), &umap_table());
    let parts = vec![rows.copy(), Value::Object(settings)];
    assert(jsons(parts@) =~= seq![rows@, Json::Object(settings@)]);
    Some(Value::Array(parts))
}

/// The number of neighbours that a graph over some rows can have: at most one less than there
/// are rows, and at least one.
pub fn neighbor_count(wanted: usize, rows: usize) -> (count: usize)
    ensures
        count as int == ({
            let most = if rows == 0 { 0int } else { rows - 1 };
            let capped = if wanted < most { wanted as int } else { most };
            if capped < 1 { 1int } else { capped }
        }),
{
    let most: usize = if rows == 0 {
        0
    } else {
        rows - 1
    };
    let capped: usize = if wanted < most {
        wanted
    } else {
        most
    };
    if capped < 1 {
        1
    } else {
        capped
    }
}

/// The base two van der Corput fraction of a number: its binary digits mirrored at the point, as
/// the numerator and the number of digits.
pub open spec fn mirrored(n: nat) -> (nat, nat)
    decreases n,
{
    if n == 0 {
        (0, 0)
    } else {
        let (numerator, digits) = mirrored(n / 2);
        ((n % 2) * vstd::arithmetic::power2::pow2(digits) + numerator, digits + 1)
    }
}

proof fn lemma_mirrored_bounds(n: nat, limit: nat)
    requires
        n < vstd::arithmetic::power2::pow2(limit),
    ensures
        mirrored(n).1 <= limit,
        mirrored(n).0 < vstd::arithmetic::power2::pow2(mirrored(n).1),
    decreases n,
{
    vstd::arithmetic::power2::lemma2_to64();
    if n > 0 {
        if limit == 0 {
            assert(false);
        }
        vstd::arithmetic::power2::lemma_pow2_unfold(limit);
        lemma_mirrored_bounds(n / 2, (limit - 1) as nat);
        let digits = mirrored(n / 2).1;
        vstd::arithmetic::power2::lemma_pow2_unfold(digits + 1);
        if n % 2 == 0 {
            assert((n % 2) * vstd::arithmetic::power2::pow2(digits) == 0);
        } else {
            assert((n % 2) * vstd::arithmetic::power2::pow2(digits) == vstd::arithmetic::power2::pow2(digits)) by (nonlinear_arith)
                requires
                    n % 2 == 1,
            ;
        }
    }
}

/// The base two van der Corput fraction of a number, as the numerator and the number of digits.
pub fn van_der_corput_base2(n: u64) -> (fraction: (u64, u64))
    ensures
        fraction.0 == mirrored(n as nat).0,
        fraction.1 == mirrored(n as nat).1,
        fraction.1 <= 64,
        fraction.0 < vstd::arithmetic::power2::pow2(fraction.1 as nat),
    decreases n,
{
    proof {
        vstd::arithmetic::power2::lemma2_to64();
        vstd::arithmetic::power2::lemma2_to64_rest();
        lemma_mirrored_bounds(n as nat, 64);
    }
    if n == 0 {
        return (0, 0);
    }
    let (numerator, digits) = van_der_corput_base2(n / 2);
    proof {
        lemma_mirrored_bounds((n / 2) as nat, 63);
        if digits < 63 {
            vstd::arithmetic::power2::lemma_pow2_strictly_increases(digits as nat, 63);
        }
        vstd::arithmetic::power2::lemma_pow2_unfold((digits + 1) as nat);
        let p = vstd::arithmetic::power2::pow2(digits as nat);
        let b = (n % 2) as nat;
        assert(b == 0 ==> b * p == 0) by (nonlinear_arith);
        assert(b == 1 ==> b * p == p) by (nonlinear_arith);
    }
    if n % 2 == 0 {
        (numerator, digits + 1)
    } else {
        (crate::number::power_of_two(digits) + numerator, digits + 1)
    }
}

/// A colour as a text.
pub open spec fn rgb_text_of(red: nat, green: nat, blue: nat) -> Seq<char> {
    "rgb("@ + crate::text::decimal(red) + ", "@ + crate::text::decimal(green) + ", "@ + crate::text::decimal(blue) + ")"@
}

/// A colour as a text.
pub fn rgb_text(red: u64, green: u64, blue: u64) -> (text: String)
    ensures
        text@ == rgb_text_of(red as nat, green as nat, blue as nat),
{
    let mut text = "rgb(".to_owned();
    crate::text::push_decimal(&mut text, red);
    crate::text::push_text(&mut text, ", ");
    crate::text::push_decimal(&mut text, green);
    crate::text::push_text(&mut text, ", ");
    crate::text::push_decimal(&mut text, blue);
    crate::text::push_text(&mut text, ")");
    text
}

} // verus!
