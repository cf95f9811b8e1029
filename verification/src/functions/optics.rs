//! OPTICS cluster analysis: the checks of its input, the clusters cut from its ordering and the
//! result.
use vstd::prelude::*;
use crate::functions::array::{at, item_at};
use crate::functions::ml::{can_analyse, check_points, config_members, distance_key, optional};
use crate::functions::settings::{check_table, fits_table, optics_config, optics_config_of, optics_names, optics_names_of, read_settings, settings_of};
use crate::json::{items_of, push_items};
use crate::number::{num_bits, num_key, number_key, to_double};
use crate::order::{stable_sort, stable_sorted};
use crate::value::{jsons, lemma_array_json, lemma_jsons_push, obj_get, obj_insert, Json, Num, Number, Object, Value};

verus! {

broadcast use {lemma_array_json, lemma_jsons_push};

/// The largest finite double.
pub const LARGEST_DOUBLE: i128 = 0x7fef_ffff_ffff_ffff;

/// The member of an object, null where there is none.
pub open spec fn member(members: Seq<(Seq<char>, Json)>, key: Seq<char>) -> Json {
    match obj_get(members, key) {
        Some(value) => value,
        None => Json::Null,
    }
}

fn member_of(object: &Object, key: &str) -> (value: Value)
    ensures
        value@ == member(object@, key@),
{
    match object.get(key) {
        Some(value) => value.copy(),
        None => Value::Null,
    }
}

/// The place of a setting in the order of doubles, or a default.
pub open spec fn key_or(value: Json, default: int) -> int {
    match value {
        Json::Number(n) => num_key(n),
        _ => default,
    }
}

/// The number of points that a cluster needs, two where the settings do not say.
pub open spec fn points_needed(settings: Seq<(Seq<char>, Json)>) -> int {
    match member(settings, "min_points"@) {
        Json::Number(Num::PosInt(n)) => n as int,
        _ => 2,
    }
}

/// The largest distance that is looked at, by its place in the order of doubles.
pub open spec fn tolerance(settings: Seq<(Seq<char>, Json)>) -> int {
    key_or(member(settings, "eps"@), LARGEST_DOUBLE as int)
}

/// The distance at which clusters are cut, by its place in the order of doubles.
pub open spec fn cluster_tolerance(settings: Seq<(Seq<char>, Json)>) -> int {
    key_or(member(settings, "cluster_eps"@), tolerance(settings))
}

/// Whether the settings fit the rows: enough points, and distances above zero.
pub open spec fn settings_fit(settings: Seq<(Seq<char>, Json)>, rows: Json) -> bool {
    &&& can_analyse(rows)
    &&& 2 <= points_needed(settings) <= rows->Array_0.len()
    &&& tolerance(settings) > 0
    &&& cluster_tolerance(settings) > 0
}

/// What an analysis is given: the rows, the number of points that a cluster needs and the largest
/// distance, null where it is not limited.
pub open spec fn analysis_input(rows: Json, settings: Seq<(Seq<char>, Json)>) -> Json {
    Json::Array(
        seq![rows, Json::Number(Num::PosInt(points_needed(settings) as u64)), member(settings, "eps"@)],
    )
}

fn needed(settings: &Object) -> (count: u64)
    ensures
        count == points_needed(settings@),
{
    match settings.get("min_points") {
        Some(Value::Number(Number::PosInt(n))) => *n,
        _ => 2,
    }
}

fn tolerance_key(settings: &Object) -> (key: i128)
    ensures
        key == tolerance(settings@),
{
    match settings.get("eps") {
        Some(Value::Number(n)) => number_key(n),
        _ => LARGEST_DOUBLE,
    }
}

fn cluster_key(settings: &Object) -> (key: i128)
    ensures
        key == cluster_tolerance(settings@),
{
    match settings.get("cluster_eps") {
        Some(Value::Number(n)) => number_key(n),
        _ => tolerance_key(settings),
    }
}

fn check_settings(settings: &Object, rows: &Value) -> (answer: bool)
    ensures
        answer == settings_fit(settings@, rows@),
{
    if !check_points(rows) {
        return false;
    }
    let count: u64 = needed(settings);
    match rows {
        Value::Array(points) => {
            2 <= count && count <= points.len() as u64 && tolerance_key(settings) > 0 && cluster_key(settings) > 0
        },
        _ => false,
    }
}

fn make_input(rows: &Value, settings: &Object) -> (input: Value)
    ensures
        input@ == analysis_input(rows@, settings@),
{
    let parts = vec![rows.copy(), Value::Number(Number::PosInt(needed(settings))), member_of(settings, "eps")];
    assert(jsons(parts@) =~= seq![rows@, Json::Number(Num::PosInt(points_needed(settings@) as u64)), member(settings@, "eps"@)]);
    Value::Array(parts)
}

/// The settings of a configuration: an object whose settings have the right types.
pub open spec fn strict_settings(config: Json) -> Option<Seq<(Seq<char>, Json)>> {
    match config {
        Json::Object(members) => if fits_table(members, optics_config_of()) {
            Some(settings_of(members, optics_config_of()))
        } else {
            None
        },
        _ => None,
    }
}

/// What an analysis is given; none where the arguments do not fit.
pub open spec fn optics_question(rows: Json, config: Json) -> Option<Json> {
    match strict_settings(config) {
        Some(settings) => if settings_fit(settings, rows) {
            Some(analysis_input(rows, settings))
        } else {
            None
        },
        None => None,
    }
}

fn read_strict(config: &Value) -> (settings: Option<Object>)
    ensures
        settings is Some <==> strict_settings(config@) is Some,
        settings matches Some(s) ==> s@ == strict_settings(config@)->0,
{
    match config {
        Value::Object(members) => {
            let table = optics_config();
            if check_table(members, &table) {
                Some(read_settings(Some(members), &table))
            } else {
                None
            }
        },
        _ => None,
    }
}

/// What an analysis is given.
pub fn optics_ask(rows: &Value, config: &Value) -> (question: Option<Value>)
    ensures
        question is Some <==> optics_question(rows@, config@) is Some,
        question matches Some(q) ==> optics_question(rows@, config@) == Some(q@),
{
    match read_strict(config) {
        Some(settings) => if check_settings(&settings, rows) {
            Some(make_input(rows, &settings))
        } else {
            None
        },
        None => None,
    }
}

/// The item of a list at a place, null where there is none.
pub open spec fn place(list: Json, i: int) -> Json {
    if 0 <= i < items_of(list).len() {
        items_of(list)[i]
    } else {
        Json::Null
    }
}

fn item_of(list: &Value, i: usize) -> (item: Value)
    ensures
        item@ == place(list@, i as int),
{
    match list {
        Value::Array(items) => if i < items.len() {
            assert(jsons(items@)[i as int] == items@[i as int]@);
            items[i].copy()
        } else {
            Value::Null
        },
        _ => if i == 0 {
            list.copy()
        } else {
            Value::Null
        },
    }
}

/// Where the cutting of clusters stands: the cluster that goes on, and the number of the next.
pub struct Cut {
    pub current: Option<nat>,
    pub next: nat,
}

/// Whether a distance is known and within the limit.
pub open spec fn within(distance: Json, limit: int) -> bool {
    distance is Number && num_key(distance->Number_0) <= limit
}

/// The state after a sample of an ordering. A sample is its position, its core distance and its
/// reachability distance. One that cannot be reached within the limit ends the cluster before
/// it, and begins a new one where its core distance is within the limit.
pub open spec fn cut_after(state: Cut, sample: Json, limit: int) -> Cut {
    let core = place(sample, 1);
    let reach = place(sample, 2);
    if within(reach, limit) && state.current is Some {
        state
    } else if within(core, limit) {
        Cut { current: Some(state.next), next: state.next + 1 }
    } else {
        Cut { current: None, next: state.next }
    }
}

/// The state after all samples.
pub open spec fn cut_of(samples: Seq<Json>, limit: int) -> Cut
    decreases samples.len(),
{
    if samples.len() == 0 {
        Cut { current: None, next: 0 }
    } else {
        cut_after(cut_of(samples.drop_last(), limit), samples.last(), limit)
    }
}

/// The cluster of the sample at a position of the ordering, null for noise.
pub open spec fn cluster_of(samples: Seq<Json>, limit: int, i: int) -> Json {
    match cut_of(samples.take(i + 1), limit).current {
        Some(cluster) => Json::Number(Num::PosInt(cluster as u64)),
        None => Json::Null,
    }
}

/// Clusters are numbered from zero without gaps: the next number counts the clusters begun so
/// far, and the cluster that goes on is the last one begun.
pub proof fn lemma_clusters_numbered(samples: Seq<Json>, limit: int)
    ensures
        cut_of(samples, limit).next <= samples.len(),
        cut_of(samples, limit).current matches Some(cluster) ==> cluster + 1 == cut_of(samples, limit).next,
    decreases samples.len(),
{
    if samples.len() > 0 {
        lemma_clusters_numbered(samples.drop_last(), limit);
    }
}

/// A sample that continues the ordering within the limit stays in the cluster before it.
pub proof fn lemma_cluster_continues(samples: Seq<Json>, limit: int, i: int)
    requires
        0 < i < samples.len(),
        within(place(samples[i], 2), limit),
        cut_of(samples.take(i), limit).current is Some,
    ensures
        cluster_of(samples, limit, i) == cluster_of(samples, limit, i - 1),
{
    assert(samples.take(i + 1).drop_last() =~= samples.take(i));
    assert(samples.take(i + 1).last() == samples[i]);
}

fn is_within(distance: &Value, limit: i128) -> (answer: bool)
    ensures
        answer == within(distance@, limit as int),
{
    match distance {
        Value::Number(n) => number_key(n) <= limit,
        _ => false,
    }
}

/// The clusters of the samples of an ordering.
pub open spec fn clusters_of(samples: Seq<Json>, limit: int) -> Seq<Json> {
    Seq::new(samples.len(), |i: int| cluster_of(samples, limit, i))
}

fn cut_clusters(samples: &Vec<Value>, limit: i128) -> (clusters: Vec<Value>)
    ensures
        jsons(clusters@) == clusters_of(jsons(samples@), limit as int),
{
    let ghost all = jsons(samples@);
    let ghost whole = clusters_of(all, limit as int);
    let mut current: Option<u64> = None;
    let mut next: u64 = 0;
    let mut clusters: Vec<Value> = Vec::new();
    let mut i: usize = 0;
    assert(all.take(0) =~= Seq::empty());
    assert(jsons(clusters@) =~= whole.take(0));
    while i < samples.len()
        invariant
            i <= samples.len(),
            all == jsons(samples@),
            whole == clusters_of(all, limit as int),
            next <= i,
            next == cut_of(all.take(i as int), limit as int).next,
            current is Some <==> cut_of(all.take(i as int), limit as int).current is Some,
            current matches Some(c) ==> cut_of(all.take(i as int), limit as int).current == Some(c as nat),
            jsons(clusters@) == whole.take(i as int),
        decreases samples.len() - i,
    {
        assert(all[i as int] == samples@[i as int]@);
        assert(all.take(i + 1).drop_last() =~= all.take(i as int));
        assert(all.take(i + 1).last() == all[i as int]);
        let core = item_of(&samples[i], 1);
        let reach = item_of(&samples[i], 2);
        if is_within(&reach, limit) && current.is_some() {
        } else if is_within(&core, limit) {
            current = Some(next);
            next = next + 1;
        } else {
            current = None;
        }
        let cluster = match current {
            Some(c) => Value::Number(Number::PosInt(c)),
            None => Value::Null,
        };
        assert(cluster@ == whole[i as int]);
        clusters.push(cluster);
        assert(whole.take(i + 1) =~= whole.take(i as int).push(whole[i as int]));
        i = i + 1;
    }
    assert(whole.take(i as int) =~= whole);
    clusters
}

/// A number as the double that it is read as; anything else as it is.
pub open spec fn as_double(value: Json) -> Json {
    match value {
        Json::Number(n) => Json::Number(Num::Float(num_bits(n) as u64)),
        _ => value,
    }
}

/// A point with its coordinates as doubles.
pub open spec fn as_doubles(point: Json) -> Json {
    match point {
        Json::Array(items) => Json::Array(Seq::new(items.len(), |i: int| as_double(items[i]))),
        _ => point,
    }
}

fn make_doubles(point: &Value) -> (doubles: Value)
    ensures
        doubles@ == as_doubles(point@),
{
    match point {
        Value::Array(items) => {
            let ghost all = jsons(items@);
            let ghost whole = Seq::new(all.len(), |i: int| as_double(all[i]));
            let mut doubles: Vec<Value> = Vec::new();
            let mut i: usize = 0;
            assert(jsons(doubles@) =~= whole.take(0));
            while i < items.len()
                invariant
                    i <= items.len(),
                    all == jsons(items@),
                    whole == Seq::new(all.len(), |i: int| as_double(all[i])),
                    jsons(doubles@) == whole.take(i as int),
                decreases items.len() - i,
            {
                assert(all[i as int] == items@[i as int]@);
                doubles.push(
                    match &items[i] {
                        Value::Number(n) => Value::Number(Number::Float(to_double(n))),
                        other => other.copy(),
                    },
                );
                assert(whole.take(i + 1) =~= whole.take(i as int).push(whole[i as int]));
                i = i + 1;
            }
            assert(whole.take(i as int) =~= whole);
            Value::Array(doubles)
        },
        other => other.copy(),
    }
}

/// A sample with its cluster: the cluster, the position, the point, the core distance and the
/// reachability distance.
pub open spec fn described(samples: Seq<Json>, rows: Seq<Json>, limit: int, i: int) -> Json {
    Json::Array(
        seq![
            cluster_of(samples, limit, i),
            place(samples[i], 0),
            as_doubles(item_at(rows, place(samples[i], 0))),
            place(samples[i], 1),
            place(samples[i], 2),
        ],
    )
}

/// All samples with their clusters, in the order of the analysis.
pub open spec fn all_described(samples: Seq<Json>, rows: Seq<Json>, limit: int) -> Seq<Json> {
    Seq::new(samples.len(), |i: int| described(samples, rows, limit, i))
}

fn describe(samples: &Vec<Value>, rows: &Vec<Value>, limit: i128) -> (result: Vec<Value>)
    ensures
        jsons(result@) == all_described(jsons(samples@), jsons(rows@), limit as int),
{
    let clusters = cut_clusters(samples, limit);
    let ghost all = jsons(samples@);
    assert(jsons(clusters@).len() == clusters@.len());
    let ghost whole = all_described(all, jsons(rows@), limit as int);
    let mut result: Vec<Value> = Vec::new();
    let mut i: usize = 0;
    assert(jsons(result@) =~= whole.take(0));
    while i < samples.len()
        invariant
            i <= samples.len(),
            all == jsons(samples@),
            jsons(clusters@) == clusters_of(all, limit as int),
            clusters@.len() == samples@.len(),
            whole == all_described(all, jsons(rows@), limit as int),
            jsons(result@) == whole.take(i as int),
        decreases samples.len() - i,
    {
        assert(all[i as int] == samples@[i as int]@);
        assert(jsons(clusters@)[i as int] == clusters@[i as int]@);
        let position = item_of(&samples[i], 0);
        let point = make_doubles(&at(rows, &position));
        let parts = vec![clusters[i].copy(), position, point, item_of(&samples[i], 1), item_of(&samples[i], 2)];
        assert(jsons(parts@) =~= whole[i as int]->Array_0);
        result.push(Value::Array(parts));
        assert(whole.take(i + 1) =~= whole.take(i as int).push(whole[i as int]));
        i = i + 1;
    }
    assert(whole.take(i as int) =~= whole);
    result
}

/// One entry of every described sample.
pub open spec fn column_at(samples: Seq<Json>, i: int) -> Json {
    Json::Array(Seq::new(samples.len(), |j: int| place(samples[j], i)))
}

fn make_column(samples: &Vec<Value>, i: usize) -> (column: Value)
    ensures
        column@ == column_at(jsons(samples@), i as int),
{
    let ghost whole = Seq::new(jsons(samples@).len(), |j: int| place(jsons(samples@)[j], i as int));
    let mut column: Vec<Value> = Vec::new();
    let mut j: usize = 0;
    assert(jsons(column@) =~= whole.take(0));
    while j < samples.len()
        invariant
            j <= samples.len(),
            whole == Seq::new(jsons(samples@).len(), |j: int| place(jsons(samples@)[j], i as int)),
            jsons(column@) == whole.take(j as int),
        decreases samples.len() - j,
    {
        assert(jsons(samples@)[j as int] == samples@[j as int]@);
        column.push(item_of(&samples[j], i));
        assert(whole.take(j + 1) =~= whole.take(j as int).push(whole[j as int]));
        j = j + 1;
    }
    assert(whole.take(j as int) =~= whole);
    Value::Array(column)
}

/// The described samples by their positions.
pub open spec fn by_position(samples: Seq<Json>) -> Seq<Json> {
    stable_sorted(samples, |a: Json, b: Json| distance_key(place(a, 1)) > distance_key(place(b, 1)))
}

fn position_key(sample: &Value) -> (key: i128)
    ensures
        key == distance_key(place(sample@, 1)),
{
    match item_of(sample, 1) {
        Value::Number(n) => number_key(&n),
        _ => 0x7ff0_0000_0000_0000,
    }
}

fn sort_by_position(samples: Vec<Value>) -> (sorted: Vec<Value>)
    ensures
        jsons(sorted@) == by_position(jsons(samples@)),
{
    let ghost before = samples@;
    let ghost order = |a: Value, b: Value| distance_key(place(a@, 1)) > distance_key(place(b@, 1));
    let after = |a: &Value, b: &Value| -> (r: bool)
        ensures
            r == (distance_key(place(a@, 1)) > distance_key(place(b@, 1))),
        { position_key(a) > position_key(b) };
    let sorted = stable_sort(samples, &after, Ghost(order));
    proof {
        let view = |v: Value| v@;
        let by_json = |a: Json, b: Json| distance_key(place(a, 1)) > distance_key(place(b, 1));
        crate::order::lemma_sort_map(before, view, order, by_json);
        assert(before.map_values(view) =~= jsons(before));
        assert(sorted@.map_values(view) =~= jsons(sorted@));
    }
    sorted
}

/// The result of an analysis: its samples by position, as columns.
pub open spec fn optics_result(answer: Json, rows: Json, limit: int) -> Json {
    match answer {
        Json::Array(samples) => {
            let sorted = by_position(all_described(samples, items_of(rows), limit));
            Json::Object(
                obj_insert(
                    obj_insert(
                        obj_insert(
                            obj_insert(
                                obj_insert(Seq::empty(), "clusterIndex"@, column_at(sorted, 0)),
                                "index"@,
                                column_at(sorted, 1),
                            ),
                            "embedding"@,
                            column_at(sorted, 2),
                        ),
                        "coreDistance"@,
                        column_at(sorted, 3),
                    ),
                    "reachabilityDistance"@,
                    column_at(sorted, 4),
                ),
            )
        },
        _ => Json::Null,
    }
}

/// The result of an analysis under a configuration.
pub open spec fn optics_of(answer: Json, rows: Json, config: Json) -> Json {
    match strict_settings(config) {
        Some(settings) => optics_result(answer, rows, cluster_tolerance(settings)),
        None => Json::Null,
    }
}

fn list_items(value: &Value) -> (items: Vec<Value>)
    ensures
        jsons(items@) == items_of(value@),
{
    let mut items: Vec<Value> = Vec::new();
    assert(jsons(items@) =~= Seq::<Json>::empty());
    push_items(&mut items, value);
    assert(jsons(items@) =~= items_of(value@));
    items
}

/// The result of an analysis from the answer to it.
pub fn optics(answer: &Value, rows: &Value, config: &Value) -> (result: Value)
    ensures
        result@ == optics_of(answer@, rows@, config@),
{
    match (read_strict(config), answer) {
        (Some(settings), Value::Array(samples)) => {
            let points = list_items(rows);
            let samples = sort_by_position(describe(samples, &points, cluster_key(&settings)));
            let mut result = Object::new();
            result.insert("clusterIndex".to_owned(), make_column(&samples, 0));
            result.insert("index".to_owned(), make_column(&samples, 1));
            result.insert("embedding".to_owned(), make_column(&samples, 2));
            result.insert("coreDistance".to_owned(), make_column(&samples, 3));
            result.insert("reachabilityDistance".to_owned(), make_column(&samples, 4));
            Value::Object(result)
        },
        _ => Value::Null,
    }
}

/// The settings of a configuration under all their names; anything but an object gives none.
pub open spec fn lenient_settings(config: Option<Json>) -> Seq<(Seq<char>, Json)> {
    settings_of(config_members(config), optics_names_of())
}

/// What an analysis under a lenient configuration is given; none where the arguments do not fit.
pub open spec fn optics_value_question(rows: Json, config: Option<Json>) -> Option<Json> {
    if settings_fit(lenient_settings(config), rows) {
        Some(analysis_input(rows, lenient_settings(config)))
    } else {
        None
    }
}

fn read_lenient(config: Option<&Value>) -> (settings: Object)
    ensures
        settings@ == lenient_settings(optional(config)),
{
    let table = optics_names();
    match config {
        Some(Value::Object(members)) => read_settings(Some(members), &table),
        _ => read_settings(None, &table),
    }
}

/// What an analysis under a lenient configuration is given.
pub fn optics_value_ask(rows: &Value, config: Option<&Value>) -> (question: Option<Value>)
    ensures
        question is Some <==> optics_value_question(rows@, optional(config)) is Some,
        question matches Some(q) ==> optics_value_question(rows@, optional(config)) == Some(q@),
{
    let settings = read_lenient(config);
    if check_settings(&settings, rows) {
        Some(make_input(rows, &settings))
    } else {
        None
    }
}

/// A described sample as an object.
pub open spec fn sample_object(sample: Json) -> Json {
    Json::Object(
        obj_insert(
            obj_insert(
                obj_insert(
                    obj_insert(
                        obj_insert(Seq::empty(), "clusterIndex"@, place(sample, 0)),
                        "index"@,
                        place(sample, 1),
                    ),
                    "embedding"@,
                    place(sample, 2),
                ),
                "coreDistance"@,
                place(sample, 3),
            ),
            "reachabilityDistance"@,
            place(sample, 4),
        ),
    )
}

/// The result of an analysis: its samples in their order, as objects.
pub open spec fn optics_value_of(answer: Json, rows: Json, config: Option<Json>) -> Json {
    match answer {
        Json::Array(samples) => {
            let described = all_described(samples, items_of(rows), cluster_tolerance(lenient_settings(config)));
            Json::Array(Seq::new(described.len(), |i: int| sample_object(described[i])))
        },
        _ => Json::Null,
    }
}

fn make_sample(sample: &Value) -> (object: Object)
    ensures
        Json::Object(object@) == sample_object(sample@),
{
    let mut object = Object::new();
    object.insert("clusterIndex".to_owned(), item_of(sample, 0));
    object.insert("index".to_owned(), item_of(sample, 1));
    object.insert("embedding".to_owned(), item_of(sample, 2));
    object.insert("coreDistance".to_owned(), item_of(sample, 3));
    object.insert("reachabilityDistance".to_owned(), item_of(sample, 4));
    object
}

/// The result of an analysis under a lenient configuration, from the answer to it.
pub fn optics_value(answer: &Value, rows: &Value, config: Option<&Value>) -> (result: Value)
    ensures
        result@ == optics_value_of(answer@, rows@, optional(config)),
{
    match answer {
        Value::Array(samples) => {
            let points = list_items(rows);
            let settings = read_lenient(config);
            let described = describe(samples, &points, cluster_key(&settings));
            let ghost all = jsons(described@);
            let ghost whole = Seq::new(all.len(), |i: int| sample_object(all[i]));
            let mut result: Vec<Value> = Vec::new();
            let mut i: usize = 0;
            assert(jsons(result@) =~= whole.take(0));
            while i < described.len()
                invariant
                    i <= described.len(),
                    all == jsons(described@),
                    whole == Seq::new(all.len(), |i: int| sample_object(all[i])),
                    jsons(result@) == whole.take(i as int),
                decreases described.len() - i,
            {
                assert(all[i as int] == described@[i as int]@);
                result.push(Value::Object(make_sample(&described[i])));
                assert(whole.take(i + 1) =~= whole.take(i as int).push(whole[i as int]));
                i = i + 1;
            }
            assert(whole.take(i as int) =~= whole);
            Value::Array(result)
        },
        _ => Value::Null,
    }
}

} // verus!
