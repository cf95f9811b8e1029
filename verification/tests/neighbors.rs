use linfa::prelude::Transformer;
use linfa_clustering::Optics;
use linfa_nn::{distance::L2Dist, CommonNearestNeighbour, NearestNeighbour};
use ndarray::Array2;
use quickql::call::{call, finish, fn_info_for_call, Call, Kernel, Request};
use quickql::functions::common::parse_json;
use quickql::functions::ml::{
    neighbor_count, nn, nn2, nn2_ask, nn_ask, rgb_text, tsne, tsne_ask, umap_ask,
    van_der_corput_base2, DistanceMetric,
};
use quickql::functions::optics::{optics, optics_ask, optics_value, optics_value_ask};
use quickql::functions::settings::{read_settings, tsne_table};
use quickql::value::{Number, Value};

fn json(text: &str) -> Value {
    parse_json(text)
}

fn items(value: &Value) -> &Vec<Value> {
    match value {
        Value::Array(items) => items,
        other => panic!("not an array: {other:?}"),
    }
}

fn member<'a>(value: &'a Value, key: &str) -> &'a Value {
    match value {
        Value::Object(members) => members.get(key).expect("a member"),
        other => panic!("not an object: {other:?}"),
    }
}

fn double(value: &Value) -> f64 {
    match value {
        Value::Number(Number::PosInt(n)) => *n as f64,
        Value::Number(Number::NegInt(n)) => *n as f64,
        Value::Number(Number::Float(real)) => f64::from_bits(real.bits()),
        other => panic!("not a number: {other:?}"),
    }
}

fn matrix(value: &Value) -> Vec<Vec<f64>> {
    items(value).iter().map(|row| items(row).iter().map(double).collect()).collect()
}

fn rows_text(rows: &[Vec<f64>]) -> String {
    format!("{rows:?}")
}

fn distances(input: &Value) -> Value {
    let parts = items(input);
    let (rows, neighbors) = (matrix(&parts[0]), matrix(&parts[1]));
    let all: Vec<Vec<f64>> = rows
        .iter()
        .map(|row| {
            neighbors
                .iter()
                .map(|other| row.iter().zip(other).fold(0.0f64, |sum, (a, b)| sum.hypot(a - b)))
                .collect()
        })
        .collect();
    json(&rows_text(&all))
}

fn exhaustive(rows: &str, neighbors: &str, k: usize) -> Value {
    match nn2_ask(&json(rows), &json(neighbors), k) {
        Some(input) => nn2(&distances(&input), k),
        None => Value::Null,
    }
}

fn array_of(rows: &[Vec<f64>]) -> Array2<f64> {
    Array2::from_shape_vec((rows.len(), rows[0].len()), rows.iter().flatten().copied().collect()).unwrap()
}

fn nearest(input: &Value) -> Value {
    let parts = items(input);
    let (rows, neighbors) = (matrix(&parts[0]), matrix(&parts[1]));
    let k = double(&parts[2]) as usize;
    let (queries, observations) = (array_of(&rows), array_of(&neighbors));
    let index = CommonNearestNeighbour::KdTree.from_batch(&observations, L2Dist).unwrap();
    let mut indices = Vec::new();
    let mut lengths = Vec::new();
    for query in queries.rows() {
        let found = index.k_nearest(query, k).unwrap();
        indices.push(found.iter().map(|(_, position)| *position).collect::<Vec<_>>());
        lengths.push(
            found
                .iter()
                .map(|(point, _)| query.iter().zip(point).map(|(a, b)| (a - b) * (a - b)).sum::<f64>().sqrt())
                .collect::<Vec<_>>(),
        );
    }
    json(&format!("[{indices:?}, {lengths:?}]"))
}

fn search(rows: &str, neighbors: &str, k: usize, additional: Option<&Value>) -> Value {
    match nn_ask(&json(rows), &json(neighbors), k, None, additional) {
        Some((DistanceMetric::L2, input)) => nn(&nearest(&input), additional),
        Some((DistanceMetric::Cosine, _)) => panic!("the metric is L2"),
        None => Value::Null,
    }
}

fn samples(input: &Value) -> Value {
    let parts = items(input);
    let rows = matrix(&parts[0]);
    let mut params = Optics::params(double(&parts[1]) as usize);
    if parts[2] != Value::Null {
        params = params.tolerance(double(&parts[2]));
    }
    let observations = array_of(&rows);
    let analysis = params.transform(observations.view()).unwrap();
    let entry = |distance: &Option<f64>| match distance {
        Some(value) => format!("{value:?}"),
        None => "null".to_owned(),
    };
    let all: Vec<String> = analysis
        .iter()
        .map(|sample: &linfa_clustering::Sample<f64>| {
            format!(
                "[{}, {}, {}]",
                sample.index(),
                entry(sample.core_distance()),
                entry(sample.reachability_distance())
            )
        })
        .collect();
    json(&format!("[{}]", all.join(", ")))
}

#[test]
fn nn2_returns_nearest_neighbors_in_distance_order() {
    let result = exhaustive("[[0.0, 0.0], [10.0, 10.0]]", "[[3.0, 4.0], [0.0, 1.0], [10.0, 9.0]]", 2);

    assert_eq!(member(&result, "index"), &json("[[1, 0], [2, 0]]"));
    assert_eq!(items(member(&result, "distance"))[0], json("[1.0, 5.0]"));
    assert_eq!(items(&items(member(&result, "distance"))[1])[0], json("1.0"));
}

#[test]
fn nn2_caps_k_and_breaks_distance_ties_by_index() {
    let result = exhaustive("[[0.0]]", "[[1.0], [-1.0], [2.0]]", 10);

    assert_eq!(member(&result, "index"), &json("[[0, 1, 2]]"));
    assert_eq!(member(&result, "distance"), &json("[[1.0, 1.0, 2.0]]"));
}

#[test]
fn nn2_rejects_invalid_input() {
    assert_eq!(exhaustive("[]", "[[1.0]]", 1), Value::Null);
    assert_eq!(exhaustive("[[1.0]]", "[[1.0]]", 0), Value::Null);
    assert_eq!(exhaustive("[[1.0, 2.0]]", "[[1.0]]", 1), Value::Null);
    assert_eq!(exhaustive("[[null]]", "[[1.0]]", 1), Value::Null);
}

#[test]
fn nn2_puts_missing_distances_last() {
    assert_eq!(
        nn2(&json("[[null, 2.0, 1.0]]"), 3),
        json(r#"{"distance": [[1.0, 2.0, null]], "index": [[2, 1, 0]]}"#)
    );
}

#[test]
fn parallel_nn_preserves_query_order() {
    let rows: Vec<Vec<f64>> = (0..64).map(|value| vec![value as f64]).collect();
    let text = rows_text(&rows);
    let expected: Vec<Value> = (0..64).map(|value| json(&format!("[{value}]"))).collect();

    let result = search(&text, &text, 1, None);

    assert_eq!(member(&result, "index"), &Value::Array(expected));
    assert_eq!(member(&result, "distance"), &json(&format!("{:?}", vec![vec![0.0]; 64])));
}

#[test]
fn nn_includes_additional_values_for_each_neighbor() {
    let additional = json(r#"["two", "zero", "ten"]"#);
    let result = search("[[0.0], [9.0]]", "[[2.0], [0.0], [10.0]]", 2, Some(&additional));

    assert_eq!(member(&result, "index"), &json("[[1, 0], [2, 0]]"));
    assert_eq!(member(&result, "additional"), &json(r#"[["zero", "two"], ["ten", "two"]]"#));
}

#[test]
fn nn_rejects_additional_values_with_a_different_length() {
    let additional = json(r#"["only one"]"#);
    assert_eq!(search("[[0.0]]", "[[0.0], [1.0]]", 1, Some(&additional)), Value::Null);
}

#[test]
fn distance_metric_accepts_supported_names_and_rejects_unknown_names() {
    assert!(matches!(DistanceMetric::parse(None), Some(DistanceMetric::L2)));
    assert!(matches!(
        DistanceMetric::parse(Some(&json("\"Euclidean\""))),
        Some(DistanceMetric::L2)
    ));
    assert!(matches!(
        DistanceMetric::parse(Some(&json("\"COSINE\""))),
        Some(DistanceMetric::Cosine)
    ));
    assert!(DistanceMetric::parse(Some(&json("\"manhattan\""))).is_none());
}

#[test]
fn nn_call_names_the_metric_and_the_input() {
    let arguments = vec![json("[[10.0, 0.0]]"), json("[[1.0, 0.0], [9.0, 1.0]]"), json("1"), json("\"cosine\"")];
    let function = fn_info_for_call("nn", 4).unwrap();
    assert_eq!(
        call(function, &arguments),
        Call::Ask(Request::Kernel(
            Kernel::NearestCosine,
            json("[[[10.0, 0.0]], [[1.0, 0.0], [9.0, 1.0]], 1]")
        ))
    );
    assert_eq!(
        finish(function, &arguments, &json("[[[0]], [[0.0]]]")),
        json(r#"{"distance": [[0.0]], "index": [[0]]}"#)
    );
    assert_eq!(finish(function, &arguments, &Value::Null), Value::Null);
}

#[test]
fn optics_value_returns_ordered_sample_analysis() {
    let rows = json("[[0.0, 0.0], [0.0, 0.1], [10.0, 10.0]]");
    let config = json(r#"{"minPoints": 2, "tolerance": 20.0, "clusterTolerance": 1.0}"#);
    let input = optics_value_ask(&rows, Some(&config)).expect("valid input");
    let result = optics_value(&samples(&input), &rows, Some(&config));

    let rows = items(&result);
    assert_eq!(rows.len(), 3);
    assert!(rows.iter().all(|row| matches!(member(row, "index"), Value::Number(_))));
    for key in ["coreDistance", "reachabilityDistance"] {
        assert!(rows.iter().all(|row| matches!(row, Value::Object(members) if members.get(key).is_some())));
    }
    assert!(rows.iter().any(|row| member(row, "clusterIndex") == &json("0")));
    assert!(rows.iter().any(|row| member(row, "clusterIndex") == &Value::Null));
}

#[test]
fn optics_value_rejects_invalid_input() {
    assert!(optics_value_ask(&json("[[1.0]]"), None).is_none());
    assert!(optics_value_ask(&json("[[1.0], [2.0]]"), Some(&json(r#"{"minPoints": 3}"#))).is_none());
    assert!(optics_value_ask(&json("[[1.0], [2.0]]"), Some(&json(r#"{"clusterTolerance": 0.0}"#))).is_none());
    assert!(optics_value_ask(&json("[[1.0], [2.0]]"), Some(&json(r#"{"tolerance": 0}"#))).is_none());
    assert!(optics_value_ask(&json("[[1.0], [2.0]]"), Some(&json(r#"{"clusterEps": -1}"#))).is_none());
    assert!(optics_value_ask(&json("[[1.0], [2.0, 3.0]]"), None).is_none());
    assert_eq!(optics_value(&Value::Null, &json("[]"), None), Value::Null);
}

#[test]
fn optics_cuts_clusters_and_sorts_samples() {
    let rows = json("[[0], [50.0], [0.5], [51], [99.0]]");
    let config = json(r#"{"min_points": 2, "cluster_eps": 2.0}"#);
    assert_eq!(
        optics_ask(&rows, &config),
        Some(json("[[[0], [50.0], [0.5], [51], [99.0]], 2, null]"))
    );
    let answer = json("[[0, 0.5, null], [2, 0.5, 0.5], [1, 1.0, 49.5], [3, 1.0, 1.0], [4, 48.0, 48.0]]");
    assert_eq!(
        optics(&answer, &rows, &config),
        json(
            r#"{
                "clusterIndex": [0, 1, 0, 1, null],
                "index": [0, 1, 2, 3, 4],
                "embedding": [[0.0], [50.0], [0.5], [51.0], [99.0]],
                "coreDistance": [0.5, 1.0, 0.5, 1.0, 48.0],
                "reachabilityDistance": [null, 49.5, 0.5, 1.0, 48.0]
            }"#
        )
    );
    assert!(optics_ask(&rows, &json(r#"{"min_points": "2"}"#)).is_none());
    assert!(optics_ask(&rows, &json(r#"{"min_points": 6}"#)).is_none());
    assert!(optics_ask(&rows, &json(r#"{"eps": 0}"#)).is_none());
    assert!(optics_ask(&rows, &Value::Null).is_none());
}

#[test]
fn embeddings_are_given_rows_and_settings() {
    let rows = json("[[1.0], [2.0]]");
    assert_eq!(
        tsne_ask(&rows, &json(r#"{"seed": 7, "perplexity": 2}"#)),
        Some(json(
            r#"[[[1.0], [2.0]], {"approx": null, "n_dim": null, "perplexity": 2, "seed": 7, "verbose": null}]"#
        ))
    );
    assert!(tsne_ask(&rows, &json(r#"{"seed": -7}"#)).is_none());
    assert!(tsne_ask(&rows, &Value::Null).is_none());
    assert!(tsne_ask(&json("[[1.0]]"), &json("{}")).is_none());
    assert!(umap_ask(&json("[[1.0], []]"), None).is_none());
    let input = umap_ask(&rows, Some(&json(r#"{"n_neighbors": 3, "min_dist": 0.25}"#))).unwrap();
    assert_eq!(member(&items(&input)[1], "k"), &json("3"));
    assert_eq!(member(&items(&input)[1], "minDist"), &json("0.25"));
    assert_eq!(member(&items(&input)[1], "spread"), &Value::Null);
    assert_eq!(tsne(&json("[[1, 2], [3, 4]]"), 2), json("[[1, 3], [2, 4]]"));
    assert_eq!(tsne(&Value::Null, 2), Value::Null);
}

#[test]
fn settings_are_read_under_any_name_and_kept_in_range() {
    let config = json(
        r#"{"perplexity": -1, "n_dim": 3, "dimensions": 4, "learning_rate": 10, "lr": "x", "theta": 0, "randomized": true}"#,
    );
    let settings = match &config {
        Value::Object(members) => Value::Object(read_settings(Some(members), &tsne_table())),
        _ => Value::Null,
    };
    assert_eq!(member(&settings, "perplexity"), &Value::Null);
    assert_eq!(member(&settings, "nDim"), &json("3"));
    assert_eq!(member(&settings, "lr"), &json("10"));
    assert_eq!(member(&settings, "theta"), &json("0"));
    assert_eq!(member(&settings, "randomisedInit"), &json("true"));
    assert_eq!(member(&settings, "nEpochs"), &Value::Null);
}

#[test]
fn neighbor_counts_stay_between_one_and_the_other_rows() {
    assert_eq!(neighbor_count(15, 100), 15);
    assert_eq!(neighbor_count(15, 10), 9);
    assert_eq!(neighbor_count(0, 10), 1);
    assert_eq!(neighbor_count(5, 0), 1);
}

#[test]
fn colors_come_from_mirrored_digits() {
    assert_eq!(van_der_corput_base2(1), (1, 1));
    assert_eq!(van_der_corput_base2(2), (1, 2));
    assert_eq!(van_der_corput_base2(3), (3, 2));
    assert_eq!(van_der_corput_base2(6), (3, 3));
    assert_eq!(van_der_corput_base2(u64::MAX), (u64::MAX, 64));
    assert_eq!(rgb_text(51, 255, 7), "rgb(51, 255, 7)");
    let function = fn_info_for_call("COLOR", 1).unwrap();
    let arguments = vec![json("0")];
    assert_eq!(call(function, &arguments), Call::Ask(Request::Kernel(Kernel::Color, json("[1, 1]"))));
    assert_eq!(finish(function, &arguments, &json("[51, 255, 255]")), json("\"rgb(51, 255, 255)\""));
}
