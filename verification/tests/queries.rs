use quickql::call::{Kernel, Method};
use quickql::descriptor::{columns_from_descriptor, KeyDescriptor, QueryResult};
use quickql::eval::Evaluated;
use quickql::files::json_output_path;
use quickql::functions::common::parse_json;
use quickql::grouping::{group_key, group_rows, key_output};
use quickql::json::json_text;
use quickql::lexer::read_words;
use quickql::parser::{parse_query, parse_query_lenient};
use quickql::pipeline::{apply_limit, apply_map_many, apply_sort_by, map_parallelism, subquery_name};
use quickql::query::{
    CaluculatedValue, MapExpr, MapMany, MapStep, Query, SortDirection, SortKey, SubQuery,
};
use quickql::run::{Action, Event, HttpRequest, Run};
use quickql::stream::{stream_query_jsonl, StreamMessage};
use quickql::value::{Number, Object, Value};
use std::collections::HashMap;

fn json(text: &str) -> Value {
    parse_json(text)
}

fn list(text: &str) -> Vec<Value> {
    match parse_json(text) {
        Value::Array(items) => items,
        other => panic!("not an array: {other:?}"),
    }
}

fn names(parts: &[&str]) -> Vec<String> {
    parts.iter().map(|part| part.to_string()).collect()
}

fn double(value: &Value) -> f64 {
    match value {
        Value::Number(Number::PosInt(n)) => *n as f64,
        Value::Number(Number::NegInt(n)) => *n as f64,
        Value::Number(Number::Float(real)) => f64::from_bits(real.bits()),
        other => panic!("not a number: {other:?}"),
    }
}

fn matrix(value: &Value) -> Vec<Vec<f64>> {
    match value {
        Value::Array(rows) => rows
            .iter()
            .map(|row| match row {
                Value::Array(items) => items.iter().map(double).collect(),
                other => panic!("not a row: {other:?}"),
            })
            .collect(),
        other => panic!("not a matrix: {other:?}"),
    }
}

fn cosine_distance(a: &[f64], b: &[f64]) -> f64 {
    let product: f64 = a.iter().zip(b).map(|(x, y)| x * y).sum();
    let norm = |v: &[f64]| v.iter().map(|x| x * x).sum::<f64>().sqrt();
    1.0 - product / (norm(a) * norm(b))
}

fn compute(kernel: Kernel, input: &Value) -> Value {
    match (kernel, input) {
        (Kernel::Sum, Value::Array(addends)) => {
            let sum: f64 = addends
                .iter()
                .map(|addend| match addend {
                    Value::String(text) => text.parse::<f64>().unwrap(),
                    other => panic!("not a text: {other:?}"),
                })
                .sum();
            json(&format!("{sum:?}"))
        }
        (Kernel::Subtract, Value::Array(pair)) => json(&format!("{:?}", double(&pair[0]) - double(&pair[1]))),
        (Kernel::L2, Value::Array(values)) => {
            json(&format!("{:?}", values.iter().map(|v| double(v) * double(v)).sum::<f64>().sqrt()))
        }
        (Kernel::Today, Value::Null) => json("\"2026-03-24\""),
        (Kernel::NearestCosine, Value::Array(parts)) => {
            let (rows, neighbors) = (matrix(&parts[0]), matrix(&parts[1]));
            assert_eq!(double(&parts[2]), 1.0);
            let found: Vec<(usize, f64)> = rows
                .iter()
                .map(|row| {
                    let distances = neighbors.iter().map(|neighbor| cosine_distance(row, neighbor)).enumerate();
                    distances.min_by(|a, b| a.1.total_cmp(&b.1)).unwrap()
                })
                .collect();
            let indices: Vec<[usize; 1]> = found.iter().map(|(index, _)| [*index]).collect();
            let distances: Vec<[f64; 1]> = found.iter().map(|(_, distance)| [*distance]).collect();
            json(&format!("[{indices:?}, {distances:?}]"))
        }
        other => panic!("not computed here: {other:?}"),
    }
}

struct Outside {
    files: HashMap<String, String>,
    responses: HashMap<String, Vec<String>>,
    secrets: HashMap<String, String>,
    requests: Vec<HttpRequest>,
}

impl Outside {
    fn new(files: &[(&str, &str)]) -> Self {
        Outside {
            files: files.iter().map(|(path, text)| (path.to_string(), text.to_string())).collect(),
            responses: HashMap::new(),
            secrets: HashMap::new(),
            requests: Vec::new(),
        }
    }

    fn drive(&mut self, query: Query, path: &str) -> Result<Vec<Value>, String> {
        let mut run = Run::start(query, path.to_owned(), Some(path.to_owned()));
        let mut event = Event::Continue;
        loop {
            let (next, action) = run.advance(event);
            run = next;
            event = match action {
                Action::Work => Event::Continue,
                Action::Compute(kernel, input) => Event::Answer(compute(kernel, &input)),
                Action::Secret(name) => Event::Answer(match self.secrets.get(&name) {
                    Some(secret) => Value::String(secret.clone()),
                    None => Value::Null,
                }),
                Action::ReadText(path) => Event::Text(self.files.get(&path).cloned()),
                Action::ReadBytes(path) => Event::Bytes(self.files.get(&path).map(|text| text.clone().into_bytes())),
                Action::Canonicalize(path) => Event::Canonical(self.files.get(&path).map(|_| path.clone())),
                Action::Http(request) => {
                    let response = self.responses.get_mut(&request.uri).and_then(|pages| {
                        if pages.is_empty() {
                            None
                        } else {
                            Some(pages.remove(0))
                        }
                    });
                    self.requests.push(request);
                    Event::Text(response)
                }
                Action::Finished(rows) => return Ok(rows),
                Action::Failed(error) => return Err(format!("{}: {}", error.column, json_text(&error.value))),
                Action::Unexpected => panic!("an event did not fit"),
            };
        }
    }

    fn run(&mut self, text: &str) -> Vec<Value> {
        self.drive(parse_query(text).unwrap(), "query.ql").unwrap()
    }
}

fn rows_of(text: &str) -> Vec<Value> {
    Outside::new(&[]).run(text)
}

fn value_of(value: CaluculatedValue, path: &str, outside: &mut Outside) -> Value {
    let query = Query {
        steps: vec![
            SubQuery::Source(vec![CaluculatedValue::Static(json("[{}]"))]),
            SubQuery::MapRows(MapStep {
                config: Value::Object(Object::new()),
                mapping: vec![MapExpr::Specific { column: names(&["$"]), value }],
            }),
        ],
    };
    outside.drive(query, path).unwrap().remove(0)
}

fn call_of(function: &str, parameters: Vec<Value>) -> CaluculatedValue {
    CaluculatedValue::FunctionCall {
        function: function.to_string(),
        parameters: parameters.into_iter().map(CaluculatedValue::Static).collect(),
    }
}

#[test]
fn json_output_path_replaces_query_extension() {
    assert_eq!(
        json_output_path("queries/ks_entries_basic_nomic2_post.ql"),
        "queries/ks_entries_basic_nomic2_post.json"
    );
}

#[test]
fn writes_query_rows_as_json_array() {
    let mut outside = Outside::new(&[("work/example.ql", "SOURCE [{id: 1}, {id: 2}]\nMAP id")]);
    let text = outside.files["work/example.ql"].clone();
    let rows = outside.drive(parse_query(&text).unwrap(), "work/example.ql").unwrap();

    assert_eq!(json_output_path("work/example.ql"), "work/example.json");
    assert_eq!(json(&json_text(&Value::Array(rows))), json(r#"[{"id": 1}, {"id": 2}]"#));
}

fn primitive_map_many_input() -> (Vec<Value>, MapMany) {
    (
        list(r#"[{"day": "2026-07-14", "result": {"numbers": [1, 2]}}]"#),
        MapMany { field: "result.numbers".to_string(), include_columns: names(&["day"]) },
    )
}

fn assert_primitive_values_use_default_path(rows: Vec<Value>) {
    assert_eq!(
        rows,
        list(
            r#"[
                {"result": {"numbers": 1}, "day": "2026-07-14"},
                {"result": {"numbers": 2}, "day": "2026-07-14"}
            ]"#
        )
    );
}

#[test]
fn map_many_wraps_primitive_values_at_default_path_when_including_columns() {
    let (rows, map_many) = primitive_map_many_input();

    assert_primitive_values_use_default_path(apply_map_many(&rows, &map_many).unwrap());
}

#[test]
fn streaming_map_many_wraps_primitive_values_at_default_path_when_including_columns() {
    let (rows, map_many) = primitive_map_many_input();
    let query = Query {
        steps: vec![
            SubQuery::Source(vec![CaluculatedValue::Static(Value::Array(rows))]),
            SubQuery::MapMany(map_many),
        ],
    };

    assert_primitive_values_use_default_path(Outside::new(&[]).drive(query, "query.ql").unwrap());
}

fn progress(substep: usize, total_substeps: usize, name: &str, completed: u128, total: u128) -> StreamMessage {
    StreamMessage::Progress { substep, total_substeps, substep_name: name.to_owned(), completed, total }
}

#[test]
fn streaming_nn_reports_function_progress() {
    let query = Query {
        steps: vec![
            SubQuery::Source(vec![CaluculatedValue::Static(json(
                r#"[{"rows": [[10.0, 0.0]], "neighbors": [[1.0, 0.0], [9.0, 1.0]]}]"#,
            ))]),
            SubQuery::MapRows(MapStep {
                config: Value::Object(Object::new()),
                mapping: vec![MapExpr::Specific {
                    column: names(&["nearest"]),
                    value: CaluculatedValue::FunctionCall {
                        function: "nn".to_string(),
                        parameters: vec![
                            CaluculatedValue::Reference(names(&["rows"])),
                            CaluculatedValue::Reference(names(&["neighbors"])),
                            CaluculatedValue::Static(json("1")),
                            CaluculatedValue::Static(json("\"cosine\"")),
                        ],
                    },
                }],
            }),
            SubQuery::Limit(10),
        ],
    };
    let mut run = Run::start(query, "query.ql".to_owned(), None);
    let mut event = Event::Continue;
    let mut messages = Vec::new();
    let rows = loop {
        let (next, action) = run.advance(event);
        run = next;
        event = match action {
            Action::Work => Event::Continue,
            Action::Compute(kernel, input) => {
                messages.push(run.progress());
                messages.push(run.function_progress("NN", 1, 1));
                Event::Answer(compute(kernel, &input))
            }
            Action::Finished(rows) => break rows,
            other => panic!("not wanted here: {other:?}"),
        };
    };

    assert_eq!(rows, list(r#"[{"nearest": {"index": [[0]], "distance": [[0.0]]}}]"#));
    assert_eq!(messages, [Some(progress(2, 3, "Map", 0, 1)), Some(progress(2, 3, "NN", 1, 1))]);
}

#[test]
fn functions_report_progress_as_a_part_of_one_row() {
    let at_work = |query: Query| {
        let mut run = Run::start(query, "query.ql".to_owned(), None);
        let mut asked = 0;
        let mut event = Event::Continue;
        loop {
            let (next, action) = run.advance(event);
            run = next;
            event = match action {
                Action::Work => Event::Continue,
                Action::Compute(_, _) => {
                    asked += 1;
                    if asked == 2 {
                        return run;
                    }
                    Event::Answer(Value::Null)
                }
                other => panic!("not wanted here: {other:?}"),
            };
        }
    };
    let run = at_work(parse_query("SOURCE [{a: 1}, {a: 2}, {a: 3}, {a: 4}]\nMAP b = TODAY()").unwrap());
    assert_eq!(run.progress(), Some(progress(2, 2, "Map", 1, 4)));
    assert_eq!(run.function_progress("F", 0, 5), Some(progress(2, 2, "F", 5, 20)));
    assert_eq!(run.function_progress("F", 3, 5), Some(progress(2, 2, "F", 8, 20)));
    assert_eq!(run.function_progress("F", 9, 5), Some(progress(2, 2, "F", 10, 20)));
    assert_eq!(run.function_progress("F", 0, 0), None);
    assert_eq!(
        run.function_progress("F", usize::MAX, usize::MAX),
        Some(progress(2, 2, "F", 2 * usize::MAX as u128, 4 * usize::MAX as u128))
    );
    let filtering = at_work(parse_query("SOURCE [{a: 1}, {a: 2}]\nFILTER TODAY()").unwrap());
    assert_eq!(filtering.progress(), Some(progress(2, 2, "Filter", 1, 2)));
    assert_eq!(filtering.function_progress("F", 1, 2), None);
    let mut query = parse_query("SOURCE [{a: 1}, {a: 2}]\nMAP b = TODAY()").unwrap();
    if let SubQuery::MapRows(map) = &mut query.steps[1] {
        map.config = json(r#"{"parallel": 2}"#);
    }
    let several_at_once = at_work(query);
    assert_eq!(several_at_once.progress(), Some(progress(2, 2, "Map", 1, 2)));
    assert_eq!(several_at_once.function_progress("F", 1, 2), None);
}

#[test]
fn progress_goes_through_the_steps_in_order() {
    let text = "SOURCE [{a: 1}, {a: 2}], [{a: 3}]\nMAP *, b = TODAY()\nFILTER a\nLIMIT 2";
    let mut run = Run::start(parse_query(text).unwrap(), "query.ql".to_owned(), None);
    let mut seen = vec![run.progress().unwrap()];
    let mut event = Event::Continue;
    loop {
        let (next, action) = run.advance(event);
        run = next;
        if let Some(message) = run.progress() {
            if seen.last() != Some(&message) {
                seen.push(message);
            }
        }
        event = match action {
            Action::Work => Event::Continue,
            Action::Compute(kernel, input) => Event::Answer(compute(kernel, &input)),
            Action::Finished(rows) => {
                assert_eq!(rows.len(), 2);
                break;
            }
            other => panic!("not wanted here: {other:?}"),
        };
    }
    let mut expected = Vec::new();
    for (step, name, total) in [(1, "Source", 2), (2, "Map", 3), (3, "Filter", 3), (4, "Limit", 0)] {
        for completed in 0..=total {
            expected.push(progress(step, 4, name, completed, total));
        }
    }
    assert_eq!(seen, expected);
}

#[test]
fn stream_query_jsonl_accepts_provider_backed_query_file() {
    let path = "memory-query.ql";
    let mut provider = Outside::new(&[(path, "SOURCE [{id: 1}, {id: 2}]\nMAP id")]);
    let text = provider.files[path].clone();
    let rows = provider.drive(parse_query(&text).unwrap(), path).unwrap();

    let output = stream_query_jsonl(&QueryResult::new(rows), path, 100);

    assert!(output.iter().any(|message| matches!(message, StreamMessage::Meta { .. })));
    assert!(output.iter().any(|message| matches!(message, StreamMessage::Batch { .. })));
    assert!(output.contains(&StreamMessage::Done { row_count: 2 }));
}

#[test]
fn source_functions_load_with_meta_parameters() {
    let mut outside = Outside::new(&[("work/rows.json", r#"[{"id":1}]"#)]);
    for function in ["GET", "OPEN", "POST", "PUT"] {
        let value = call_of(function, vec![json("\"rows.json\"")]);
        assert_eq!(value_of(value, "work/query.ql", &mut outside), json(r#"[{"id": 1}]"#));
    }
}

#[test]
fn open_accepts_source_config_object() {
    let mut outside = Outside::new(&[("work/rows.json", r#"[{"id":2}]"#)]);
    let value = call_of("OPEN", vec![json(r#"{"src": "rows.json"}"#)]);
    assert_eq!(value_of(value, "work/query.ql", &mut outside), json(r#"[{"id": 2}]"#));
}

#[test]
fn multi_argument_get_still_reads_fields() {
    let value = call_of("GET", vec![json(r#"{"nested": {"id": 1}}"#), json("\"nested\""), json("\"id\"")]);

    assert_eq!(value.caluculate(&Value::Null, &Vec::new(), 0), Evaluated::Done(json("1"), 0));
}

#[test]
fn parses_map_star_as_all_columns() {
    let query = parse_query("MAP *").unwrap();

    assert_eq!(
        query,
        Query {
            steps: vec![SubQuery::MapRows(MapStep {
                config: Value::Object(Object::new()),
                mapping: vec![MapExpr::All]
            })]
        }
    );
}

#[test]
fn parses_function_call_inside_json_object() {
    let query = parse_query("MAP payload = { token: BASE64(name) }").unwrap();

    assert_eq!(
        query,
        Query {
            steps: vec![SubQuery::MapRows(MapStep {
                config: Value::Object(Object::new()),
                mapping: vec![MapExpr::Specific {
                    column: names(&["payload"]),
                    value: CaluculatedValue::Object(vec![(
                        "token".to_string(),
                        CaluculatedValue::FunctionCall {
                            function: "BASE64".to_string(),
                            parameters: vec![CaluculatedValue::Reference(names(&["name"]))],
                        },
                    )]),
                }],
            })]
        }
    );
}

#[test]
fn words_are_split_outside_quotes() {
    assert!(read_words("SOURCE 'a b' \"it's\"").is_some());
    assert!(read_words("'never closed").is_none());
    assert_eq!(rows_of("SOURCE [{text: 'it\\'s', other: \"a\\b\"}]"), list(r#"[{"text": "it's", "other": "a\\b"}]"#));
}

#[test]
fn comments_are_ignored() {
    assert_eq!(
        rows_of("-- first\nSOURCE [ -- rows\n  {a: '--'} -- one\n]\n\n-- between\nMAP a -- last"),
        list(r#"[{"a": "--"}]"#)
    );
}

#[test]
fn values_are_read_in_all_their_forms() {
    assert_eq!(
        rows_of("SOURCE [{a: TRUE, b: False, c: -7, d: -0.001, e: \"say \\\"hi\\\"\", 'content-type': [], g: {}, h: ['x', [1]]}]"),
        list(r#"[{"a": true, "b": false, "c": -7, "d": -0.001, "e": "say \"hi\"", "content-type": [], "g": {}, "h": ["x", [1]]}]"#)
    );
    assert_eq!(
        rows_of("SOURCE [{n: 'a', t: '2024-01-02T03:04'}]\nMAP label = CONCAT(n, ' (', GETDATE(t), ')')"),
        list(r#"[{"label": "a (2024-01-02)"}]"#)
    );
}

#[test]
fn unreadable_queries_are_refused() {
    for text in ["FETCH x", "SOURCE", "MAP a =", "LIMIT x", "LIMIT -1", "SORT_BY", "GROUP_BY", "SOURCE [1", "SOURCE 'a", "MAP a = f("] {
        assert!(parse_query(text).is_err(), "{text}");
    }
    assert_eq!(parse_query("").unwrap(), Query { steps: Vec::new() });
}

#[test]
fn keywords_ignore_case() {
    assert_eq!(
        rows_of("source [{a: 2}, {a: 1}]\nsort_by a asc\nlimit 1"),
        list(r#"[{"a": 1}]"#)
    );
}

#[test]
fn sources_are_found_in_unfinished_queries() {
    assert_eq!(
        parse_query_lenient("SOURCE 'a.json', \"b.csv\"\nMAP x = (("),
        names(&["a.json", "b.csv"])
    );
    assert_eq!(parse_query_lenient("MAP x = 1"), names(&[]));
}

#[test]
fn steps_run_from_top_to_bottom() {
    let text = "SOURCE [{n: 3, k: 'a'}, {n: 1, k: 'b'}, {n: 2, k: 'a'}]\nSORT_BY n\nMAP m = SUM(n, 1), k\nFILTER EQ(k, 'a')\nLIMIT 1";
    assert_eq!(rows_of(text), list(r#"[{"m": 3, "k": "a"}]"#));
}

#[test]
fn nested_columns_are_made_and_read() {
    assert_eq!(
        rows_of("SOURCE [{a: {b: 1}}]\nMAP x.y = a.b, x.z = $.a, w = missing.field"),
        list(r#"[{"x": {"y": 1, "z": {"b": 1}}, "w": null}]"#)
    );
    assert_eq!(rows_of("SOURCE [{a: 1}]\nMAP *, b = 2"), list(r#"[{"a": 1, "b": 2}]"#));
}

#[test]
fn rows_are_filtered_by_truth() {
    assert_eq!(
        rows_of("SOURCE [{a: 0}, {a: 1}, {a: ''}, {a: 'x'}, {a: []}, {b: 1}]\nFILTER a"),
        list(r#"[{"a": 1}, {"a": "x"}]"#)
    );
}

#[test]
fn arrays_are_spread_into_rows() {
    assert_eq!(
        rows_of("SOURCE [{d: 1, items: [{v: 1}, {v: 2}]}, {d: 2, items: null}, {d: 3, items: [{v: 3}]}]\nMAP_MANY items"),
        list(r#"[{"v": 1}, {"v": 2}, {"v": 3}]"#)
    );
    let carrying = MapMany { field: "items".to_owned(), include_columns: names(&["d"]) };
    assert_eq!(
        apply_map_many(&list(r#"[{"d": 1, "items": [{"v": 1, "d": 9}, {"v": 2}]}, {"d": 2}]"#), &carrying),
        Ok(list(r#"[{"v": 1, "d": 1}, {"v": 2, "d": 1}]"#))
    );
    assert_eq!(rows_of("SOURCE [{items: [1, 2]}]\nMAP_MANY items"), list("[1, 2]"));
    let query = parse_query("SOURCE [{items: 5}]\nMAP_MANY items").unwrap();
    assert_eq!(Outside::new(&[]).drive(query, "query.ql"), Err("items: 5".to_owned()));
    let error = apply_map_many(&list(r#"[{"a": "x"}]"#), &MapMany { field: "a".to_owned(), include_columns: Vec::new() });
    assert_eq!(error.unwrap_err().column, "a");
}

#[test]
fn rows_are_grouped_in_the_order_of_their_first_rows() {
    assert_eq!(
        rows_of("SOURCE [{k: 'b', v: 1}, {k: 'a', v: 2}, {k: 'b', v: 3}]\nGROUP_BY k MAP n = COUNT(v), total = SUM(v)"),
        list(r#"[{"k": "b", "n": 2, "total": 4}, {"k": "a", "n": 1, "total": 2}]"#)
    );
    assert_eq!(rows_of("SOURCE [{k: 1}, {k: 2}, {k: 1}]\nGROUP_BY k"), list(r#"[{"k": 1}, {"k": 2}]"#));
    assert_eq!(rows_of("SOURCE [{k: 1}, {k: 2}]\nGROUP_BY * MAP n = COUNT(k)"), list(r#"[{"n": 2}]"#));
    let rows = list(r#"[{"k": 1, "v": "x"}, {"k": "1", "v": "y"}, {"k": 1, "v": "z"}, {"v": "w"}]"#);
    let groups = group_rows(&rows, &names(&["k"]));
    assert_eq!(groups.len(), 3);
    assert_eq!(group_key(&list(r#"[1, "1", null]"#)), "n\u{1}1\u{2}s\u{1}1\u{2}N\u{1}\u{2}");
    assert_eq!(group_key(&list("[true, [1]]")), "b\u{1}true\u{2}j\u{1}[1]\u{2}");
    assert_eq!(group_key(&[Value::String("x\u{1}y\u{2}z".to_owned())].into()), "s\u{1}x\u{1}1y\u{1}2z\u{2}");
    assert_eq!(Value::Object(key_output(&names(&["a.b", "c"]), &list("[1, 2]"))), json(r#"{"a": {"b": 1}, "c": 2}"#));
}

#[test]
fn rows_with_different_keys_are_in_different_groups() {
    let row = |a: &str, b: &str| {
        let mut members = Object::new();
        members.insert("a".to_owned(), Value::String(a.to_owned()));
        members.insert("b".to_owned(), Value::String(b.to_owned()));
        Value::Object(members)
    };
    let rows = vec![
        row("x\u{2}s\u{1}y", "z"),
        row("x", "y\u{2}s\u{1}z"),
        row("x\u{1}1", ""),
        row("x\u{1}", ""),
        row("x\u{2}s\u{1}y", "z"),
    ];
    let groups = group_rows(&rows, &names(&["a", "b"]));
    assert_eq!(groups.len(), 4);
    assert_eq!(groups[0].rows, [row("x\u{2}s\u{1}y", "z"), row("x\u{2}s\u{1}y", "z")]);
    assert_eq!(groups[1].rows, [row("x", "y\u{2}s\u{1}z")]);
}

#[test]
fn rows_are_sorted_by_columns_in_turn() {
    let keys = vec![
        SortKey { column: "a".to_owned(), direction: SortDirection::Asc },
        SortKey { column: "b.c".to_owned(), direction: SortDirection::Desc },
    ];
    let rows = list(
        r#"[{"a": 2, "i": 0}, {"a": 1, "b": {"c": 1}, "i": 1}, {"a": 1, "b": {"c": 2}, "i": 2}, {"i": 3}, {"a": 1, "b": {"c": 2}, "i": 4}]"#,
    );
    let sorted = apply_sort_by(rows, &keys);
    let order: Vec<f64> = sorted
        .iter()
        .map(|row| match row {
            Value::Object(members) => double(members.get("i").unwrap()),
            other => panic!("not a row: {other:?}"),
        })
        .collect();
    assert_eq!(order, [3.0, 2.0, 4.0, 1.0, 0.0]);
    assert_eq!(apply_limit(list("[1, 2, 3]"), 2), list("[1, 2]"));
    assert_eq!(apply_limit(list("[1, 2, 3]"), 9), list("[1, 2, 3]"));
}

#[test]
fn map_steps_say_how_many_rows_run_at_once() {
    assert_eq!(map_parallelism(&json("{}"), 10), None);
    assert_eq!(map_parallelism(&json(r#"{"parallel": 4}"#), 10), Some(4));
    assert_eq!(map_parallelism(&json(r#"{"parallel": 40}"#), 10), Some(10));
}

#[test]
fn queries_load_files_and_other_queries() {
    let mut outside = Outside::new(&[
        ("work/rows.json", r#"[{"id": 1}, {"id": 2}]"#),
        ("work/table.csv", "id;name\n3;c\n"),
        ("work/inner.ql", "SOURCE OPEN('rows.json')\nLIMIT 1"),
        ("work/self.ql", "SOURCE OPEN('self.ql')"),
        ("work/a.ql", "SOURCE OPEN('b.ql'), [{a: 1}]"),
        ("work/b.ql", "SOURCE OPEN('a.ql'), [{b: 1}]"),
        ("work/broken.ql", "FETCH"),
        ("work/failing.ql", "SOURCE [{x: 1}]\nMAP_MANY x"),
    ]);
    let mut load = |text: &str| outside.drive(parse_query(text).unwrap(), "work/query.ql").unwrap();
    assert_eq!(load("SOURCE OPEN('rows.json')"), list(r#"[{"id": 1}, {"id": 2}]"#));
    assert_eq!(load("SOURCE OPEN('table.csv')"), list(r#"[{"id": "3", "name": "c"}]"#));
    assert_eq!(load("SOURCE OPEN('inner.ql'), OPEN('table.csv')"), list(r#"[{"id": 1}, {"id": "3", "name": "c"}]"#));
    assert_eq!(load("SOURCE [{x: OPEN('inner.ql')}]"), list(r#"[{"x": [{"id": 1}]}]"#));
    assert_eq!(load("SOURCE 'rows.json'"), list(r#"["rows.json"]"#));
    assert_eq!(load("SOURCE OPEN('self.ql')"), list("[null]"));
    assert_eq!(load("SOURCE OPEN('a.ql')"), list(r#"[null, {"b": 1}, {"a": 1}]"#));
    assert_eq!(load("SOURCE [{x: OPEN('missing.json'), y: OPEN('missing.ql'), z: OPEN('missing.csv')}]"), list(r#"[{"x": null, "y": null, "z": null}]"#));
    assert_eq!(load("SOURCE [{x: OPEN('broken.ql'), y: OPEN('failing.ql')}]"), list(r#"[{"x": null, "y": null}]"#));
}

#[test]
fn sources_are_fetched_page_by_page() {
    let uri = "https://example.org/items";
    let mut outside = Outside::new(&[]);
    outside.responses.insert(
        uri.to_owned(),
        vec![
            r#"{"items": [1, 2], "next": "b"}"#.to_owned(),
            r#"{"items": [3], "next": null}"#.to_owned(),
        ],
    );
    let text = "SOURCE GET({
        src: 'https://example.org/items',
        headers: {Accept: 'application/json', Content-Type: 'application/json'},
        paging: {
            type: 'cursor',
            in:   {location: 'query', path: 'cursor'},
            from: {location: 'body',  path: 'next'}
        }
    })
    MAP_MANY items";
    assert_eq!(outside.run(text), list("[1, 2, 3]"));
    assert_eq!(
        outside.requests,
        [None, Some(("cursor".to_owned(), "b".to_owned()))].map(|parameter| HttpRequest {
            method: Method::Get,
            uri: uri.to_owned(),
            headers: vec![
                ("Accept".to_owned(), "application/json".to_owned()),
                ("Content-Type".to_owned(), "application/json".to_owned())
            ],
            parameter,
            body: None,
        })
    );
    outside.requests.clear();
    assert_eq!(outside.run("SOURCE POST({src: 'http://example.org/x', body: {q: 'active', limit: 100}})"), list("[null]"));
    assert_eq!(outside.requests[0].method, Method::Post);
    assert_eq!(outside.requests[0].body, Some(json(r#"{"q": "active", "limit": 100}"#)));
}

#[test]
fn secrets_are_asked_for() {
    let mut outside = Outside::new(&[]);
    outside.secrets.insert("TOKEN".to_owned(), "abc".to_owned());
    assert_eq!(
        outside.run("SOURCE [{a: 1}]\nMAP t = @TOKEN, u = @OTHER"),
        list(r#"[{"t": "abc", "u": null}]"#)
    );
}

#[test]
fn runs_refuse_what_was_not_asked_for() {
    let run = Run::start(parse_query("SOURCE [1]").unwrap(), "q.ql".to_owned(), None);
    let (run, action) = run.advance(Event::Answer(Value::Null));
    assert_eq!(action, Action::Unexpected);
    let (run, action) = run.advance(Event::Continue);
    assert_eq!(action, Action::Work);
    let mut state = run;
    loop {
        let (next, action) = state.advance(Event::Continue);
        state = next;
        if action == Action::Finished(list("[1]")) {
            break;
        }
        assert_eq!(action, Action::Work);
    }
    assert_eq!(state.advance(Event::Continue).1, Action::Unexpected);
}

#[test]
fn progress_names_the_step() {
    let run = Run::start(parse_query("SOURCE [1, 2]\nMAP a = $").unwrap(), "q.ql".to_owned(), None);
    match run.progress() {
        Some(StreamMessage::Progress { substep, total_substeps, substep_name, completed, total }) => {
            assert_eq!((substep, total_substeps, completed, total), (1, 2, 0, 1));
            assert_eq!(substep_name, subquery_name(&SubQuery::Source(Vec::new())));
        }
        other => panic!("no progress: {other:?}"),
    }
    assert!(Run::start(Query { steps: Vec::new() }, "q.ql".to_owned(), None).progress().is_none());
}

#[test]
fn columns_are_described_through_all_rows() {
    let descriptor = KeyDescriptor::from_values(&list(r#"[{"a": 1, "b": {"c": 1}}, {"b": {"d": 2}}, 5]"#));
    assert_eq!(columns_from_descriptor(&descriptor), names(&["a", "b"]));
    match descriptor {
        KeyDescriptor::Object(fields) => {
            assert_eq!(Value::Object(fields), json(r#"{"a": null, "b": {"c": null, "d": null}}"#));
        }
        KeyDescriptor::Value => panic!("the rows have keys"),
    }
    assert!(matches!(KeyDescriptor::from_values(&list("[1, 2]")), KeyDescriptor::Value));
}

#[test]
fn functions_compute_through_the_outside() {
    assert_eq!(
        rows_of("SOURCE [{a: 3, b: 4}]\nMAP d = SUBTRACT(b, a), n = L2([a, b]), t = TODAY(), s = SUM('1,5', 2)"),
        list(r#"[{"d": 1.0, "n": 5.0, "t": "2026-03-24", "s": 2}]"#)
    );
}
