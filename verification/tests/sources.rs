use quickql::csv_source::{csv_fields_from_source, detect_csv_delimiter, load_csv_source};
use quickql::descriptor::QueryResult;
use quickql::files::{
    file_name, is_csv_path, is_http_uri, is_ql_path, join_path, normalize_provider_path, parent,
    resolve_source, with_extension,
};
use quickql::functions::common::parse_json;
use quickql::gitlab::{
    file_name_below, git_query_path, list_gitlab_ql_files, next_page, parse_gitlab_config,
    url_encode_path_segment, GitLabError,
};
use quickql::paging::{
    entry_count_at_path, merge_page, parse_paging_config, parse_paging_location, receive_page,
    set_value_at_path, start_paging, value_at_path, PageRequest, PagingError, PagingLocation, PagingStep,
    MAX_PAGES,
};
use quickql::sample::{
    fields_from_json_prefix, fields_from_source_sample, json_fields_for_query, sample_bytes,
    source_path_for_query, source_paths_for_query, SampleFields,
};
use quickql::stream::{query_response_from_stream, stream_query_jsonl, StreamMessage};
use quickql::value::Value;

fn json(text: &str) -> Value {
    parse_json(text)
}

fn list(text: &str) -> Vec<Value> {
    match parse_json(text) {
        Value::Array(items) => items,
        other => panic!("not an array: {other:?}"),
    }
}

fn names(parts: &[&str]) -> Vec<String> {
    parts.iter().map(|part| part.to_string()).collect()
}

fn bytes(text: &str) -> Vec<u8> {
    text.as_bytes().to_vec()
}

#[test]
fn paths_are_taken_apart_and_joined() {
    assert_eq!(parent("a/b/c.ql"), Some("a/b".to_owned()));
    assert_eq!(parent("c.ql"), Some("".to_owned()));
    assert_eq!(parent(""), None);
    assert_eq!(file_name("a/b/c.ql"), "c.ql");
    assert_eq!(join_path("a/b", "c.json"), "a/b/c.json");
    assert_eq!(join_path("", "c.json"), "c.json");
    assert_eq!(join_path("/", "c.json"), "/c.json");
    assert_eq!(resolve_source("a/q.ql", "rows.json"), "a/rows.json");
    assert_eq!(resolve_source("a/q.ql", "/rows.json"), "/rows.json");
    assert_eq!(with_extension("a.b/c", "json"), "a.b/c.json");
    assert!(is_csv_path("x/y.CSV") && !is_csv_path("csv") && !is_csv_path(".csv"));
    assert!(is_ql_path("q.ql") && !is_ql_path("q.ql.json"));
    assert!(is_http_uri("http://x") && is_http_uri("https://x") && !is_http_uri("HTTP://x") && !is_http_uri("ftp://x"));
    assert_eq!(normalize_provider_path("./a/../b//c.json"), "b/c.json");
    assert_eq!(normalize_provider_path("../../x"), "x");
}

#[test]
fn delimiters_are_the_most_frequent_ones() {
    let delimiter = |text: &str| detect_csv_delimiter(&bytes(text), text.len()) as char;
    assert_eq!(delimiter("a;b;c\n1,2;3;4"), ';');
    assert_eq!(delimiter("a,b\n"), ',');
    assert_eq!(delimiter("a\tb\n"), '\t');
    assert_eq!(delimiter("abc"), ',');
}

#[test]
fn csv_tables_become_rows() {
    assert_eq!(
        load_csv_source(&bytes("id,name\n1,\"a,b\"\n2,\n")),
        Some(json(r#"[{"id": "1", "name": "a,b"}, {"id": "2", "name": ""}]"#))
    );
    assert_eq!(csv_fields_from_source(&bytes("id;name;id\n")), Some(names(&["id", "name", "id"])));
    assert_eq!(load_csv_source(&bytes("")), Some(json("[]")));
    let uneven = bytes("id,name\n1\n");
    assert_eq!(load_csv_source(&uneven), None);
    assert_eq!(csv_fields_from_source(&uneven), Some(names(&["id", "name"])));
    let mut not_text = bytes("id,");
    not_text.push(255);
    assert_eq!(csv_fields_from_source(&not_text), None);
    assert_eq!(load_csv_source(&not_text), None);
}

#[test]
fn paging_needs_a_type_and_places() {
    for (text, error) in [
        ("1", PagingError::NotAnObject),
        ("{}", PagingError::NoType),
        (r#"{"type": "odd"}"#, PagingError::UnsupportedType),
        (r#"{"type": "cursor"}"#, PagingError::NoIn),
        (r#"{"type": "Cursor", "in": 1}"#, PagingError::LocationNotAnObject),
        (r#"{"type": "cursor", "in": {}}"#, PagingError::NoLocation),
        (r#"{"type": "cursor", "in": {"location": "header"}}"#, PagingError::UnsupportedLocation),
        (r#"{"type": "cursor", "in": {"location": "query"}}"#, PagingError::NoLocationPath),
        (r#"{"type": "cursor", "in": {"location": "query", "path": " "}}"#, PagingError::EmptyLocationPath),
        (r#"{"type": "cursor", "in": {"location": "query", "path": "c"}}"#, PagingError::NoFrom),
        (
            r#"{"type": "cursor", "in": {"location": "query", "path": "c"}, "from": {"location": "query", "path": "n"}}"#,
            PagingError::FromNotBody,
        ),
        (r#"{"type": "offset", "in": {"location": "query", "path": "o"}}"#, PagingError::NoPath),
        (r#"{"type": "offset", "in": {"location": "query", "path": "o"}, "path": ""}"#, PagingError::EmptyPath),
        (r#"{"type": "offset", "in": {"location": "query", "path": "o"}, "path": "items"}"#, PagingError::NoPageSize),
        (
            r#"{"type": "offset", "in": {"location": "query", "path": "o"}, "path": "items", "pagesize": 0}"#,
            PagingError::ZeroPageSize,
        ),
    ] {
        assert_eq!(parse_paging_config(&json(text)), Err(error), "{text}");
    }
    let place = parse_paging_location(&json(r#"{"location": "BODY", "path": "a.b"}"#)).unwrap();
    assert_eq!((place.location, place.path.as_str()), (PagingLocation::Body, "a.b"));
}

#[test]
fn values_are_found_counted_and_set_at_dotted_paths() {
    let value = json(r#"{"a": {"b": [1, 2, 3]}, "c": {"d": 1}}"#);
    assert_eq!(value_at_path(&value, "a.b"), Some(json("[1, 2, 3]")));
    assert_eq!(value_at_path(&value, "a.x"), None);
    assert_eq!(entry_count_at_path(&value, "a.b"), 3);
    assert_eq!(entry_count_at_path(&value, "c"), 1);
    assert_eq!(entry_count_at_path(&value, "c.d"), 0);
    assert_eq!(set_value_at_path(json(r#"{"a": 1}"#), "a.b", json("2")), json(r#"{"a": {"b": 2}}"#));
    assert_eq!(set_value_at_path(json("null"), "a", json("2")), json(r#"{"a": 2}"#));
}

#[test]
fn pages_are_merged() {
    assert_eq!(
        merge_page(json(r#"{"items": [1], "n": {"x": [1]}, "next": "a"}"#), &json(r#"{"items": [2], "n": {"x": [2]}, "next": null}"#)),
        json(r#"{"items": [1, 2], "n": {"x": [1, 2]}, "next": null}"#)
    );
    assert_eq!(merge_page(json("[1]"), &json("[2]")), json("[1, 2]"));
    assert_eq!(merge_page(json("[1]"), &json("5")), json("5"));
}

fn pages(config: &str, body: Option<Value>, all: &[&str]) -> (Vec<PageRequest>, Option<Value>) {
    let (mut paging, first) = start_paging(parse_paging_config(&json(config)).unwrap(), body);
    let mut requests = vec![first];
    for page in all {
        match receive_page(paging, json(page)) {
            PagingStep::Fetch(next, request) => {
                paging = next;
                requests.push(request);
            }
            PagingStep::Finished(value) => return (requests, Some(value)),
            PagingStep::Failed => return (requests, None),
        }
    }
    panic!("more pages wanted");
}

const CURSOR: &str = r#"{
    "type": "cursor",
    "in": {"location": "query", "path": "cursor"},
    "from": {"location": "body", "path": "paging.next"}
}"#;

#[test]
fn cursors_are_followed_until_there_is_none() {
    let (requests, value) = pages(
        CURSOR,
        None,
        &[
            r#"{"items": [1], "paging": {"next": "b"}}"#,
            r#"{"items": [2], "paging": {"next": 3}}"#,
            r#"{"items": [3], "paging": {"next": null}}"#,
        ],
    );
    let parameters: Vec<_> = requests.into_iter().map(|request| request.parameter).collect();
    assert_eq!(
        parameters,
        [None, Some(("cursor".to_owned(), "b".to_owned())), Some(("cursor".to_owned(), "3".to_owned()))]
    );
    assert_eq!(value, Some(json(r#"{"items": [1, 2, 3], "paging": {"next": null}}"#)));
}

#[test]
fn cursors_are_never_sent_twice() {
    let page = r#"{"items": [1], "paging": {"next": "b"}}"#;
    let (requests, value) = pages(CURSOR, None, &[page, page]);
    assert_eq!(requests.len(), 2);
    assert_eq!(value, Some(json(r#"{"items": [1, 1], "paging": {"next": "b"}}"#)));
}

#[test]
fn cursors_end_at_the_page_limit() {
    let all: Vec<String> = (0..=MAX_PAGES).map(|i| format!(r#"{{"paging": {{"next": {i}}}}}"#)).collect();
    let texts: Vec<&str> = all.iter().map(String::as_str).collect();
    let (requests, value) = pages(CURSOR, None, &texts);
    assert_eq!(value, None);
    assert_eq!(requests.len(), MAX_PAGES + 1);
}

#[test]
fn offsets_grow_until_a_page_is_not_full() {
    let config = r#"{
        "type": "offset",
        "in": {"location": "body", "path": "page.offset"},
        "path": "items",
        "pagesize": 2
    }"#;
    let (requests, value) = pages(
        config,
        Some(json(r#"{"query": "x"}"#)),
        &[r#"{"items": [1, 2]}"#, r#"{"items": [3]}"#],
    );
    let bodies: Vec<_> = requests.into_iter().map(|request| request.body).collect();
    assert_eq!(
        bodies,
        [
            Some(json(r#"{"query": "x", "page": {"offset": 0}}"#)),
            Some(json(r#"{"query": "x", "page": {"offset": 2}}"#))
        ]
    );
    assert_eq!(value, Some(json(r#"{"items": [1, 2, 3]}"#)));
}

#[test]
fn fields_are_found_at_the_start_of_a_file() {
    assert_eq!(
        fields_from_json_prefix(r#"[{"id": 1, "user": {"name": "a"}}, {"id": 2, "extra": [1"#),
        names(&["extra", "id", "name", "user"])
    );
    assert_eq!(fields_from_json_prefix("not json"), names(&[]));
    assert!(sample_bytes(1) <= sample_bytes(1000));
    assert_eq!(
        fields_from_source_sample("rows.json", 10, bytes(r#"[{"b": 1, "a": 2}]"#)),
        SampleFields::Known(names(&["a", "b"]))
    );
    assert_eq!(
        fields_from_source_sample("rows.csv", 10, bytes("x,y\n1,2\n")),
        SampleFields::Known(names(&["x", "y"]))
    );
    assert_eq!(fields_from_source_sample("other.ql", 10, Vec::new()), SampleFields::OfQuery);
}

#[test]
fn sources_of_a_query_are_resolved() {
    let text = "SOURCE 'a.json', 'sub/b.csv'\nMAP id";
    assert_eq!(source_paths_for_query("work/q.ql", text), names(&["work/a.json", "work/sub/b.csv"]));
    assert_eq!(source_path_for_query("work/q.ql", text), Some("work/a.json".to_owned()));
    assert_eq!(source_path_for_query("work/q.ql", "MAP id"), None);
    assert_eq!(
        json_fields_for_query(&vec![names(&["b", "a"]), names(&["a", "c"])]),
        names(&["b", "a", "c"])
    );
}

#[test]
fn results_are_streamed_in_batches() {
    let rows = list(r#"[{"a": 1}, {"a": 2}, {"b": 3}]"#);
    let result = QueryResult::new(rows);
    let messages = stream_query_jsonl(&result, "q.ql", 2);
    assert_eq!(
        messages,
        vec![
            StreamMessage::Meta { columns: names(&["a", "b"]), source: "q.ql".to_owned() },
            StreamMessage::Batch { start: 0, rows: list(r#"[{"a": 1}, {"a": 2}]"#) },
            StreamMessage::Batch { start: 2, rows: list(r#"[{"b": 3}]"#) },
            StreamMessage::Done { row_count: 3 },
        ]
    );
    let response = query_response_from_stream(&messages);
    assert_eq!(response.columns, names(&["a", "b"]));
    assert_eq!(response.row_count, 3);
    assert_eq!(response.rows, list(r#"[{"a": 1}, {"a": 2}, {"b": 3}]"#));
    assert_eq!(stream_query_jsonl(&result, "q.ql", 0).len(), 5);
}

#[test]
fn gitlab_folders_are_read_from_urls() {
    let config = parse_gitlab_config("https://git.example.org/group/project/tree/main/queries/daily", "secret".to_owned()).unwrap();
    assert_eq!(config.api_base, "https://git.example.org/api/v4");
    assert_eq!(config.project, "group/project");
    assert_eq!(config.ref_name, "main");
    assert_eq!(config.folder, "queries/daily");
    assert_eq!(config.token, "secret");
    for (url, error) in [
        ("queries", GitLabError::NotAUrl),
        ("mailto:someone@example.org", GitLabError::NoSegments),
        ("https://git.example.org/group/project", GitLabError::NoMark),
        ("https://git.example.org/tree/main", GitLabError::Incomplete),
        ("https://git.example.org/group/tree", GitLabError::Incomplete),
        ("file:///group/tree/main", GitLabError::NoHost),
    ] {
        match parse_gitlab_config(url, String::new()) {
            Err(found) => assert_eq!(found, error, "{url}"),
            Ok(_) => panic!("{url} names no folder"),
        }
    }
}

#[test]
fn gitlab_query_files_are_listed_by_name() {
    let items: Vec<(String, String)> = [
        ("queries/b.ql", "blob"),
        ("queries/a.ql", "blob"),
        ("queries/readme.md", "blob"),
        ("queries/sub.ql", "tree"),
    ]
    .iter()
    .map(|(path, kind)| (path.to_string(), kind.to_string()))
    .collect();
    let files = list_gitlab_ql_files(&items, "queries/");
    let found: Vec<(&str, &str)> = files.iter().map(|file| (file.path.as_str(), file.name.as_str())).collect();
    assert_eq!(found, [("queries/a.ql", "a.ql"), ("queries/b.ql", "b.ql")]);
    assert_eq!(file_name_below("queries/sub/c.ql", "queries"), "sub/c.ql");
    assert_eq!(next_page("12"), Some(12));
    assert_eq!(next_page(""), None);
    assert_eq!(url_encode_path_segment("group/my project"), "group%2Fmy+project");
    assert_eq!(url_encode_path_segment("aZ09*-._~+%"), "aZ09*-._%7E%2B%25");
    assert_eq!(url_encode_path_segment("ä\n€"), "%C3%A4%0A%E2%82%AC");
    assert_eq!(git_query_path("x/../a.ql"), Some("a.ql".to_owned()));
    assert_eq!(git_query_path("a.json"), None);
}
