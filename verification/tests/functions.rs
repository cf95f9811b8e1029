use quickql::call::{call, fn_info_for_call, Call, Function, Kernel, Request};
use quickql::functions::array::{
    at, count, cross_join, distinct, index_of, join_rows, join_rows_index, range, sort, unzip_rows,
    zip_rows,
};
use quickql::functions::boolean::{and, eq, or};
use quickql::functions::common::{assign, parse_json};
use quickql::functions::date::{
    add_date, date_key, get_date, is_leap_year, is_valid_date, iso_date, max_date, min_date,
    parse_date_key, DateError,
};
use quickql::functions::numbers::{
    ceil, floor, json_number_value, min, parse_localised_number, sum_addends, to_number,
};
use quickql::functions::strings::{self, base64, join_string, new_line, split};
use quickql::json::json_text;
use quickql::value::{Number, Value};

fn json(text: &str) -> Value {
    parse_json(text)
}

fn text(value: &str) -> Value {
    Value::String(value.to_owned())
}

fn list(text: &str) -> Vec<Value> {
    match parse_json(text) {
        Value::Array(items) => items,
        other => panic!("not an array: {other:?}"),
    }
}

fn double(value: &Value) -> f64 {
    match value {
        Value::Number(Number::Float(real)) => f64::from_bits(real.bits()),
        other => panic!("not a double: {other:?}"),
    }
}

fn run(name: &str, arguments: Vec<Value>) -> Call {
    let function = fn_info_for_call(name, arguments.len()).expect("a function");
    call(function, &arguments)
}

fn done(name: &str, arguments: Vec<Value>) -> Value {
    match run(name, arguments) {
        Call::Done(value) => value,
        other => panic!("not done: {other:?}"),
    }
}

#[test]
fn unzip_rows_converts_rows_to_column_arrays() {
    assert_eq!(
        unzip_rows(&json(r#"[{"a": 42, "b": 2}, {"a": 43, "b": 3}]"#)),
        json(r#"{"a": [42, 43], "b": [2, 3]}"#)
    );
}

#[test]
fn unzip_rows_rejects_invalid_or_inconsistent_rows() {
    assert_eq!(unzip_rows(&json(r#"{"a": 1}"#)), Value::Null);
    assert_eq!(unzip_rows(&json(r#"[{"a": 1}, 2]"#)), Value::Null);
    assert_eq!(unzip_rows(&json(r#"[{"a": 1}, {"a": 2, "b": 3}]"#)), Value::Null);
    assert_eq!(unzip_rows(&json("[]")), json("{}"));
}

#[test]
fn join_rows_joins_two_arrays_on_the_given_identifier() {
    let input = json(
        r#"{
            "a": [{"f": "hello", "i": 1}, {"f": "world", "i": 0}],
            "b": [{"f": "a", "i": 0}, {"f": "b", "i": 1}]
        }"#,
    );

    assert_eq!(
        join_rows(&input, "i"),
        json(
            r#"[
                {"i": 0, "a": {"f": "world"}, "b": {"f": "a"}},
                {"i": 1, "a": {"f": "hello"}, "b": {"f": "b"}}
            ]"#
        )
    );
}

#[test]
fn join_rows_index_uses_the_second_array_position_as_the_key() {
    let input = json(
        r#"{
            "a": [{"f": "hello", "i": 1}, {"f": "world", "i": 0}],
            "b": [{"f": "a"}, {"f": "b"}]
        }"#,
    );

    assert_eq!(
        join_rows_index(&input, "i"),
        json(
            r#"[
                {"i": 0, "a": {"f": "world"}, "b": {"f": "a"}},
                {"i": 1, "a": {"f": "hello"}, "b": {"f": "b"}}
            ]"#
        )
    );
}

#[test]
fn join_rows_rejects_invalid_input() {
    assert_eq!(join_rows(&json(r#"{"a": []}"#), "i"), Value::Null);
    assert_eq!(join_rows(&json(r#"{"a": [{}], "b": []}"#), "i"), Value::Null);
    assert_eq!(join_rows(&json(r#"{"a": [1], "b": []}"#), "i"), Value::Null);
}

#[test]
fn join_rows_ascend_by_the_identifier() {
    let numbers = json(r#"{"a": [{"i": 10}, {"i": -1}, {"i": 9.5}, {"i": 2}], "b": [{"i": 2}, {"i": 9.5}, {"i": 10}, {"i": -1}]}"#);
    assert_eq!(
        join_rows(&numbers, "i"),
        json(r#"[{"i": -1, "a": {}, "b": {}}, {"i": 2, "a": {}, "b": {}}, {"i": 9.5, "a": {}, "b": {}}, {"i": 10, "a": {}, "b": {}}]"#)
    );
    let texts = json(r#"{"a": [{"i": "9"}, {"i": "b"}, {"i": "10"}], "b": [{"i": "b"}, {"i": "10"}, {"i": "9"}]}"#);
    assert_eq!(
        join_rows(&texts, "i"),
        json(r#"[{"i": "10", "a": {}, "b": {}}, {"i": "9", "a": {}, "b": {}}, {"i": "b", "a": {}, "b": {}}]"#)
    );
    let named = json(r#"{"a": [{"a": 1, "x": 2}, {"a": 2, "x": 1}], "b": [{"a": 1}, {"a": 2}]}"#);
    assert_eq!(join_rows(&named, "a"), json(r#"[{"a": {"x": 1}, "b": {}}, {"a": {"x": 2}, "b": {}}]"#));
}

#[test]
fn join_rows_leaves_out_rows_without_a_match() {
    let input = json(r#"{"a": [{"i": 1}, {"i": 5}], "b": [{"i": 1, "x": true}]}"#);
    assert_eq!(join_rows(&input, "i"), json(r#"[{"i": 1, "a": {}, "b": {"x": true}}]"#));
}

#[test]
fn parses_decimal_comma_and_rounds_down() {
    let value = to_number(&text("82,3125")).unwrap();

    assert_eq!(f64::from_bits(value.bits()), 82.3125);
    assert_eq!(floor(&Number::Float(value)), 82);
}

#[test]
fn localised_numbers_keep_points_and_drop_blanks() {
    assert_eq!(f64::from_bits(parse_localised_number("  -1.5 ").unwrap().bits()), -1.5);
    assert!(parse_localised_number("1,000.5").is_none());
    assert!(parse_localised_number("   ").is_none());
    assert!(parse_localised_number("inf").is_none());
    assert!(parse_localised_number("abc").is_none());
}

#[test]
fn numbers_are_rounded_to_integers() {
    let number = |text: &str| match json(text) {
        Value::Number(number) => number,
        other => panic!("not a number: {other:?}"),
    };
    assert_eq!(floor(&number("2.5")), 2);
    assert_eq!(ceil(&number("2.5")), 3);
    assert_eq!(floor(&number("-2.5")), -3);
    assert_eq!(ceil(&number("-2.5")), -2);
    assert_eq!(floor(&number("7")), 7);
    assert_eq!(ceil(&number("-7")), -7);
    assert_eq!(floor(&number("0.0000001")), 0);
    assert_eq!(ceil(&number("0.0000001")), 1);
    assert_eq!(floor(&number("-0.0")), 0);
    assert_eq!(floor(&number("1e300")), i64::MAX);
    assert_eq!(ceil(&number("-1e300")), i64::MIN);
    assert_eq!(floor(&number("9007199254740992.0")), 9007199254740992);
    assert_eq!(floor(&number("18446744073709551615")), i64::MAX);
    for value in [0.1, 1.9, 123456.75, -0.5, 4503599627370497.5, 3.0] {
        let number = number(&format!("{value:?}"));
        assert_eq!(floor(&number), f64::floor(value) as i64);
        assert_eq!(ceil(&number), f64::ceil(value) as i64);
    }
}

#[test]
fn the_smallest_number_is_found_among_items() {
    assert_eq!(min(&list(r#"[3, [2.5, "1,5"], "x", null]"#)), json("1.5"));
    assert_eq!(min(&list("[4, 3.0]")), json("3"));
    assert_eq!(min(&list(r#"["x"]"#)), Value::Null);
    assert_eq!(min(&Vec::new()), Value::Null);
}

#[test]
fn addends_are_numbers_readable_texts_or_zero() {
    assert_eq!(
        sum_addends(&list(r#"[1, [2.5, "3.25"], "1,5", "inf", null, true, -4]"#)),
        vec!["1", "2.5", "3.25", "0", "inf", "0", "0", "-4"]
    );
}

#[test]
fn computed_numbers_become_integers_where_they_can() {
    assert_eq!(json_number_value(&json("300.0")), json("300"));
    assert_eq!(json_number_value(&json("-300.0")), json("-300"));
    assert_eq!(json_number_value(&json("0.5")), json("0.5"));
    assert_eq!(json_number_value(&json("1e30")), json("1e30"));
    assert_eq!(json_number_value(&json("9223372036854775808.0")), json("9223372036854775807"));
    assert_eq!(json_number_value(&Value::Null), Value::Null);
}

#[test]
fn sum_asks_for_the_sum_of_its_addends() {
    assert_eq!(
        run("SUM", list(r#"[1, ["2"]]"#)),
        Call::Ask(Request::Kernel(Kernel::Sum, json(r#"["1", "2"]"#)))
    );
}

#[test]
fn index_of_finds_the_first_equal_value() {
    let values = list(r#"[1, "1", {"a": [1]}, {"a": [1]}]"#);
    assert_eq!(index_of(&values, &json(r#"{"a": [1]}"#)), Some(2));
    assert_eq!(index_of(&values, &json("1.0")), None);
    assert_eq!(done("INDEXOF", list("[[5, 6], 6]")), json("1"));
    assert_eq!(done("INDEXOF", list("[[5, 6], 7]")), json("-1"));
    assert_eq!(done("INDEXOF", list("[5, 5]")), Value::Null);
}

#[test]
fn ranges_run_up_and_down() {
    assert_eq!(range(0, 2), json("[0, 1, 2]"));
    assert_eq!(range(-3, -1), json("[-3, -2, -1]"));
    assert_eq!(range(2, 0), json("[2, 1, 0]"));
    assert_eq!(range(i64::MAX, i64::MAX), json("[9223372036854775807]"));
    assert_eq!(done("RANGE", list("[1.5, 2]")), Value::Null);
}

#[test]
fn items_are_taken_by_position_and_by_range() {
    let values = list(r#"["a", "b", "c"]"#);
    assert_eq!(at(&values, &json("1")), text("b"));
    assert_eq!(at(&values, &json("3")), Value::Null);
    assert_eq!(at(&values, &json("-1")), Value::Null);
    assert_eq!(at(&values, &json("1.0")), Value::Null);
    assert_eq!(at(&values, &json("[1]")), json(r#"["b", "c"]"#));
    assert_eq!(at(&values, &json("[0, 2]")), json(r#"["a", "b"]"#));
    assert_eq!(at(&values, &json("[3]")), json("[]"));
    assert_eq!(at(&values, &json("[2, 1]")), Value::Null);
    assert_eq!(at(&values, &json("[0, 4]")), Value::Null);
    assert_eq!(at(&values, &json("[]")), Value::Null);
    assert_eq!(at(&values, &json("[0, 1, 2]")), Value::Null);
}

#[test]
fn distinct_keeps_first_occurrences() {
    assert_eq!(
        distinct(&list(r#"[[1, 2, 1], 2, "1", 1.0, -0.0, 0.0]"#)),
        list(r#"[1, 2, "1", 1.0, -0.0]"#)
    );
}

#[test]
fn sort_orders_numbers_by_value_and_texts_by_text() {
    assert_eq!(sort(&list("[[10, 9.5], 2, -1]")), list("[-1, 2, 9.5, 10]"));
    assert_eq!(sort(&list(r#"["b", "a", "B", "ä"]"#)), list(r#"["B", "a", "b", "ä"]"#));
    assert_eq!(sort(&list("[2.0, 2, 1]")), list("[1, 2.0, 2]"));
    assert_eq!(sort(&list(r#"[true, {}, null, "b", ""]"#)), list(r#"[null, "", "b", true, {}]"#));
}

#[test]
fn items_are_counted() {
    assert_eq!(count(&list("[[1, 2], 3, [[4, 5]], []]")), 4);
    assert_eq!(done("COUNT", list("[[1, 2], 3]")), json("3"));
    assert_eq!(done("LEN", list("[[1, 2], 3, 4]")), json("3"));
    assert_eq!(done("ARRAY", list("[[1, 2], 3]")), json("[1, 2, 3]"));
}

#[test]
fn cross_join_combines_columns_with_the_first_varying_fastest() {
    assert_eq!(
        cross_join(&json(r#"{"b": ["x", "y"], "a": [1, 2]}"#)),
        json(r#"[{"a":1,"b":"x"},{"a":2,"b":"x"},{"a":1,"b":"y"},{"a":2,"b":"y"}]"#)
    );
    assert_eq!(cross_join(&json(r#"{"a": [1], "b": []}"#)), json("[]"));
    assert_eq!(cross_join(&json("{}")), json("[]"));
    assert_eq!(cross_join(&json(r#"{"a": 1}"#)), Value::Null);
    assert_eq!(cross_join(&json("[]")), Value::Null);
}

#[test]
fn zip_rows_matches_values_at_the_same_position() {
    let columns = json(r#"{"name": ["a", "b", "c"], "value": [1, 2, 3]}"#);
    let rows = zip_rows(&columns);
    assert_eq!(
        rows,
        json(r#"[{"name":"a","value":1},{"name":"b","value":2},{"name":"c","value":3}]"#)
    );
    assert_eq!(unzip_rows(&rows), columns);
    assert_eq!(zip_rows(&json(r#"{"a": [1], "b": [1, 2]}"#)), Value::Null);
    assert_eq!(zip_rows(&json(r#"{"a": 1}"#)), Value::Null);
    assert_eq!(zip_rows(&json("{}")), json("[]"));
}

#[test]
fn equality_is_strict() {
    assert!(eq(&json(r#"{"a": [1, null]}"#), &json(r#"{"a": [1, null]}"#)));
    assert!(!eq(&json("1"), &json("1.0")));
    assert!(!eq(&json("1"), &json("\"1\"")));
    assert!(eq(&json("0.0"), &json("-0.0")));
    assert!(!eq(&json("[1, 2]"), &json("[2, 1]")));
}

#[test]
fn truth_of_values() {
    assert!(or(&list("[0, \"\", false, {\"a\": 0}]")));
    assert!(!or(&list("[0, 0.0, -0.0, \"\", false, null, [], {}]")));
    assert!(and(&list("[1, 0.5, \"x\", true, [0], {\"a\": 0}]")));
    assert!(!and(&list("[1, null]")));
    assert!(and(&Vec::new()));
    assert!(!or(&Vec::new()));
}

#[test]
fn assign_merges_objects() {
    assert_eq!(
        assign(&list(r#"[{"name": "a", "nested": {"left": 1}}, {"value": 2, "nested": {"right": 2}}]"#)),
        json(r#"{"name": "a", "value": 2, "nested": {"right": 2}}"#)
    );
    assert_eq!(assign(&list(r#"[{"a": 1}, 2, {"b": 1}]"#)), Value::Null);
    assert_eq!(assign(&list("[1]")), Value::Null);
    assert_eq!(assign(&Vec::new()), Value::Null);
}

#[test]
fn json_texts_are_parsed() {
    assert_eq!(
        done("PARSE", vec![text(r#"{"name":"a","value":1}"#)]),
        json(r#"{"name": "a", "value": 1}"#)
    );
    assert_eq!(done("PARSE_JSON", vec![text("{")]), Value::Null);
    assert_eq!(done("PARSE", vec![json("1")]), Value::Null);
    assert_eq!(json_text(&parse_json(r#"{"b":[1,-2,2.5,"x\n"],"a":null}"#)), r#"{"a":null,"b":[1,-2,2.5,"x\n"]}"#);
    assert_eq!(double(&parse_json("0.1")), 0.1);
}

#[test]
fn texts_are_concatenated() {
    assert_eq!(
        strings::concat(&list(r#"["a", [1, 2.5], null, true, {"x": [1]}, -3, [[1]]]"#)),
        r#"a12.5true{"x":[1]}-3[1]"#
    );
    assert_eq!(join_string(&json(r#"["a", 1, null, "b"]"#), ", "), "a, 1, , b");
    assert_eq!(join_string(&json("\"only\""), ", "), "only");
    assert_eq!(join_string(&json("[]"), ", "), "");
    assert_eq!(new_line(), "\n");
}

#[test]
fn base64_encodes_the_textual_form() {
    assert_eq!(base64(&text("hello")), "aGVsbG8=");
    assert_eq!(base64(&json("12")), "MTI=");
    assert_eq!(base64(&json("[1]")), "WzFd");
    assert_eq!(base64(&Value::Null), "");
}

#[test]
fn texts_are_split_into_even_parts() {
    assert_eq!(split("abcdefghij", 4), json(r#"["abcd", "efg", "hij"]"#));
    assert_eq!(split("abc", 10), json(r#"["abc"]"#));
    assert_eq!(split("äöü", 1), json(r#"["ä", "ö", "ü"]"#));
    assert_eq!(split("", 4), json("[]"));
    assert_eq!(split("abc", 0), Value::Null);
    assert_eq!(done("SPLIT", list(r#"["abc", -1]"#)), Value::Null);
    assert_eq!(done("SPLIT", list(r#"[1, 1]"#)), Value::Null);
}

#[test]
fn date_keys_are_read_in_three_forms() {
    assert_eq!(parse_date_key("2026-03-24"), Ok(Some(20260324)));
    assert_eq!(parse_date_key("24-03-2026"), Ok(Some(20260324)));
    assert_eq!(parse_date_key("24.03.2026"), Ok(Some(20260324)));
    assert_eq!(parse_date_key(" 2026-3-4 T10:00"), Ok(Some(20260304)));
    assert_eq!(parse_date_key(""), Ok(None));
    assert_eq!(parse_date_key("20260324"), Ok(None));
    assert_eq!(parse_date_key("2026-03"), Ok(None));
    assert_eq!(parse_date_key("2026-03-xx"), Err(DateError::Day));
    assert_eq!(parse_date_key("2026-xx-01"), Err(DateError::Month));
    assert_eq!(parse_date_key("xxxx-01-01"), Err(DateError::Year));
    assert_eq!(parse_date_key("2026-02-29"), Err(DateError::Invalid));
    assert_eq!(parse_date_key("2024-02-29"), Ok(Some(20240229)));
    assert_eq!(date_key("1.1.2000000"), Ok(Some(20000000101)));
}

#[test]
fn calendar_days_are_checked() {
    assert!(is_leap_year(2000) && is_leap_year(2024) && is_leap_year(-4));
    assert!(!is_leap_year(1900) && !is_leap_year(2023));
    assert!(is_valid_date(2023, 12, 31));
    assert!(!is_valid_date(2023, 13, 1));
    assert!(!is_valid_date(2023, 0, 1));
    assert!(!is_valid_date(2023, 4, 31));
    assert!(!is_valid_date(2023, 4, 0));
    assert!(!is_valid_date(1900, 2, 29));
}

#[test]
fn dates_are_normalized() {
    assert_eq!(iso_date("24.03.2026"), text("2026-03-24"));
    assert_eq!(iso_date("2026-03-24"), text("2026-03-24"));
    assert_eq!(iso_date("1.2.7"), text("0007-02-01"));
    assert_eq!(iso_date("1.2.12345"), text("12345-02-01"));
    assert_eq!(iso_date("nothing"), Value::Null);
    assert_eq!(get_date("2024-03-15T08:30:00Z"), text("2024-03-15"));
    assert_eq!(get_date("yesterday"), Value::Null);
    assert_eq!(get_date(""), Value::Null);
    assert_eq!(get_date(" 2024-02-29 "), text("2024-02-29"));
    assert_eq!(get_date("24.03.2026"), Value::Null);
    assert_eq!(get_date("24.03.2026T08:30:00Z"), Value::Null);
    assert_eq!(get_date("2026-3-4"), Value::Null);
    assert_eq!(get_date("24-03-2026"), Value::Null);
    assert_eq!(get_date("+026-03-24"), Value::Null);
    assert_eq!(get_date("2023-02-29T00:00:00Z"), Value::Null);
}

#[test]
fn earliest_and_latest_dates_are_found() {
    let values = list(r#"[["2024-05-01", "01.02.2023"], "2023-02-01T10:00", 5, "x"]"#);
    assert_eq!(min_date(&values), text("01.02.2023"));
    assert_eq!(max_date(&values), text("2024-05-01"));
    assert_eq!(min_date(&list("[1, null]")), Value::Null);
}

#[test]
fn days_are_added_to_dates() {
    assert_eq!(add_date("2024-02-28", 2), text("2024-03-01"));
    assert_eq!(add_date("2024-03-01", -1), text("2024-02-29"));
    assert_eq!(add_date("2024-03-01", 0), text("2024-03-01"));
    assert_eq!(add_date("01.03.2024", 1), Value::Null);
    assert_eq!(add_date("2024-03-01", i64::MAX), Value::Null);
    assert_eq!(done("ADD_DATE", list(r#"["2023-12-31", 1]"#)), text("2024-01-01"));
}

#[test]
fn function_names_ignore_case_and_underscores() {
    assert_eq!(fn_info_for_call("zip_rows", 1), Some(Function::ZipRows));
    assert_eq!(fn_info_for_call("ZipRows", 1), Some(Function::ZipRows));
    assert_eq!(fn_info_for_call("ZIPROWS", 2), None);
    assert_eq!(fn_info_for_call("ZIPROWSX", 1), None);
    assert_eq!(fn_info_for_call("d\u{131}st\u{131}nct", 0), Some(Function::Distinct));
    assert_eq!(fn_info_for_call("GET", 1), Some(Function::Open));
    assert_eq!(fn_info_for_call("OPEN", 1), Some(Function::Open));
    assert_eq!(fn_info_for_call("GET", 2), Some(Function::Field));
}

#[test]
fn wrong_argument_types_give_null() {
    for (name, arguments) in [
        ("CEIL", r#"["1"]"#),
        ("FLOOR", "[null]"),
        ("ISODATE", "[1]"),
        ("GETDATE", "[1]"),
        ("AT", "[1, 0]"),
        ("JOINROWS", "[{}, 1]"),
        ("JOINSTRING", "[[], 1]"),
        ("SOFTMAX", r#"[["x"]]"#),
        ("L2", "[1]"),
        ("SUBTRACT", r#"[1, "2"]"#),
        ("RANDOM_STRING", "[-1]"),
        ("COLOR", "[1.5]"),
        ("NN", "[[], [[1]], 1]"),
        ("TO_NUMBER", "[null]"),
    ] {
        assert_eq!(done(name, list(arguments)), Value::Null);
    }
}

#[test]
fn to_number_gives_a_double() {
    assert_eq!(double(&done("TO_NUMBER", list("[5]"))), 5.0);
    assert_eq!(double(&done("TO_NUMBER", list("[-5]"))), -5.0);
    assert_eq!(double(&done("TO_NUMBER", list("[18446744073709551615]"))), 18446744073709551615.0);
    assert_eq!(double(&done("TO_NUMBER", list("[9007199254740993]"))), 9007199254740992.0);
}
