use quickql::functions::common::parse_json;
use quickql::json::{json_text, value_to_string, value_truthy, values_same};
use quickql::number::{nearest_double, number_bits, number_key};
use quickql::order::{compare_values, Order};
use quickql::parser::parse_number;
use quickql::paths::{assign_output, follow_reference, get_path, set_path};
use quickql::text::{
    decimal_text, lower_text, normalized_function_name, path_parts, same_ignoring_case, split_text,
    text_less, trim_text,
};
use quickql::value::{Number, Object, Value};

fn json(text: &str) -> Value {
    parse_json(text)
}

fn path(parts: &[&str]) -> Vec<String> {
    parts.iter().map(|part| part.to_string()).collect()
}

#[test]
fn objects_keep_their_keys_in_order() {
    let mut object = Object::new();
    for key in ["b", "a", "c", "b"] {
        object.insert(key.to_owned(), Value::String(key.to_uppercase()));
    }
    assert_eq!(object.len(), 3);
    assert_eq!((0..3).map(|i| object.key_at(i).as_str()).collect::<Vec<_>>(), ["a", "b", "c"]);
    assert_eq!(object.get("b"), Some(&Value::String("B".to_owned())));
    object.remove("b");
    object.remove("x");
    assert!(object.get("b").is_none());
    assert_eq!(json_text(&Value::Object(object)), r#"{"a":"A","c":"C"}"#);
}

#[test]
fn whole_numbers_become_the_nearest_doubles() {
    for n in [
        0,
        1,
        2,
        3,
        1000,
        (1 << 53) - 1,
        1 << 53,
        (1 << 53) + 1,
        (1 << 53) + 2,
        (1 << 53) + 3,
        u64::MAX,
        u64::MAX - 1024,
        u64::MAX - 1023,
        0x8000_0000_0000_0400,
        0x8000_0000_0000_0401,
        0x8000_0000_0000_0c00,
        123456789012345678,
    ] {
        assert_eq!(nearest_double(n), (n as f64).to_bits());
    }
    for n in [-1i64, -5, i64::MIN, -9007199254740993] {
        assert_eq!(number_bits(&Number::NegInt(n)), (n as f64).to_bits());
    }
}

#[test]
fn number_keys_follow_the_order_of_doubles() {
    let texts = ["-1e300", "-2", "-1.5", "-0.0", "0", "5e-324", "0.1", "1", "1.5", "2", "1e300"];
    let numbers: Vec<Number> = texts
        .iter()
        .map(|text| match json(text) {
            Value::Number(number) => number,
            other => panic!("not a number: {other:?}"),
        })
        .collect();
    for pair in numbers.windows(2) {
        assert!(number_key(&pair[0]) <= number_key(&pair[1]));
    }
    assert_eq!(number_key(&numbers[3]), number_key(&numbers[4]));
    assert!(number_key(&numbers[4]) < number_key(&numbers[5]));
}

#[test]
fn numerals_are_read_as_integers_or_doubles() {
    assert_eq!(parse_number("9223372036854775807"), Value::Number(Number::PosInt(i64::MAX as u64)));
    assert_eq!(parse_number("-9223372036854775808"), Value::Number(Number::NegInt(i64::MIN)));
    for (text, double) in [("9223372036854775808", 9223372036854775808.0), ("2.50", 2.5), ("-0.0", -0.0), ("1e300", 1e300)] {
        match parse_number(text) {
            Value::Number(Number::Float(real)) => assert_eq!(real.bits(), f64::to_bits(double)),
            other => panic!("not a double: {other:?}"),
        }
    }
    assert_eq!(parse_number("x"), Value::Null);
    assert_eq!(parse_number("1e999"), Value::Null);
    assert_eq!(parse_number("NaN"), Value::Null);
    assert_eq!(json("18446744073709551615"), Value::Number(Number::PosInt(u64::MAX)));
    assert!(matches!(json("18446744073709551616"), Value::Number(Number::Float(_))));
}

#[test]
fn values_are_ordered_by_type_then_value() {
    let ordered = json(r#"[null, false, true, -3, 0.5, 7, "A", "a", "ab", [], {}]"#);
    let Value::Array(values) = ordered else {
        panic!("an array");
    };
    for (i, a) in values.iter().enumerate() {
        for (j, b) in values.iter().enumerate() {
            let expected = if i < j {
                Order::Less
            } else if i == j {
                Order::Equal
            } else {
                Order::Greater
            };
            assert_eq!(compare_values(a, b), expected);
        }
    }
    assert_eq!(compare_values(&json("[1]"), &json("[2]")), Order::Equal);
    assert_eq!(compare_values(&json("2"), &json("2.0")), Order::Equal);
}

#[test]
fn paths_are_read_and_written() {
    let value = json(r#"{"a": {"b": {"c": 1}}, "x": [1]}"#);
    assert_eq!(get_path(&value, &path(&["a", "b", "c"])), json("1"));
    assert_eq!(get_path(&value, &path(&["a", "z", "c"])), Value::Null);
    assert_eq!(get_path(&value, &path(&["x", "0"])), Value::Null);
    assert_eq!(get_path(&value, &path(&[])), value);
    let mut object = Object::new();
    set_path(&mut object, &path(&["a", "b"]), json("1"));
    set_path(&mut object, &path(&["a", "c"]), json("2"));
    set_path(&mut object, &path(&["a", "b", "d"]), json("3"));
    set_path(&mut object, &path(&[]), json("4"));
    assert_eq!(Value::Object(object), json(r#"{"a": {"b": {"d": 3}, "c": 2}}"#));
    assert_eq!(follow_reference(&value, &path(&["$", "a", "$", "b"])), json(r#"{"c": 1}"#));
    assert_eq!(follow_reference(&value, &path(&["$"])), value);
    assert_eq!(follow_reference(&value, &path(&["q"])), Value::Null);
}

#[test]
fn outputs_are_assigned_whole_or_by_column() {
    let mut output = json("5");
    assign_output(&mut output, &path(&["a", "b"]), json("1"));
    assert_eq!(output, json(r#"{"a": {"b": 1}}"#));
    assign_output(&mut output, &path(&["$"]), json("[1]"));
    assert_eq!(output, json("[1]"));
}

#[test]
fn texts_are_compared_trimmed_and_cut() {
    assert!(text_less("", "a") && text_less("a", "ab") && text_less("Z", "a") && text_less("z", "ä"));
    assert!(!text_less("a", "a") && !text_less("b", "a"));
    assert_eq!(trim_text(" \t\u{a0}x y\u{3000}\n"), "x y");
    assert_eq!(trim_text("  "), "");
    assert_eq!(split_text("a..b.", '.'), ["a", "", "b", ""]);
    assert_eq!(split_text("", '.'), [""]);
    assert_eq!(path_parts(".a..b."), ["a", "b"]);
    assert_eq!(lower_text("ÄbC"), "Äbc");
    assert!(same_ignoring_case("CSV", "csv") && !same_ignoring_case("Ä", "ä"));
    assert_eq!(normalized_function_name("to_Number"), "TONUMBER");
    assert_eq!(normalized_function_name("stra\u{df}e"), "STRASSE");
    assert_eq!(decimal_text(-1203), "-1203");
    assert_eq!(decimal_text(0), "0");
}

#[test]
fn values_have_a_textual_form_and_a_truth() {
    assert_eq!(value_to_string(&json("\"x\"")), "x");
    assert_eq!(value_to_string(&Value::Null), "");
    assert_eq!(value_to_string(&json("1.50")), "1.5");
    assert_eq!(value_to_string(&json("1e100")), "1e+100");
    assert_eq!(value_to_string(&json("true")), "true");
    assert_eq!(value_to_string(&json("[1, \"a\"]")), "[1,\"a\"]");
    assert!(value_truthy(&json("-1")) && !value_truthy(&json("-0.0")));
    assert!(values_same(&json("[0.0]"), &json("[-0.0]")));
    assert!(!values_same(&json("{\"a\": 1}"), &json("{\"a\": 1, \"b\": 2}")));
}
