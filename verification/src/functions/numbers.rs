//! Functions on numbers.
use vstd::prelude::*;
use crate::json::{flatten, flattened};
use crate::number::{ceil_bits, ceil_of, compact_num, compact_number, double_key, floor_bits, floor_of, num_bits, num_text, number_bits, number_text, order_key, saturated, to_double};
use crate::text::{chars_of, has_char, lemma_texts_push, texts, trim_text, trimmed};
use crate::value::{double_of_text, finite_bits, jsons, reads_as_double, Json, Number, Real, Value};

verus! {

/// The text with every comma made a point.
pub open spec fn points_for_commas(text: Seq<char>) -> Seq<char> {
    Seq::new(text.len(), |i: int| if text[i] == ',' { '.' } else { text[i] })
}

/// The text that a localised number is read from: white space at the ends is dropped, and a
/// comma counts as the decimal point where the text has no point.
pub open spec fn localised(text: Seq<char>) -> Seq<char> {
    let inner = trimmed(text);
    if inner.contains(',') && !inner.contains('.') {
        points_for_commas(inner)
    } else {
        inner
    }
}

/// The finite double that a text stands for.
pub open spec fn localised_bits(text: Seq<char>) -> Option<u64> {
    if trimmed(text).len() == 0 {
        None
    } else {
        match double_of_text(localised(text)) {
            Some(bits) => if finite_bits(bits) {
                Some(bits)
            } else {
                None
            },
            None => None,
        }
    }
}

fn replace_commas(text: &str) -> (result: String)
    ensures
        result@ == points_for_commas(text@),
{
    let chars = chars_of(text);
    let mut result = String::new();
    let mut i: usize = 0;
    assert(result@ =~= points_for_commas(text@).take(0));
    while i < chars.len()
        invariant
            i <= chars.len(),
            chars@ == text@,
            result@ == points_for_commas(text@).take(i as int),
        decreases chars.len() - i,
    {
        if chars[i] == ',' {
            result.push('.');
        } else {
            result.push(chars[i]);
        }
        i = i + 1;
        assert(result@ =~= points_for_commas(text@).take(i as int));
    }
    assert(result@ =~= points_for_commas(text@));
    result
}

/// Reads a number that may be written with a decimal comma.
pub fn parse_localised_number(text: &str) -> (number: Option<Real>)
    ensures
        number is Some <==> localised_bits(text@) is Some,
        number matches Some(n) ==> n@ == localised_bits(text@)->0,
{
    let inner = trim_text(text);
    if inner.as_str().is_empty() {
        return None;
    }
    if has_char(inner.as_str(), ',') && !has_char(inner.as_str(), '.') {
        Real::read(replace_commas(inner.as_str()).as_str())
    } else {
        Real::read(inner.as_str())
    }
}

/// The bits of the number that a value stands for.
pub open spec fn bits_of_value(value: Json) -> Option<int> {
    match value {
        Json::Number(n) => Some(num_bits(n)),
        Json::Text(s) => match localised_bits(s) {
            Some(bits) => Some(bits as int),
            None => None,
        },
        _ => None,
    }
}

/// The number that a value stands for: a number, or a text that is read as one.
pub fn to_number(value: &Value) -> (number: Option<Real>)
    ensures
        number is Some <==> bits_of_value(value@) is Some,
        number matches Some(n) ==> n@ == bits_of_value(value@)->0,
{
    match value {
        Value::Number(n) => Some(to_double(n)),
        Value::String(s) => parse_localised_number(s.as_str()),
        _ => None,
    }
}

/// The smallest integer that is not below a number, saturated to 64 bits.
pub fn ceil(value: &Number) -> (result: i64)
    ensures
        result == saturated(ceil_of(num_bits(value@) as u64)),
{
    ceil_bits(number_bits(value))
}

/// The largest integer that is not above a number, saturated to 64 bits.
pub fn floor(value: &Number) -> (result: i64)
    ensures
        result == saturated(floor_of(num_bits(value@) as u64)),
{
    floor_bits(number_bits(value))
}

/// The bits of the first smallest number among the values that stand for one.
pub open spec fn smallest(values: Seq<Json>) -> Option<int>
    decreases values.len(),
{
    if values.len() == 0 {
        None
    } else {
        let earlier = smallest(values.drop_last());
        match (earlier, bits_of_value(values.last())) {
            (None, found) => found,
            (Some(best), None) => Some(best),
            (Some(best), Some(found)) => if order_key(found as u64) < order_key(best as u64) {
                Some(found)
            } else {
                Some(best)
            },
        }
    }
}

/// The smallest number among the items of the values; null where there is none.
pub open spec fn min_of(values: Seq<Json>) -> Json {
    match smallest(flattened(values)) {
        Some(bits) => Json::Number(compact_num(bits as u64)),
        None => Json::Null,
    }
}

/// The smallest number among the items of the values.
pub fn min(values: &Vec<Value>) -> (output: Value)
    ensures
        output@ == min_of(jsons(values@)),
{
    let items = flatten(values);
    let ghost all = jsons(items@);
    let mut best: Option<Real> = None;
    let mut i: usize = 0;
    assert(all.take(0) =~= Seq::empty());
    while i < items.len()
        invariant
            i <= items.len(),
            all == jsons(items@),
            best is Some <==> smallest(all.take(i as int)) is Some,
            best matches Some(b) ==> b@ == smallest(all.take(i as int))->0,
        decreases items.len() - i,
    {
        assert(all.take(i + 1).drop_last() =~= all.take(i as int));
        assert(all.take(i + 1).last() == items@[i as int]@);
        match to_number(&items[i]) {
            Some(found) => {
                let smaller = match &best {
                    Some(current) => double_key(found.bits()) < double_key(current.bits()),
                    None => true,
                };
                if smaller {
                    best = Some(found);
                }
            },
            None => {},
        }
        i = i + 1;
    }
    assert(all.take(i as int) =~= all);
    match best {
        Some(number) => Value::Number(compact_number(&number)),
        None => Value::Null,
    }
}

/// The text of the addend that a value contributes to a sum: a number, a text that is read as
/// one, or zero.
pub open spec fn addend_of(value: Json) -> Seq<char> {
    match value {
        Json::Number(n) => num_text(n),
        Json::Text(s) => if double_of_text(s) is Some {
            s
        } else {
            "0"@
        },
        _ => "0"@,
    }
}

/// The texts of the addends of a sum.
pub open spec fn addends_of(values: Seq<Json>) -> Seq<Seq<char>> {
    Seq::new(flattened(values).len(), |i: int| addend_of(flattened(values)[i]))
}

/// The texts of the addends of a sum, in order.
pub fn sum_addends(values: &Vec<Value>) -> (addends: Vec<String>)
    ensures
        texts(addends@) == addends_of(jsons(values@)),
{
    let items = flatten(values);
    let ghost whole = addends_of(jsons(values@));
    let mut addends: Vec<String> = Vec::new();
    let mut i: usize = 0;
    assert(texts(addends@) =~= whole.take(0));
    while i < items.len()
        invariant
            i <= items.len(),
            jsons(items@) == flattened(jsons(values@)),
            whole == addends_of(jsons(values@)),
            texts(addends@) == whole.take(i as int),
        decreases items.len() - i,
    {
        assert(jsons(items@)[i as int] == items@[i as int]@);
        let addend = match &items[i] {
            Value::Number(n) => number_text(n),
            Value::String(s) => if reads_as_double(s.as_str()) {
                s.clone()
            } else {
                "0".to_owned()
            },
            _ => "0".to_owned(),
        };
        proof {
            lemma_texts_push(addends@, addend);
        }
        addends.push(addend);
        assert(whole.take(i + 1) =~= whole.take(i as int).push(whole[i as int]));
        i = i + 1;
    }
    assert(whole.take(i as int) =~= whole);
    addends
}

/// A computed number as a result: an integer where it stands for one, null where it is none.
pub open spec fn compacted(value: Json) -> Json {
    match value {
        Json::Number(n) => Json::Number(compact_num(num_bits(n) as u64)),
        _ => Json::Null,
    }
}

/// A computed number as a result.
pub fn json_number_value(value: &Value) -> (output: Value)
    ensures
        output@ == compacted(value@),
{
    match value {
        Value::Number(n) => Value::Number(compact_number(&to_double(n))),
        _ => Value::Null,
    }
}

} // verus!
