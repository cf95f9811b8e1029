//! JSON texts, equality, truth and the textual form of values.
use serde_json::Value as SerdeJson;
use vstd::prelude::*;
use crate::number::{is_nonzero, nonzero, num_text, number_text};
use crate::value::{jsons, lemma_array_json, Json, Num, Number, Object, Real, Value};

verus! {

broadcast use lemma_array_json;

/// The value that `serde_json::from_str` reads from a text, if the text is valid JSON.
pub uninterp spec fn json_of_text(text: Seq<char>) -> Option<Json>;

/// The compact text that `serde_json` writes for a value.
pub uninterp spec fn text_of_json(value: Json) -> Seq<char>;

/// Turns a value of `serde_json` into a value of this crate, variant by variant. Nothing is
/// claimed of it here: its callers state what they hand out.
#[verifier::external_body]
fn from_serde(value: &SerdeJson) -> (converted: Value) {
    match value {
        SerdeJson::Null => Value::Null,
        SerdeJson::Bool(b) => Value::Bool(*b),
        SerdeJson::Number(_) => Value::Number(number_from_serde(value)),
        SerdeJson::String(s) => Value::String(s.to_owned()),
        SerdeJson::Array(a) => Value::Array(a.iter().map(from_serde).collect()),
        SerdeJson::Object(o) => Value::Object(o.iter().fold(Object::new(), |mut object, (key, member)| {
            object.insert(key.to_owned(), from_serde(member));
            object
        })),
    }
}

/// Turns a number of `serde_json` into a number of this crate, variant by variant. Nothing is
/// claimed of it here: its caller states what it hands out.
#[verifier::external_body]
fn number_from_serde(number: &SerdeJson) -> (converted: Number) {
    match (number.as_u64(), number.as_i64()) {
        (Some(n), _) => Number::PosInt(n),
        (None, Some(n)) => Number::NegInt(n),
        (None, None) => Number::Float(Real::read(&number.to_string()).unwrap()),
    }
}

/// Turns a number of this crate into a number of `serde_json`, variant by variant. Nothing is
/// claimed of it here: its caller states what it hands out.
#[verifier::external_body]
fn number_to_serde(number: &Number) -> (converted: SerdeJson) {
    match number {
        Number::PosInt(n) => SerdeJson::from(*n),
        Number::NegInt(n) => SerdeJson::from(*n),
        Number::Float(r) => match r.json_text().parse().ok().and_then(serde_json::Number::from_f64) {
            Some(n) => SerdeJson::Number(n),
            None => SerdeJson::Null,
        },
    }
}

/// Turns a value of this crate into a value of `serde_json`, variant by variant. Nothing is
/// claimed of it here: its caller states what it hands out.
#[verifier::external_body]
fn to_serde(value: &Value) -> (converted: SerdeJson) {
    match value {
        Value::Null => SerdeJson::Null,
        Value::Bool(b) => SerdeJson::Bool(*b),
        Value::Number(n) => number_to_serde(n),
        Value::String(s) => SerdeJson::from(s.as_str()),
        Value::Array(a) => SerdeJson::Array(a.iter().map(to_serde).collect()),
        Value::Object(o) => (0..o.len()).map(|i| (o.key_at(i).to_owned(), to_serde(o.value_at(i)))).collect(),
    }
}

/// An outside JSON value, carried between the conversions and the calls of `serde_json`.
#[verifier::external_type_specification]
#[verifier::external_body]
pub struct ExSerdeJson(SerdeJson);

/// Reads a JSON text with `serde_json::from_str`. The result is the value that it reads, or
/// `None` where it reports an error.
#[verifier::external_body]
pub(crate) fn read_json(text: &str) -> (value: Option<Value>)
    ensures
        value is Some <==> json_of_text(text@) is Some,
        value matches Some(v) ==> v@ == json_of_text(text@)->0,
{
    serde_json::from_str::<SerdeJson>(text).ok().map(|value| from_serde(&value))
}

/// Writes a value as compact JSON text, as the `Display` of `serde_json::Value` does.
#[verifier::external_body]
pub(crate) fn write_json(value: &Value) -> (text: String)
    ensures
        text@ == text_of_json(value@),
{
    to_serde(value).to_string()
}

/// The compact JSON text of a value.
pub fn json_text(value: &Value) -> (text: String)
    ensures
        text@ == text_of_json(value@),
{
    write_json(value)
}

/// Equality of numbers: integers by value, doubles by value (so the two zeros are equal), an
/// integer never equal to a double.
pub open spec fn same_num(a: Num, b: Num) -> bool {
    match (a, b) {
        (Num::PosInt(m), Num::PosInt(n)) => m == n,
        (Num::NegInt(m), Num::NegInt(n)) => m == n,
        (Num::Float(m), Num::Float(n)) => m == n || (m % 0x8000_0000_0000_0000 == 0 && n
            % 0x8000_0000_0000_0000 == 0),
        _ => false,
    }
}

/// Equality of values, deep.
pub open spec fn same_json(a: Json, b: Json) -> bool
    decreases a,
{
    match (a, b) {
        (Json::Null, Json::Null) => true,
        (Json::Bool(x), Json::Bool(y)) => x == y,
        (Json::Number(x), Json::Number(y)) => same_num(x, y),
        (Json::Text(x), Json::Text(y)) => x == y,
        (Json::Array(x), Json::Array(y)) => x.len() == y.len() && same_items(x, y),
        (Json::Object(x), Json::Object(y)) => x.len() == y.len() && same_members(x, y),
        _ => false,
    }
}

/// Equality of the items of two lists of one length.
pub open spec fn same_items(a: Seq<Json>, b: Seq<Json>) -> bool
    decreases a,
{
    if a.len() == 0 {
        true
    } else {
        same_items(a.drop_last(), b.drop_last()) && same_json(a.last(), b.last())
    }
}

/// Equality of the members of two objects of one size.
pub open spec fn same_members(a: Seq<(Seq<char>, Json)>, b: Seq<(Seq<char>, Json)>) -> bool
    decreases a,
{
    if a.len() == 0 {
        true
    } else {
        same_members(a.drop_last(), b.drop_last()) && a.last().0 == b.last().0 && same_json(a.last().1, b.last().1)
    }
}

/// Every value equals itself.
pub proof fn lemma_same_json_reflexive(a: Json)
    ensures
        same_json(a, a),
    decreases a,
{
    match a {
        Json::Array(x) => lemma_same_items_reflexive(x),
        Json::Object(x) => lemma_same_members_reflexive(x),
        _ => {},
    }
}

proof fn lemma_same_items_reflexive(a: Seq<Json>)
    ensures
        same_items(a, a),
    decreases a,
{
    if a.len() > 0 {
        lemma_same_items_reflexive(a.drop_last());
        lemma_same_json_reflexive(a.last());
    }
}

proof fn lemma_same_members_reflexive(a: Seq<(Seq<char>, Json)>)
    ensures
        same_members(a, a),
    decreases a,
{
    if a.len() > 0 {
        lemma_same_members_reflexive(a.drop_last());
        lemma_same_json_reflexive(a.last().1);
    }
}

/// Equality goes both ways.
pub proof fn lemma_same_json_symmetric(a: Json, b: Json)
    ensures
        same_json(a, b) == same_json(b, a),
    decreases a,
{
    match (a, b) {
        (Json::Array(x), Json::Array(y)) => if x.len() == y.len() {
            lemma_same_items_symmetric(x, y);
        },
        (Json::Object(x), Json::Object(y)) => if x.len() == y.len() {
            lemma_same_members_symmetric(x, y);
        },
        _ => {},
    }
}

proof fn lemma_same_items_symmetric(a: Seq<Json>, b: Seq<Json>)
    requires
        a.len() == b.len(),
    ensures
        same_items(a, b) == same_items(b, a),
    decreases a,
{
    if a.len() > 0 {
        lemma_same_items_symmetric(a.drop_last(), b.drop_last());
        lemma_same_json_symmetric(a.last(), b.last());
    }
}

proof fn lemma_same_members_symmetric(a: Seq<(Seq<char>, Json)>, b: Seq<(Seq<char>, Json)>)
    requires
        a.len() == b.len(),
    ensures
        same_members(a, b) == same_members(b, a),
    decreases a,
{
    if a.len() > 0 {
        lemma_same_members_symmetric(a.drop_last(), b.drop_last());
        lemma_same_json_symmetric(a.last().1, b.last().1);
    }
}

/// Values that equal the same value equal each other.
pub proof fn lemma_same_json_transitive(a: Json, b: Json, c: Json)
    requires
        same_json(a, b),
        same_json(b, c),
    ensures
        same_json(a, c),
    decreases a,
{
    match (a, b, c) {
        (Json::Array(x), Json::Array(y), Json::Array(z)) => lemma_same_items_transitive(x, y, z),
        (Json::Object(x), Json::Object(y), Json::Object(z)) => lemma_same_members_transitive(x, y, z),
        _ => {},
    }
}

proof fn lemma_same_items_transitive(a: Seq<Json>, b: Seq<Json>, c: Seq<Json>)
    requires
        a.len() == b.len() == c.len(),
        same_items(a, b),
        same_items(b, c),
    ensures
        same_items(a, c),
    decreases a,
{
    if a.len() > 0 {
        lemma_same_items_transitive(a.drop_last(), b.drop_last(), c.drop_last());
        lemma_same_json_transitive(a.last(), b.last(), c.last());
    }
}

proof fn lemma_same_members_transitive(a: Seq<(Seq<char>, Json)>, b: Seq<(Seq<char>, Json)>, c: Seq<(Seq<char>, Json)>)
    requires
        a.len() == b.len() == c.len(),
        same_members(a, b),
        same_members(b, c),
    ensures
        same_members(a, c),
    decreases a,
{
    if a.len() > 0 {
        lemma_same_members_transitive(a.drop_last(), b.drop_last(), c.drop_last());
        lemma_same_json_transitive(a.last().1, b.last().1, c.last().1);
    }
}

fn numbers_same(a: &Number, b: &Number) -> (same: bool)
    ensures
        same == same_num(a@, b@),
{
    match (a, b) {
        (Number::PosInt(m), Number::PosInt(n)) => *m == *n,
        (Number::NegInt(m), Number::NegInt(n)) => *m == *n,
        (Number::Float(m), Number::Float(n)) => {
            let (x, y) = (m.bits(), n.bits());
            x == y || (x % 0x8000_0000_0000_0000 == 0 && y % 0x8000_0000_0000_0000 == 0)
        },
        _ => false,
    }
}

/// Whether two values are equal, deep.
pub fn values_same(a: &Value, b: &Value) -> (same: bool)
    ensures
        same == same_json(a@, b@),
    decreases a,
{
    match (a, b) {
        (Value::Null, Value::Null) => true,
        (Value::Bool(x), Value::Bool(y)) => *x == *y,
        (Value::Number(x), Value::Number(y)) => numbers_same(x, y),
        (Value::String(x), Value::String(y)) => *x == *y,
        (Value::Array(x), Value::Array(y)) => lists_same(x, y),
        (Value::Object(x), Value::Object(y)) => objects_same(x, y),
        _ => false,
    }
}

fn lists_same(a: &Vec<Value>, b: &Vec<Value>) -> (same: bool)
    ensures
        same == (a@.len() == b@.len() && same_items(jsons(a@), jsons(b@))),
    decreases a,
{
    if a.len() != b.len() {
        return false;
    }
    let ghost (x, y) = (jsons(a@), jsons(b@));
    let mut i: usize = a.len();
    assert(x.take(i as int) =~= x && y.take(i as int) =~= y);
    while i > 0
        invariant
            i <= a.len(),
            a.len() == b.len(),
            x == jsons(a@),
            y == jsons(b@),
            same_items(x, y) == same_items(x.take(i as int), y.take(i as int)),
        decreases i,
    {
        i = i - 1;
        assert(x.take(i + 1).drop_last() =~= x.take(i as int));
        assert(y.take(i + 1).drop_last() =~= y.take(i as int));
        assert(decreases_to!(a => a@[i as int]));
        if !values_same(&a[i], &b[i]) {
            return false;
        }
    }
    true
}

fn objects_same(a: &Object, b: &Object) -> (same: bool)
    ensures
        same == (a@.len() == b@.len() && same_members(a@, b@)),
    decreases a,
{
    if a.len() != b.len() {
        return false;
    }
    let mut i: usize = a.len();
    assert(a@.take(i as int) =~= a@ && b@.take(i as int) =~= b@);
    while i > 0
        invariant
            i <= a@.len(),
            a@.len() == b@.len(),
            same_members(a@, b@) == same_members(a@.take(i as int), b@.take(i as int)),
        decreases i,
    {
        i = i - 1;
        assert(a@.take(i + 1).drop_last() =~= a@.take(i as int));
        assert(b@.take(i + 1).drop_last() =~= b@.take(i as int));
        let (left, right) = (a.value_at(i), b.value_at(i));
        if *a.key_at(i) != *b.key_at(i) || !values_same(left, right) {
            return false;
        }
    }
    true
}

/// Whether a value counts as true.
pub open spec fn truthy(value: Json) -> bool {
    match value {
        Json::Null => false,
        Json::Bool(b) => b,
        Json::Number(n) => nonzero(n),
        Json::Text(s) => s.len() > 0,
        Json::Array(a) => a.len() > 0,
        Json::Object(o) => o.len() > 0,
    }
}

/// Whether a value counts as true.
pub fn value_truthy(value: &Value) -> (answer: bool)
    ensures
        answer == truthy(value@),
{
    match value {
        Value::Null => false,
        Value::Bool(b) => *b,
        Value::Number(n) => is_nonzero(n),
        Value::String(s) => !s.as_str().is_empty(),
        Value::Array(a) => a.len() > 0,
        Value::Object(o) => !o.is_empty(),
    }
}

/// The textual form of a value: a string as it is, null as nothing, all else as JSON.
pub open spec fn display(value: Json) -> Seq<char> {
    match value {
        Json::Text(s) => s,
        Json::Null => Seq::empty(),
        Json::Number(n) => num_text(n),
        Json::Bool(b) => if b {
            "true"@
        } else {
            "false"@
        },
        _ => text_of_json(value),
    }
}

/// The textual form of a value: a string as it is, null as nothing, all else as JSON.
pub fn value_to_string(value: &Value) -> (text: String)
    ensures
        text@ == display(value@),
{
    match value {
        Value::String(s) => s.clone(),
        Value::Null => String::new(),
        Value::Number(n) => number_text(n),
        Value::Bool(b) => if *b {
            "true".to_owned()
        } else {
            "false".to_owned()
        },
        _ => write_json(value),
    }
}

/// The items of an array, or the one value that is not an array.
pub open spec fn items_of(value: Json) -> Seq<Json> {
    match value {
        Json::Array(items) => items,
        _ => seq![value],
    }
}

/// The items of all values, arrays opened one level.
pub open spec fn flattened(values: Seq<Json>) -> Seq<Json>
    decreases values.len(),
{
    if values.len() == 0 {
        Seq::empty()
    } else {
        flattened(values.drop_last()) + items_of(values.last())
    }
}

/// Appends the items of a value.
pub fn push_items(items: &mut Vec<Value>, value: &Value)
    ensures
        jsons(final(items)@) == jsons(old(items)@) + items_of(value@),
{
    match value {
        Value::Array(values) => {
            let ghost before = items@;
            let mut i: usize = 0;
            assert(jsons(items@) =~= jsons(before) + jsons(values@).take(0));
            while i < values.len()
                invariant
                    i <= values.len(),
                    jsons(items@) == jsons(before) + jsons(values@).take(i as int),
                decreases values.len() - i,
            {
                let copy = values[i].copy();
                let ghost held = items@;
                items.push(copy);
                i = i + 1;
                assert(jsons(items@) =~= jsons(held).push(copy@));
                assert(jsons(values@).take(i as int) =~= jsons(values@).take(i - 1).push(values@[i - 1]@));
                assert(jsons(items@) =~= jsons(before) + jsons(values@).take(i as int));
            }
            assert(jsons(values@).take(i as int) =~= jsons(values@));
        },
        _ => {
            let copy = value.copy();
            items.push(copy);
            assert(jsons(items@) =~= jsons(old(items)@) + seq![value@]);
        },
    }
}

/// The items of all values, arrays opened one level.
pub fn flatten(values: &Vec<Value>) -> (items: Vec<Value>)
    ensures
        jsons(items@) == flattened(jsons(values@)),
{
    let mut items: Vec<Value> = Vec::new();
    let ghost all = jsons(values@);
    let mut i: usize = 0;
    assert(jsons(items@) =~= flattened(all.take(0)));
    while i < values.len()
        invariant
            i <= values.len(),
            all == jsons(values@),
            jsons(items@) == flattened(all.take(i as int)),
        decreases values.len() - i,
    {
        push_items(&mut items, &values[i]);
        i = i + 1;
        assert(all.take(i as int).drop_last() =~= all.take(i - 1));
    }
    assert(all.take(i as int) =~= all);
    items
}

} // verus!
