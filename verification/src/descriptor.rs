//! The shape of rows: which keys they have, and which keys below them.
use vstd::prelude::*;
use crate::text::texts;
use crate::value::{jsons, keys_ascending, lemma_insert_ascending, obj_get, obj_insert, Json, Object, Value};

verus! {

/// The keys of values: none, or an object that holds for each key the object of the keys below
/// it, or null.
#[derive(Debug, PartialEq)]
pub enum KeyDescriptor {
    Value,
    Object(Object),
}

/// Rows together with their shape.
#[derive(Debug, PartialEq)]
pub struct QueryResult {
    pub columns: KeyDescriptor,
    pub rows: Vec<Value>,
}

/// The shape of a value: for an object the shapes of its members, else null.
pub open spec fn shape_of(value: Json) -> Json
    decreases value,
{
    match value {
        Json::Object(members) => Json::Object(shape_members(members)),
        _ => Json::Null,
    }
}

/// The shapes of members.
pub open spec fn shape_members(members: Seq<(Seq<char>, Json)>) -> Seq<(Seq<char>, Json)>
    decreases members,
{
    if members.len() == 0 {
        Seq::empty()
    } else {
        obj_insert(shape_members(members.drop_last()), members.last().0, shape_of(members.last().1))
    }
}

/// A shape that also covers a value: below an object only where both are objects.
pub open spec fn merge_shape(shape: Json, value: Json) -> Json
    decreases value,
{
    match (shape, value) {
        (Json::Object(fields), Json::Object(members)) => Json::Object(merge_fields(fields, members)),
        _ => Json::Null,
    }
}

/// The shapes of fields that also cover the members of an object.
pub open spec fn merge_fields(fields: Seq<(Seq<char>, Json)>, members: Seq<(Seq<char>, Json)>) -> Seq<
    (Seq<char>, Json),
>
    decreases members,
{
    if members.len() == 0 {
        fields
    } else {
        let earlier = merge_fields(fields, members.drop_last());
        let (key, value) = members.last();
        match obj_get(earlier, key) {
            Some(shape) => obj_insert(earlier, key, merge_shape(shape, value)),
            None => obj_insert(earlier, key, shape_of(value)),
        }
    }
}

/// The fields of all rows that are objects.
pub open spec fn fields_of_rows(rows: Seq<Json>) -> Seq<(Seq<char>, Json)>
    decreases rows.len(),
{
    if rows.len() == 0 {
        Seq::empty()
    } else {
        match rows.last() {
            Json::Object(members) => merge_fields(fields_of_rows(rows.drop_last()), members),
            _ => fields_of_rows(rows.drop_last()),
        }
    }
}

impl View for KeyDescriptor {
    type V = Seq<(Seq<char>, Json)>;

    open spec fn view(&self) -> Seq<(Seq<char>, Json)> {
        match self {
            KeyDescriptor::Value => Seq::empty(),
            KeyDescriptor::Object(fields) => fields@,
        }
    }
}

fn value_shape(value: &Value) -> (shape: Value)
    ensures
        shape@ == shape_of(value@),
    decreases value,
{
    match value {
        Value::Object(members) => Value::Object(member_shapes(members)),
        _ => Value::Null,
    }
}

fn member_shapes(members: &Object) -> (shapes: Object)
    ensures
        shapes@ == shape_members(members@),
    decreases members,
{
    let mut shapes = Object::new();
    let mut i: usize = 0;
    assert(members@.take(0) =~= Seq::<(Seq<char>, Json)>::empty());
    while i < members.len()
        invariant
            i <= members@.len(),
            shapes@ == shape_members(members@.take(i as int)),
        decreases members@.len() - i,
    {
        let value = members.value_at(i);
        shapes.insert(members.key_at(i).clone(), value_shape(value));
        assert(members@.take(i + 1).drop_last() =~= members@.take(i as int));
        i = i + 1;
    }
    assert(members@.take(i as int) =~= members@);
    shapes
}

fn merged_shape(shape: &Value, value: &Value) -> (merged: Value)
    ensures
        merged@ == merge_shape(shape@, value@),
    decreases value,
{
    match (shape, value) {
        (Value::Object(fields), Value::Object(members)) => {
            let mut merged = fields.copy();
            merge_value(&mut merged, members);
            Value::Object(merged)
        },
        _ => Value::Null,
    }
}

fn merge_value(fields: &mut Object, members: &Object)
    ensures
        final(fields)@ == merge_fields(old(fields)@, members@),
    decreases members,
{
    let ghost before = fields@;
    let mut i: usize = 0;
    assert(members@.take(0) =~= Seq::<(Seq<char>, Json)>::empty());
    while i < members.len()
        invariant
            i <= members@.len(),
            fields@ == merge_fields(before, members@.take(i as int)),
        decreases members@.len() - i,
    {
        let value = members.value_at(i);
        assert(members@.take(i + 1).drop_last() =~= members@.take(i as int));
        assert(members@.take(i + 1).last() == members@[i as int]);
        let shape = match fields.get(members.key_at(i).as_str()) {
            Some(existing) => merged_shape(existing, value),
            None => value_shape(value),
        };
        fields.insert(members.key_at(i).clone(), shape);
        i = i + 1;
    }
    assert(members@.take(i as int) =~= members@);
}

impl KeyDescriptor {
    /// The shape of rows.
    pub fn from_values(rows: &Vec<Value>) -> (descriptor: KeyDescriptor)
        ensures
            descriptor@ == fields_of_rows(jsons(rows@)),
            descriptor is Value <==> fields_of_rows(jsons(rows@)).len() == 0,
    {
        let ghost all = jsons(rows@);
        let mut fields = Object::new();
        let mut i: usize = 0;
        assert(all.take(0) =~= Seq::empty());
        while i < rows.len()
            invariant
                i <= rows.len(),
                all == jsons(rows@),
                fields@ == fields_of_rows(all.take(i as int)),
            decreases rows.len() - i,
        {
            assert(all.take(i + 1).drop_last() =~= all.take(i as int));
            assert(all.take(i + 1).last() == rows@[i as int]@);
            match &rows[i] {
                Value::Object(members) => {
                    merge_value(&mut fields, members);
                },
                _ => {},
            }
            i = i + 1;
        }
        assert(all.take(i as int) =~= all);
        if fields.is_empty() {
            assert(fields@ =~= Seq::empty());
            KeyDescriptor::Value
        } else {
            KeyDescriptor::Object(fields)
        }
    }
}

/// The keys of an object, in order.
pub open spec fn keys_of(members: Seq<(Seq<char>, Json)>) -> Seq<Seq<char>> {
    Seq::new(members.len(), |i: int| members[i].0)
}

/// The keys of an object, in order.
pub fn object_keys(object: &Object) -> (keys: Vec<String>)
    ensures
        texts(keys@) == keys_of(object@),
{
    let mut keys: Vec<String> = Vec::new();
    let mut i: usize = 0;
    while i < object.len()
        invariant
            i <= object@.len(),
            keys@.len() == i,
            forall|j: int| 0 <= j < i ==> (#[trigger] keys@[j])@ == object@[j].0,
        decreases object@.len() - i,
    {
        keys.push(object.key_at(i).clone());
        i = i + 1;
    }
    assert(texts(keys@) =~= keys_of(object@));
    keys
}

/// The columns of a shape: its first keys, in ascending order.
pub fn columns_from_descriptor(descriptor: &KeyDescriptor) -> (columns: Vec<String>)
    ensures
        texts(columns@) == keys_of(descriptor@),
{
    match descriptor {
        KeyDescriptor::Value => {
            let none: Vec<String> = Vec::new();
            assert(texts(none@) =~= Seq::empty());
            assert(keys_of(Seq::empty()) =~= Seq::empty());
            none
        },
        KeyDescriptor::Object(fields) => object_keys(fields),
    }
}

proof fn lemma_merge_ascending(fields: Seq<(Seq<char>, Json)>, members: Seq<(Seq<char>, Json)>)
    requires
        keys_ascending(fields),
    ensures
        keys_ascending(merge_fields(fields, members)),
    decreases members,
{
    if members.len() > 0 {
        lemma_merge_ascending(fields, members.drop_last());
        let earlier = merge_fields(fields, members.drop_last());
        let (key, value) = members.last();
        match obj_get(earlier, key) {
            Some(shape) => lemma_insert_ascending(earlier, key, merge_shape(shape, value)),
            None => lemma_insert_ascending(earlier, key, shape_of(value)),
        }
    }
}

proof fn lemma_merge_keys(fields: Seq<(Seq<char>, Json)>, members: Seq<(Seq<char>, Json)>, key: Seq<char>)
    ensures
        obj_get(merge_fields(fields, members), key) is Some <==> (obj_get(fields, key) is Some || exists|i: int|
            0 <= i < members.len() && (#[trigger] members[i]).0 == key),
    decreases members,
{
    if members.len() > 0 {
        let rest = members.drop_last();
        lemma_merge_keys(fields, rest, key);
        let earlier = merge_fields(fields, rest);
        let (last, value) = members.last();
        let shape = match obj_get(earlier, last) {
            Some(shape) => merge_shape(shape, value),
            None => shape_of(value),
        };
        crate::value::lemma_get_after_insert(earlier, last, shape, key);
        if exists|i: int| 0 <= i < rest.len() && (#[trigger] rest[i]).0 == key {
            let i = choose|i: int| 0 <= i < rest.len() && (#[trigger] rest[i]).0 == key;
            assert(members[i].0 == key);
        }
        if exists|i: int| 0 <= i < members.len() && (#[trigger] members[i]).0 == key {
            let i = choose|i: int| 0 <= i < members.len() && (#[trigger] members[i]).0 == key;
            if i < rest.len() {
                assert(rest[i].0 == key);
            }
        }
        assert(members[members.len() - 1].0 == last);
    }
}

/// The columns of rows are in ascending order, and a key is a column exactly where some row that
/// is an object has it.
pub proof fn lemma_columns_are_keys(rows: Seq<Json>, key: Seq<char>)
    ensures
        keys_ascending(fields_of_rows(rows)),
        obj_get(fields_of_rows(rows), key) is Some <==> exists|r: int, i: int|
            0 <= r < rows.len() && rows[r] is Object && 0 <= i < rows[r]->Object_0.len() && (#[trigger] rows[r]->Object_0[i]).0
                == key,
    decreases rows.len(),
{
    if rows.len() > 0 {
        let rest = rows.drop_last();
        lemma_columns_are_keys(rest, key);
        match rows.last() {
            Json::Object(members) => {
                lemma_merge_ascending(fields_of_rows(rest), members);
                lemma_merge_keys(fields_of_rows(rest), members, key);
                if exists|i: int| 0 <= i < members.len() && (#[trigger] members[i]).0 == key {
                    let i = choose|i: int| 0 <= i < members.len() && (#[trigger] members[i]).0 == key;
                    let r = rows.len() - 1;
                    assert(rows[r]->Object_0[i].0 == key);
                }
            },
            _ => {},
        }
        if exists|r: int, i: int| 0 <= r < rest.len() && rest[r] is Object && 0 <= i < rest[r]->Object_0.len() && (#[trigger] rest[r]->Object_0[i]).0 == key {
            let (r, i) = choose|r: int, i: int| 0 <= r < rest.len() && rest[r] is Object && 0 <= i < rest[r]->Object_0.len() && (#[trigger] rest[r]->Object_0[i]).0 == key;
            assert(rows[r]->Object_0[i].0 == key);
        }
        if exists|r: int, i: int| 0 <= r < rows.len() && rows[r] is Object && 0 <= i < rows[r]->Object_0.len() && (#[trigger] rows[r]->Object_0[i]).0 == key {
            let (r, i) = choose|r: int, i: int| 0 <= r < rows.len() && rows[r] is Object && 0 <= i < rows[r]->Object_0.len() && (#[trigger] rows[r]->Object_0[i]).0 == key;
            if r < rest.len() {
                assert(rest[r]->Object_0[i].0 == key);
            } else {
                assert(rows.last()->Object_0[i].0 == key);
            }
        }
    }
}

impl QueryResult {
    /// Rows with their shape.
    pub fn new(rows: Vec<Value>) -> (result: QueryResult)
        ensures
            result.rows@ == rows@,
            result.columns@ == fields_of_rows(jsons(rows@)),
            result.columns is Value <==> fields_of_rows(jsons(rows@)).len() == 0,
    {
        QueryResult { columns: KeyDescriptor::from_values(&rows), rows }
    }
}

impl Default for QueryResult {
    fn default() -> (result: Self)
        ensures
            result.rows@.len() == 0,
            result.columns is Value,
    {
        QueryResult { columns: KeyDescriptor::Value, rows: Vec::new() }
    }
}

} // verus!
