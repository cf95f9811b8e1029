//! Merging objects and reading JSON texts.
use vstd::prelude::*;
use crate::json::{json_of_text, read_json};
use crate::text::text_lt;
use crate::value::{jsons, keys_ascending, lemma_get_after_insert, lemma_insert_last, obj_get, obj_insert, Json, Object, Value};

verus! {

/// The members with all members of another object set.
pub open spec fn merged_members(members: Seq<(Seq<char>, Json)>, source: Seq<(Seq<char>, Json)>) -> Seq<
    (Seq<char>, Json),
>
    decreases source.len(),
{
    if source.len() == 0 {
        members
    } else {
        obj_insert(merged_members(members, source.drop_last()), source.last().0, source.last().1)
    }
}

/// Sets all members of another object.
pub fn merge_members(output: &mut Object, source: &Object)
    ensures
        final(output)@ == merged_members(old(output)@, source@),
{
    let ghost before = output@;
    let mut i: usize = 0;
    assert(source@.take(0) =~= Seq::<(Seq<char>, Json)>::empty());
    while i < source.len()
        invariant
            i <= source@.len(),
            output@ == merged_members(before, source@.take(i as int)),
        decreases source@.len() - i,
    {
        output.insert(source.key_at(i).clone(), source.value_at(i).copy());
        assert(source@.take(i + 1).drop_last() =~= source@.take(i as int));
        i = i + 1;
    }
    assert(source@.take(i as int) =~= source@);
}

/// The first objects merged into one, where all of them are objects.
pub open spec fn assign_of(values: Seq<Json>) -> Json
    decreases values.len(),
{
    if values.len() == 0 {
        Json::Null
    } else if values.len() == 1 {
        match values[0] {
            Json::Object(_) => values[0],
            _ => Json::Null,
        }
    } else {
        match (assign_of(values.drop_last()), values.last()) {
            (Json::Object(members), Json::Object(source)) => Json::Object(merged_members(members, source)),
            _ => Json::Null,
        }
    }
}

proof fn lemma_assign_fails(values: Seq<Json>, shorter: int)
    requires
        1 <= shorter <= values.len(),
        assign_of(values.take(shorter)) !is Object,
    ensures
        assign_of(values) == Json::Null,
    decreases values.len(),
{
    if shorter == values.len() {
        assert(values.take(shorter) =~= values);
    } else {
        assert(values.drop_last().take(shorter) =~= values.take(shorter));
        lemma_assign_fails(values.drop_last(), shorter);
    }
}

/// Merges objects, later members over earlier ones; null where a value is not an object or there
/// is none.
pub fn assign(values: &Vec<Value>) -> (output: Value)
    ensures
        output@ == assign_of(jsons(values@)),
{
    let ghost all = jsons(values@);
    if values.len() == 0 {
        return Value::Null;
    }
    assert(all.take(1) =~= seq![values@[0]@]);
    let mut output = match &values[0] {
        Value::Object(first) => first.copy(),
        _ => {
            proof {
                lemma_assign_fails(all, 1);
            }
            return Value::Null;
        },
    };
    let mut i: usize = 1;
    while i < values.len()
        invariant
            1 <= i <= values.len(),
            all == jsons(values@),
            assign_of(all.take(i as int)) == Json::Object(output@),
        decreases values.len() - i,
    {
        assert(all.take(i + 1).drop_last() =~= all.take(i as int));
        assert(all.take(i + 1).last() == values@[i as int]@);
        match &values[i] {
            Value::Object(source) => {
                merge_members(&mut output, source);
            },
            _ => {
                proof {
                    lemma_assign_fails(all, i + 1);
                }
                return Value::Null;
            },
        }
        i = i + 1;
    }
    assert(all.take(i as int) =~= all);
    Value::Object(output)
}

/// The value of a JSON text, null where it is not valid.
pub open spec fn parsed(text: Seq<char>) -> Json {
    match json_of_text(text) {
        Some(value) => value,
        None => Json::Null,
    }
}

/// The value of a JSON text, null where it is not valid.
pub fn parse_json(text: &str) -> (value: Value)
    ensures
        value@ == parsed(text@),
{
    match read_json(text) {
        Some(value) => value,
        None => Value::Null,
    }
}

/// A merged object has, under a key, what the later object has there, and else what the earlier one
/// has.
pub proof fn lemma_later_members_win(members: Seq<(Seq<char>, Json)>, source: Seq<(Seq<char>, Json)>, key: Seq<char>)
    requires
        keys_ascending(source),
    ensures
        obj_get(merged_members(members, source), key) == match obj_get(source, key) {
            Some(value) => Some(value),
            None => obj_get(members, key),
        },
    decreases source.len(),
{
    if source.len() > 0 {
        let rest = source.drop_last();
        let (last, value) = source.last();
        assert forall|i: int, j: int| 0 <= i < j < rest.len() implies text_lt(#[trigger] rest[i].0, #[trigger] rest[j].0) by {
            assert(rest[i] == source[i] && rest[j] == source[j]);
        }
        lemma_later_members_win(members, rest, key);
        lemma_get_after_insert(merged_members(members, rest), last, value, key);
        assert(rest.push((last, value)) =~= source);
        assert forall|i: int| 0 <= i < rest.len() implies text_lt(#[trigger] rest[i].0, last) by {
            assert(rest[i] == source[i]);
            assert(source[source.len() - 1].0 == last);
        }
        lemma_insert_last(rest, last, value);
        lemma_get_after_insert(rest, last, value, key);
    }
}

} // verus!
