//! Reading and writing values at paths of keys.
use vstd::prelude::*;
use crate::text::{same_text, texts};
use crate::value::{lemma_get_after_insert, obj_get, obj_insert, Json, Object, Value};

verus! {

/// The value that a path of keys leads to.
pub open spec fn lookup(value: Json, path: Seq<Seq<char>>) -> Option<Json>
    decreases path.len(),
{
    if path.len() == 0 {
        Some(value)
    } else {
        match value {
            Json::Object(members) => match obj_get(members, path[0]) {
                Some(member) => lookup(member, path.drop_first()),
                None => None,
            },
            _ => None,
        }
    }
}

/// The value that a path of keys leads to, null where it leads nowhere.
pub open spec fn value_at(value: Json, path: Seq<Seq<char>>) -> Json {
    match lookup(value, path) {
        Some(found) => found,
        None => Json::Null,
    }
}

/// The value that a path of keys leads to.
pub fn find_path<'a>(value: &'a Value, path: &Vec<String>) -> (found: Option<&'a Value>)
    ensures
        found is Some <==> lookup(value@, texts(path@)) is Some,
        found matches Some(v) ==> v@ == lookup(value@, texts(path@))->0,
{
    let ghost parts = texts(path@);
    let mut current = value;
    let mut i: usize = 0;
    assert(parts.skip(0) =~= parts);
    while i < path.len()
        invariant
            i <= path.len(),
            parts == texts(path@),
            lookup(value@, parts) == lookup(current@, parts.skip(i as int)),
        decreases path.len() - i,
    {
        assert(parts.skip(i as int)[0] == path@[i as int]@);
        assert(parts.skip(i as int).drop_first() =~= parts.skip(i + 1));
        match current {
            Value::Object(members) => match members.get(path[i].as_str()) {
                Some(member) => {
                    current = member;
                },
                None => {
                    return None;
                },
            },
            _ => {
                return None;
            },
        }
        i = i + 1;
    }
    Some(current)
}

/// The value that a path of keys leads to, null where it leads nowhere.
pub fn get_path(value: &Value, path: &Vec<String>) -> (found: Value)
    ensures
        found@ == value_at(value@, texts(path@)),
{
    match find_path(value, path) {
        Some(found) => found.copy(),
        None => Value::Null,
    }
}

/// The members with the value at the end of the path set; what stands in the way of the path and
/// is not an object becomes one.
pub open spec fn with_path(members: Seq<(Seq<char>, Json)>, path: Seq<Seq<char>>, value: Json) -> Seq<
    (Seq<char>, Json),
>
    decreases path.len(),
{
    if path.len() == 0 {
        members
    } else if path.len() == 1 {
        obj_insert(members, path[0], value)
    } else {
        let inner = match obj_get(members, path[0]) {
            Some(Json::Object(inner)) => inner,
            _ => Seq::empty(),
        };
        obj_insert(members, path[0], Json::Object(with_path(inner, path.drop_first(), value)))
    }
}

fn set_path_from(output: &mut Object, path: &Vec<String>, start: usize, value: Value)
    requires
        start <= path@.len(),
    ensures
        final(output)@ == with_path(old(output)@, texts(path@).skip(start as int), value@),
    decreases path@.len() - start,
{
    let ghost parts = texts(path@).skip(start as int);
    if start == path.len() {
        return;
    }
    assert(parts[0] == path@[start as int]@);
    if start + 1 == path.len() {
        output.insert(path[start].clone(), value);
        return;
    }
    assert(parts.drop_first() =~= texts(path@).skip(start + 1));
    let mut inner = match output.get(path[start].as_str()) {
        Some(Value::Object(inner)) => inner.copy(),
        _ => Object::new(),
    };
    set_path_from(&mut inner, path, start + 1, value);
    output.insert(path[start].clone(), Value::Object(inner));
}

/// Sets the value at the end of a path, making objects along the way. The empty path sets
/// nothing.
pub fn set_path(output: &mut Object, path: &Vec<String>, value: Value)
    ensures
        final(output)@ == with_path(old(output)@, texts(path@), value@),
{
    assert(texts(path@).skip(0) =~= texts(path@));
    set_path_from(output, path, 0, value);
}

/// What was set at a path is read back from it.
pub proof fn lemma_get_after_set(members: Seq<(Seq<char>, Json)>, path: Seq<Seq<char>>, value: Json)
    requires
        path.len() > 0,
    ensures
        lookup(Json::Object(with_path(members, path, value)), path) == Some(value),
    decreases path.len(),
{
    if path.len() == 1 {
        lemma_get_after_insert(members, path[0], value, path[0]);
        assert(lookup(value, path.drop_first()) == Some(value));
    } else {
        let inner = match obj_get(members, path[0]) {
            Some(Json::Object(inner)) => inner,
            _ => Seq::empty(),
        };
        let updated = Json::Object(with_path(inner, path.drop_first(), value));
        lemma_get_after_insert(members, path[0], updated, path[0]);
        lemma_get_after_set(inner, path.drop_first(), value);
    }
}

/// Setting a path leaves what stands under another first key as it is.
pub proof fn lemma_set_keeps_others(
    members: Seq<(Seq<char>, Json)>,
    path: Seq<Seq<char>>,
    value: Json,
    other: Seq<Seq<char>>,
)
    requires
        path.len() > 0,
        other.len() > 0,
        other[0] != path[0],
    ensures
        lookup(Json::Object(with_path(members, path, value)), other) == lookup(Json::Object(members), other),
{
    let inner = match obj_get(members, path[0]) {
        Some(Json::Object(inner)) => inner,
        _ => Seq::empty(),
    };
    let set = if path.len() == 1 {
        value
    } else {
        Json::Object(with_path(inner, path.drop_first(), value))
    };
    lemma_get_after_insert(members, path[0], set, other[0]);
}

/// Whether a column names the whole output.
pub open spec fn names_whole(path: Seq<Seq<char>>) -> bool {
    path.len() == 1 && path[0] == "$"@
}

/// The output with the value written to a column: the column `$` is the whole output, any other
/// is a path into it, and an output that is not an object becomes one first.
pub open spec fn assigned(output: Json, path: Seq<Seq<char>>, value: Json) -> Json {
    if names_whole(path) {
        value
    } else {
        let members = match output {
            Json::Object(members) => members,
            _ => Seq::empty(),
        };
        Json::Object(with_path(members, path, value))
    }
}

/// Writes a value to a column of the output.
pub fn assign_output(output: &mut Value, path: &Vec<String>, value: Value)
    ensures
        final(output)@ == assigned(old(output)@, texts(path@), value@),
{
    if path.len() == 1 && same_text(path[0].as_str(), "$") {
        assert(texts(path@)[0] == "$"@);
        *output = value;
    } else {
        assert(path@.len() == 1 ==> texts(path@)[0] == path@[0]@);
        let mut taken = Value::Null;
        std::mem::swap(&mut taken, output);
        let mut members = match taken {
            Value::Object(members) => members,
            _ => Object::new(),
        };
        set_path(&mut members, path, value);
        *output = Value::Object(members);
    }
}

/// The value that a reference leads to from the current value: a part `$` stays where it is, any
/// other part is a key. Null where a key leads nowhere.
pub open spec fn follow(value: Json, path: Seq<Seq<char>>) -> Json
    decreases path.len(),
{
    if path.len() == 0 {
        value
    } else if path[0] == "$"@ {
        follow(value, path.drop_first())
    } else {
        match value {
            Json::Object(members) => match obj_get(members, path[0]) {
                Some(member) => follow(member, path.drop_first()),
                None => Json::Null,
            },
            _ => Json::Null,
        }
    }
}

/// The value that a reference leads to from the current value.
pub fn follow_reference(value: &Value, path: &Vec<String>) -> (found: Value)
    ensures
        found@ == follow(value@, texts(path@)),
{
    let ghost parts = texts(path@);
    let mut current = value;
    let mut i: usize = 0;
    assert(parts.skip(0) =~= parts);
    while i < path.len()
        invariant
            i <= path.len(),
            parts == texts(path@),
            follow(value@, parts) == follow(current@, parts.skip(i as int)),
        decreases path.len() - i,
    {
        assert(parts.skip(i as int)[0] == path@[i as int]@);
        assert(parts.skip(i as int).drop_first() =~= parts.skip(i + 1));
        if !same_text(path[i].as_str(), "$") {
            match current {
                Value::Object(members) => match members.get(path[i].as_str()) {
                    Some(member) => {
                        current = member;
                    },
                    None => {
                        return Value::Null;
                    },
                },
                _ => {
                    return Value::Null;
                },
            }
        }
        i = i + 1;
    }
    current.copy()
}

} // verus!
