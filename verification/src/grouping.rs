//! Grouping rows by keys, and the value that stands for a group.
use vstd::prelude::*;
use crate::json::{text_of_json, write_json};
use crate::number::{num_text, number_text};
use crate::paths::{get_path, set_path, value_at, with_path};
use crate::text::{chars_of, decimal, integer_text, lemma_decimal, path_of, path_parts, same_text, texts};
use crate::value::{copy_values, jsons, lemma_array_json, lemma_get_after_insert, lemma_jsons_push, obj_get, obj_insert, Json, Num, Object, Value};

verus! {

broadcast use {lemma_array_json, lemma_jsons_push};

/// How deep objects are nested in a value.
pub open spec fn height(value: Json) -> nat
    decreases value,
{
    match value {
        Json::Object(members) => 1 + members_height(members),
        _ => 0,
    }
}

/// How deep objects are nested in members.
pub open spec fn members_height(members: Seq<(Seq<char>, Json)>) -> nat
    decreases members,
{
    if members.len() == 0 {
        0
    } else {
        let rest = members_height(members.drop_last());
        let last = height(members.last().1);
        if last > rest {
            last
        } else {
            rest
        }
    }
}

/// How deep objects are nested in rows.
pub open spec fn rows_height(rows: Seq<Json>) -> nat
    decreases rows.len(),
{
    if rows.len() == 0 {
        0
    } else {
        let rest = rows_height(rows.drop_last());
        let last = height(rows.last());
        if last > rest {
            last
        } else {
            rest
        }
    }
}

/// The field of a row under a key, null where there is none.
pub open spec fn field_or_null(row: Json, key: Seq<char>) -> Json {
    match row {
        Json::Object(members) => match obj_get(members, key) {
            Some(value) => value,
            None => Json::Null,
        },
        _ => Json::Null,
    }
}

/// The fields of all rows under a key.
pub open spec fn column_values(rows: Seq<Json>, key: Seq<char>) -> Seq<Json> {
    Seq::new(rows.len(), |i: int| field_or_null(rows[i], key))
}

proof fn lemma_member_height(members: Seq<(Seq<char>, Json)>, key: Seq<char>)
    ensures
        obj_get(members, key) matches Some(value) ==> height(value) <= members_height(members),
    decreases members.len(),
{
    if members.len() > 0 {
        if members[0].0 == key {
            lemma_at_height(members, 0);
        } else {
            lemma_member_height(members.drop_first(), key);
            lemma_drop_first_height(members);
        }
    }
}

proof fn lemma_at_height(members: Seq<(Seq<char>, Json)>, i: int)
    requires
        0 <= i < members.len(),
    ensures
        height(members[i].1) <= members_height(members),
    decreases members.len(),
{
    if i < members.len() - 1 {
        lemma_at_height(members.drop_last(), i);
    }
}

proof fn lemma_drop_first_height(members: Seq<(Seq<char>, Json)>)
    requires
        members.len() > 0,
    ensures
        members_height(members.drop_first()) <= members_height(members),
    decreases members.len(),
{
    if members.len() > 1 {
        lemma_drop_first_height(members.drop_last());
        assert(members.drop_last().drop_first() =~= members.drop_first().drop_last());
    }
}

proof fn lemma_row_height(rows: Seq<Json>, i: int)
    requires
        0 <= i < rows.len(),
    ensures
        height(rows[i]) <= rows_height(rows),
    decreases rows.len(),
{
    if i < rows.len() - 1 {
        lemma_row_height(rows.drop_last(), i);
    }
}

proof fn lemma_rows_height_bound(rows: Seq<Json>, bound: nat)
    requires
        forall|i: int| 0 <= i < rows.len() ==> height(#[trigger] rows[i]) <= bound,
    ensures
        rows_height(rows) <= bound,
    decreases rows.len(),
{
    if rows.len() > 0 {
        assert forall|i: int| 0 <= i < rows.drop_last().len() implies height(#[trigger] rows.drop_last()[i]) <= bound by {
            assert(rows.drop_last()[i] == rows[i]);
        }
        lemma_rows_height_bound(rows.drop_last(), bound);
        assert(rows.last() == rows[rows.len() - 1]);
    }
}

/// Whether rows are taken apart into columns: one of them is an object, and the others are
/// objects or null.
pub open spec fn are_objects(rows: Seq<Json>) -> bool {
    &&& exists|i: int| 0 <= i < rows.len() && (#[trigger] rows[i]) is Object
    &&& forall|i: int| 0 <= i < rows.len() ==> (#[trigger] rows[i]) is Object || rows[i] is Null
}

/// The fields of objects are nested less deeply than the objects.
pub proof fn lemma_column_height(rows: Seq<Json>, key: Seq<char>)
    requires
        are_objects(rows),
    ensures
        rows_height(column_values(rows, key)) < rows_height(rows),
{
    let some = choose|i: int| 0 <= i < rows.len() && (#[trigger] rows[i]) is Object;
    lemma_row_height(rows, some);
    let column = column_values(rows, key);
    assert forall|i: int| 0 <= i < column.len() implies height(#[trigger] column[i]) <= rows_height(rows) - 1 by {
        match rows[i] {
            Json::Object(members) => {
                lemma_member_height(members, key);
                lemma_row_height(rows, i);
            },
            _ => {},
        }
    }
    lemma_rows_height_bound(column, (rows_height(rows) - 1) as nat);
}

/// The keys of a list of members added to a set of keys.
pub open spec fn add_keys(keys: Seq<(Seq<char>, Json)>, members: Seq<(Seq<char>, Json)>) -> Seq<(Seq<char>, Json)>
    decreases members.len(),
{
    if members.len() == 0 {
        keys
    } else {
        obj_insert(add_keys(keys, members.drop_last()), members.last().0, Json::Null)
    }
}

/// The keys of all rows that are objects, each once, in ascending order.
pub open spec fn all_keys(rows: Seq<Json>) -> Seq<(Seq<char>, Json)>
    decreases rows.len(),
{
    if rows.len() == 0 {
        Seq::empty()
    } else {
        match rows.last() {
            Json::Object(members) => add_keys(all_keys(rows.drop_last()), members),
            _ => all_keys(rows.drop_last()),
        }
    }
}

/// The value of grouped rows: objects become an object of columns, each grouped in turn; other
/// rows become an array.
pub open spec fn grouped(rows: Seq<Json>) -> Json
    decreases rows_height(rows), all_keys(rows).len() + 1,
{
    if are_objects(rows) {
        Json::Object(grouped_columns(rows, all_keys(rows)))
    } else {
        Json::Array(rows)
    }
}

/// The columns of grouped rows for the given keys.
pub open spec fn grouped_columns(rows: Seq<Json>, keys: Seq<(Seq<char>, Json)>) -> Seq<(Seq<char>, Json)>
    decreases rows_height(rows), keys.len(),
{
    if keys.len() == 0 || !are_objects(rows) {
        Seq::empty()
    } else {
        proof {
            lemma_column_height(rows, keys.last().0);
        }
        obj_insert(
            grouped_columns(rows, keys.drop_last()),
            keys.last().0,
            grouped(column_values(rows, keys.last().0)),
        )
    }
}

fn add_object_keys(keys: &mut Object, members: &Object)
    ensures
        final(keys)@ == add_keys(old(keys)@, members@),
{
    let ghost before = keys@;
    let mut i: usize = 0;
    assert(members@.take(0) =~= Seq::<(Seq<char>, Json)>::empty());
    while i < members.len()
        invariant
            i <= members@.len(),
            keys@ == add_keys(before, members@.take(i as int)),
        decreases members@.len() - i,
    {
        keys.insert(members.key_at(i).clone(), Value::Null);
        assert(members@.take(i + 1).drop_last() =~= members@.take(i as int));
        i = i + 1;
    }
    assert(members@.take(i as int) =~= members@);
}

fn collect_keys(rows: &Vec<Value>) -> (keys: Object)
    ensures
        keys@ == all_keys(jsons(rows@)),
{
    let ghost all = jsons(rows@);
    let mut keys = Object::new();
    let mut i: usize = 0;
    assert(all.take(0) =~= Seq::empty());
    while i < rows.len()
        invariant
            i <= rows.len(),
            all == jsons(rows@),
            keys@ == all_keys(all.take(i as int)),
        decreases rows.len() - i,
    {
        assert(all.take(i + 1).drop_last() =~= all.take(i as int));
        assert(all.take(i + 1).last() == rows@[i as int]@);
        match &rows[i] {
            Value::Object(members) => {
                add_object_keys(&mut keys, members);
            },
            _ => {},
        }
        i = i + 1;
    }
    assert(all.take(i as int) =~= all);
    keys
}

fn check_objects(rows: &Vec<Value>) -> (answer: bool)
    ensures
        answer == are_objects(jsons(rows@)),
{
    let ghost all = jsons(rows@);
    let mut some = false;
    let mut i: usize = 0;
    while i < rows.len()
        invariant
            i <= rows.len(),
            all == jsons(rows@),
            some == exists|j: int| 0 <= j < i && (#[trigger] all[j]) is Object,
            forall|j: int| 0 <= j < i ==> (#[trigger] all[j]) is Object || all[j] is Null,
        decreases rows.len() - i,
    {
        assert(all[i as int] == rows@[i as int]@);
        match &rows[i] {
            Value::Object(_) => {
                some = true;
            },
            Value::Null => {},
            _ => {
                return false;
            },
        }
        i = i + 1;
    }
    some
}

fn column(rows: &Vec<Value>, key: &str) -> (values: Vec<Value>)
    ensures
        jsons(values@) == column_values(jsons(rows@), key@),
{
    let ghost whole = column_values(jsons(rows@), key@);
    let mut values: Vec<Value> = Vec::new();
    let mut i: usize = 0;
    assert(jsons(values@) =~= whole.take(0));
    while i < rows.len()
        invariant
            i <= rows.len(),
            whole == column_values(jsons(rows@), key@),
            jsons(values@) == whole.take(i as int),
        decreases rows.len() - i,
    {
        assert(jsons(rows@)[i as int] == rows@[i as int]@);
        let value = match &rows[i] {
            Value::Object(members) => match members.get(key) {
                Some(value) => value.copy(),
                None => Value::Null,
            },
            _ => Value::Null,
        };
        values.push(value);
        assert(whole.take(i + 1) =~= whole.take(i as int).push(whole[i as int]));
        i = i + 1;
    }
    assert(whole.take(i as int) =~= whole);
    values
}

/// The value of grouped rows.
pub fn grouped_rows_value(rows: &Vec<Value>) -> (value: Value)
    ensures
        value@ == grouped(jsons(rows@)),
    decreases rows_height(jsons(rows@)),
{
    if !check_objects(rows) {
        return Value::Array(copy_values(rows));
    }
    let keys = collect_keys(rows);
    let ghost all = jsons(rows@);
    let mut columns = Object::new();
    let mut i: usize = 0;
    assert(keys@.take(0) =~= Seq::<(Seq<char>, Json)>::empty());
    while i < keys.len()
        invariant
            i <= keys@.len(),
            all == jsons(rows@),
            are_objects(all),
            columns@ == grouped_columns(all, keys@.take(i as int)),
        decreases keys@.len() - i,
    {
        assert(keys@.take(i + 1).drop_last() =~= keys@.take(i as int));
        assert(keys@.take(i + 1).last() == keys@[i as int]);
        proof {
            lemma_column_height(all, keys@[i as int].0);
        }
        let values = column(rows, keys.key_at(i).as_str());
        columns.insert(keys.key_at(i).clone(), grouped_rows_value(&values));
        i = i + 1;
    }
    assert(keys@.take(i as int) =~= keys@);
    Value::Object(columns)
}

/// The mark of a key value's type.
pub open spec fn key_mark(value: Json) -> char {
    match value {
        Json::Text(_) => 's',
        Json::Number(_) => 'n',
        Json::Bool(_) => 'b',
        Json::Null => 'N',
        _ => 'j',
    }
}

/// The text of a key value within its type.
pub open spec fn key_text(value: Json) -> Seq<char> {
    match value {
        Json::Text(s) => s,
        Json::Number(n) => num_text(n),
        Json::Bool(b) => if b {
            "true"@
        } else {
            "false"@
        },
        Json::Null => Seq::empty(),
        _ => text_of_json(value),
    }
}

/// A text with the two characters that mark the parts of a key replaced: no part of a key can then
/// be taken for the end of another.
pub open spec fn marks_escaped(text: Seq<char>) -> Seq<char>
    decreases text.len(),
{
    if text.len() == 0 {
        Seq::empty()
    } else {
        marks_escaped(text.drop_last()) + escaped_char(text.last())
    }
}

/// A character with the two characters that mark the parts of a key replaced.
pub open spec fn escaped_char(c: char) -> Seq<char> {
    if c == '\x01' {
        seq!['\x01', '1']
    } else if c == '\x02' {
        seq!['\x01', '2']
    } else {
        seq![c]
    }
}

/// The text by which one key value is told from others.
pub open spec fn key_part(value: Json) -> Seq<char> {
    seq![key_mark(value), '\x01'] + marks_escaped(key_text(value)) + seq!['\x02']
}

/// The text by which the key values of a group are told from others.
pub open spec fn group_key_of(values: Seq<Json>) -> Seq<char>
    decreases values.len(),
{
    if values.len() == 0 {
        Seq::empty()
    } else {
        group_key_of(values.drop_last()) + key_part(values.last())
    }
}

proof fn lemma_key_end(values: Seq<Json>)
    requires
        values.len() > 0,
    ensures
        group_key_of(values).len() > 0,
        group_key_of(values).last() == '\x02',
{
}

/// Whether two key values are the same: they have one type, and one text within it.
pub open spec fn same_key(a: Json, b: Json) -> bool {
    key_mark(a) == key_mark(b) && key_text(a) == key_text(b)
}

/// Whether key values are the same, one by one.
pub open spec fn same_keys(a: Seq<Json>, b: Seq<Json>) -> bool {
    a.len() == b.len() && forall|i: int| 0 <= i < a.len() ==> same_key(#[trigger] a[i], b[i])
}

/// A text, a truth value, null or an integer is the same key as no other value, doubles aside.
pub proof fn lemma_same_key_values(a: Json, b: Json)
    requires
        same_key(a, b),
        a matches Json::Number(m) ==> m !is Float,
        b matches Json::Number(n) ==> n !is Float,
    ensures
        a is Text || a is Bool || a is Null ==> a == b,
        a is Number ==> integer_of(a->Number_0) == integer_of(b->Number_0),
{
    reveal_strlit("true");
    reveal_strlit("false");
    if a is Bool {
        assert("true"@[0] != "false"@[0]);
    }
    if a is Number {
        lemma_integer_texts(integer_of(a->Number_0), integer_of(b->Number_0));
    }
}

/// The integer that a number that is not a double is.
pub open spec fn integer_of(number: Num) -> int {
    match number {
        Num::PosInt(n) => n as int,
        Num::NegInt(n) => n as int,
        Num::Float(_) => 0,
    }
}

proof fn lemma_integer_texts(m: int, n: int)
    requires
        integer_text(m) == integer_text(n),
    ensures
        m == n,
{
    let (a, b) = (if m < 0 { -m } else { m }, if n < 0 { -n } else { n });
    lemma_decimal(a as nat);
    lemma_decimal(b as nat);
    assert('0' <= decimal(a as nat)[0] <= '9');
    assert('0' <= decimal(b as nat)[0] <= '9');
    assert(integer_text(m)[0] == integer_text(n)[0]);
    assert((seq!['-'] + decimal(a as nat)).skip(1) =~= decimal(a as nat));
    assert((seq!['-'] + decimal(b as nat)).skip(1) =~= decimal(b as nat));
}

proof fn lemma_escaped_inside(text: Seq<char>)
    ensures
        !marks_escaped(text).contains('\x02'),
    decreases text.len(),
{
    if text.len() > 0 {
        let (before, last) = (marks_escaped(text.drop_last()), escaped_char(text.last()));
        lemma_escaped_inside(text.drop_last());
        assert forall|i: int| 0 <= i < (before + last).len() implies (before + last)[i] != '\x02' by {
            if i < before.len() {
                assert(before.contains(before[i]));
            } else {
                assert((before + last)[i] == last[i - before.len()]);
            }
        }
    }
}

/// Whether the character at the end of an escaped text stands behind an escape.
spec fn ends_escaped(escaped: Seq<char>) -> bool {
    escaped.len() >= 2 && escaped[escaped.len() - 2] == '\x01'
}

proof fn lemma_escaped_end(text: Seq<char>)
    requires
        text.len() > 0,
    ensures
        marks_escaped(text).len() > 0,
        marks_escaped(text).last() != '\x01',
        ends_escaped(marks_escaped(text)) <==> (text.last() == '\x01' || text.last() == '\x02'),
    decreases text.len(),
{
    let before = marks_escaped(text.drop_last());
    let all = marks_escaped(text);
    if text.len() > 1 {
        lemma_escaped_end(text.drop_last());
        if text.last() != '\x01' && text.last() != '\x02' {
            assert(all[all.len() - 2] == before.last());
        }
    }
}

/// Escaping loses nothing.
proof fn lemma_escaped_apart(a: Seq<char>, b: Seq<char>)
    requires
        marks_escaped(a) == marks_escaped(b),
    ensures
        a == b,
    decreases a.len(),
{
    if a.len() > 0 {
        lemma_escaped_end(a);
    }
    if b.len() > 0 {
        lemma_escaped_end(b);
    }
    if a.len() > 0 && b.len() > 0 {
        let all = marks_escaped(a);
        let (last_a, last_b) = (escaped_char(a.last()), escaped_char(b.last()));
        let (before_a, before_b) = (marks_escaped(a.drop_last()), marks_escaped(b.drop_last()));
        assert(all.len() == before_a.len() + last_a.len());
        assert(all.len() == before_b.len() + last_b.len());
        assert(last_a.len() == last_b.len());
        assert(all.last() == last_a.last() && all.last() == last_b.last());
        assert(before_a =~= all.take(before_a.len() as int) && before_b =~= all.take(before_b.len() as int));
        lemma_escaped_apart(a.drop_last(), b.drop_last());
        assert(a =~= a.drop_last().push(a.last()) && b =~= b.drop_last().push(b.last()));
    } else {
        assert(a =~= b);
    }
}

/// Key values have one key text exactly where they are the same, one by one.
pub proof fn lemma_keys_told_apart(a: Seq<Json>, b: Seq<Json>)
    requires
        a.len() == b.len(),
    ensures
        group_key_of(a) == group_key_of(b) <==> same_keys(a, b),
    decreases a.len(),
{
    if same_keys(a, b) {
        lemma_same_keys_agree(a, b);
    }
    if group_key_of(a) == group_key_of(b) {
        lemma_one_key_same(a, b);
    }
}

proof fn lemma_same_keys_agree(a: Seq<Json>, b: Seq<Json>)
    requires
        same_keys(a, b),
    ensures
        group_key_of(a) == group_key_of(b),
    decreases a.len(),
{
    if a.len() > 0 {
        assert(same_key(a[a.len() - 1], b[b.len() - 1]));
        assert forall|i: int| 0 <= i < a.len() - 1 implies same_key(#[trigger] a.drop_last()[i], b.drop_last()[i]) by {
            assert(same_key(a[i], b[i]));
        }
        lemma_same_keys_agree(a.drop_last(), b.drop_last());
    }
}

proof fn lemma_one_key_same(a: Seq<Json>, b: Seq<Json>)
    requires
        a.len() == b.len(),
        group_key_of(a) == group_key_of(b),
    ensures
        same_keys(a, b),
    decreases a.len(),
{
    if a.len() > 0 {
        let all = group_key_of(a);
        let (before_a, before_b) = (group_key_of(a.drop_last()), group_key_of(b.drop_last()));
        let (part_a, part_b) = (key_part(a.last()), key_part(b.last()));
        assert(all == before_a + part_a && all == before_b + part_b);
        if a.len() > 1 {
            lemma_key_end(a.drop_last());
            lemma_key_end(b.drop_last());
        } else {
            assert(before_a.len() == 0 && before_b.len() == 0);
        }
        assert(all.len() == before_a.len() + part_a.len());
        assert(all.len() == before_b.len() + part_b.len());
        lemma_key_part_inside(a.last());
        lemma_key_part_inside(b.last());
        if part_a.len() < part_b.len() {
            assert(before_a.last() == all[before_a.len() - 1]);
            assert(all[before_a.len() - 1] == part_b[before_a.len() - 1 - before_b.len()]);
        } else if part_b.len() < part_a.len() {
            assert(before_b.last() == all[before_b.len() - 1]);
            assert(all[before_b.len() - 1] == part_a[before_b.len() - 1 - before_a.len()]);
        }
        assert(before_a =~= all.take(before_a.len() as int) && before_b =~= all.take(before_b.len() as int));
        assert(part_a =~= all.skip(before_a.len() as int) && part_b =~= all.skip(before_b.len() as int));
        assert(key_mark(a.last()) == part_a[0] && key_mark(b.last()) == part_b[0]);
        assert(marks_escaped(key_text(a.last())) =~= part_a.subrange(2, part_a.len() - 1));
        assert(marks_escaped(key_text(b.last())) =~= part_b.subrange(2, part_b.len() - 1));
        lemma_escaped_apart(key_text(a.last()), key_text(b.last()));
        lemma_one_key_same(a.drop_last(), b.drop_last());
        assert forall|i: int| 0 <= i < a.len() implies same_key(#[trigger] a[i], b[i]) by {
            if i < a.len() - 1 {
                assert(same_key(a.drop_last()[i], b.drop_last()[i]));
            }
        }
    }
}

proof fn lemma_key_part_inside(value: Json)
    ensures
        forall|i: int| 0 <= i < key_part(value).len() - 1 ==> #[trigger] key_part(value)[i] != '\x02',
{
    let text = marks_escaped(key_text(value));
    lemma_escaped_inside(key_text(value));
    assert forall|i: int| 0 <= i < key_part(value).len() - 1 implies #[trigger] key_part(value)[i] != '\x02' by {
        if i >= 2 {
            assert(key_part(value)[i] == text[i - 2]);
            assert(text.contains(text[i - 2]));
        }
    }
}

fn push_escaped(key: &mut String, text: &str)
    ensures
        final(key)@ == old(key)@ + marks_escaped(text@),
{
    let ghost before = key@;
    let chars = chars_of(text);
    let mut i: usize = 0;
    assert(text@.take(0) =~= Seq::<char>::empty());
    assert(key@ =~= before + marks_escaped(text@.take(0)));
    while i < chars.len()
        invariant
            i <= chars.len(),
            chars@ == text@,
            key@ == before + marks_escaped(text@.take(i as int)),
        decreases chars.len() - i,
    {
        assert(text@.take(i + 1).drop_last() =~= text@.take(i as int));
        let c = chars[i];
        if c == '\x01' {
            key.push('\x01');
            key.push('1');
        } else if c == '\x02' {
            key.push('\x01');
            key.push('2');
        } else {
            key.push(c);
        }
        assert(key@ =~= before + marks_escaped(text@.take(i + 1)));
        i = i + 1;
    }
    assert(text@.take(i as int) =~= text@);
}

fn push_key_part(key: &mut String, value: &Value)
    ensures
        final(key)@ == old(key)@ + key_part(value@),
{
    let ghost before = key@;
    let (mark, text) = match value {
        Value::String(s) => ('s', s.clone()),
        Value::Number(n) => ('n', number_text(n)),
        Value::Bool(b) => ('b', if *b { "true".to_owned() } else { "false".to_owned() }),
        Value::Null => ('N', String::new()),
        _ => ('j', write_json(value)),
    };
    key.push(mark);
    key.push('\x01');
    push_escaped(key, text.as_str());
    key.push('\x02');
    assert(key@ =~= before + key_part(value@));
}

/// The text by which the key values of a group are told from others.
pub fn group_key(values: &Vec<Value>) -> (key: String)
    ensures
        key@ == group_key_of(jsons(values@)),
{
    let ghost all = jsons(values@);
    let mut key = String::new();
    let mut i: usize = 0;
    assert(all.take(0) =~= Seq::empty());
    assert(key@ =~= group_key_of(all.take(0)));
    while i < values.len()
        invariant
            i <= values.len(),
            all == jsons(values@),
            key@ == group_key_of(all.take(i as int)),
        decreases values.len() - i,
    {
        assert(all.take(i + 1).drop_last() =~= all.take(i as int));
        assert(all.take(i + 1).last() == values@[i as int]@);
        push_key_part(&mut key, &values[i]);
        i = i + 1;
    }
    assert(all.take(i as int) =~= all);
    key
}

/// A group: the key text, the key values of its first row, and its rows.
#[verifier::ext_equal]
pub struct GroupView {
    pub key: Seq<char>,
    pub key_values: Seq<Json>,
    pub rows: Seq<Json>,
}

/// A group of rows.
#[derive(Debug, PartialEq)]
pub struct Group {
    pub key: String,
    pub key_values: Vec<Value>,
    pub rows: Vec<Value>,
}

impl View for Group {
    type V = GroupView;

    open spec fn view(&self) -> GroupView {
        GroupView { key: self.key@, key_values: jsons(self.key_values@), rows: jsons(self.rows@) }
    }
}

/// Whether the key list stands for one group of all rows.
pub open spec fn groups_all(keys: Seq<Seq<char>>) -> bool {
    keys.len() == 1 && keys[0] == "*"@
}

/// The key values of a row.
pub open spec fn key_values_of(row: Json, keys: Seq<Seq<char>>) -> Seq<Json> {
    if groups_all(keys) {
        Seq::empty()
    } else {
        Seq::new(keys.len(), |i: int| value_at(row, path_of(keys[i])))
    }
}

/// The key text of a row.
pub open spec fn row_key(row: Json, keys: Seq<Seq<char>>) -> Seq<char> {
    if groups_all(keys) {
        "*"@
    } else {
        group_key_of(key_values_of(row, keys))
    }
}

/// The position of the group with a key, from one on.
pub open spec fn group_position(groups: Seq<GroupView>, key: Seq<char>, from: int) -> Option<int>
    decreases groups.len() - from,
{
    if from >= groups.len() {
        None
    } else if groups[from].key == key {
        Some(from)
    } else {
        group_position(groups, key, from + 1)
    }
}

/// The groups with a row added: to the group with its key, or as a new last group.
pub open spec fn add_row(groups: Seq<GroupView>, row: Json, keys: Seq<Seq<char>>) -> Seq<GroupView> {
    let key = row_key(row, keys);
    match group_position(groups, key, 0) {
        Some(i) => groups.update(
            i,
            GroupView { key, key_values: groups[i].key_values, rows: groups[i].rows.push(row) },
        ),
        None => groups.push(GroupView { key, key_values: key_values_of(row, keys), rows: seq![row] }),
    }
}

/// The groups of rows, in the order of their first rows.
pub open spec fn groups_of(rows: Seq<Json>, keys: Seq<Seq<char>>) -> Seq<GroupView>
    decreases rows.len(),
{
    if rows.len() == 0 {
        Seq::empty()
    } else {
        add_row(groups_of(rows.drop_last(), keys), rows.last(), keys)
    }
}

proof fn lemma_group_position(groups: Seq<GroupView>, key: Seq<char>, from: int)
    requires
        0 <= from,
    ensures
        match group_position(groups, key, from) {
            Some(i) => from <= i < groups.len() && groups[i].key == key && forall|j: int| from <= j < i ==> (#[trigger] groups[j]).key != key,
            None => forall|j: int| from <= j < groups.len() ==> (#[trigger] groups[j]).key != key,
        },
    decreases groups.len() - from,
{
    if from < groups.len() && groups[from].key != key {
        lemma_group_position(groups, key, from + 1);
    }
}

/// The group of a key holds exactly the rows with that key, in their order.
pub proof fn lemma_group_rows(rows: Seq<Json>, keys: Seq<Seq<char>>, g: int)
    requires
        0 <= g < groups_of(rows, keys).len(),
    ensures
        groups_of(rows, keys)[g].rows == rows.filter(|row: Json| row_key(row, keys) == groups_of(rows, keys)[g].key),
        groups_of(rows, keys)[g].rows.len() > 0,
        groups_of(rows, keys)[g].key_values == key_values_of(groups_of(rows, keys)[g].rows[0], keys),
    decreases rows.len(),
{
    reveal(Seq::filter);
    let rest = rows.drop_last();
    let earlier = groups_of(rest, keys);
    let key = row_key(rows.last(), keys);
    let groups = groups_of(rows, keys);
    let same = |row: Json| row_key(row, keys) == groups[g].key;
    lemma_group_position(earlier, key, 0);
    match group_position(earlier, key, 0) {
        Some(i) => {
            lemma_group_rows(rest, keys, g);
            assert(earlier[g].key == groups[g].key);
            if g != i {
                lemma_groups_distinct(rest, keys, g, i);
            }
        },
        None => {
            if g < earlier.len() {
                lemma_group_rows(rest, keys, g);
                assert(groups[g] == earlier[g]);
            } else {
                lemma_key_absent(rest, keys, key);
                assert(rest.filter(same) =~= Seq::<Json>::empty());
                assert(rows.filter(same) =~= seq![rows.last()]);
            }
        },
    }
}

/// No two groups have the same key.
pub proof fn lemma_groups_distinct(rows: Seq<Json>, keys: Seq<Seq<char>>, g: int, h: int)
    requires
        0 <= g < groups_of(rows, keys).len(),
        0 <= h < groups_of(rows, keys).len(),
        g != h,
    ensures
        groups_of(rows, keys)[g].key != groups_of(rows, keys)[h].key,
    decreases rows.len(),
{
    let rest = rows.drop_last();
    let earlier = groups_of(rest, keys);
    let key = row_key(rows.last(), keys);
    lemma_group_position(earlier, key, 0);
    match group_position(earlier, key, 0) {
        Some(i) => {
            lemma_groups_distinct(rest, keys, g, h);
        },
        None => {
            if g < earlier.len() && h < earlier.len() {
                lemma_groups_distinct(rest, keys, g, h);
            } else if g < earlier.len() {
                assert(earlier[g].key != key);
            } else {
                assert(earlier[h].key != key);
            }
        },
    }
}

proof fn lemma_key_absent(rows: Seq<Json>, keys: Seq<Seq<char>>, key: Seq<char>)
    requires
        forall|j: int| 0 <= j < groups_of(rows, keys).len() ==> (#[trigger] groups_of(rows, keys)[j]).key != key,
    ensures
        rows.filter(|row: Json| row_key(row, keys) == key) == Seq::<Json>::empty(),
    decreases rows.len(),
{
    reveal(Seq::filter);
    if rows.len() > 0 {
        let rest = rows.drop_last();
        let earlier = groups_of(rest, keys);
        let groups = groups_of(rows, keys);
        let last = row_key(rows.last(), keys);
        lemma_group_position(earlier, last, 0);
        assert forall|j: int| 0 <= j < earlier.len() implies (#[trigger] earlier[j]).key != key by {
            assert(groups[j].key == earlier[j].key);
        }
        lemma_key_absent(rest, keys, key);
        match group_position(earlier, last, 0) {
            Some(i) => {
                assert(groups[i].key == last);
            },
            None => {
                assert(groups[earlier.len() as int].key == last);
            },
        }
    }
}

/// Every row is in some group.
pub proof fn lemma_every_row_grouped(rows: Seq<Json>, keys: Seq<Seq<char>>, r: int)
    requires
        0 <= r < rows.len(),
    ensures
        exists|g: int| 0 <= g < groups_of(rows, keys).len() && (#[trigger] groups_of(rows, keys)[g]).key == row_key(rows[r], keys),
    decreases rows.len(),
{
    let rest = rows.drop_last();
    let earlier = groups_of(rest, keys);
    let groups = groups_of(rows, keys);
    let last = row_key(rows.last(), keys);
    lemma_group_position(earlier, last, 0);
    if r < rest.len() {
        lemma_every_row_grouped(rest, keys, r);
        let g = choose|g: int| 0 <= g < earlier.len() && (#[trigger] earlier[g]).key == row_key(rest[r], keys);
        assert(groups[g].key == earlier[g].key);
    } else {
        match group_position(earlier, last, 0) {
            Some(i) => {
                assert(groups[i].key == last);
            },
            None => {
                assert(groups[earlier.len() as int].key == last);
            },
        }
    }
}

/// Two rows have one key text exactly where their key values are the same, one by one.
pub proof fn lemma_rows_told_apart(a: Json, b: Json, keys: Seq<Seq<char>>)
    ensures
        row_key(a, keys) == row_key(b, keys) <==> same_keys(key_values_of(a, keys), key_values_of(b, keys)),
{
    lemma_keys_told_apart(key_values_of(a, keys), key_values_of(b, keys));
}

/// A group holds exactly the rows whose key values are the same as its own, in their order.
pub proof fn lemma_group_holds_same_keys(rows: Seq<Json>, keys: Seq<Seq<char>>, g: int)
    requires
        0 <= g < groups_of(rows, keys).len(),
    ensures
        groups_of(rows, keys)[g].rows == rows.filter(
            |row: Json| same_keys(key_values_of(row, keys), groups_of(rows, keys)[g].key_values),
        ),
        groups_of(rows, keys)[g].rows.len() > 0,
        groups_of(rows, keys)[g].key_values == key_values_of(groups_of(rows, keys)[g].rows[0], keys),
{
    let group = groups_of(rows, keys)[g];
    let by_key = |row: Json| row_key(row, keys) == group.key;
    let by_values = |row: Json| same_keys(key_values_of(row, keys), group.key_values);
    lemma_group_rows(rows, keys, g);
    let first = group.rows[0];
    rows.lemma_filter_pred(by_key, 0);
    assert forall|row: Json| #[trigger] by_key(row) == by_values(row) by {
        lemma_rows_told_apart(row, first, keys);
    }
    assert(by_key =~= by_values);
}

/// Two groups differ in some key value.
pub proof fn lemma_groups_differ(rows: Seq<Json>, keys: Seq<Seq<char>>, g: int, h: int)
    requires
        0 <= g < groups_of(rows, keys).len(),
        0 <= h < groups_of(rows, keys).len(),
        g != h,
    ensures
        !same_keys(groups_of(rows, keys)[g].key_values, groups_of(rows, keys)[h].key_values),
{
    let groups = groups_of(rows, keys);
    let (a, b) = (groups[g].rows[0], groups[h].rows[0]);
    lemma_group_rows(rows, keys, g);
    lemma_group_rows(rows, keys, h);
    lemma_groups_distinct(rows, keys, g, h);
    let in_g = |row: Json| row_key(row, keys) == groups[g].key;
    let in_h = |row: Json| row_key(row, keys) == groups[h].key;
    rows.lemma_filter_pred(in_g, 0);
    rows.lemma_filter_pred(in_h, 0);
    lemma_rows_told_apart(a, b, keys);
}

/// The mathematical groups.
pub open spec fn group_views(groups: Seq<Group>) -> Seq<GroupView> {
    Seq::new(groups.len(), |i: int| groups[i]@)
}

fn is_group_all(keys: &Vec<String>) -> (answer: bool)
    ensures
        answer == groups_all(texts(keys@)),
{
    if keys.len() == 1 {
        assert(texts(keys@)[0] == keys@[0]@);
        same_text(keys[0].as_str(), "*")
    } else {
        false
    }
}

fn row_key_values(row: &Value, keys: &Vec<String>, all: bool) -> (values: Vec<Value>)
    requires
        all == groups_all(texts(keys@)),
    ensures
        jsons(values@) == key_values_of(row@, texts(keys@)),
{
    let mut values: Vec<Value> = Vec::new();
    if all {
        assert(jsons(values@) =~= Seq::empty());
        return values;
    }
    let ghost whole = key_values_of(row@, texts(keys@));
    let mut i: usize = 0;
    assert(jsons(values@) =~= whole.take(0));
    while i < keys.len()
        invariant
            i <= keys.len(),
            !groups_all(texts(keys@)),
            whole == key_values_of(row@, texts(keys@)),
            jsons(values@) == whole.take(i as int),
        decreases keys.len() - i,
    {
        assert(texts(keys@)[i as int] == keys@[i as int]@);
        let path = path_parts(keys[i].as_str());
        values.push(get_path(row, &path));
        assert(whole.take(i + 1) =~= whole.take(i as int).push(whole[i as int]));
        i = i + 1;
    }
    assert(whole.take(i as int) =~= whole);
    values
}

fn find_group(groups: &Vec<Group>, key: &str) -> (position: Option<usize>)
    ensures
        position is Some <==> group_position(group_views(groups@), key@, 0) is Some,
        position matches Some(i) ==> i < groups@.len() && group_position(group_views(groups@), key@, 0) == Some(i as int),
{
    let ghost all = group_views(groups@);
    let mut i: usize = 0;
    while i < groups.len()
        invariant
            i <= groups.len(),
            all == group_views(groups@),
            group_position(all, key@, 0) == group_position(all, key@, i as int),
        decreases groups.len() - i,
    {
        assert(all[i as int] == groups@[i as int]@);
        if same_text(groups[i].key.as_str(), key) {
            return Some(i);
        }
        i = i + 1;
    }
    None
}

/// Groups rows by the values at the key paths; the key `*` alone makes one group of all rows.
pub fn group_rows(rows: &Vec<Value>, keys: &Vec<String>) -> (groups: Vec<Group>)
    ensures
        group_views(groups@) == groups_of(jsons(rows@), texts(keys@)),
{
    let all = is_group_all(keys);
    let ghost names = texts(keys@);
    let ghost given = jsons(rows@);
    let mut groups: Vec<Group> = Vec::new();
    let mut i: usize = 0;
    assert(given.take(0) =~= Seq::empty());
    assert(group_views(groups@) =~= groups_of(given.take(0), names));
    while i < rows.len()
        invariant
            i <= rows.len(),
            names == texts(keys@),
            given == jsons(rows@),
            all == groups_all(names),
            group_views(groups@) == groups_of(given.take(i as int), names),
        decreases rows.len() - i,
    {
        assert(given.take(i + 1).drop_last() =~= given.take(i as int));
        assert(given.take(i + 1).last() == rows@[i as int]@);
        let ghost before = groups@;
        let key_values = row_key_values(&rows[i], keys, all);
        let key = if all {
            "*".to_owned()
        } else {
            group_key(&key_values)
        };
        match find_group(&groups, key.as_str()) {
            Some(g) => {
                assert(group_views(before)[g as int] == before[g as int]@);
                let mut group = Group { key, key_values: Vec::new(), rows: Vec::new() };
                std::mem::swap(&mut group, &mut groups[g]);
                let ghost taken = group@;
                let Group { key: kept_key, key_values: kept_values, rows: mut kept_rows } = group;
                kept_rows.push(rows[i].copy());
                let whole = Group { key: kept_key, key_values: kept_values, rows: kept_rows };
                assert(whole@ =~= GroupView { key: taken.key, key_values: taken.key_values, rows: taken.rows.push(rows@[i as int]@) });
                proof {
                    lemma_group_position(group_views(before), row_key(rows@[i as int]@, names), 0);
                }
                groups.set(g, whole);
                assert(group_views(groups@) =~= add_row(group_views(before), rows@[i as int]@, names));
            },
            None => {
                let first = vec![rows[i].copy()];
                assert(jsons(first@) =~= seq![rows@[i as int]@]);
                groups.push(Group { key, key_values, rows: first });
                assert(group_views(groups@) =~= add_row(group_views(before), rows@[i as int]@, names));
            },
        }
        i = i + 1;
    }
    assert(given.take(i as int) =~= given);
    groups
}

/// The members that a group's keys give its output row.
pub open spec fn key_members(keys: Seq<Seq<char>>, values: Seq<Json>) -> Seq<(Seq<char>, Json)> {
    if groups_all(keys) || values.len() != keys.len() {
        Seq::empty()
    } else {
        with_keys(Seq::empty(), keys, values)
    }
}

/// The members with the values set at the key paths, one after another.
pub open spec fn with_keys(members: Seq<(Seq<char>, Json)>, keys: Seq<Seq<char>>, values: Seq<Json>) -> Seq<(Seq<char>, Json)>
    decreases keys.len(),
{
    if keys.len() == 0 {
        members
    } else {
        with_path(
            with_keys(members, keys.drop_last(), values.drop_last()),
            path_of(keys.last()),
            values.last(),
        )
    }
}

/// The keys of a group give its output row just the key columns with the group's values, where the
/// keys are different columns and none is a path into another value.
pub proof fn lemma_key_columns(keys: Seq<Seq<char>>, values: Seq<Json>, column: Seq<char>)
    requires
        !groups_all(keys),
        keys.len() == values.len(),
        keys.no_duplicates(),
        forall|i: int| 0 <= i < keys.len() ==> path_of(#[trigger] keys[i]) == seq![keys[i]],
    ensures
        match obj_get(key_members(keys, values), column) {
            Some(value) => exists|i: int| 0 <= i < keys.len() && (#[trigger] keys[i]) == column && value == values[i],
            None => !keys.contains(column),
        },
{
    lemma_columns_set(keys, values, column);
}

proof fn lemma_columns_set(keys: Seq<Seq<char>>, values: Seq<Json>, column: Seq<char>)
    requires
        keys.len() == values.len(),
        keys.no_duplicates(),
        forall|i: int| 0 <= i < keys.len() ==> path_of(#[trigger] keys[i]) == seq![keys[i]],
    ensures
        match obj_get(with_keys(Seq::empty(), keys, values), column) {
            Some(value) => exists|i: int| 0 <= i < keys.len() && (#[trigger] keys[i]) == column && value == values[i],
            None => !keys.contains(column),
        },
    decreases keys.len(),
{
    if keys.len() > 0 {
        let (rest, others) = (keys.drop_last(), values.drop_last());
        let last = keys.len() - 1;
        let before = with_keys(Seq::empty(), rest, others);
        assert forall|i: int| 0 <= i < rest.len() implies path_of(#[trigger] rest[i]) == seq![rest[i]] by {
            assert(rest[i] == keys[i]);
        }
        lemma_columns_set(rest, others, column);
        assert(path_of(keys[last]) == seq![keys[last]]);
        lemma_get_after_insert(before, keys.last(), values.last(), column);
        match obj_get(with_keys(Seq::empty(), keys, values), column) {
            Some(value) => {
                if keys.last() == column {
                    assert(keys[last] == column && value == values[last]);
                } else {
                    let i = choose|i: int| 0 <= i < rest.len() && (#[trigger] rest[i]) == column && value == others[i];
                    assert(keys[i] == column);
                }
            },
            None => {
                assert forall|i: int| 0 <= i < keys.len() implies keys[i] != column by {
                    if i < last {
                        assert(rest[i] == keys[i]);
                    }
                }
            },
        }
    }
}

/// The output row that a group's keys begin.
pub fn key_output(keys: &Vec<String>, values: &Vec<Value>) -> (output: Object)
    ensures
        output@ == key_members(texts(keys@), jsons(values@)),
{
    let mut output = Object::new();
    if is_group_all(keys) || values.len() != keys.len() {
        return output;
    }
    let ghost names = texts(keys@);
    let ghost given = jsons(values@);
    let mut i: usize = 0;
    assert(names.take(0) =~= Seq::<Seq<char>>::empty());
    while i < keys.len()
        invariant
            i <= keys.len() == values.len(),
            names == texts(keys@),
            given == jsons(values@),
            output@ == with_keys(Seq::empty(), names.take(i as int), given.take(i as int)),
        decreases keys.len() - i,
    {
        assert(names.take(i + 1).drop_last() =~= names.take(i as int));
        assert(names.take(i + 1).last() == keys@[i as int]@);
        assert(given.take(i + 1).drop_last() =~= given.take(i as int));
        assert(given.take(i + 1).last() == values@[i as int]@);
        let path = path_parts(keys[i].as_str());
        set_path(&mut output, &path, values[i].copy());
        i = i + 1;
    }
    assert(names.take(i as int) =~= names);
    assert(given.take(i as int) =~= given);
    output
}

/// The keys of groups.
pub open spec fn group_keys(groups: Seq<GroupView>) -> Seq<Seq<char>> {
    Seq::new(groups.len(), |i: int| groups[i].key)
}

/// Groups stand in the order of their first rows: further rows only add groups behind the others.
pub proof fn lemma_group_order(rows: Seq<Json>, keys: Seq<Seq<char>>, count: int)
    requires
        0 <= count <= rows.len(),
    ensures
        group_keys(groups_of(rows.take(count), keys)).is_prefix_of(group_keys(groups_of(rows, keys))),
    decreases rows.len(),
{
    let first = group_keys(groups_of(rows.take(count), keys));
    let all = group_keys(groups_of(rows, keys));
    if count == rows.len() {
        assert(rows.take(count) =~= rows);
        assert(all.subrange(0, first.len() as int) =~= first);
    } else {
        let rest = rows.drop_last();
        assert(rest.take(count) =~= rows.take(count));
        lemma_group_order(rest, keys, count);
        let earlier = groups_of(rest, keys);
        let between = group_keys(earlier);
        lemma_group_position(earlier, row_key(rows.last(), keys), 0);
        assert(between.len() <= all.len());
        assert forall|i: int| 0 <= i < between.len() implies all[i] == between[i] by {
            assert(groups_of(rows, keys)[i].key == earlier[i].key);
        }
        assert(between.subrange(0, first.len() as int) =~= first);
        assert forall|i: int| 0 <= i < first.len() implies all[i] == first[i] by {
            assert(between.subrange(0, first.len() as int)[i] == between[i]);
        }
        assert(all.subrange(0, first.len() as int) =~= first);
    }
}

} // verus!
