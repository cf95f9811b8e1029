//! Laws of GROUP_BY: what stands for a group, and what its aggregates are computed from.
use vstd::prelude::*;
use crate::call::{Kernel, Question};
use crate::eval::{eval, eval_call, eval_list, Eval, EvalList};
use crate::grouping::{add_keys, all_keys, are_objects, column_values, grouped, grouped_columns, groups_of, key_members, key_values_of, lemma_column_height, lemma_group_holds_same_keys, same_key, with_keys};
use crate::functions::date::key_of_value;
use crate::laws::dates::{extreme_name, lemma_extreme_dates};
use crate::laws::lists::{integer, lemma_array, lemma_count};
use crate::laws::numbers::{lemma_sum, summand};
use crate::laws::mapping::{field_in, lemma_lookup_one, lemma_set_keeps_apart, part_ways};
use crate::paths::{follow, lemma_get_after_set, lookup, value_at};
use crate::pipeline::{group_output_of, step_rows, task_eval, task_inputs, Many};
use crate::query::{Expr, MapItem, Step};
use crate::text::{lemma_split_behind, lemma_split_single, path_of, split_on};
use crate::json::text_of_json;
use crate::value::{double_text, lemma_get_after_insert, obj_get, Json, Num};

verus! {

/// A key is found where some member has it.
pub proof fn lemma_has_key(members: Seq<(Seq<char>, Json)>, key: Seq<char>)
    ensures
        obj_get(members, key) is Some <==> exists|k: int| 0 <= k < members.len() && (#[trigger] members[k]).0 == key,
    decreases members.len(),
{
    if members.len() > 0 {
        let rest = members.drop_first();
        lemma_has_key(rest, key);
        if members[0].0 != key {
            if obj_get(rest, key) is Some {
                let k = choose|k: int| 0 <= k < rest.len() && (#[trigger] rest[k]).0 == key;
                assert(members[k + 1].0 == key);
            }
            if exists|k: int| 0 <= k < members.len() && (#[trigger] members[k]).0 == key {
                let k = choose|k: int| 0 <= k < members.len() && (#[trigger] members[k]).0 == key;
                assert(rest[k - 1].0 == key);
            }
        }
    }
}

proof fn lemma_add_keys(keys: Seq<(Seq<char>, Json)>, members: Seq<(Seq<char>, Json)>, key: Seq<char>)
    ensures
        obj_get(add_keys(keys, members), key) is Some <==> obj_get(keys, key) is Some || obj_get(members, key) is Some,
    decreases members.len(),
{
    lemma_has_key(members, key);
    if members.len() > 0 {
        let rest = members.drop_last();
        lemma_add_keys(keys, rest, key);
        lemma_has_key(rest, key);
        lemma_get_after_insert(add_keys(keys, rest), members.last().0, Json::Null, key);
        let last = members.len() - 1;
        if members[last].0 == key {
            assert(obj_get(members, key) is Some);
        } else if obj_get(members, key) is Some {
            let k = choose|k: int| 0 <= k < members.len() && (#[trigger] members[k]).0 == key;
            assert(rest[k].0 == key);
        } else if obj_get(rest, key) is Some {
            let k = choose|k: int| 0 <= k < rest.len() && (#[trigger] rest[k]).0 == key;
            assert(members[k].0 == key);
        }
    }
}

/// Whether a row has a field.
pub open spec fn has_field(row: Json, key: Seq<char>) -> bool {
    row matches Json::Object(members) && obj_get(members, key) is Some
}

proof fn lemma_all_keys(rows: Seq<Json>, key: Seq<char>)
    ensures
        obj_get(all_keys(rows), key) is Some <==> exists|i: int| 0 <= i < rows.len() && has_field(#[trigger] rows[i], key),
    decreases rows.len(),
{
    if rows.len() > 0 {
        let rest = rows.drop_last();
        let last = rows.len() - 1;
        lemma_all_keys(rest, key);
        match rows.last() {
            Json::Object(members) => lemma_add_keys(all_keys(rest), members, key),
            _ => {},
        }
        if has_field(rows[last], key) {
        } else if exists|i: int| 0 <= i < rows.len() && has_field(#[trigger] rows[i], key) {
            let i = choose|i: int| 0 <= i < rows.len() && has_field(#[trigger] rows[i], key);
            assert(has_field(rest[i], key));
        }
        if exists|i: int| 0 <= i < rest.len() && has_field(#[trigger] rest[i], key) {
            let i = choose|i: int| 0 <= i < rest.len() && has_field(#[trigger] rest[i], key);
            assert(has_field(rows[i], key));
        }
    }
}

proof fn lemma_grouped_columns(rows: Seq<Json>, keys: Seq<(Seq<char>, Json)>, key: Seq<char>)
    requires
        are_objects(rows),
    ensures
        obj_get(grouped_columns(rows, keys), key) == if exists|k: int| 0 <= k < keys.len() && (#[trigger] keys[k]).0 == key {
            Some(grouped(column_values(rows, key)))
        } else {
            None
        },
    decreases keys.len(),
{
    if keys.len() > 0 {
        let rest = keys.drop_last();
        let last = keys.len() - 1;
        lemma_column_height(rows, keys.last().0);
        lemma_grouped_columns(rows, rest, key);
        lemma_get_after_insert(
            grouped_columns(rows, rest),
            keys.last().0,
            grouped(column_values(rows, keys.last().0)),
            key,
        );
        if keys[last].0 == key {
        } else if exists|k: int| 0 <= k < keys.len() && (#[trigger] keys[k]).0 == key {
            let k = choose|k: int| 0 <= k < keys.len() && (#[trigger] keys[k]).0 == key;
            assert(rest[k].0 == key);
        }
        if exists|k: int| 0 <= k < rest.len() && (#[trigger] rest[k]).0 == key {
            let k = choose|k: int| 0 <= k < rest.len() && (#[trigger] rest[k]).0 == key;
            assert(keys[k].0 == key);
        }
    }
}

/// The fields of rows under a key, one for each row, null where a row has none.
pub open spec fn fields(rows: Seq<Json>, key: Seq<char>) -> Seq<Json> {
    Seq::new(rows.len(), |i: int| field_in(rows[i], key))
}

/// Whether rows are objects, some of them perhaps null.
pub open spec fn objects_or_null(rows: Seq<Json>) -> bool {
    &&& exists|i: int| 0 <= i < rows.len() && (#[trigger] rows[i]) is Object
    &&& forall|i: int| 0 <= i < rows.len() ==> (#[trigger] rows[i]) is Object || rows[i] is Null
}

/// A group of objects is an object with a column for every key that some row has. Where no row
/// holds an object under the key, the column is an array with as many items as the group has rows,
/// each the row's own field or null, repeated as often as it occurs. Where the fields are objects
/// themselves, the column is their group.
pub proof fn lemma_group_columns(rows: Seq<Json>, key: Seq<char>)
    requires
        objects_or_null(rows),
    ensures
        grouped(rows) is Object,
        obj_get(grouped(rows)->Object_0, key) is Some <==> exists|i: int| 0 <= i < rows.len() && has_field(#[trigger] rows[i], key),
        (exists|i: int| 0 <= i < rows.len() && has_field(#[trigger] rows[i], key)) && !objects_or_null(fields(rows, key))
            ==> obj_get(grouped(rows)->Object_0, key) == Some(Json::Array(fields(rows, key))),
        (exists|i: int| 0 <= i < rows.len() && has_field(#[trigger] rows[i], key)) && (forall|i: int|
            0 <= i < rows.len() ==> !(field_in(#[trigger] rows[i], key) is Object)) ==> obj_get(
            grouped(rows)->Object_0,
            key,
        ) == Some(Json::Array(fields(rows, key))),
        objects_or_null(fields(rows, key)) ==> obj_get(grouped(rows)->Object_0, key) == Some(grouped(fields(rows, key))),
{
    assert(column_values(rows, key) =~= fields(rows, key));
    lemma_all_keys(rows, key);
    lemma_has_key(all_keys(rows), key);
    lemma_grouped_columns(rows, all_keys(rows), key);
    if objects_or_null(fields(rows, key)) {
        let i = choose|i: int| 0 <= i < rows.len() && (#[trigger] fields(rows, key)[i]) is Object;
        assert(field_in(rows[i], key) is Object);
        assert(has_field(rows[i], key));
    }
}

/// A group of rows of which one is neither an object nor null, or none is an object, is the array of
/// its rows.
pub proof fn lemma_group_of_plain_rows(rows: Seq<Json>)
    requires
        !objects_or_null(rows),
    ensures
        grouped(rows) == Json::Array(rows),
{
}

/// The values that rows hold at a path, one for each row, null where it leads nowhere.
pub open spec fn values_at(rows: Seq<Json>, path: Seq<Seq<char>>) -> Seq<Json> {
    Seq::new(rows.len(), |i: int| value_at(rows[i], path))
}

/// Whether some row has something at a path.
pub open spec fn some_has(rows: Seq<Json>, path: Seq<Seq<char>>) -> bool {
    exists|i: int| 0 <= i < rows.len() && lookup(#[trigger] rows[i], path) is Some
}

/// A group has, at every path that leads through objects of its rows to values that are none, an
/// array with as many items as the group has rows, each what the row itself has there.
pub proof fn lemma_group_values(rows: Seq<Json>, path: Seq<Seq<char>>)
    requires
        path.len() > 0,
        forall|k: int| 0 <= k < path.len() ==> objects_or_null(values_at(rows, #[trigger] path.take(k))),
        !objects_or_null(values_at(rows, path)),
        some_has(rows, path),
    ensures
        lookup(grouped(rows), path) == Some(Json::Array(values_at(rows, path))),
    decreases path.len(),
{
    let (key, rest) = (path[0], path.drop_first());
    let column = fields(rows, key);
    assert(path.take(0) =~= Seq::empty());
    assert(values_at(rows, path.take(0)) =~= rows);
    lemma_group_columns(rows, key);
    let some = choose|i: int| 0 <= i < rows.len() && lookup(#[trigger] rows[i], path) is Some;
    assert(has_field(rows[some], key));
    assert forall|i: int, p: Seq<Seq<char>>| 0 <= i < rows.len() && p.len() > 0 && p[0] == key implies value_at(rows[i], p)
        == #[trigger] value_at(column[i], p.drop_first()) by {
        assert(p.drop_first().len() == p.len() - 1);
    }
    if path.len() == 1 {
        assert(rest =~= Seq::empty());
        assert forall|i: int| 0 <= i < rows.len() implies values_at(rows, path)[i] == #[trigger] column[i] by {
            assert(value_at(rows[i], path) == value_at(column[i], path.drop_first()));
        }
        assert(values_at(rows, path) =~= column);
        assert(path =~= seq![key]);
        lemma_lookup_one(grouped(rows)->Object_0, key);
    } else {
        assert(values_at(column, rest) =~= values_at(rows, path));
        assert forall|k: int| 0 <= k < rest.len() implies objects_or_null(values_at(column, #[trigger] rest.take(k))) by {
            let longer = path.take(k + 1);
            assert(longer.drop_first() =~= rest.take(k));
            assert(values_at(column, rest.take(k)) =~= values_at(rows, longer));
        }
        assert(lookup(column[some], rest) is Some);
        lemma_group_values(column, rest);
        assert(rest.take(0) =~= Seq::empty());
        assert(values_at(column, rest.take(0)) =~= column);
        assert(objects_or_null(column));
        assert(obj_get(grouped(rows)->Object_0, key) == Some(grouped(column)));
    }
}

/// A path without the part `$` leads to the same as a reference and as a path of keys.
pub proof fn lemma_follow_is_value(value: Json, path: Seq<Seq<char>>)
    requires
        forall|i: int| 0 <= i < path.len() ==> #[trigger] path[i] != "$"@,
    ensures
        follow(value, path) == value_at(value, path),
    decreases path.len(),
{
    if path.len() > 0 {
        let rest = path.drop_first();
        assert forall|i: int| 0 <= i < rest.len() implies #[trigger] rest[i] != "$"@ by {
            assert(rest[i] == path[i + 1]);
        }
        match value {
            Json::Object(members) => match obj_get(members, path[0]) {
                Some(member) => lemma_follow_is_value(member, rest),
                None => {},
            },
            _ => {},
        }
    }
}

/// A function of a column, called on a group, is called on the array of that column's values: as many
/// as the group has rows, each what the row itself has there.
pub proof fn lemma_aggregate(name: Seq<char>, rows: Seq<Json>, path: Seq<Seq<char>>, answers: Seq<Json>, used: nat)
    requires
        path.len() > 0,
        forall|i: int| 0 <= i < path.len() ==> #[trigger] path[i] != "$"@,
        forall|k: int| 0 <= k < path.len() ==> objects_or_null(values_at(rows, #[trigger] path.take(k))),
        !objects_or_null(values_at(rows, path)),
        some_has(rows, path),
    ensures
        eval(Expr::Call(name, seq![Expr::Reference(path)]), grouped(rows), answers, used) == eval_call(
            name,
            seq![Json::Array(values_at(rows, path))],
            answers,
            used,
        ),
{
    lemma_group_values(rows, path);
    lemma_follow_is_value(grouped(rows), path);
    let column = Json::Array(values_at(rows, path));
    let one = seq![Expr::Reference(path)];
    assert(one.drop_last() =~= Seq::empty());
    assert(eval_list(one.drop_last(), grouped(rows), answers, used) == EvalList::Done(Seq::empty(), used));
    assert(eval(one.last(), grouped(rows), answers, used) == Eval::Done(column, used));
    assert(Seq::empty().push(column) =~= seq![column]);
    assert(eval_list(one, grouped(rows), answers, used) == EvalList::Done(seq![column], used));
}

/// GROUP_BY gives one row for each group, made by the mapping of the group's value behind the group's
/// keys. A group holds the rows whose values under every key are the same as those of its first row,
/// in their order, and each of them as often as it occurs.
pub proof fn lemma_group_by_step(keys: Seq<Seq<char>>, items: Seq<MapItem>, rows: Seq<Json>, results: Seq<Json>, g: int, answers: Seq<Json>)
    requires
        keys != seq!["*"@],
        0 <= g < groups_of(rows, keys).len(),
    ensures
        step_rows(Step::GroupBy(keys, items), rows, results) == Many::Rows(results),
        task_inputs(Step::GroupBy(keys, items), rows).len() == groups_of(rows, keys).len(),
        ({
            let group = groups_of(rows, keys)[g];
            let first = group.rows[0];
            &&& group.rows.len() > 0
            &&& group.rows == rows.filter(
                |row: Json|
                    forall|k: int|
                        0 <= k < keys.len() ==> same_key(
                            value_at(row, path_of(#[trigger] keys[k])),
                            value_at(first, path_of(keys[k])),
                        ),
            )
            &&& task_eval(Step::GroupBy(keys, items), rows, g, answers) == group_output_of(
                items,
                key_members(keys, Seq::new(keys.len(), |k: int| value_at(first, path_of(keys[k])))),
                grouped(group.rows),
                answers,
                0,
            )
        }),
{
    if keys.len() == 1 && keys[0] == "*"@ {
        assert(keys =~= seq!["*"@]);
    }
    lemma_group_holds_same_keys(rows, keys, g);
    let group = groups_of(rows, keys)[g];
    let first = group.rows[0];
    assert(group.key_values =~= Seq::new(keys.len(), |k: int| value_at(first, path_of(keys[k]))));
    let by_values = |row: Json| crate::grouping::same_keys(key_values_of(row, keys), group.key_values);
    let by_keys = |row: Json|
        forall|k: int|
            0 <= k < keys.len() ==> same_key(
                value_at(row, path_of(#[trigger] keys[k])),
                value_at(first, path_of(keys[k])),
            );
    assert forall|row: Json| #[trigger] by_values(row) == by_keys(row) by {
        let values = key_values_of(row, keys);
        if by_values(row) {
            assert forall|k: int| 0 <= k < keys.len() implies same_key(
                value_at(row, path_of(#[trigger] keys[k])),
                value_at(first, path_of(keys[k])),
            ) by {
                assert(same_key(values[k], group.key_values[k]));
            }
        }
        if by_keys(row) {
            assert forall|k: int| 0 <= k < values.len() implies same_key(#[trigger] values[k], group.key_values[k]) by {
                assert(keys[k] == keys[k]);
            }
        }
    }
    assert(by_values =~= by_keys);
}

/// `GROUP_BY *` puts all rows into one group without keys.
pub proof fn lemma_group_by_star(rows: Seq<Json>)
    requires
        rows.len() > 0,
    ensures
        groups_of(rows, seq!["*"@]).len() == 1,
        groups_of(rows, seq!["*"@])[0].rows == rows,
        key_members(seq!["*"@], groups_of(rows, seq!["*"@])[0].key_values) == Seq::<(Seq<char>, Json)>::empty(),
        groups_of(Seq::empty(), seq!["*"@]).len() == 0,
    decreases rows.len(),
{
    let keys = seq!["*"@];
    let rest = rows.drop_last();
    if rest.len() > 0 {
        lemma_group_by_star(rest);
        assert(rest.push(rows.last()) =~= rows);
        let earlier = groups_of(rest, keys);
        crate::grouping::lemma_every_row_grouped(rest, keys, 0);
        assert(earlier[0].key == crate::grouping::row_key(rows.last(), keys));
        assert(crate::grouping::group_position(earlier, earlier[0].key, 0) == Some(0int));
    } else {
        assert(rest =~= Seq::empty());
        assert(groups_of(rest, keys) =~= Seq::empty());
        assert(seq![rows.last()] =~= rows);
    }
}

/// The row of a group holds each key value at the path of its key, where no later key's path leads
/// there too.
pub proof fn lemma_key_paths(keys: Seq<Seq<char>>, values: Seq<Json>, k: int)
    requires
        keys != seq!["*"@],
        keys.len() == values.len(),
        0 <= k < keys.len(),
        path_of(keys[k]).len() > 0,
        forall|j: int| k < j < keys.len() ==> part_ways(path_of(#[trigger] keys[j]), path_of(keys[k])),
    ensures
        lookup(Json::Object(key_members(keys, values)), path_of(keys[k])) == Some(values[k]),
{
    if keys.len() == 1 && keys[0] == "*"@ {
        assert(keys =~= seq!["*"@]);
    }
    lemma_keys_set(keys, values, k);
}

proof fn lemma_keys_set(keys: Seq<Seq<char>>, values: Seq<Json>, k: int)
    requires
        keys.len() == values.len(),
        0 <= k < keys.len(),
        path_of(keys[k]).len() > 0,
        forall|j: int| k < j < keys.len() ==> part_ways(path_of(#[trigger] keys[j]), path_of(keys[k])),
    ensures
        lookup(Json::Object(with_keys(Seq::empty(), keys, values)), path_of(keys[k])) == Some(values[k]),
    decreases keys.len(),
{
    let last = keys.len() - 1;
    let (fewer, rest) = (keys.drop_last(), values.drop_last());
    let before = with_keys(Seq::empty(), fewer, rest);
    if k == last {
        lemma_get_after_set(before, path_of(keys[k]), values[k]);
    } else {
        assert(fewer[k] == keys[k] && rest[k] == values[k]);
        assert forall|j: int| k < j < fewer.len() implies part_ways(path_of(#[trigger] fewer[j]), path_of(fewer[k])) by {
            assert(fewer[j] == keys[j]);
        }
        lemma_keys_set(fewer, rest, k);
        assert(part_ways(path_of(keys[last]), path_of(keys[k])));
        lemma_set_keeps_apart(before, path_of(keys[last]), values[last], path_of(keys[k]));
    }
}

/// A name without a dot is a path of one key, and what follows the last dot of a path is its last
/// key.
pub proof fn lemma_dotted_path(path: Seq<char>, key: Seq<char>)
    requires
        key.len() > 0,
        !key.contains('.'),
    ensures
        path_of(key) == seq![key],
        path_of(path.push('.') + key) == path_of(path).push(key),
{
    reveal(Seq::filter);
    lemma_split_single(key, '.');
    lemma_split_behind(path, key, '.');
    let full = |piece: Seq<char>| piece.len() > 0;
    assert(seq![key].drop_last() =~= Seq::empty());
    assert(seq![key].drop_last().filter(full) =~= Seq::empty());
    assert(seq![key].filter(full) =~= seq![key]);
    let pieces = split_on(path, '.');
    assert(pieces.push(key).drop_last() =~= pieces);
    assert(pieces.push(key).filter(full) =~= pieces.filter(full).push(key));
}

/// Two values are the same key where they are the same value. Lists and objects are so only with each
/// other and where their JSON texts are equal, and doubles where their texts are.
pub proof fn lemma_same_key(a: Json, b: Json, x: u64, y: u64)
    ensures
        same_key(a, a),
        same_key(a, b) == same_key(b, a),
        same_key(a, b) && (a is Array || a is Object) ==> (b is Array || b is Object) && text_of_json(a) == text_of_json(b),
        same_key(Json::Number(Num::Float(x)), Json::Number(Num::Float(y))) <==> double_text(x) == double_text(y),
        same_key(a, b) && a is Number ==> b is Number,
{
}

/// Whether a path leads through objects of the rows of a group to values that are none, in some row at
/// least.
pub open spec fn is_column(rows: Seq<Json>, path: Seq<Seq<char>>) -> bool {
    &&& path.len() > 0
    &&& forall|i: int| 0 <= i < path.len() ==> #[trigger] path[i] != "$"@
    &&& forall|k: int| 0 <= k < path.len() ==> objects_or_null(values_at(rows, #[trigger] path.take(k)))
    &&& !objects_or_null(values_at(rows, path))
    &&& some_has(rows, path)
}

/// A name without a dot that some row has, and under which no row has an object, is a column of rows
/// that are objects.
pub proof fn lemma_plain_column(rows: Seq<Json>, key: Seq<char>)
    requires
        objects_or_null(rows),
        key != "$"@,
        exists|i: int| 0 <= i < rows.len() && has_field(#[trigger] rows[i], key),
        forall|i: int| 0 <= i < rows.len() ==> !(field_in(#[trigger] rows[i], key) is Object),
    ensures
        is_column(rows, seq![key]),
        values_at(rows, seq![key]) == fields(rows, key),
{
    let path = seq![key];
    assert(path.take(0) =~= Seq::empty());
    assert(values_at(rows, path.take(0)) =~= rows);
    assert forall|k: int| 0 <= k < path.len() implies objects_or_null(values_at(rows, #[trigger] path.take(k))) by {
        assert(k == 0);
    }
    assert forall|i: int| 0 <= i < rows.len() implies value_at(#[trigger] rows[i], path) == field_in(rows[i], key) by {
        if let Json::Object(members) = rows[i] {
            lemma_lookup_one(members, key);
        }
    }
    assert(values_at(rows, path) =~= fields(rows, key));
    let i = choose|i: int| 0 <= i < rows.len() && has_field(#[trigger] rows[i], key);
    lemma_lookup_one(rows[i]->Object_0, key);
    assert(lookup(rows[i], path) is Some);
}

/// On a group, `COUNT` of a column is the number of the group's rows, `ARRAY` is the list of their
/// values, one for each row, and `SUM` asks for the sum of these, each of them once for each row.
pub proof fn lemma_group_aggregates(rows: Seq<Json>, path: Seq<Seq<char>>, answers: Seq<Json>, used: nat)
    requires
        is_column(rows, path),
    ensures
        eval(Expr::Call("COUNT"@, seq![Expr::Reference(path)]), grouped(rows), answers, used) == Eval::Done(
            integer(rows.len() as int),
            used,
        ),
        eval(Expr::Call("ARRAY"@, seq![Expr::Reference(path)]), grouped(rows), answers, used) == Eval::Done(
            Json::Array(Seq::new(rows.len(), |i: int| value_at(rows[i], path))),
            used,
        ),
        used >= answers.len() ==> ({
            &&& eval(Expr::Call("SUM"@, seq![Expr::Reference(path)]), grouped(rows), answers, used) matches Eval::Ask(
                Question::Kernel(Kernel::Sum, Json::Array(summands)),
            )
            &&& summands.len() == rows.len()
            &&& forall|i: int| 0 <= i < rows.len() ==> #[trigger] summands[i] == Json::Text(summand(value_at(rows[i], path)))
        }),
{
    let column = values_at(rows, path);
    let args = seq![Json::Array(column)];
    lemma_aggregate("COUNT"@, rows, path, answers, used);
    lemma_aggregate("ARRAY"@, rows, path, answers, used);
    lemma_aggregate("SUM"@, rows, path, answers, used);
    lemma_count(column, args, answers, used);
    lemma_array(column, args, answers, used);
    lemma_sum(args, answers, used);
    crate::laws::values::lemma_items_of_all(Seq::empty(), Seq::empty());
    assert(crate::json::flattened(args) == column);
}

/// On a group, `MINDATE` and `MAXDATE` of a column give the date among the rows' values that no other
/// one is earlier or later than.
pub proof fn lemma_group_dates(rows: Seq<Json>, path: Seq<Seq<char>>, latest: bool, j: int, answers: Seq<Json>, used: nat)
    requires
        is_column(rows, path),
        0 <= j < rows.len(),
        key_of_value(value_at(rows[j], path)) is Some,
    ensures
        exists|i: int|
            {
                &&& 0 <= i < rows.len()
                &&& key_of_value(value_at(#[trigger] rows[i], path)) is Some
                &&& eval(Expr::Call(extreme_name(latest), seq![Expr::Reference(path)]), grouped(rows), answers, used)
                    == Eval::Done(value_at(rows[i], path), used)
                &&& if latest {
                    key_of_value(value_at(rows[j], path))->0 <= key_of_value(value_at(rows[i], path))->0
                } else {
                    key_of_value(value_at(rows[j], path))->0 >= key_of_value(value_at(rows[i], path))->0
                }
            },
{
    let column = values_at(rows, path);
    let args = seq![Json::Array(column)];
    lemma_aggregate(extreme_name(latest), rows, path, answers, used);
    lemma_extreme_dates(args, latest, answers, used);
    crate::laws::values::lemma_items_of_all(Seq::empty(), Seq::empty());
    assert(crate::json::flattened(args) == column);
    assert(key_of_value(column[j]) is Some);
    let result = eval_call(extreme_name(latest), args, answers, used);
    let i = choose|i: int|
        {
            &&& 0 <= i < column.len()
            &&& key_of_value(#[trigger] column[i]) is Some
            &&& result == Eval::Done(column[i], used)
            &&& forall|k: int|
                0 <= k < column.len() && key_of_value(#[trigger] column[k]) is Some ==> if latest {
                    key_of_value(column[k])->0 <= key_of_value(column[i])->0
                } else {
                    key_of_value(column[k])->0 >= key_of_value(column[i])->0
                }
            &&& forall|k: int|
                0 <= k < i && key_of_value(#[trigger] column[k]) is Some ==> key_of_value(column[k])->0
                    != key_of_value(column[i])->0
        };
    assert(key_of_value(value_at(rows[i], path)) is Some);
}

/// Dots at the end of a path, and two in a row, do not matter.
pub proof fn lemma_extra_dots(path: Seq<char>)
    ensures
        path_of(path.push('.')) == path_of(path),
        path_of(Seq::empty()) == Seq::<Seq<char>>::empty(),
{
    reveal(Seq::filter);
    let full = |piece: Seq<char>| piece.len() > 0;
    let pieces = split_on(path, '.');
    let none = Seq::<char>::empty();
    assert(path.push('.').drop_last() =~= path);
    assert(split_on(path.push('.'), '.') == pieces.push(none));
    assert(pieces.push(none).drop_last() =~= pieces);
    assert(pieces.push(none).filter(full) =~= pieces.filter(full));
    assert(split_on(none, '.') =~= seq![none]);
    assert(seq![none].drop_last() =~= Seq::empty());
    assert(seq![none].drop_last().filter(full) =~= Seq::empty());
    assert(seq![none].filter(full) =~= Seq::empty());
}

} // verus!
