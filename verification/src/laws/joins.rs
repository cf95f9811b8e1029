//! Laws of the functions that combine lists of rows.
use vstd::arithmetic::div_mod::{lemma_fundamental_div_mod, lemma_hoist_over_denominator, lemma_mod_multiples_vanish};
use vstd::prelude::*;
use crate::eval::{eval_call, Eval};
use crate::functions::array::{all_arrays, all_have, all_objects, by_field, columns_even, combinations, extend_rows, field_of, field_values, has_keys_of, join_of, joined_row, joined_rows, lemma_combinations_count, lemma_join_ascends, lemma_join_keeps_rows, match_from, product_of_lengths, second_matches, sorts_after, zipped_row};
use crate::json::{display, same_json};
use crate::laws::grouping::lemma_has_key;
use crate::laws::mapping::field_in;
use crate::laws::lists::integer;
use crate::laws::names::{lemma_crossjoin_name, lemma_joinrows_name, lemma_joinrowsindex_name, lemma_unziprows_name, lemma_ziprows_name};
use crate::laws::values::{lemma_found_is_member, lemma_get_after_remove};
use crate::number::num_key;
use crate::order::{is_order, lemma_sort_agrees, lemma_sort_is_stable};
use crate::text::{lemma_text_lt_total, lemma_text_lt_transitive, text_lt};
use crate::value::{keys_ascending, lemma_get_after_insert, lemma_obj_get_at, obj_get, obj_insert, obj_remove, Json};

verus! {

/// Whether a row of the second list has a key: in its own field of that name, or as its position.
pub open spec fn has_key(seconds: Seq<Json>, j: int, identifier: Seq<char>, by_index: bool, key: Json) -> bool {
    if by_index {
        same_json(integer(j), key)
    } else {
        obj_get(seconds[j]->Object_0, identifier) matches Some(value) && same_json(value, key)
    }
}

/// The key of a row.
pub open spec fn key_in(row: Json, identifier: Seq<char>) -> Json {
    obj_get(row->Object_0, identifier)->0
}

/// Whether the second list has a row with the key of a row.
pub open spec fn has_match(seconds: Seq<Json>, identifier: Seq<char>, by_index: bool, first: Json) -> bool {
    exists|j: int| 0 <= j < seconds.len() && #[trigger] has_key(seconds, j, identifier, by_index, key_in(first, identifier))
}

/// Whether a value is an object with the members of a row but the one with a key.
pub open spec fn is_without(value: Json, row: Json, key: Seq<char>) -> bool {
    value matches Json::Object(members) && forall|k: Seq<char>| #[trigger]
        obj_get(members, k) == if k == key {
            None
        } else {
            obj_get(row->Object_0, k)
        }
}

/// Whether a row joins two others: it has the key under the identifier, and the rest of each row
/// under the name of its list, and nothing else.
pub open spec fn joins(
    row: Json,
    first: Json,
    first_name: Seq<char>,
    second: Json,
    second_name: Seq<char>,
    identifier: Seq<char>,
) -> bool {
    &&& row matches Json::Object(members)
    &&& obj_get(members, second_name) matches Some(rest) && is_without(rest, second, identifier)
    &&& first_name != second_name ==> (obj_get(members, first_name) matches Some(rest) && is_without(
        rest,
        first,
        identifier,
    ))
    &&& identifier != first_name && identifier != second_name ==> obj_get(members, identifier) == Some(
        key_in(first, identifier),
    )
    &&& forall|k: Seq<char>|
        k != first_name && k != second_name && k != identifier ==> #[trigger] obj_get(members, k) is None
}

/// Whether rows are objects whose keys ascend.
pub open spec fn well_formed_rows(rows: Seq<Json>) -> bool {
    forall|i: int| 0 <= i < rows.len() ==> (#[trigger] rows[i]) is Object && keys_ascending(rows[i]->Object_0)
}

proof fn lemma_match_from(seconds: Seq<Json>, from: int, identifier: Seq<char>, by_index: bool, key: Json)
    requires
        0 <= from <= seconds.len() <= u64::MAX,
    ensures
        match match_from(seconds, from, identifier, by_index, key) {
            Some(j) => {
                &&& from <= j < seconds.len()
                &&& has_key(seconds, j, identifier, by_index, key)
                &&& forall|k: int| from <= k < j ==> !#[trigger] has_key(seconds, k, identifier, by_index, key)
            },
            None => forall|k: int| from <= k < seconds.len() ==> !#[trigger] has_key(seconds, k, identifier, by_index, key),
        },
    decreases seconds.len() - from,
{
    if from < seconds.len() {
        assert(second_matches(seconds[from], from, identifier, by_index, key) == has_key(
            seconds,
            from,
            identifier,
            by_index,
            key,
        ));
        if !has_key(seconds, from, identifier, by_index, key) {
            lemma_match_from(seconds, from + 1, identifier, by_index, key);
        }
    }
}

proof fn lemma_joined_row(
    identifier: Seq<char>,
    first_name: Seq<char>,
    first: Json,
    second_name: Seq<char>,
    second: Json,
)
    requires
        first is Object && keys_ascending(first->Object_0),
        second is Object && keys_ascending(second->Object_0),
    ensures
        joins(
            joined_row(identifier, key_in(first, identifier), first_name, first->Object_0, second_name, second->Object_0),
            first,
            first_name,
            second,
            second_name,
            identifier,
        ),
{
    let key = key_in(first, identifier);
    let with_key = obj_insert(Seq::empty(), identifier, key);
    let first_rest = Json::Object(obj_remove(first->Object_0, identifier));
    let second_rest = Json::Object(obj_remove(second->Object_0, identifier));
    let with_first = obj_insert(with_key, first_name, first_rest);
    assert forall|k: Seq<char>| #[trigger] obj_get(obj_remove(first->Object_0, identifier), k) == if k == identifier {
        None
    } else {
        obj_get(first->Object_0, k)
    } by {
        lemma_get_after_remove(first->Object_0, identifier, k);
    }
    assert forall|k: Seq<char>| #[trigger] obj_get(obj_remove(second->Object_0, identifier), k) == if k == identifier {
        None
    } else {
        obj_get(second->Object_0, k)
    } by {
        lemma_get_after_remove(second->Object_0, identifier, k);
    }
    let members = obj_insert(with_first, second_name, second_rest);
    assert forall|k: Seq<char>| #[trigger] obj_get(members, k) == if k == second_name {
        Some(second_rest)
    } else if k == first_name {
        Some(first_rest)
    } else if k == identifier {
        Some(key)
    } else {
        None
    } by {
        lemma_get_after_insert(Seq::empty(), identifier, key, k);
        lemma_get_after_insert(with_key, first_name, first_rest, k);
        lemma_get_after_insert(with_first, second_name, second_rest, k);
    }
}

/// Before they are sorted, joined rows are, in order, one for every row of the first list whose key
/// occurs in the second list, each joined with the first row there that has the key.
pub proof fn lemma_joined_rows(
    firsts: Seq<Json>,
    first_name: Seq<char>,
    seconds: Seq<Json>,
    second_name: Seq<char>,
    identifier: Seq<char>,
    by_index: bool,
)
    requires
        well_formed_rows(firsts),
        well_formed_rows(seconds),
        seconds.len() <= u64::MAX,
    ensures
        ({
            let joined = joined_rows(firsts, first_name, seconds, second_name, identifier, by_index);
            let matched = firsts.filter(|first: Json| has_match(seconds, identifier, by_index, first));
            &&& joined.len() == matched.len()
            &&& forall|i: int|
                0 <= i < joined.len() ==> is_joined(
                    #[trigger] joined[i],
                    matched[i],
                    first_name,
                    seconds,
                    second_name,
                    identifier,
                    by_index,
                )
        }),
    decreases firsts.len(),
{
    reveal(Seq::filter);
    let joined = joined_rows(firsts, first_name, seconds, second_name, identifier, by_index);
    let pred = |first: Json| has_match(seconds, identifier, by_index, first);
    let matched = firsts.filter(pred);
    if firsts.len() > 0 {
        let rest = firsts.drop_last();
        assert forall|i: int| 0 <= i < rest.len() implies (#[trigger] rest[i]) is Object && keys_ascending(rest[i]->Object_0) by {
            assert(rest[i] == firsts[i]);
        }
        lemma_joined_rows(rest, first_name, seconds, second_name, identifier, by_index);
        let earlier = joined_rows(rest, first_name, seconds, second_name, identifier, by_index);
        let earlier_matched = rest.filter(pred);
        let last = firsts[firsts.len() - 1];
        let key = key_in(last, identifier);
        lemma_match_from(seconds, 0, identifier, by_index, key);
        match match_from(seconds, 0, identifier, by_index, key) {
            Some(j) => {
                assert(has_key(seconds, j, identifier, by_index, key_in(last, identifier)));
                assert(pred(last));
                assert(seconds[j] is Object);
                lemma_joined_row(identifier, first_name, last, second_name, seconds[j]);
                assert(is_joined(joined.last(), last, first_name, seconds, second_name, identifier, by_index));
                assert forall|i: int| 0 <= i < joined.len() implies is_joined(
                    #[trigger] joined[i],
                    matched[i],
                    first_name,
                    seconds,
                    second_name,
                    identifier,
                    by_index,
                ) by {
                    if i < earlier.len() {
                        assert(joined[i] == earlier[i] && matched[i] == earlier_matched[i]);
                    }
                }
            },
            None => {
                assert(!pred(last));
            },
        }
    }
}

/// Whether a row joins a row of the first list with the first row of the second list that has its
/// key.
pub open spec fn is_joined(
    row: Json,
    first: Json,
    first_name: Seq<char>,
    seconds: Seq<Json>,
    second_name: Seq<char>,
    identifier: Seq<char>,
    by_index: bool,
) -> bool {
    exists|j: int|
        {
            &&& 0 <= j < seconds.len()
            &&& #[trigger] has_key(seconds, j, identifier, by_index, key_in(first, identifier))
            &&& forall|k: int| 0 <= k < j ==> !#[trigger] has_key(seconds, k, identifier, by_index, key_in(first, identifier))
            &&& joins(row, first, first_name, seconds[j], second_name, identifier)
        }
}

/// The name of the function that joins on a field, or on the position in the second list.
pub open spec fn join_name(by_index: bool) -> Seq<char> {
    if by_index {
        "JOINROWSINDEX"@
    } else {
        "JOINROWS"@
    }
}

/// `JOINROWS` and `JOINROWSINDEX` give an array exactly where the input is an object of two arrays
/// of objects and every row of the first has the key. It has one row for every row of the first
/// list that has a match in the second, the same rows as the joined ones, each as often.
pub proof fn lemma_join(input: Json, identifier: Seq<char>, by_index: bool, answers: Seq<Json>, used: nat)
    ensures
        ({
            let result = eval_call(join_name(by_index), seq![input, Json::Text(identifier)], answers, used);
            let lists = input->Object_0;
            let (firsts, seconds) = (lists[0].1->Array_0, lists[1].1->Array_0);
            if input is Object && lists.len() == 2 && lists[0].1 is Array && lists[1].1 is Array && (forall|i: int|
                0 <= i < firsts.len() ==> (#[trigger] firsts[i]) is Object && obj_get(firsts[i]->Object_0, identifier) is Some)
                && (forall|i: int| 0 <= i < seconds.len() ==> (#[trigger] seconds[i]) is Object) {
                let joined = joined_rows(firsts, lists[0].0, seconds, lists[1].0, identifier, by_index);
                &&& result matches Eval::Done(Json::Array(rows), now_used)
                &&& now_used == used
                &&& rows.to_multiset() == joined.to_multiset()
                &&& rows.len() == joined.len()
                &&& well_formed_rows(firsts) && well_formed_rows(seconds) && seconds.len() <= u64::MAX ==> rows.len()
                    == firsts.filter(|first: Json| has_match(seconds, identifier, by_index, first)).len()
            } else {
                result == Eval::Done(Json::Null, used)
            }
        }),
{
    if by_index {
        lemma_joinrowsindex_name(2);
    } else {
        lemma_joinrows_name(2);
    }
    let args = seq![input, Json::Text(identifier)];
    assert(args[0] == input && args[1] == Json::Text(identifier) && args.len() == 2);
    let result = eval_call(join_name(by_index), args, answers, used);
    assert(result == Eval::Done(join_of(input, identifier, by_index), used));
    if let Json::Object(lists) = input {
        let (firsts, seconds) = (lists[0].1->Array_0, lists[1].1->Array_0);
        if lists.len() == 2 {
            assert(all_arrays(lists) <==> lists[0].1 is Array && lists[1].1 is Array);
            if lists[0].1 is Array && lists[1].1 is Array {
                let joined = joined_rows(firsts, lists[0].0, seconds, lists[1].0, identifier, by_index);
                lemma_join_keeps_rows(joined, identifier);
                crate::order::lemma_sort_keeps_items(
                    joined,
                    |a: Json, b: Json| sorts_after(field_of(a, identifier), field_of(b, identifier)),
                );
                if well_formed_rows(firsts) && well_formed_rows(seconds) && seconds.len() <= u64::MAX {
                    lemma_joined_rows(firsts, lists[0].0, seconds, lists[1].0, identifier, by_index);
                }
                if all_objects(firsts) && all_have(firsts, identifier) {
                    assert forall|i: int| 0 <= i < firsts.len() implies (#[trigger] firsts[i]) is Object && obj_get(
                        firsts[i]->Object_0,
                        identifier,
                    ) is Some by {}
                }
            }
        }
    }
}

/// Sorted rows whose keys are equal stay in the order they came in: keys that are numbers of one
/// value, or keys without numbers of one textual form.
pub proof fn lemma_join_stable(rows: Seq<Json>, identifier: Seq<char>, like: Json)
    ensures
        (forall|i: int| 0 <= i < rows.len() ==> field_of(#[trigger] rows[i], identifier) is Number) ==> by_field(
            rows,
            identifier,
        ).filter(|row: Json| num_key(field_of(row, identifier)->Number_0) == num_key(field_of(like, identifier)->Number_0))
            == rows.filter(
            |row: Json| num_key(field_of(row, identifier)->Number_0) == num_key(field_of(like, identifier)->Number_0),
        ),
        (forall|i: int| 0 <= i < rows.len() ==> !(field_of(#[trigger] rows[i], identifier) is Number)) ==> by_field(
            rows,
            identifier,
        ).filter(|row: Json| display(field_of(row, identifier)) == display(field_of(like, identifier))) == rows.filter(
            |row: Json| display(field_of(row, identifier)) == display(field_of(like, identifier)),
        ),
{
    let key = |row: Json| field_of(row, identifier);
    let after = |a: Json, b: Json| sorts_after(field_of(a, identifier), field_of(b, identifier));
    let by_number = |a: Json, b: Json| num_key(key(a)->Number_0) > num_key(key(b)->Number_0);
    let by_text = |a: Json, b: Json| text_lt(display(key(b)), display(key(a)));
    if forall|i: int| 0 <= i < rows.len() ==> field_of(#[trigger] rows[i], identifier) is Number {
        assert(is_order(by_number));
        lemma_sort_agrees(rows, |x: Json| key(x) is Number, after, by_number);
        lemma_sort_is_stable(rows, like, by_number);
        let same = |row: Json| num_key(field_of(row, identifier)->Number_0) == num_key(field_of(like, identifier)->Number_0);
        let level = |row: Json| !by_number(row, like) && !by_number(like, row);
        assert(same =~= level);
        assert(crate::order::equal_items(rows, like, by_number) == rows.filter(level));
    }
    if forall|i: int| 0 <= i < rows.len() ==> !(field_of(#[trigger] rows[i], identifier) is Number) {
        assert forall|a: Json, b: Json| #[trigger] by_text(a, b) implies !by_text(b, a) by {
            lemma_text_lt_total(display(key(a)), display(key(b)));
        }
        assert forall|a: Json, b: Json, c: Json| !(#[trigger] by_text(a, b)) && !(#[trigger] by_text(b, c)) implies !by_text(a, c) by {
            let (x, y, z) = (display(key(a)), display(key(b)), display(key(c)));
            lemma_text_lt_total(x, y);
            lemma_text_lt_total(y, z);
            lemma_text_lt_total(x, z);
            if text_lt(x, y) && text_lt(y, z) {
                lemma_text_lt_transitive(x, y, z);
            }
        }
        assert(is_order(by_text));
        lemma_sort_agrees(rows, |x: Json| !(key(x) is Number), after, by_text);
        lemma_sort_is_stable(rows, like, by_text);
        let same = |row: Json| display(field_of(row, identifier)) == display(field_of(like, identifier));
        let level = |row: Json| !by_text(row, like) && !by_text(like, row);
        assert forall|row: Json| #[trigger] same(row) == level(row) by {
            lemma_text_lt_total(display(key(row)), display(key(like)));
        }
        assert(same =~= level);
        assert(crate::order::equal_items(rows, like, by_text) == rows.filter(level));
    }
}

/// `ZIPROWS` gives, for columns of one length, as many rows as the columns have items, and the row at
/// a position has under each column's key the item at that position. Anything else gives null.
pub proof fn lemma_zip_rows(input: Json, i: int, key: Seq<char>, answers: Seq<Json>, used: nat)
    requires
        input matches Json::Object(columns) ==> keys_ascending(columns),
    ensures
        ({
            let result = eval_call("ZIPROWS"@, seq![input], answers, used);
            let columns = input->Object_0;
            let count = columns[0].1->Array_0.len();
            if input is Object && columns.len() == 0 {
                result == Eval::Done(Json::Array(Seq::empty()), used)
            } else if input is Object && forall|j: int|
                0 <= j < columns.len() ==> (#[trigger] columns[j]).1 is Array && columns[j].1->Array_0.len() == count {
                &&& result matches Eval::Done(Json::Array(rows), now_used)
                &&& now_used == used
                &&& rows.len() == count
                &&& 0 <= i < count ==> rows[i] is Object && match obj_get(columns, key) {
                    Some(column) => obj_get(rows[i]->Object_0, key) == Some(column->Array_0[i]),
                    None => obj_get(rows[i]->Object_0, key) is None,
                }
            } else {
                result == Eval::Done(Json::Null, used)
            }
        }),
{
    lemma_ziprows_name(1);
    let args = seq![input];
    assert(args[0] == input && args.len() == 1);
    if let Json::Object(columns) = input {
        if columns.len() > 0 {
            let count = columns[0].1->Array_0.len();
            if all_arrays(columns) && columns_even(columns, count) {
                assert forall|j: int| 0 <= j < columns.len() implies (#[trigger] columns[j]).1 is Array
                    && columns[j].1->Array_0.len() == count by {}
                let row = zipped_row(columns, i);
                assert(keys_ascending(row)) by {
                    assert forall|a: int, b: int| 0 <= a < b < row.len() implies text_lt(
                        #[trigger] row[a].0,
                        #[trigger] row[b].0,
                    ) by {
                        assert(row[a].0 == columns[a].0 && row[b].0 == columns[b].0);
                    }
                }
                lemma_found_is_member(columns, key, Json::Null);
                lemma_found_is_member(row, key, Json::Null);
                match obj_get(columns, key) {
                    Some(column) => {
                        lemma_found_is_member(columns, key, column);
                        let j = choose|j: int| 0 <= j < columns.len() && columns[j] == (key, column);
                        assert(row[j] == (key, column->Array_0[i]));
                        lemma_obj_get_at(row, j);
                    },
                    None => {
                        assert forall|j: int| 0 <= j < row.len() implies (#[trigger] row[j]).0 != key by {
                            assert(row[j].0 == columns[j].0);
                        }
                    },
                }
            } else {
                assert(!(forall|j: int|
                    0 <= j < columns.len() ==> (#[trigger] columns[j]).1 is Array && columns[j].1->Array_0.len() == count)) by {
                    if forall|j: int|
                        0 <= j < columns.len() ==> (#[trigger] columns[j]).1 is Array && columns[j].1->Array_0.len() == count {
                        assert(all_arrays(columns)) by {
                            assert forall|j: int| 0 <= j < columns.len() implies (#[trigger] columns[j].1) is Array by {
                                assert(columns[j].1 is Array);
                            }
                        }
                        assert(columns_even(columns, count)) by {
                            assert forall|j: int| 0 <= j < columns.len() implies (#[trigger] columns[j].1->Array_0).len() == count by {
                                assert(columns[j].1->Array_0.len() == count);
                            }
                        }
                    }
                }
            }
        }
    }
}

/// `UNZIPROWS` gives, for rows that are objects with one set of keys, a column for each key: the
/// array of the rows' fields, in order. No rows give no columns, and anything else gives null.
pub proof fn lemma_unzip_rows(input: Json, key: Seq<char>, answers: Seq<Json>, used: nat)
    requires
        input is Array && input->Array_0.len() > 0 && input->Array_0[0] is Object ==> keys_ascending(
            input->Array_0[0]->Object_0,
        ),
    ensures
        ({
            let result = eval_call("UNZIPROWS"@, seq![input], answers, used);
            let rows = input->Array_0;
            if !(input is Array) {
                result == Eval::Done(Json::Null, used)
            } else if rows.len() == 0 {
                result == Eval::Done(Json::Object(Seq::empty()), used)
            } else if rows[0] is Object && forall|i: int| 0 <= i < rows.len() ==> same_key_set(#[trigger] rows[i], rows[0]) {
                &&& result matches Eval::Done(Json::Object(columns), now_used)
                &&& now_used == used
                &&& obj_get(columns, key) == if obj_get(rows[0]->Object_0, key) is Some {
                    Some(Json::Array(Seq::new(rows.len(), |i: int| key_in(rows[i], key))))
                } else {
                    None
                }
            } else {
                result == Eval::Done(Json::Null, used)
            }
        }),
{
    lemma_unziprows_name(1);
    let args = seq![input];
    assert(args[0] == input && args.len() == 1);
    let rows = input->Array_0;
    if input is Array && rows.len() > 0 {
        if let Json::Object(first) = rows[0] {
            assert forall|i: int| 0 <= i < rows.len() implies same_key_set(#[trigger] rows[i], rows[0]) == has_keys_of(
                rows[i],
                first,
            ) by {
                lemma_same_key_set(rows[i], first);
            }
            if forall|i: int| 0 <= i < rows.len() ==> same_key_set(#[trigger] rows[i], rows[0]) {
                assert forall|i: int| 0 <= i < rows.len() implies has_keys_of(#[trigger] rows[i], first) by {
                    assert(same_key_set(rows[i], rows[0]));
                }
                let columns = Seq::new(
                    first.len(),
                    |j: int| (first[j].0, Json::Array(crate::functions::array::column_of(rows, first[j].0))),
                );
                assert(keys_ascending(columns)) by {
                    assert forall|a: int, b: int| 0 <= a < b < columns.len() implies text_lt(
                        #[trigger] columns[a].0,
                        #[trigger] columns[b].0,
                    ) by {
                        assert(columns[a].0 == first[a].0 && columns[b].0 == first[b].0);
                    }
                }
                lemma_has_key(first, key);
                lemma_has_key(columns, key);
                if obj_get(first, key) is Some {
                    let j = choose|j: int| 0 <= j < first.len() && (#[trigger] first[j]).0 == key;
                    assert(columns[j].0 == key);
                    lemma_obj_get_at(columns, j);
                    assert(crate::functions::array::column_of(rows, key) =~= Seq::new(
                        rows.len(),
                        |i: int| key_in(rows[i], key),
                    ));
                } else if obj_get(columns, key) is Some {
                    let j = choose|j: int| 0 <= j < columns.len() && (#[trigger] columns[j]).0 == key;
                    assert(first[j].0 == key);
                }
            } else {
                let i = choose|i: int| 0 <= i < rows.len() && !same_key_set(#[trigger] rows[i], rows[0]);
                assert(!has_keys_of(rows[i], first));
            }
        }
    }
}

/// Whether a value is an object with as many members as another, and with all its keys.
pub open spec fn same_key_set(row: Json, first: Json) -> bool {
    row is Object && row->Object_0.len() == first->Object_0.len() && forall|k: Seq<char>| #[trigger]
        obj_get(first->Object_0, k) is Some ==> obj_get(row->Object_0, k) is Some
}

proof fn lemma_same_key_set(row: Json, first: Seq<(Seq<char>, Json)>)
    requires
        keys_ascending(first),
    ensures
        same_key_set(row, Json::Object(first)) == has_keys_of(row, first),
{
    if let Json::Object(members) = row {
        if has_keys_of(row, first) {
            assert forall|k: Seq<char>| #[trigger] obj_get(first, k) is Some implies obj_get(members, k) is Some by {
                lemma_has_key(first, k);
                let j = choose|j: int| 0 <= j < first.len() && (#[trigger] first[j]).0 == k;
                assert(obj_get(members, first[j].0) is Some);
            }
        }
        if same_key_set(row, Json::Object(first)) {
            assert forall|j: int| 0 <= j < first.len() implies obj_get(members, #[trigger] first[j].0) is Some by {
                lemma_obj_get_at(first, j);
                assert(obj_get(first, first[j].0) is Some);
            }
        }
    }
}

proof fn lemma_extended_row(rows: Seq<Seq<(Seq<char>, Json)>>, key: Seq<char>, values: Seq<Json>, r: int)
    requires
        0 <= r < extend_rows(rows, key, values).len(),
    ensures
        rows.len() > 0,
        0 <= r / (rows.len() as int) < values.len(),
        0 <= r % (rows.len() as int) < rows.len(),
        extend_rows(rows, key, values)[r] == rows[r % (rows.len() as int)].push((key, values[r / (rows.len() as int)])),
    decreases values.len(),
{
    if values.len() > 0 {
        let n = rows.len() as int;
        let before = extend_rows(rows, key, values.drop_last());
        lemma_extended_count(rows, key, values.drop_last());
        let v = values.len() as int - 1;
        if r < before.len() {
            lemma_extended_row(rows, key, values.drop_last(), r);
        } else {
            let i = r - before.len();
            assert(before.len() == n * v);
            assert(n > 0);
            assert(r == n * v + i && 0 <= i < n);
            assert(r / n == v && r % n == i) by (nonlinear_arith)
                requires
                    r == n * v + i,
                    0 <= i < n,
                    v >= 0,
            ;
        }
    }
}

proof fn lemma_extended_count(rows: Seq<Seq<(Seq<char>, Json)>>, key: Seq<char>, values: Seq<Json>)
    ensures
        extend_rows(rows, key, values).len() == rows.len() * values.len(),
    decreases values.len(),
{
    if values.len() == 0 {
        assert(rows.len() * 0 == 0) by (nonlinear_arith);
    } else {
        lemma_extended_count(rows, key, values.drop_last());
        let (r, v) = (rows.len() as int, values.len() as int);
        assert(r * (v - 1) + r == r * v) by (nonlinear_arith);
    }
}

proof fn lemma_product_splits(columns: Seq<(Seq<char>, Json)>, j: int) -> (rest: nat)
    requires
        0 <= j < columns.len(),
    ensures
        product_of_lengths(columns) == product_of_lengths(columns.take(j)) * columns[j].1->Array_0.len() * rest,
    decreases columns.len(),
{
    let fewer = columns.drop_last();
    if j == columns.len() - 1 {
        assert(columns.take(j) =~= fewer);
        1
    } else {
        let rest = lemma_product_splits(fewer, j);
        assert(fewer.take(j) =~= columns.take(j));
        assert(fewer[j] == columns[j]);
        let (p, l, n) = (
            product_of_lengths(columns.take(j)) as int,
            columns[j].1->Array_0.len() as int,
            columns.last().1->Array_0.len() as int,
        );
        assert((p * l * rest) * n == p * l * (rest * n)) by (nonlinear_arith);
        (rest * n) as nat
    }
}

proof fn lemma_digit(r: int, before: int, length: int, rest: int)
    requires
        before > 0,
        length > 0,
        rest > 0,
        r >= 0,
    ensures
        (r % (before * length * rest)) / before % length == r / before % length,
{
    let whole = before * length * rest;
    assert(whole > 0) by (nonlinear_arith)
        requires
            before > 0,
            length > 0,
            rest > 0,
            whole == before * length * rest,
    ;
    let (q, s) = (r / whole, r % whole);
    lemma_fundamental_div_mod(r, whole);
    assert(r == s + (length * (rest * q)) * before) by (nonlinear_arith)
        requires
            r == whole * q + s,
            whole == before * length * rest,
    ;
    lemma_hoist_over_denominator(s, length * (rest * q), before as nat);
    assert(r / before == s / before + length * (rest * q));
    lemma_mod_multiples_vanish(rest * q, s / before, length);
    assert(length * (rest * q) + s / before == r / before);
}

/// `CROSSJOIN` gives one row for every choice of one item per column, the first column's items
/// varying fastest: the row at a position has, under each key, the item whose place is the digit of
/// that position in the mixed radix of the columns' lengths.
pub proof fn lemma_combination(columns: Seq<(Seq<char>, Json)>, r: int, j: int)
    requires
        0 <= r < combinations(columns).len(),
        0 <= j < columns.len(),
    ensures
        combinations(columns).len() == product_of_lengths(columns),
        product_of_lengths(columns.take(j)) > 0,
        columns[j].1->Array_0.len() > 0,
        combinations(columns)[r].len() == columns.len(),
        combinations(columns)[r][j] == (
            columns[j].0,
            columns[j].1->Array_0[r / (product_of_lengths(columns.take(j)) as int) % (columns[j].1->Array_0.len() as int)],
        ),
    decreases columns.len(),
{
    let fewer = columns.drop_last();
    let last = columns.len() - 1;
    let values = columns.last().1->Array_0;
    let rows = combinations(fewer);
    let n = rows.len() as int;
    lemma_combinations_count(columns);
    lemma_combinations_count(fewer);
    lemma_extended_row(rows, columns.last().0, values, r);
    if fewer.len() == 0 {
        assert(rows[r % n].len() == 0);
    } else {
        lemma_combination(fewer, r % n, 0);
    }
    if j == last {
        assert(columns.take(j) =~= fewer);
        assert(r / n % (values.len() as int) == r / n) by (nonlinear_arith)
            requires
                0 <= r / n < values.len(),
        ;
    } else {
        lemma_combination(fewer, r % n, j);
        assert(fewer.take(j) =~= columns.take(j));
        assert(fewer[j] == columns[j]);
        let rest = lemma_product_splits(fewer, j);
        let (p, l) = (product_of_lengths(columns.take(j)) as int, columns[j].1->Array_0.len() as int);
        assert(n == p * l * rest);
        assert(rest > 0) by (nonlinear_arith)
            requires
                n == p * l * rest,
                n > 0,
                rest >= 0,
        ;
        lemma_digit(r, p, l, rest as int);
    }
}

/// What `CROSSJOIN` gives for columns, for no columns and for anything else.
pub proof fn lemma_cross_join(input: Json, answers: Seq<Json>, used: nat)
    ensures
        ({
            let result = eval_call("CROSSJOIN"@, seq![input], answers, used);
            let columns = input->Object_0;
            if input is Object && columns.len() == 0 {
                result == Eval::Done(Json::Array(Seq::empty()), used)
            } else if input is Object && forall|j: int| 0 <= j < columns.len() ==> (#[trigger] columns[j].1) is Array {
                &&& result matches Eval::Done(Json::Array(rows), now_used)
                &&& now_used == used
                &&& rows.len() == combinations(columns).len()
                &&& forall|r: int| 0 <= r < rows.len() ==> #[trigger] rows[r] == Json::Object(combinations(columns)[r])
            } else {
                result == Eval::Done(Json::Null, used)
            }
        }),
{
    lemma_crossjoin_name(1);
    let args = seq![input];
    assert(args[0] == input && args.len() == 1);
}

/// The rows of a join ascend by what they hold under the identifier: numbers by value, and keys of
/// which none is a number by their textual forms.
pub proof fn lemma_join_sorted(
    lists: Seq<(Seq<char>, Json)>,
    identifier: Seq<char>,
    by_index: bool,
    rows: Seq<Json>,
    i: int,
    j: int,
    answers: Seq<Json>,
    used: nat,
)
    requires
        eval_call(join_name(by_index), seq![Json::Object(lists), Json::Text(identifier)], answers, used) == Eval::Done(
            Json::Array(rows),
            used,
        ),
        identifier != lists[0].0,
        identifier != lists[1].0,
        0 <= i < j < rows.len(),
    ensures
        ({
            let firsts = lists[0].1->Array_0;
            let (a, b) = (field_in(rows[i], identifier), field_in(rows[j], identifier));
            &&& (forall|k: int| 0 <= k < firsts.len() ==> field_in(#[trigger] firsts[k], identifier) is Number) ==> num_key(
                a->Number_0,
            ) <= num_key(b->Number_0)
            &&& (forall|k: int| 0 <= k < firsts.len() ==> !(field_in(#[trigger] firsts[k], identifier) is Number)) ==> display(a)
                == display(b) || text_lt(display(a), display(b))
        }),
{
    if by_index {
        lemma_joinrowsindex_name(2);
    } else {
        lemma_joinrows_name(2);
    }
    let args = seq![Json::Object(lists), Json::Text(identifier)];
    assert(args[0] == Json::Object(lists) && args[1] == Json::Text(identifier) && args.len() == 2);
    assert(join_of(Json::Object(lists), identifier, by_index) == Json::Array(rows));
    lemma_join_ascends(lists, identifier, by_index, rows);
    let firsts = lists[0].1->Array_0;
    let keys = field_values(firsts, identifier);
    let sorted = field_values(rows, identifier);
    assert forall|k: int| 0 <= k < firsts.len() implies #[trigger] keys[k] == field_in(firsts[k], identifier) by {}
    assert forall|k: int| 0 <= k < rows.len() implies #[trigger] sorted[k] == field_in(rows[k], identifier) by {}
    if forall|k: int| 0 <= k < firsts.len() ==> field_in(#[trigger] firsts[k], identifier) is Number {
        assert forall|k: int| 0 <= k < keys.len() implies (#[trigger] keys[k]) is Number by {
            assert(field_in(firsts[k], identifier) is Number);
        }
        assert(num_key(sorted[i]->Number_0) <= num_key(sorted[j]->Number_0));
    }
    if forall|k: int| 0 <= k < firsts.len() ==> !(field_in(#[trigger] firsts[k], identifier) is Number) {
        assert forall|k: int| 0 <= k < keys.len() implies !((#[trigger] keys[k]) is Number) by {
            assert(!(field_in(firsts[k], identifier) is Number));
        }
        assert(display(sorted[i]) == display(sorted[j]) || text_lt(display(sorted[i]), display(sorted[j])));
    }
}

/// The field that rows are joined and sorted by.
pub proof fn lemma_field_of(row: Json, key: Seq<char>)
    ensures
        field_of(row, key) == field_in(row, key),
{
}

} // verus!
