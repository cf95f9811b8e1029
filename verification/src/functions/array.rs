//! Functions on arrays and on rows given as columns.
use vstd::prelude::*;
use crate::json::{display, flatten, flattened, lemma_same_json_reflexive, lemma_same_json_symmetric, same_json, value_to_string, values_same};
use crate::number::{integer_num, integer_number, num_key, number_key};
use crate::order::{is_order, lemma_sort_agrees, lemma_sort_keeps_items, lemma_sort_map, lemma_sort_sorts, stable_sort, stable_sorted};
use crate::text::{lemma_text_lt_total, lemma_text_lt_transitive, text_less, text_lt};
use crate::value::{jsons, keys_ascending, lemma_array_json, lemma_jsons_push, lemma_get_after_insert, lemma_obj_get_at, obj_get, obj_insert, obj_remove, Json, Num, Number, Object, Value};

verus! {

broadcast use {lemma_array_json, lemma_jsons_push};

/// Whether a list holds a value equal to the given one.
pub open spec fn has_same(values: Seq<Json>, value: Json) -> bool {
    exists|i: int| 0 <= i < values.len() && same_json(#[trigger] values[i], value)
}

/// The position of the first value that equals the needle.
pub fn index_of(values: &Vec<Value>, needle: &Value) -> (index: Option<usize>)
    ensures
        index is Some <==> has_same(jsons(values@), needle@),
        index matches Some(i) ==> i < values@.len() && same_json(values@[i as int]@, needle@) && forall|j: int|
            0 <= j < i ==> !same_json(#[trigger] jsons(values@)[j], needle@),
{
    let mut i: usize = 0;
    while i < values.len()
        invariant
            i <= values.len(),
            forall|j: int| 0 <= j < i ==> !same_json(#[trigger] jsons(values@)[j], needle@),
        decreases values.len() - i,
    {
        assert(jsons(values@)[i as int] == values@[i as int]@);
        if values_same(&values[i], needle) {
            return Some(i);
        }
        i = i + 1;
    }
    None
}

/// The integers from one end to the other, both included, up or down.
pub open spec fn range_of(start: i64, end: i64) -> Seq<Json> {
    if start <= end {
        Seq::new((end - start + 1) as nat, |i: int| Json::Number(integer_num((start + i) as i64)))
    } else {
        Seq::new((start - end + 1) as nat, |i: int| Json::Number(integer_num((start - i) as i64)))
    }
}

/// The integers from one end to the other, both included, up or down.
pub fn range(start: i64, end: i64) -> (values: Value)
    ensures
        values@ == Json::Array(range_of(start, end)),
{
    let mut values: Vec<Value> = Vec::new();
    let mut current: i64 = start;
    while current != end
        invariant
            start <= end ==> start <= current <= end,
            start > end ==> end <= current <= start,
            values@.len() == (if start <= end { current - start } else { start - current }),
            jsons(values@) == range_of(start, end).take(values@.len() as int),
        decreases if start <= end { end - current } else { current - end },
    {
        let number = Value::Number(integer_number(current));
        assert(number@ == range_of(start, end)[values@.len() as int]);
        values.push(number);
        assert(jsons(values@) =~= range_of(start, end).take(values@.len() as int));
        if start <= end {
            current = current + 1;
        } else {
            current = current - 1;
        }
    }
    let number = Value::Number(integer_number(current));
    values.push(number);
    assert(jsons(values@) =~= range_of(start, end));
    Value::Array(values)
}

/// The non-negative position that a value stands for.
pub open spec fn position_of(value: Json) -> Option<int> {
    match value {
        Json::Number(Num::PosInt(n)) => if n <= i64::MAX {
            Some(n as int)
        } else {
            None
        },
        Json::Number(Num::NegInt(n)) => if n >= 0 {
            Some(n as int)
        } else {
            None
        },
        _ => None,
    }
}

fn position(value: &Value) -> (position: Option<u64>)
    ensures
        position is Some <==> position_of(value@) is Some,
        position matches Some(n) ==> n == position_of(value@)->0,
{
    match value {
        Value::Number(Number::PosInt(n)) => if *n <= i64::MAX as u64 {
            Some(*n)
        } else {
            None
        },
        Value::Number(Number::NegInt(n)) => if *n >= 0 {
            Some(*n as u64)
        } else {
            None
        },
        _ => None,
    }
}

/// The item at a position, or the items from one position up to another (the end, where none is
/// given); null where there are none.
pub open spec fn item_at(values: Seq<Json>, index: Json) -> Json {
    match index {
        Json::Array(bounds) => {
            if bounds.len() != 1 && bounds.len() != 2 {
                Json::Null
            } else {
                let start = position_of(bounds[0]);
                let end = if bounds.len() == 1 {
                    Some(values.len() as int)
                } else {
                    position_of(bounds[1])
                };
                if start is Some && end is Some && start->0 <= end->0 <= values.len() {
                    Json::Array(values.subrange(start->0, end->0))
                } else {
                    Json::Null
                }
            }
        },
        _ => match position_of(index) {
            Some(i) => if i < values.len() {
                values[i]
            } else {
                Json::Null
            },
            None => Json::Null,
        },
    }
}

fn copy_between(values: &Vec<Value>, start: usize, end: usize) -> (copies: Vec<Value>)
    requires
        start <= end <= values@.len(),
    ensures
        jsons(copies@) == jsons(values@).subrange(start as int, end as int),
{
    let mut copies: Vec<Value> = Vec::new();
    let mut i: usize = start;
    while i < end
        invariant
            start <= i <= end <= values@.len(),
            jsons(copies@) == jsons(values@).subrange(start as int, i as int),
        decreases end - i,
    {
        copies.push(values[i].copy());
        i = i + 1;
        assert(jsons(copies@) =~= jsons(values@).subrange(start as int, i as int));
    }
    copies
}

/// The item at a position, or the items of a range of positions.
pub fn at(values: &Vec<Value>, index: &Value) -> (item: Value)
    ensures
        item@ == item_at(jsons(values@), index@),
{
    match index {
        Value::Array(bounds) => {
            let ghost given = jsons(bounds@);
            if bounds.len() != 1 && bounds.len() != 2 {
                return Value::Null;
            }
            assert(given[0] == bounds@[0]@);
            let start = position(&bounds[0]);
            let end = if bounds.len() == 1 {
                Some(values.len() as u64)
            } else {
                assert(given[1] == bounds@[1]@);
                position(&bounds[1])
            };
            match (start, end) {
                (Some(start), Some(end)) => if start <= end && end <= values.len() as u64 {
                    Value::Array(copy_between(values, start as usize, end as usize))
                } else {
                    Value::Null
                },
                _ => Value::Null,
            }
        },
        _ => match position(index) {
            Some(i) => if i < values.len() as u64 {
                values[i as usize].copy()
            } else {
                Value::Null
            },
            None => Value::Null,
        },
    }
}

/// The values without those that equal an earlier one.
pub open spec fn distinct_of(values: Seq<Json>) -> Seq<Json>
    decreases values.len(),
{
    if values.len() == 0 {
        Seq::empty()
    } else {
        let kept = distinct_of(values.drop_last());
        if has_same(kept, values.last()) {
            kept
        } else {
            kept.push(values.last())
        }
    }
}

/// The distinct items of the values, in the order of their first occurrence.
pub fn distinct(values: &Vec<Value>) -> (output: Vec<Value>)
    ensures
        jsons(output@) == distinct_of(flattened(jsons(values@))),
{
    let items = flatten(values);
    let ghost all = jsons(items@);
    let mut output: Vec<Value> = Vec::new();
    let mut i: usize = 0;
    assert(jsons(output@) =~= distinct_of(all.take(0)));
    while i < items.len()
        invariant
            i <= items.len(),
            all == jsons(items@),
            jsons(output@) == distinct_of(all.take(i as int)),
        decreases items.len() - i,
    {
        assert(all.take(i + 1).drop_last() =~= all.take(i as int));
        assert(all.take(i + 1).last() == items@[i as int]@);
        if index_of(&output, &items[i]).is_none() {
            output.push(items[i].copy());
        }
        i = i + 1;
    }
    assert(all.take(i as int) =~= all);
    output
}

/// No two of the distinct values are equal.
pub proof fn lemma_distinct_differ(values: Seq<Json>, i: int, j: int)
    requires
        0 <= i < distinct_of(values).len(),
        0 <= j < distinct_of(values).len(),
        i != j,
    ensures
        !same_json(distinct_of(values)[i], distinct_of(values)[j]),
{
    if i < j {
        lemma_later_differs(values, i, j);
    } else {
        lemma_later_differs(values, j, i);
        lemma_same_json_symmetric(distinct_of(values)[i], distinct_of(values)[j]);
    }
}

proof fn lemma_later_differs(values: Seq<Json>, i: int, j: int)
    requires
        0 <= i < j < distinct_of(values).len(),
    ensures
        !same_json(distinct_of(values)[i], distinct_of(values)[j]),
    decreases values.len(),
{
    if values.len() > 0 {
        let kept = distinct_of(values.drop_last());
        if j < kept.len() {
            lemma_later_differs(values.drop_last(), i, j);
        } else {
            assert(!has_same(kept, values.last()));
            assert(kept[i] == distinct_of(values)[i]);
        }
    }
}

/// Every value equals one of the distinct values.
pub proof fn lemma_distinct_covers(values: Seq<Json>, k: int)
    requires
        0 <= k < values.len(),
    ensures
        has_same(distinct_of(values), values[k]),
    decreases values.len(),
{
    let all = distinct_of(values);
    let kept = distinct_of(values.drop_last());
    if k < values.len() - 1 {
        lemma_distinct_covers(values.drop_last(), k);
        let i = choose|i: int| 0 <= i < kept.len() && same_json(#[trigger] kept[i], values[k]);
        assert(all[i] == kept[i]);
    } else if !has_same(kept, values[k]) {
        lemma_same_json_reflexive(values[k]);
        assert(all[kept.len() as int] == values[k]);
    }
}

/// Whether a value comes after another: two numbers by value, all else by textual form.
pub open spec fn sorts_after(a: Json, b: Json) -> bool {
    match (a, b) {
        (Json::Number(x), Json::Number(y)) => num_key(x) > num_key(y),
        _ => text_lt(display(b), display(a)),
    }
}

/// Whether a value comes after another: two numbers by value, all else by textual form.
pub fn comes_after(a: &Value, b: &Value) -> (after: bool)
    ensures
        after == sorts_after(a@, b@),
{
    match (a, b) {
        (Value::Number(x), Value::Number(y)) => number_key(x) > number_key(y),
        _ => {
            let left = value_to_string(a);
            let right = value_to_string(b);
            text_less(right.as_str(), left.as_str())
        },
    }
}

/// The items of the values, sorted: numbers by value, other pairs by textual form. Equal items
/// keep their order.
pub fn sort(values: &Vec<Value>) -> (output: Vec<Value>)
    ensures
        jsons(output@) == stable_sorted(
            flattened(jsons(values@)),
            |a: Json, b: Json| sorts_after(a, b),
        ),
{
    let items = flatten(values);
    let ghost before = items@;
    let ghost order = |a: Value, b: Value| sorts_after(a@, b@);
    let after = |a: &Value, b: &Value| -> (r: bool)
        ensures
            r == sorts_after(a@, b@),
        { comes_after(a, b) };
    let output = stable_sort(items, &after, Ghost(order));
    proof {
        let view = |v: Value| v@;
        let by_json = |a: Json, b: Json| sorts_after(a, b);
        lemma_sort_map(before, view, order, by_json);
        assert(before.map_values(view) =~= jsons(before));
        assert(output@.map_values(view) =~= jsons(output@));
    }
    output
}

/// Whether all values are numbers.
pub open spec fn all_numbers(values: Seq<Json>) -> bool {
    forall|i: int| 0 <= i < values.len() ==> (#[trigger] values[i]) is Number
}

/// Whether no value is a number.
pub open spec fn no_numbers(values: Seq<Json>) -> bool {
    forall|i: int| 0 <= i < values.len() ==> !((#[trigger] values[i]) is Number)
}

/// Numbers from the least to the greatest.
pub open spec fn numbers_ascend(values: Seq<Json>) -> bool {
    forall|i: int, j: int|
        0 <= i < j < values.len() ==> num_key((#[trigger] values[i])->Number_0) <= num_key((#[trigger] values[j])->Number_0)
}

/// Values whose textual forms stand in the order of texts.
pub open spec fn texts_ascend(values: Seq<Json>) -> bool {
    forall|i: int, j: int|
        0 <= i < j < values.len() ==> display(#[trigger] values[i]) == display(#[trigger] values[j]) || text_lt(
            display(values[i]),
            display(values[j]),
        )
}

proof fn lemma_sorted_keys<T>(items: Seq<T>, key: spec_fn(T) -> Json, after: spec_fn(T, T) -> bool)
    requires
        all_numbers(items.map_values(key)) || no_numbers(items.map_values(key)),
        forall|a: T, b: T| #[trigger] after(a, b) == sorts_after(key(a), key(b)),
    ensures
        all_numbers(items.map_values(key)) ==> numbers_ascend(stable_sorted(items, after).map_values(key)),
        no_numbers(items.map_values(key)) ==> texts_ascend(stable_sorted(items, after).map_values(key)),
{
    let sorted = stable_sorted(items, after);
    let keys = sorted.map_values(key);
    assert forall|i: int| 0 <= i < items.len() implies items.map_values(key)[i] == key(#[trigger] items[i]) by {}
    if all_numbers(items.map_values(key)) {
        let by_number = |a: T, b: T| num_key(key(a)->Number_0) > num_key(key(b)->Number_0);
        assert forall|i: int| 0 <= i < items.len() implies key(#[trigger] items[i]) is Number by {
            assert(items.map_values(key)[i] is Number);
        }
        assert(is_order(by_number));
        lemma_sort_sorts(items, by_number);
        lemma_sort_agrees(items, |x: T| key(x) is Number, after, by_number);
        assert forall|i: int, j: int| 0 <= i < j < keys.len() implies num_key((#[trigger] keys[i])->Number_0) <= num_key(
            (#[trigger] keys[j])->Number_0,
        ) by {
            assert(!by_number(sorted[i], sorted[j]));
        }
    }
    if no_numbers(items.map_values(key)) {
        let by_text = |a: T, b: T| text_lt(display(key(b)), display(key(a)));
        assert forall|i: int| 0 <= i < items.len() implies !(key(#[trigger] items[i]) is Number) by {
            assert(!(items.map_values(key)[i] is Number));
        }
        assert forall|a: T, b: T| #[trigger] by_text(a, b) implies !by_text(b, a) by {
            lemma_text_lt_total(display(key(a)), display(key(b)));
        }
        assert forall|a: T, b: T, c: T| !(#[trigger] by_text(a, b)) && !(#[trigger] by_text(b, c)) implies !by_text(a, c) by {
            let (x, y, z) = (display(key(a)), display(key(b)), display(key(c)));
            lemma_text_lt_total(x, y);
            lemma_text_lt_total(y, z);
            lemma_text_lt_total(x, z);
            if text_lt(x, y) && text_lt(y, z) {
                lemma_text_lt_transitive(x, y, z);
            }
        }
        assert(is_order(by_text));
        lemma_sort_sorts(items, by_text);
        lemma_sort_agrees(items, |x: T| !(key(x) is Number), after, by_text);
        assert forall|i: int, j: int| 0 <= i < j < keys.len() implies display(#[trigger] keys[i]) == display(#[trigger] keys[j])
            || text_lt(display(keys[i]), display(keys[j])) by {
            assert(!by_text(sorted[i], sorted[j]));
            lemma_text_lt_total(display(keys[i]), display(keys[j]));
        }
    }
}

/// What `sort` gives for numbers ascends by value, and what it gives for values of which none is a
/// number, texts among them, ascends by their textual forms. Either way it holds the same values,
/// each as often.
pub proof fn lemma_sort_ascends(items: Seq<Json>)
    requires
        all_numbers(items) || no_numbers(items),
    ensures
        all_numbers(items) ==> numbers_ascend(stable_sorted(items, |a: Json, b: Json| sorts_after(a, b))),
        no_numbers(items) ==> texts_ascend(stable_sorted(items, |a: Json, b: Json| sorts_after(a, b))),
        stable_sorted(items, |a: Json, b: Json| sorts_after(a, b)).to_multiset() == items.to_multiset(),
{
    let after = |a: Json, b: Json| sorts_after(a, b);
    let key = |value: Json| value;
    let sorted = stable_sorted(items, after);
    assert(items.map_values(key) =~= items);
    assert(sorted.map_values(key) =~= sorted);
    lemma_sorted_keys(items, key, after);
    lemma_sort_keeps_items(items, after);
}

/// The number of items of the values.
pub fn count(values: &Vec<Value>) -> (count: usize)
    ensures
        count == flattened(jsons(values@)).len(),
{
    let items = flatten(values);
    assert(jsons(items@).len() == items@.len());
    items.len()
}

/// Whether every member of an object is an array.
pub open spec fn all_arrays(members: Seq<(Seq<char>, Json)>) -> bool {
    forall|i: int| 0 <= i < members.len() ==> (#[trigger] members[i].1) is Array
}

fn has_only_arrays(object: &Object) -> (answer: bool)
    ensures
        answer == all_arrays(object@),
{
    let mut i: usize = 0;
    while i < object.len()
        invariant
            i <= object@.len(),
            forall|j: int| 0 <= j < i ==> (#[trigger] object@[j].1) is Array,
        decreases object@.len() - i,
    {
        match object.value_at(i) {
            Value::Array(_) => {},
            _ => {
                assert(object@[i as int].1 !is Array);
                return false;
            },
        }
        i = i + 1;
    }
    true
}

/// Each row extended by each value under the key; the values vary slowest.
pub open spec fn extend_rows(rows: Seq<Seq<(Seq<char>, Json)>>, key: Seq<char>, values: Seq<Json>) -> Seq<
    Seq<(Seq<char>, Json)>,
>
    decreases values.len(),
{
    if values.len() == 0 {
        Seq::empty()
    } else {
        extend_rows(rows, key, values.drop_last()) + Seq::new(
            rows.len(),
            |i: int| rows[i].push((key, values.last())),
        )
    }
}

/// All combinations of one value per column; the first column varies fastest.
pub open spec fn combinations(columns: Seq<(Seq<char>, Json)>) -> Seq<Seq<(Seq<char>, Json)>>
    decreases columns.len(),
{
    if columns.len() == 0 {
        seq![Seq::empty()]
    } else {
        extend_rows(combinations(columns.drop_last()), columns.last().0, columns.last().1->Array_0)
    }
}

/// The values of objects with the given members.
pub open spec fn as_objects(rows: Seq<Seq<(Seq<char>, Json)>>) -> Seq<Json> {
    Seq::new(rows.len(), |i: int| Json::Object(rows[i]))
}

/// The rows that combine the columns of an object; null where a column is not an array.
pub open spec fn cross_join_of(input: Json) -> Json {
    match input {
        Json::Object(members) => if !all_arrays(members) {
            Json::Null
        } else if members.len() == 0 {
            Json::Array(Seq::empty())
        } else {
            Json::Array(as_objects(combinations(members)))
        },
        _ => Json::Null,
    }
}

/// The members of the objects of a list.
pub open spec fn members_of(objects: Seq<Object>) -> Seq<Seq<(Seq<char>, Json)>> {
    Seq::new(objects.len(), |i: int| objects[i]@)
}

/// Every row has the first keys of the columns, in their order.
spec fn rows_follow(rows: Seq<Seq<(Seq<char>, Json)>>, columns: Seq<(Seq<char>, Json)>, done: int) -> bool {
    forall|i: int| 0 <= i < rows.len() ==> (#[trigger] rows[i]).len() == done && forall|j: int|
        0 <= j < done ==> (#[trigger] rows[i][j]).0 == columns[j].0
}

fn cross_join_rows(rows: Vec<Object>, columns: &Object, index: usize, values: &Vec<Value>) -> (output: Vec<Object>)
    requires
        index < columns@.len(),
        keys_ascending(columns@),
        rows_follow(members_of(rows@), columns@, index as int),
    ensures
        members_of(output@) == extend_rows(members_of(rows@), columns@[index as int].0, jsons(values@)),
        rows_follow(members_of(output@), columns@, index + 1),
{
    let ghost given = members_of(rows@);
    let ghost key = columns@[index as int].0;
    let ghost all = jsons(values@);
    let mut output: Vec<Object> = Vec::new();
    let mut i: usize = 0;
    assert(members_of(output@) =~= extend_rows(given, key, all.take(0)));
    while i < values.len()
        invariant
            i <= values.len(),
            index < columns@.len(),
            keys_ascending(columns@),
            given == members_of(rows@),
            all == jsons(values@),
            key == columns@[index as int].0,
            rows_follow(given, columns@, index as int),
            members_of(output@) == extend_rows(given, key, all.take(i as int)),
            rows_follow(members_of(output@), columns@, index + 1),
        decreases values.len() - i,
    {
        let ghost before = members_of(output@);
        let ghost added = Seq::new(given.len(), |r: int| given[r].push((key, all[i as int])));
        let mut r: usize = 0;
        assert(members_of(output@) =~= before + added.take(0));
        while r < rows.len()
            invariant
                r <= rows.len(),
                i < values.len(),
                index < columns@.len(),
                keys_ascending(columns@),
                given == members_of(rows@),
                all == jsons(values@),
                key == columns@[index as int].0,
                added == Seq::new(given.len(), |r: int| given[r].push((key, all[i as int]))),
                rows_follow(given, columns@, index as int),
                members_of(output@) == before + added.take(r as int),
                rows_follow(members_of(output@), columns@, index + 1),
            decreases rows.len() - r,
        {
            let mut row = rows[r].copy();
            assert(row@ == given[r as int]);
            assert forall|j: int| 0 <= j < row@.len() implies text_lt(#[trigger] row@[j].0, key) by {
                assert(given[r as int][j].0 == columns@[j].0);
                assert(text_lt(columns@[j].0, columns@[index as int].0));
            }
            let ghost old_output = output@;
            row.push(columns.key_at(index).clone(), values[i].copy());
            output.push(row);
            assert(members_of(output@) =~= members_of(old_output).push(row@));
            assert(added[r as int] == row@);
            assert(before + added.take(r + 1) =~= (before + added.take(r as int)).push(row@));
            assert forall|k: int| 0 <= k < members_of(output@).len() implies (#[trigger] members_of(output@)[k]).len() == index + 1 && forall|j: int|
                0 <= j < index + 1 ==> (#[trigger] members_of(output@)[k][j]).0 == columns@[j].0 by {
                if k < old_output.len() {
                    assert(members_of(output@)[k] == members_of(old_output)[k]);
                } else {
                    assert(members_of(output@)[k] == given[r as int].push((key, all[i as int])));
                    assert forall|j: int| 0 <= j < index + 1 implies (#[trigger] members_of(output@)[k][j]).0 == columns@[j].0 by {
                        if j < index {
                            assert(given[r as int][j].0 == columns@[j].0);
                        }
                    }
                }
            }
            r = r + 1;
        }
        assert(added.take(r as int) =~= added);
        assert(all.take(i + 1).drop_last() =~= all.take(i as int));
        assert(all.take(i + 1).last() == all[i as int]);
        i = i + 1;
    }
    assert(all.take(i as int) =~= all);
    output
}

fn object_values(objects: Vec<Object>) -> (values: Vec<Value>)
    ensures
        jsons(values@) == as_objects(members_of(objects@)),
{
    let mut values: Vec<Value> = Vec::new();
    let mut i: usize = 0;
    assert(jsons(values@) =~= as_objects(members_of(objects@)).take(0));
    while i < objects.len()
        invariant
            i <= objects.len(),
            jsons(values@) == as_objects(members_of(objects@)).take(i as int),
        decreases objects.len() - i,
    {
        values.push(Value::Object(objects[i].copy()));
        assert(as_objects(members_of(objects@)).take(i + 1) =~= as_objects(members_of(objects@)).take(i as int).push(Json::Object(objects@[i as int]@)));
        i = i + 1;
    }
    assert(as_objects(members_of(objects@)).take(i as int) =~= as_objects(members_of(objects@)));
    values
}

/// The rows that combine the columns of an object.
pub fn cross_join(input: &Value) -> (output: Value)
    ensures
        output@ == cross_join_of(input@),
{
    match input {
        Value::Object(columns) => {
            if !has_only_arrays(columns) {
                return Value::Null;
            }
            if columns.is_empty() {
                let none: Vec<Value> = Vec::new();
                assert(jsons(none@) =~= Seq::empty());
                return Value::Array(none);
            }
            columns.check_ascending();
            let ghost given = columns@;
            let mut rows: Vec<Object> = Vec::new();
            rows.push(Object::new());
            assert(members_of(rows@) =~= combinations(given.take(0)));
            let mut index: usize = 0;
            while index < columns.len()
                invariant
                    index <= columns@.len(),
                    given == columns@,
                    keys_ascending(columns@),
                    all_arrays(columns@),
                    members_of(rows@) == combinations(given.take(index as int)),
                    rows_follow(members_of(rows@), columns@, index as int),
                decreases columns@.len() - index,
            {
                assert(columns@[index as int].1 is Array);
                match columns.value_at(index) {
                    Value::Array(values) => {
                        rows = cross_join_rows(rows, columns, index, values);
                    },
                    _ => {
                        assert(false);
                    },
                }
                assert(given.take(index + 1).drop_last() =~= given.take(index as int));
                assert(given.take(index + 1).last() == given[index as int]);
                index = index + 1;
            }
            assert(given.take(index as int) =~= given);
            Value::Array(object_values(rows))
        },
        _ => Value::Null,
    }
}

/// The row of the items at one position of every column.
pub open spec fn zipped_row(columns: Seq<(Seq<char>, Json)>, i: int) -> Seq<(Seq<char>, Json)> {
    Seq::new(columns.len(), |j: int| (columns[j].0, columns[j].1->Array_0[i]))
}

/// Whether every column is an array of the given length.
pub open spec fn columns_even(columns: Seq<(Seq<char>, Json)>, count: nat) -> bool {
    forall|j: int| 0 <= j < columns.len() ==> (#[trigger] columns[j].1->Array_0).len() == count
}

/// The rows made of the columns of an object; null where a column is not an array or the lengths
/// differ.
pub open spec fn zip_rows_of(input: Json) -> Json {
    match input {
        Json::Object(columns) => if !all_arrays(columns) {
            Json::Null
        } else if columns.len() == 0 {
            Json::Array(Seq::empty())
        } else {
            let count = columns[0].1->Array_0.len();
            if !columns_even(columns, count) {
                Json::Null
            } else {
                Json::Array(Seq::new(count, |i: int| Json::Object(zipped_row(columns, i))))
            }
        },
        _ => Json::Null,
    }
}

fn column_length(columns: &Object, index: usize) -> (length: usize)
    requires
        index < columns@.len(),
        all_arrays(columns@),
    ensures
        length == columns@[index as int].1->Array_0.len(),
{
    assert(columns@[index as int].1 is Array);
    match columns.value_at(index) {
        Value::Array(values) => values.len(),
        _ => 0,
    }
}

fn zip_row(columns: &Object, i: usize) -> (row: Object)
    requires
        all_arrays(columns@),
        forall|j: int| 0 <= j < columns@.len() ==> i < (#[trigger] columns@[j].1->Array_0).len(),
    ensures
        row@ == zipped_row(columns@, i as int),
{
    columns.check_ascending();
    let ghost whole = zipped_row(columns@, i as int);
    let mut row = Object::new();
    let mut j: usize = 0;
    assert(row@ =~= whole.take(0));
    while j < columns.len()
        invariant
            j <= columns@.len(),
            keys_ascending(columns@),
            all_arrays(columns@),
            forall|j: int| 0 <= j < columns@.len() ==> i < (#[trigger] columns@[j].1->Array_0).len(),
            whole == zipped_row(columns@, i as int),
            row@ == whole.take(j as int),
        decreases columns@.len() - j,
    {
        assert(columns@[j as int].1 is Array);
        assert(i < columns@[j as int].1->Array_0.len());
        match columns.value_at(j) {
            Value::Array(values) => {
                assert forall|k: int| 0 <= k < row@.len() implies text_lt(#[trigger] row@[k].0, columns@[j as int].0) by {
                    assert(row@[k].0 == columns@[k].0);
                }
                row.push(columns.key_at(j).clone(), values[i].copy());
                assert(whole[j as int] == (columns@[j as int].0, values@[i as int]@));
                assert(row@ =~= whole.take(j + 1));
            },
            _ => {
                assert(false);
            },
        }
        j = j + 1;
    }
    assert(whole.take(j as int) =~= whole);
    row
}

/// The rows made of the columns of an object.
pub fn zip_rows(input: &Value) -> (output: Value)
    ensures
        output@ == zip_rows_of(input@),
{
    match input {
        Value::Object(columns) => {
            if !has_only_arrays(columns) {
                return Value::Null;
            }
            let mut rows: Vec<Value> = Vec::new();
            assert(jsons(rows@) =~= Seq::empty());
            if columns.is_empty() {
                return Value::Array(rows);
            }
            let count: usize = column_length(columns, 0);
            let mut j: usize = 0;
            while j < columns.len()
                invariant
                    j <= columns@.len(),
                    columns@.len() > 0,
                    input@ == Json::Object(columns@),
                    all_arrays(columns@),
                    count == columns@[0].1->Array_0.len(),
                    forall|k: int| 0 <= k < j ==> (#[trigger] columns@[k].1->Array_0).len() == count,
                decreases columns@.len() - j,
            {
                if column_length(columns, j) != count {
                    assert(columns@[j as int].1->Array_0.len() != count);
                    return Value::Null;
                }
                j = j + 1;
            }
            let ghost whole = Seq::new(count as nat, |i: int| Json::Object(zipped_row(columns@, i)));
            let mut i: usize = 0;
            assert(jsons(rows@) =~= whole.take(0));
            while i < count
                invariant
                    i <= count,
                    all_arrays(columns@),
                    columns_even(columns@, count as nat),
                    whole == Seq::new(count as nat, |i: int| Json::Object(zipped_row(columns@, i))),
                    jsons(rows@) == whole.take(i as int),
                decreases count - i,
            {
                rows.push(Value::Object(zip_row(columns, i)));
                assert(whole.take(i + 1) =~= whole.take(i as int).push(whole[i as int]));
                i = i + 1;
            }
            assert(whole.take(i as int) =~= whole);
            Value::Array(rows)
        },
        _ => Value::Null,
    }
}

/// Whether a value is an object with exactly the keys of the given members.
pub open spec fn has_keys_of(row: Json, members: Seq<(Seq<char>, Json)>) -> bool {
    match row {
        Json::Object(other) => other.len() == members.len() && forall|j: int|
            0 <= j < members.len() ==> obj_get(other, #[trigger] members[j].0) is Some,
        _ => false,
    }
}

/// The column of a key over all rows.
pub open spec fn column_of(rows: Seq<Json>, key: Seq<char>) -> Seq<Json> {
    Seq::new(rows.len(), |i: int| obj_get(rows[i]->Object_0, key)->0)
}

/// The columns of rows that are objects with one set of keys; null for anything else.
pub open spec fn unzip_rows_of(input: Json) -> Json {
    match input {
        Json::Array(rows) => if rows.len() == 0 {
            Json::Object(Seq::empty())
        } else {
            match rows[0] {
                Json::Object(first) => if forall|i: int| 0 <= i < rows.len() ==> has_keys_of(#[trigger] rows[i], first) {
                    Json::Object(
                        Seq::new(first.len(), |j: int| (first[j].0, Json::Array(column_of(rows, first[j].0)))),
                    )
                } else {
                    Json::Null
                },
                _ => Json::Null,
            }
        },
        _ => Json::Null,
    }
}

fn row_has_keys(row: &Value, first: &Object) -> (answer: bool)
    ensures
        answer == has_keys_of(row@, first@),
{
    match row {
        Value::Object(other) => {
            if other.len() != first.len() {
                return false;
            }
            let mut j: usize = 0;
            while j < first.len()
                invariant
                    j <= first@.len(),
                    row@ == Json::Object(other@),
                    forall|k: int| 0 <= k < j ==> obj_get(other@, #[trigger] first@[k].0) is Some,
                decreases first@.len() - j,
            {
                if other.get(first.key_at(j).as_str()).is_none() {
                    assert(obj_get(other@, first@[j as int].0) is None);
                    return false;
                }
                j = j + 1;
            }
            true
        },
        _ => false,
    }
}

fn column(rows: &Vec<Value>, key: &str) -> (values: Vec<Value>)
    requires
        forall|i: int| 0 <= i < rows@.len() ==> (#[trigger] jsons(rows@)[i]) is Object && obj_get(jsons(rows@)[i]->Object_0, key@) is Some,
    ensures
        jsons(values@) == column_of(jsons(rows@), key@),
{
    let ghost whole = column_of(jsons(rows@), key@);
    let mut values: Vec<Value> = Vec::new();
    let mut i: usize = 0;
    assert(jsons(values@) =~= whole.take(0));
    while i < rows.len()
        invariant
            i <= rows.len(),
            forall|i: int| 0 <= i < rows@.len() ==> (#[trigger] jsons(rows@)[i]) is Object && obj_get(jsons(rows@)[i]->Object_0, key@) is Some,
            whole == column_of(jsons(rows@), key@),
            jsons(values@) == whole.take(i as int),
        decreases rows.len() - i,
    {
        assert(jsons(rows@)[i as int] == rows@[i as int]@);
        match &rows[i] {
            Value::Object(row) => match row.get(key) {
                Some(value) => {
                    values.push(value.copy());
                    assert(whole.take(i + 1) =~= whole.take(i as int).push(whole[i as int]));
                },
                None => {
                    assert(false);
                },
            },
            _ => {
                assert(false);
            },
        }
        i = i + 1;
    }
    assert(whole.take(i as int) =~= whole);
    values
}

/// The columns of rows that are objects with one set of keys.
pub fn unzip_rows(input: &Value) -> (output: Value)
    ensures
        output@ == unzip_rows_of(input@),
{
    match input {
        Value::Array(rows) => {
            let ghost all = jsons(rows@);
            if rows.len() == 0 {
                return Value::Object(Object::new());
            }
            assert(all[0] == rows@[0]@);
            match &rows[0] {
                Value::Object(first) => {
                    let mut i: usize = 0;
                    while i < rows.len()
                        invariant
                            i <= rows.len(),
                            rows.len() > 0,
                            all == jsons(rows@),
                            input@ == Json::Array(all),
                            all[0] == Json::Object(first@),
                            forall|k: int| 0 <= k < i ==> has_keys_of(#[trigger] all[k], first@),
                        decreases rows.len() - i,
                    {
                        assert(all[i as int] == rows@[i as int]@);
                        if !row_has_keys(&rows[i], first) {
                            return Value::Null;
                        }
                        i = i + 1;
                    }
                    first.check_ascending();
                    let ghost whole = Seq::new(first@.len(), |j: int| (first@[j].0, Json::Array(column_of(all, first@[j].0))));
                    let mut output = Object::new();
                    let mut j: usize = 0;
                    assert(output@ =~= whole.take(0));
                    while j < first.len()
                        invariant
                            j <= first@.len(),
                            all == jsons(rows@),
                            forall|k: int| 0 <= k < all.len() ==> has_keys_of(#[trigger] all[k], first@),
                            keys_ascending(first@),
                            whole == Seq::new(first@.len(), |j: int| (first@[j].0, Json::Array(column_of(all, first@[j].0)))),
                            output@ == whole.take(j as int),
                        decreases first@.len() - j,
                    {
                        assert forall|k: int| 0 <= k < rows@.len() implies (#[trigger] jsons(rows@)[k]) is Object && obj_get(jsons(rows@)[k]->Object_0, first@[j as int].0) is Some by {
                            assert(has_keys_of(all[k], first@));
                        }
                        let values = column(rows, first.key_at(j).as_str());
                        assert forall|k: int| 0 <= k < output@.len() implies text_lt(#[trigger] output@[k].0, first@[j as int].0) by {
                            assert(output@[k].0 == first@[k].0);
                        }
                        output.push(first.key_at(j).clone(), Value::Array(values));
                        assert(output@ =~= whole.take(j + 1));
                        j = j + 1;
                    }
                    assert(whole.take(j as int) =~= whole);
                    Value::Object(output)
                },
                _ => Value::Null,
            }
        },
        _ => Value::Null,
    }
}

/// Unzipping the rows that columns were zipped to gives the columns back, where there is at
/// least one column and one row.
pub proof fn lemma_unzip_zip(columns: Seq<(Seq<char>, Json)>, count: nat)
    requires
        keys_ascending(columns),
        columns.len() > 0,
        all_arrays(columns),
        columns_even(columns, count),
        count > 0,
    ensures
        unzip_rows_of(zip_rows_of(Json::Object(columns))) == Json::Object(columns),
{
    assert(columns[0].1->Array_0.len() == count);
    let rows = Seq::new(count, |i: int| Json::Object(zipped_row(columns, i)));
    assert(zip_rows_of(Json::Object(columns)) == Json::Array(rows));
    let first = zipped_row(columns, 0);
    assert(rows[0] == Json::Object(first));
    assert forall|i: int, j: int| 0 <= i < count && 0 <= j < columns.len() implies obj_get(#[trigger] zipped_row(columns, i), #[trigger] columns[j].0) == Some(columns[j].1->Array_0[i]) by {
        let row = zipped_row(columns, i);
        assert(keys_ascending(row)) by {
            assert forall|a: int, b: int| 0 <= a < b < row.len() implies text_lt(#[trigger] row[a].0, #[trigger] row[b].0) by {
                assert(row[a].0 == columns[a].0 && row[b].0 == columns[b].0);
            }
        }
        lemma_obj_get_at(row, j);
        assert(row[j] == (columns[j].0, columns[j].1->Array_0[i]));
    }
    assert forall|i: int| 0 <= i < rows.len() implies has_keys_of(#[trigger] rows[i], first) by {
        assert(rows[i] == Json::Object(zipped_row(columns, i)));
        assert forall|j: int| 0 <= j < first.len() implies obj_get(zipped_row(columns, i), #[trigger] first[j].0) is Some by {
            assert(first[j].0 == columns[j].0);
        }
    }
    let result = Seq::new(first.len(), |j: int| (first[j].0, Json::Array(column_of(rows, first[j].0))));
    assert(unzip_rows_of(Json::Array(rows)) == Json::Object(result));
    assert forall|j: int| 0 <= j < columns.len() implies result[j] == #[trigger] columns[j] by {
        assert(first[j].0 == columns[j].0);
        let values = columns[j].1->Array_0;
        assert(values.len() == count);
        assert forall|i: int| 0 <= i < count implies column_of(rows, columns[j].0)[i] == values[i] by {
            assert(rows[i] == Json::Object(zipped_row(columns, i)));
            assert(obj_get(zipped_row(columns, i), columns[j].0) == Some(values[i]));
        }
        assert(column_of(rows, columns[j].0) =~= values);
        assert(columns[j].1 is Array);
        assert(result[j].1 == columns[j].1);
    }
    assert(result =~= columns);
}

/// Whether a row of the second list has the key: its field, or its position in the list.
pub open spec fn second_matches(row: Json, position: int, identifier: Seq<char>, by_index: bool, key: Json) -> bool {
    if by_index {
        same_json(Json::Number(Num::PosInt(position as u64)), key)
    } else {
        match obj_get(row->Object_0, identifier) {
            Some(value) => same_json(value, key),
            None => false,
        }
    }
}

/// The first row of the second list, from a position on, that has the key.
pub open spec fn match_from(rows: Seq<Json>, from: int, identifier: Seq<char>, by_index: bool, key: Json) -> Option<int>
    decreases rows.len() - from,
{
    if from >= rows.len() {
        None
    } else if second_matches(rows[from], from, identifier, by_index, key) {
        Some(from)
    } else {
        match_from(rows, from + 1, identifier, by_index, key)
    }
}

/// A joined row: the key under the identifier, and both rows without it under their names.
pub open spec fn joined_row(
    identifier: Seq<char>,
    key: Json,
    first_name: Seq<char>,
    first: Seq<(Seq<char>, Json)>,
    second_name: Seq<char>,
    second: Seq<(Seq<char>, Json)>,
) -> Json {
    let with_key = obj_insert(Seq::empty(), identifier, key);
    let with_first = obj_insert(with_key, first_name, Json::Object(obj_remove(first, identifier)));
    Json::Object(obj_insert(with_first, second_name, Json::Object(obj_remove(second, identifier))))
}

/// The joined rows in the order of the first list; its rows without a match are left out.
pub open spec fn joined_rows(
    firsts: Seq<Json>,
    first_name: Seq<char>,
    seconds: Seq<Json>,
    second_name: Seq<char>,
    identifier: Seq<char>,
    by_index: bool,
) -> Seq<Json>
    decreases firsts.len(),
{
    if firsts.len() == 0 {
        Seq::empty()
    } else {
        let earlier = joined_rows(firsts.drop_last(), first_name, seconds, second_name, identifier, by_index);
        let first = firsts.last()->Object_0;
        let key = obj_get(first, identifier)->0;
        match match_from(seconds, 0, identifier, by_index, key) {
            Some(i) => earlier.push(
                joined_row(identifier, key, first_name, first, second_name, seconds[i]->Object_0),
            ),
            None => earlier,
        }
    }
}

/// Whether all values are objects.
pub open spec fn all_objects(values: Seq<Json>) -> bool {
    forall|i: int| 0 <= i < values.len() ==> (#[trigger] values[i]) is Object
}

/// Whether all objects have the key.
pub open spec fn all_have(values: Seq<Json>, key: Seq<char>) -> bool {
    forall|i: int| 0 <= i < values.len() ==> obj_get((#[trigger] values[i])->Object_0, key) is Some
}

/// The field of a row, null where there is none.
pub open spec fn field_of(row: Json, key: Seq<char>) -> Json {
    match row {
        Json::Object(members) => match obj_get(members, key) {
            Some(value) => value,
            None => Json::Null,
        },
        _ => Json::Null,
    }
}

/// Rows sorted by a field.
pub open spec fn by_field(rows: Seq<Json>, key: Seq<char>) -> Seq<Json> {
    stable_sorted(rows, |a: Json, b: Json| sorts_after(field_of(a, key), field_of(b, key)))
}

/// Two named lists of objects joined on a key and sorted by it. Null where the input is not an
/// object of two arrays of objects, or a row of the first has no key.
pub open spec fn join_of(input: Json, identifier: Seq<char>, by_index: bool) -> Json {
    match input {
        Json::Object(lists) => if lists.len() == 2 && all_arrays(lists) && all_objects(lists[0].1->Array_0) && all_objects(
            lists[1].1->Array_0,
        ) && all_have(lists[0].1->Array_0, identifier) {
            Json::Array(
                by_field(
                    joined_rows(
                        lists[0].1->Array_0,
                        lists[0].0,
                        lists[1].1->Array_0,
                        lists[1].0,
                        identifier,
                        by_index,
                    ),
                    identifier,
                ),
            )
        } else {
            Json::Null
        },
        _ => Json::Null,
    }
}

/// The values that rows hold in a field.
pub open spec fn field_values(rows: Seq<Json>, key: Seq<char>) -> Seq<Json> {
    rows.map_values(|row: Json| field_of(row, key))
}

proof fn lemma_joined_key(
    identifier: Seq<char>,
    key: Json,
    first_name: Seq<char>,
    first: Seq<(Seq<char>, Json)>,
    second_name: Seq<char>,
    second: Seq<(Seq<char>, Json)>,
)
    ensures
        field_of(joined_row(identifier, key, first_name, first, second_name, second), identifier) == if identifier == second_name {
            Json::Object(obj_remove(second, identifier))
        } else if identifier == first_name {
            Json::Object(obj_remove(first, identifier))
        } else {
            key
        },
{
    let with_key = obj_insert(Seq::empty(), identifier, key);
    let rest = Json::Object(obj_remove(first, identifier));
    lemma_get_after_insert(Seq::empty(), identifier, key, identifier);
    lemma_get_after_insert(with_key, first_name, rest, identifier);
    lemma_get_after_insert(
        obj_insert(with_key, first_name, rest),
        second_name,
        Json::Object(obj_remove(second, identifier)),
        identifier,
    );
}

proof fn lemma_joined_keys(
    firsts: Seq<Json>,
    first_name: Seq<char>,
    seconds: Seq<Json>,
    second_name: Seq<char>,
    identifier: Seq<char>,
    by_index: bool,
    numbers: bool,
)
    requires
        all_objects(firsts),
        all_have(firsts, identifier),
        identifier != first_name && identifier != second_name ==> forall|i: int|
            0 <= i < firsts.len() ==> (field_of(#[trigger] firsts[i], identifier) is Number) == numbers,
        identifier == first_name || identifier == second_name ==> !numbers,
    ensures
        forall|i: int|
            0 <= i < joined_rows(firsts, first_name, seconds, second_name, identifier, by_index).len() ==> (field_of(
                #[trigger] joined_rows(firsts, first_name, seconds, second_name, identifier, by_index)[i],
                identifier,
            ) is Number) == numbers,
    decreases firsts.len(),
{
    if firsts.len() > 0 {
        let earlier = firsts.drop_last();
        assert forall|i: int| 0 <= i < earlier.len() implies earlier[i] == #[trigger] firsts[i] by {}
        assert(all_objects(earlier)) by {
            assert forall|i: int| 0 <= i < earlier.len() implies (#[trigger] earlier[i]) is Object by {
                assert(firsts[i] is Object);
            }
        }
        lemma_joined_keys(earlier, first_name, seconds, second_name, identifier, by_index, numbers);
        let last = firsts[firsts.len() - 1];
        let first = last->Object_0;
        let key = obj_get(first, identifier)->0;
        assert(last is Object && obj_get(first, identifier) is Some);
        assert(field_of(last, identifier) == key);
        if let Some(i) = match_from(seconds, 0, identifier, by_index, key) {
            lemma_joined_key(identifier, key, first_name, first, second_name, seconds[i]->Object_0);
        }
    }
}

/// The rows of a join stand in the ascending order of what they hold under the identifier: by
/// value where the keys are numbers, and by textual form where none is one. Where a list has the
/// identifier for its name, its rows stand in the place of the keys.
pub proof fn lemma_join_ascends(lists: Seq<(Seq<char>, Json)>, identifier: Seq<char>, by_index: bool, rows: Seq<Json>)
    requires
        join_of(Json::Object(lists), identifier, by_index) == Json::Array(rows),
    ensures
        identifier != lists[0].0 && identifier != lists[1].0 && all_numbers(
            field_values(lists[0].1->Array_0, identifier),
        ) ==> numbers_ascend(field_values(rows, identifier)),
        no_numbers(field_values(lists[0].1->Array_0, identifier)) ==> texts_ascend(field_values(rows, identifier)),
        identifier == lists[0].0 || identifier == lists[1].0 ==> texts_ascend(field_values(rows, identifier)),
{
    let (firsts, seconds) = (lists[0].1->Array_0, lists[1].1->Array_0);
    let joined = joined_rows(firsts, lists[0].0, seconds, lists[1].0, identifier, by_index);
    let keys = field_values(firsts, identifier);
    let named = identifier == lists[0].0 || identifier == lists[1].0;
    let after = |a: Json, b: Json| sorts_after(field_of(a, identifier), field_of(b, identifier));
    let field = |row: Json| field_of(row, identifier);
    assert forall|i: int| 0 <= i < firsts.len() implies field_of(#[trigger] firsts[i], identifier) == keys[i] by {}
    let of_joined = field_values(joined, identifier);
    assert forall|i: int| 0 <= i < joined.len() implies field_of(#[trigger] joined[i], identifier) == of_joined[i] by {}
    if !named && all_numbers(keys) {
        lemma_joined_keys(firsts, lists[0].0, seconds, lists[1].0, identifier, by_index, true);
        assert forall|i: int| 0 <= i < of_joined.len() implies (#[trigger] of_joined[i]) is Number by {
            assert(field_of(joined[i], identifier) is Number);
        }
        lemma_sorted_keys(joined, field, after);
    }
    if named || no_numbers(keys) {
        lemma_joined_keys(firsts, lists[0].0, seconds, lists[1].0, identifier, by_index, false);
        assert forall|i: int| 0 <= i < of_joined.len() implies !((#[trigger] of_joined[i]) is Number) by {
            assert(!(field_of(joined[i], identifier) is Number));
        }
        lemma_sorted_keys(joined, field, after);
    }
}

/// The rows of a join are the joined rows, each as often.
pub proof fn lemma_join_keeps_rows(rows: Seq<Json>, identifier: Seq<char>)
    ensures
        by_field(rows, identifier).to_multiset() == rows.to_multiset(),
{
    lemma_sort_keeps_items(rows, |a: Json, b: Json| sorts_after(field_of(a, identifier), field_of(b, identifier)));
}

fn has_only_objects(values: &Vec<Value>) -> (answer: bool)
    ensures
        answer == all_objects(jsons(values@)),
{
    let mut i: usize = 0;
    while i < values.len()
        invariant
            i <= values.len(),
            forall|j: int| 0 <= j < i ==> (#[trigger] jsons(values@)[j]) is Object,
        decreases values.len() - i,
    {
        assert(jsons(values@)[i as int] == values@[i as int]@);
        match &values[i] {
            Value::Object(_) => {},
            _ => {
                return false;
            },
        }
        i = i + 1;
    }
    true
}

fn find_second(rows: &Vec<Value>, identifier: &str, by_index: bool, key: &Value) -> (index: Option<usize>)
    requires
        all_objects(jsons(rows@)),
    ensures
        index is Some <==> match_from(jsons(rows@), 0, identifier@, by_index, key@) is Some,
        index matches Some(i) ==> i < rows@.len() && match_from(jsons(rows@), 0, identifier@, by_index, key@) == Some(i as int),
{
    let mut i: usize = 0;
    while i < rows.len()
        invariant
            i <= rows.len(),
            all_objects(jsons(rows@)),
            match_from(jsons(rows@), 0, identifier@, by_index, key@) == match_from(jsons(rows@), i as int, identifier@, by_index, key@),
        decreases rows.len() - i,
    {
        assert(jsons(rows@)[i as int] == rows@[i as int]@);
        let found = if by_index {
            let position = Value::Number(Number::PosInt(i as u64));
            values_same(&position, key)
        } else {
            match &rows[i] {
                Value::Object(row) => match row.get(identifier) {
                    Some(value) => values_same(value, key),
                    None => false,
                },
                _ => false,
            }
        };
        if found {
            return Some(i);
        }
        i = i + 1;
    }
    None
}

fn field(row: &Value, key: &str) -> (value: Value)
    ensures
        value@ == field_of(row@, key@),
{
    match row {
        Value::Object(members) => match members.get(key) {
            Some(value) => value.copy(),
            None => Value::Null,
        },
        _ => Value::Null,
    }
}

fn sort_joined(rows: Vec<Value>, identifier: &str) -> (sorted: Vec<Value>)
    ensures
        jsons(sorted@) == by_field(jsons(rows@), identifier@),
{
    let ghost before = rows@;
    let ghost order = |a: Value, b: Value| sorts_after(field_of(a@, identifier@), field_of(b@, identifier@));
    let after = |a: &Value, b: &Value| -> (r: bool)
        ensures
            r == sorts_after(field_of(a@, identifier@), field_of(b@, identifier@)),
        {
            let left = field(a, identifier);
            let right = field(b, identifier);
            comes_after(&left, &right)
        };
    let sorted = stable_sort(rows, &after, Ghost(order));
    proof {
        let view = |v: Value| v@;
        let by_json = |a: Json, b: Json| sorts_after(field_of(a, identifier@), field_of(b, identifier@));
        lemma_sort_map(before, view, order, by_json);
        assert(before.map_values(view) =~= jsons(before));
        assert(sorted@.map_values(view) =~= jsons(sorted@));
    }
    sorted
}

fn join_lists(
    firsts: &Vec<Value>,
    first_name: &str,
    seconds: &Vec<Value>,
    second_name: &str,
    identifier: &str,
    by_index: bool,
) -> (joined: Option<Vec<Value>>)
    requires
        all_objects(jsons(firsts@)),
        all_objects(jsons(seconds@)),
    ensures
        joined is Some <==> all_have(jsons(firsts@), identifier@),
        joined matches Some(rows) ==> jsons(rows@) == joined_rows(
            jsons(firsts@),
            first_name@,
            jsons(seconds@),
            second_name@,
            identifier@,
            by_index,
        ),
{
    let ghost all = jsons(firsts@);
    let mut rows: Vec<Value> = Vec::new();
    let mut i: usize = 0;
    assert(jsons(rows@) =~= joined_rows(all.take(0), first_name@, jsons(seconds@), second_name@, identifier@, by_index));
    while i < firsts.len()
        invariant
            i <= firsts.len(),
            all == jsons(firsts@),
            all_objects(all),
            all_objects(jsons(seconds@)),
            forall|k: int| 0 <= k < i ==> obj_get((#[trigger] all[k])->Object_0, identifier@) is Some,
            jsons(rows@) == joined_rows(all.take(i as int), first_name@, jsons(seconds@), second_name@, identifier@, by_index),
        decreases firsts.len() - i,
    {
        assert(all[i as int] == firsts@[i as int]@);
        assert(all.take(i + 1).drop_last() =~= all.take(i as int));
        assert(all.take(i + 1).last() == all[i as int]);
        match &firsts[i] {
            Value::Object(first) => match first.get(identifier) {
                None => {
                    return None;
                },
                Some(key) => match find_second(seconds, identifier, by_index, key) {
                    None => {},
                    Some(j) => {
                        assert(jsons(seconds@)[j as int] == seconds@[j as int]@);
                        match &seconds[j] {
                            Value::Object(second) => {
                                let mut first_value = first.copy();
                                first_value.remove(identifier);
                                let mut second_value = second.copy();
                                second_value.remove(identifier);
                                let mut row = Object::new();
                                row.insert(identifier.to_owned(), key.copy());
                                row.insert(first_name.to_owned(), Value::Object(first_value));
                                row.insert(second_name.to_owned(), Value::Object(second_value));
                                rows.push(Value::Object(row));
                            },
                            _ => {
                                assert(false);
                            },
                        }
                    },
                },
            },
            _ => {
                assert(false);
            },
        }
        i = i + 1;
    }
    assert(all.take(i as int) =~= all);
    Some(rows)
}

/// Two named lists of objects joined on a key and sorted by it.
pub fn join_rows_with_key(input: &Value, identifier: &str, by_index: bool) -> (output: Value)
    ensures
        output@ == join_of(input@, identifier@, by_index),
{
    match input {
        Value::Object(lists) => {
            if lists.len() != 2 || !has_only_arrays(lists) {
                return Value::Null;
            }
            assert(lists@[0].1 is Array && lists@[1].1 is Array);
            match (lists.value_at(0), lists.value_at(1)) {
                (Value::Array(firsts), Value::Array(seconds)) => {
                    if !has_only_objects(firsts) || !has_only_objects(seconds) {
                        return Value::Null;
                    }
                    match join_lists(firsts, lists.key_at(0).as_str(), seconds, lists.key_at(1).as_str(), identifier, by_index) {
                        Some(rows) => Value::Array(sort_joined(rows, identifier)),
                        None => Value::Null,
                    }
                },
                _ => {
                    assert(false);
                    Value::Null
                },
            }
        },
        _ => Value::Null,
    }
}

/// Joins two named lists of objects on a shared field.
pub fn join_rows(input: &Value, identifier: &str) -> (output: Value)
    ensures
        output@ == join_of(input@, identifier@, false),
{
    join_rows_with_key(input, identifier, false)
}

/// Joins two named lists of objects on a field of the first and the position in the second.
pub fn join_rows_index(input: &Value, identifier: &str) -> (output: Value)
    ensures
        output@ == join_of(input@, identifier@, true),
{
    join_rows_with_key(input, identifier, true)
}

/// The product of the lengths of columns.
pub open spec fn product_of_lengths(columns: Seq<(Seq<char>, Json)>) -> nat
    decreases columns.len(),
{
    if columns.len() == 0 {
        1
    } else {
        product_of_lengths(columns.drop_last()) * columns.last().1->Array_0.len()
    }
}

proof fn lemma_extend_rows_count(rows: Seq<Seq<(Seq<char>, Json)>>, key: Seq<char>, values: Seq<Json>)
    ensures
        extend_rows(rows, key, values).len() == rows.len() * values.len(),
    decreases values.len(),
{
    if values.len() == 0 {
        assert(rows.len() * 0 == 0) by (nonlinear_arith);
    } else {
        lemma_extend_rows_count(rows, key, values.drop_last());
        let (r, v) = (rows.len() as int, values.len() as int);
        assert(r * (v - 1) + r == r * v) by (nonlinear_arith);
    }
}

/// There is one combination for every choice of one value per column.
pub proof fn lemma_combinations_count(columns: Seq<(Seq<char>, Json)>)
    ensures
        combinations(columns).len() == product_of_lengths(columns),
    decreases columns.len(),
{
    if columns.len() > 0 {
        lemma_combinations_count(columns.drop_last());
        lemma_extend_rows_count(
            combinations(columns.drop_last()),
            columns.last().0,
            columns.last().1->Array_0,
        );
    }
}

} // verus!
