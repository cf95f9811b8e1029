//! Laws of the functions on lists, called by name.
use vstd::prelude::*;
use crate::call::first_index;
use crate::eval::{eval_call, Eval};
use crate::functions::array::{distinct_of, has_same, lemma_distinct_covers, lemma_sort_ascends, sorts_after};
use crate::json::{display, flattened, lemma_same_json_transitive, same_json};
use crate::laws::names::{lemma_array_name, lemma_at_name, lemma_count_name, lemma_distinct_name, lemma_indexof_name, lemma_len_name, lemma_range_name, lemma_sort_name};
use crate::laws::values::lemma_items_of_all;
use crate::number::num_key;
use crate::order::{is_order, lemma_sort_agrees, lemma_sort_is_stable, merged, stable_sorted};
use crate::text::{lemma_text_lt_total, lemma_text_lt_transitive, text_lt};
use crate::value::{Json, Num};

verus! {

/// The value of an integer.
pub open spec fn integer(n: int) -> Json {
    if n >= 0 {
        Json::Number(Num::PosInt(n as u64))
    } else {
        Json::Number(Num::NegInt(n as i64))
    }
}

/// `COUNT` of a list is its length; of several arguments it is the sum of the lengths, where what is
/// not a list counts as one.
pub proof fn lemma_count(items: Seq<Json>, args: Seq<Json>, answers: Seq<Json>, used: nat)
    ensures
        eval_call("COUNT"@, seq![Json::Array(items)], answers, used) == Eval::Done(integer(items.len() as int), used),
        eval_call("COUNT"@, args, answers, used) == Eval::Done(integer(flattened(args).len() as int), used),
{
    lemma_count_name(1);
    lemma_count_name(args.len() as int);
    lemma_items_of_all(Seq::empty(), Seq::empty());
}

/// `ARRAY` of a list is that list; of several arguments it is their items, one after another.
pub proof fn lemma_array(items: Seq<Json>, args: Seq<Json>, answers: Seq<Json>, used: nat)
    ensures
        eval_call("ARRAY"@, seq![Json::Array(items)], answers, used) == Eval::Done(Json::Array(items), used),
        eval_call("ARRAY"@, args, answers, used) == Eval::Done(Json::Array(flattened(args)), used),
{
    lemma_array_name(1);
    lemma_array_name(args.len() as int);
    lemma_items_of_all(Seq::empty(), Seq::empty());
}

/// `LEN` is the number of its arguments.
pub proof fn lemma_len(args: Seq<Json>, answers: Seq<Json>, used: nat)
    ensures
        eval_call("LEN"@, args, answers, used) == Eval::Done(integer(args.len() as int), used),
{
    lemma_len_name(args.len() as int);
}

/// Among distinct values, a further value stands behind the others unless an earlier value equals
/// it.
pub proof fn lemma_distinct_push(items: Seq<Json>, item: Json)
    ensures
        distinct_of(Seq::empty()) == Seq::<Json>::empty(),
        distinct_of(items.push(item)) == if exists|j: int| 0 <= j < items.len() && same_json(#[trigger] items[j], item) {
            distinct_of(items)
        } else {
            distinct_of(items).push(item)
        },
{
    let kept = distinct_of(items);
    assert(items.push(item).drop_last() =~= items);
    if exists|j: int| 0 <= j < items.len() && same_json(#[trigger] items[j], item) {
        let j = choose|j: int| 0 <= j < items.len() && same_json(#[trigger] items[j], item);
        lemma_distinct_covers(items, j);
        let i = choose|i: int| 0 <= i < kept.len() && same_json(#[trigger] kept[i], items[j]);
        lemma_same_json_transitive(kept[i], items[j], item);
        assert(has_same(kept, item));
    } else if has_same(kept, item) {
        let i = choose|i: int| 0 <= i < kept.len() && same_json(#[trigger] kept[i], item);
        lemma_distinct_are_items(items, i);
        let j = choose|j: int| 0 <= j < items.len() && #[trigger] items[j] == kept[i];
        assert(same_json(items[j], item));
    }
}

proof fn lemma_distinct_are_items(items: Seq<Json>, i: int)
    requires
        0 <= i < distinct_of(items).len(),
    ensures
        exists|j: int| 0 <= j < items.len() && #[trigger] items[j] == distinct_of(items)[i],
    decreases items.len(),
{
    if items.len() > 0 {
        let rest = items.drop_last();
        if i < distinct_of(rest).len() {
            lemma_distinct_are_items(rest, i);
            let j = choose|j: int| 0 <= j < rest.len() && #[trigger] rest[j] == distinct_of(rest)[i];
            assert(items[j] == distinct_of(items)[i]);
        } else {
            assert(items[items.len() - 1] == distinct_of(items)[i]);
        }
    }
}

/// `DISTINCT` of a list holds, in order, the items that equal no earlier item.
pub proof fn lemma_distinct(items: Seq<Json>, item: Json, answers: Seq<Json>, used: nat)
    ensures
        eval_call("DISTINCT"@, seq![Json::Array(Seq::empty())], answers, used) == Eval::Done(Json::Array(Seq::empty()), used),
        ({
            let before = eval_call("DISTINCT"@, seq![Json::Array(items)], answers, used);
            let after = eval_call("DISTINCT"@, seq![Json::Array(items.push(item))], answers, used);
            &&& before matches Eval::Done(Json::Array(kept), now_used)
            &&& now_used == used
            &&& after == Eval::Done(
                Json::Array(
                    if exists|j: int| 0 <= j < items.len() && same_json(#[trigger] items[j], item) {
                        kept
                    } else {
                        kept.push(item)
                    },
                ),
                used,
            )
        }),
{
    lemma_distinct_name(1);
    lemma_items_of_all(Seq::empty(), Seq::empty());
    lemma_distinct_push(items, item);
}

/// `SORT` gives the items of its arguments, each as often as it occurs. Numbers ascend by value, and
/// items of which none is a number ascend by their textual forms.
pub proof fn lemma_sort(args: Seq<Json>, answers: Seq<Json>, used: nat)
    ensures
        ({
            let items = flattened(args);
            let result = eval_call("SORT"@, args, answers, used);
            &&& result matches Eval::Done(Json::Array(sorted), now_used)
            &&& now_used == used
            &&& sorted.to_multiset() == items.to_multiset()
            &&& sorted.len() == items.len()
            &&& (forall|i: int| 0 <= i < items.len() ==> (#[trigger] items[i]) is Number) ==> forall|i: int, j: int|
                0 <= i < j < sorted.len() ==> num_key((#[trigger] sorted[i])->Number_0) <= num_key(
                    (#[trigger] sorted[j])->Number_0,
                )
            &&& (forall|i: int| 0 <= i < items.len() ==> !((#[trigger] items[i]) is Number)) ==> forall|i: int, j: int|
                0 <= i < j < sorted.len() ==> display(#[trigger] sorted[i]) == display(#[trigger] sorted[j]) || text_lt(
                    display(sorted[i]),
                    display(sorted[j]),
                )
        }),
{
    lemma_sort_name(args.len() as int);
    let items = flattened(args);
    let after = |a: Json, b: Json| sorts_after(a, b);
    crate::order::lemma_sort_keeps_items(items, after);
    if crate::functions::array::all_numbers(items) || crate::functions::array::no_numbers(items) {
        lemma_sort_ascends(items);
    }
}

/// `SORT` keeps equal items in the order they came in: numbers of one value, and other items of one
/// textual form.
pub proof fn lemma_sort_stable(items: Seq<Json>, like: Json)
    ensures
        (like is Number && forall|i: int| 0 <= i < items.len() ==> (#[trigger] items[i]) is Number) ==> stable_sorted(
            items,
            |a: Json, b: Json| sorts_after(a, b),
        ).filter(|item: Json| num_key(item->Number_0) == num_key(like->Number_0)) == items.filter(
            |item: Json| num_key(item->Number_0) == num_key(like->Number_0),
        ),
        (forall|i: int| 0 <= i < items.len() ==> !((#[trigger] items[i]) is Number)) ==> stable_sorted(
            items,
            |a: Json, b: Json| sorts_after(a, b),
        ).filter(|item: Json| display(item) == display(like)) == items.filter(|item: Json| display(item) == display(like)),
{
    let after = |a: Json, b: Json| sorts_after(a, b);
    let by_number = |a: Json, b: Json| num_key(a->Number_0) > num_key(b->Number_0);
    let by_text = |a: Json, b: Json| text_lt(display(b), display(a));
    if like is Number && forall|i: int| 0 <= i < items.len() ==> (#[trigger] items[i]) is Number {
        assert(is_order(by_number));
        lemma_sort_agrees(items, |x: Json| x is Number, after, by_number);
        lemma_sort_is_stable(items, like, by_number);
        let same = |item: Json| num_key(item->Number_0) == num_key(like->Number_0);
        let level = |item: Json| !by_number(item, like) && !by_number(like, item);
        assert(same =~= level);
        assert(crate::order::equal_items(items, like, by_number) == items.filter(level));
    }
    if forall|i: int| 0 <= i < items.len() ==> !((#[trigger] items[i]) is Number) {
        assert forall|a: Json, b: Json| #[trigger] by_text(a, b) implies !by_text(b, a) by {
            lemma_text_lt_total(display(a), display(b));
        }
        assert forall|a: Json, b: Json, c: Json| !(#[trigger] by_text(a, b)) && !(#[trigger] by_text(b, c)) implies !by_text(a, c) by {
            lemma_text_lt_total(display(a), display(b));
            lemma_text_lt_total(display(b), display(c));
            lemma_text_lt_total(display(a), display(c));
            if text_lt(display(a), display(b)) && text_lt(display(b), display(c)) {
                lemma_text_lt_transitive(display(a), display(b), display(c));
            }
        }
        assert(is_order(by_text));
        lemma_sort_agrees(items, |x: Json| !(x is Number), after, by_text);
        lemma_sort_is_stable(items, like, by_text);
        let same = |item: Json| display(item) == display(like);
        let level = |item: Json| !by_text(item, like) && !by_text(like, item);
        assert forall|item: Json| #[trigger] same(item) == level(item) by {
            lemma_text_lt_total(display(item), display(like));
        }
        assert(same =~= level);
        assert(crate::order::equal_items(items, like, by_text) == items.filter(level));
    }
}

/// `RANGE` counts from its first argument to its second, both ends included, up or down by one.
pub proof fn lemma_range(start: i64, end: i64, answers: Seq<Json>, used: nat)
    ensures
        ({
            let result = eval_call("RANGE"@, seq![integer(start as int), integer(end as int)], answers, used);
            &&& result matches Eval::Done(Json::Array(numbers), now_used)
            &&& now_used == used
            &&& numbers.len() == (if start <= end { end - start } else { start - end }) + 1
            &&& forall|i: int| 0 <= i < numbers.len() ==> #[trigger] numbers[i] == integer(if start <= end {
                start + i
            } else {
                start - i
            })
        }),
{
    lemma_range_name(2);
}

/// `AT` is the item at a position, null where there is none.
pub proof fn lemma_at(items: Seq<Json>, n: int, answers: Seq<Json>, used: nat)
    requires
        i64::MIN <= n <= i64::MAX,
    ensures
        eval_call("AT"@, seq![Json::Array(items), integer(n)], answers, used) == Eval::Done(
            if 0 <= n < items.len() {
                items[n]
            } else {
                Json::Null
            },
            used,
        ),
{
    lemma_at_name(2);
}

/// `AT` with two bounds is the items from the first up to the second, and with one the items from it
/// on; null where the bounds do not lie in the list.
pub proof fn lemma_at_bounds(items: Seq<Json>, start: int, end: int, answers: Seq<Json>, used: nat)
    requires
        i64::MIN <= start <= i64::MAX,
        i64::MIN <= end <= i64::MAX,
    ensures
        eval_call("AT"@, seq![Json::Array(items), Json::Array(seq![integer(start), integer(end)])], answers, used)
            == Eval::Done(
            if 0 <= start <= end <= items.len() {
                Json::Array(items.subrange(start, end))
            } else {
                Json::Null
            },
            used,
        ),
        eval_call("AT"@, seq![Json::Array(items), Json::Array(seq![integer(start)])], answers, used) == Eval::Done(
            if 0 <= start <= items.len() {
                Json::Array(items.skip(start))
            } else {
                Json::Null
            },
            used,
        ),
{
    lemma_at_name(2);
    if 0 <= start <= items.len() {
        assert(items.subrange(start, items.len() as int) =~= items.skip(start));
    }
    assert(seq![integer(start)].len() == 1);
    assert(seq![integer(start), integer(end)].len() == 2);
}

/// `INDEXOF` is the position of the first item that equals the value, and -1 where none does.
pub proof fn lemma_index_of(items: Seq<Json>, value: Json, answers: Seq<Json>, used: nat)
    requires
        items.len() <= u64::MAX,
    ensures
        ({
            let result = eval_call("INDEXOF"@, seq![Json::Array(items), value], answers, used);
            ||| exists|n: int|
                {
                    &&& 0 <= n < items.len()
                    &&& same_json(#[trigger] items[n], value)
                    &&& forall|j: int| 0 <= j < n ==> !same_json(#[trigger] items[j], value)
                    &&& result == Eval::Done(integer(n), used)
                }
            ||| (forall|j: int| 0 <= j < items.len() ==> !same_json(#[trigger] items[j], value)) && result == Eval::Done(
                integer(-1),
                used,
            )
        }),
{
    lemma_indexof_name(2);
    lemma_first_found(items, value, 0);
    match first_index(items, value, 0) {
        Some(n) => {
            assert(same_json(items[n], value));
        },
        None => {},
    }
}

proof fn lemma_first_found(items: Seq<Json>, value: Json, from: int)
    requires
        0 <= from <= items.len(),
    ensures
        match first_index(items, value, from) {
            Some(n) => from <= n < items.len() && same_json(items[n], value) && forall|j: int|
                from <= j < n ==> !same_json(#[trigger] items[j], value),
            None => forall|j: int| from <= j < items.len() ==> !same_json(#[trigger] items[j], value),
        },
    decreases items.len() - from,
{
    if from < items.len() && !same_json(items[from], value) {
        lemma_first_found(items, value, from + 1);
    }
}

/// `SORT` of two items, of which one at least is no number, puts the one with the smaller textual form
/// first, and leaves them as they are where the forms are equal.
pub proof fn lemma_sort_pair(a: Json, b: Json, answers: Seq<Json>, used: nat)
    requires
        !(a is Number && b is Number),
    ensures
        eval_call("SORT"@, seq![Json::Array(seq![a, b])], answers, used) == Eval::Done(
            Json::Array(
                if text_lt(display(b), display(a)) {
                    seq![b, a]
                } else {
                    seq![a, b]
                },
            ),
            used,
        ),
{
    lemma_sort_name(1);
    lemma_items_of_all(Seq::empty(), Seq::empty());
    let pair = seq![a, b];
    let after = |x: Json, y: Json| sorts_after(x, y);
    let (first, second) = (seq![a], seq![b]);
    assert(pair.take(1) =~= first && pair.skip(1) =~= second);
    assert(stable_sorted(first, after) == first && stable_sorted(second, after) == second);
    assert(stable_sorted(pair, after) == merged(first, second, after));
    assert(first.drop_last() =~= Seq::empty() && second.drop_last() =~= Seq::empty());
    assert(after(a, b) == text_lt(display(b), display(a)));
    if after(a, b) {
        assert(merged(first.drop_last(), second, after) == second);
        assert(second.push(a) =~= seq![b, a]);
    } else {
        assert(merged(first, second.drop_last(), after) == first);
        assert(first.push(b) =~= pair);
    }
}

} // verus!
