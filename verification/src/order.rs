//! Stable sorting and the order of values.
use vstd::prelude::*;
use crate::number::{num_key, number_key};
use crate::text::{lemma_text_lt_total, lemma_text_lt_transitive, text_less, text_lt};
use crate::value::{Json, Value};

verus! {

/// The outcome of comparing two things.
#[derive(Debug, Clone, Copy, PartialEq, Eq, Structural)]
pub enum Order {
    Less,
    Equal,
    Greater,
}

/// Two sorted sequences in one: from the end, the greater last item goes last; among equals the
/// item of the second sequence does.
pub open spec fn merged<T>(a: Seq<T>, b: Seq<T>, after: spec_fn(T, T) -> bool) -> Seq<T>
    decreases a.len() + b.len(),
{
    if a.len() == 0 {
        b
    } else if b.len() == 0 {
        a
    } else if after(a.last(), b.last()) {
        merged(a.drop_last(), b, after).push(a.last())
    } else {
        merged(a, b.drop_last(), after).push(b.last())
    }
}

/// The items sorted: no item stands before one that it comes after, and equal items keep their
/// order.
pub open spec fn stable_sorted<T>(items: Seq<T>, after: spec_fn(T, T) -> bool) -> Seq<T>
    decreases items.len(),
{
    if items.len() < 2 {
        items
    } else {
        let half = items.len() as int / 2;
        merged(
            stable_sorted(items.take(half), after),
            stable_sorted(items.skip(half), after),
            after,
        )
    }
}

/// No item stands before one that it comes after.
pub open spec fn is_sorted<T>(items: Seq<T>, after: spec_fn(T, T) -> bool) -> bool {
    forall|i: int, j: int| 0 <= i < j < items.len() ==> !after(#[trigger] items[i], #[trigger] items[j])
}

/// "Not after" is a total preorder.
pub open spec fn is_order<T>(after: spec_fn(T, T) -> bool) -> bool {
    &&& forall|a: T, b: T| #[trigger] after(a, b) ==> !after(b, a)
    &&& forall|a: T, b: T, c: T| !(#[trigger] after(a, b)) && !(#[trigger] after(b, c)) ==> !after(a, c)
}

proof fn lemma_merged_multiset<T>(a: Seq<T>, b: Seq<T>, after: spec_fn(T, T) -> bool)
    ensures
        merged(a, b, after).to_multiset() == a.to_multiset().add(b.to_multiset()),
    decreases a.len() + b.len(),
{
    broadcast use vstd::seq_lib::group_to_multiset_ensures;

    if a.len() == 0 {
        assert(a.to_multiset() =~= vstd::multiset::Multiset::empty()) by {
            assert(a =~= Seq::empty());
        }
        assert(a.to_multiset().add(b.to_multiset()) =~= b.to_multiset());
    } else if b.len() == 0 {
        assert(b.to_multiset() =~= vstd::multiset::Multiset::empty()) by {
            assert(b =~= Seq::empty());
        }
        assert(a.to_multiset().add(b.to_multiset()) =~= a.to_multiset());
    } else if after(a.last(), b.last()) {
        lemma_merged_multiset(a.drop_last(), b, after);
        assert(a.drop_last().push(a.last()) =~= a);
        assert(merged(a, b, after).to_multiset() =~= a.to_multiset().add(b.to_multiset()));
    } else {
        lemma_merged_multiset(a, b.drop_last(), after);
        assert(b.drop_last().push(b.last()) =~= b);
        assert(merged(a, b, after).to_multiset() =~= a.to_multiset().add(b.to_multiset()));
    }
}

/// Sorting keeps every item, each as often as it occurs.
pub proof fn lemma_sort_keeps_items<T>(items: Seq<T>, after: spec_fn(T, T) -> bool)
    ensures
        stable_sorted(items, after).to_multiset() == items.to_multiset(),
        stable_sorted(items, after).len() == items.len(),
    decreases items.len(),
{
    broadcast use vstd::seq_lib::group_to_multiset_ensures;

    if items.len() >= 2 {
        let half = items.len() as int / 2;
        let (left, right) = (items.take(half), items.skip(half));
        lemma_sort_keeps_items(left, after);
        lemma_sort_keeps_items(right, after);
        lemma_merged_multiset(stable_sorted(left, after), stable_sorted(right, after), after);
        vstd::seq_lib::lemma_multiset_commutative(left, right);
        assert(left + right =~= items);
    }
    assert(stable_sorted(items, after).len() == stable_sorted(items, after).to_multiset().len());
    assert(items.len() == items.to_multiset().len());
}

proof fn lemma_merged_members<T>(a: Seq<T>, b: Seq<T>, after: spec_fn(T, T) -> bool, i: int)
    requires
        0 <= i < merged(a, b, after).len(),
    ensures
        a.contains(merged(a, b, after)[i]) || b.contains(merged(a, b, after)[i]),
    decreases a.len() + b.len(),
{
    if a.len() == 0 || b.len() == 0 {
    } else if after(a.last(), b.last()) {
        let rest = merged(a.drop_last(), b, after);
        if i < rest.len() {
            lemma_merged_members(a.drop_last(), b, after, i);
            if a.drop_last().contains(rest[i]) {
                let k = choose|k: int| 0 <= k < a.len() - 1 && a.drop_last()[k] == rest[i];
                assert(a[k] == rest[i]);
            }
        }
    } else {
        let rest = merged(a, b.drop_last(), after);
        if i < rest.len() {
            lemma_merged_members(a, b.drop_last(), after, i);
            if b.drop_last().contains(rest[i]) {
                let k = choose|k: int| 0 <= k < b.len() - 1 && b.drop_last()[k] == rest[i];
                assert(b[k] == rest[i]);
            }
        }
    }
}

proof fn lemma_merged_sorted<T>(a: Seq<T>, b: Seq<T>, after: spec_fn(T, T) -> bool)
    requires
        is_order(after),
        is_sorted(a, after),
        is_sorted(b, after),
    ensures
        is_sorted(merged(a, b, after), after),
    decreases a.len() + b.len(),
{
    if a.len() == 0 || b.len() == 0 {
    } else {
        let first = after(a.last(), b.last());
        let (x, y) = if first {
            (a.drop_last(), b)
        } else {
            (a, b.drop_last())
        };
        let last = if first {
            a.last()
        } else {
            b.last()
        };
        lemma_merged_sorted(x, y, after);
        let rest = merged(x, y, after);
        assert forall|i: int, j: int| 0 <= i < j < rest.push(last).len() implies !after(
            #[trigger] rest.push(last)[i],
            #[trigger] rest.push(last)[j],
        ) by {
            if j == rest.len() {
                lemma_merged_members(x, y, after, i);
                let item = rest[i];
                if x.contains(item) {
                    let k = choose|k: int| 0 <= k < x.len() && x[k] == item;
                    if first {
                        assert(!after(a[k], a[a.len() - 1]));
                    } else {
                        assert(k < a.len() - 1 ==> !after(a[k], a[a.len() - 1]));
                        assert(!after(a.last(), a.last()));
                        assert(!after(item, a.last()));
                        assert(!after(a.last(), b.last()));
                    }
                } else {
                    let k = choose|k: int| 0 <= k < y.len() && y[k] == item;
                    if first {
                        assert(k < b.len() - 1 ==> !after(b[k], b[b.len() - 1]));
                        assert(!after(b.last(), b.last()));
                        assert(!after(item, b.last()));
                        assert(!after(b.last(), a.last()));
                    } else {
                        assert(!after(b[k], b[b.len() - 1]));
                    }
                }
            } else {
                assert(rest.push(last)[i] == rest[i] && rest.push(last)[j] == rest[j]);
            }
        }
    }
}

/// Where the order is a total preorder, the result is sorted.
pub proof fn lemma_sort_sorts<T>(items: Seq<T>, after: spec_fn(T, T) -> bool)
    requires
        is_order(after),
    ensures
        is_sorted(stable_sorted(items, after), after),
    decreases items.len(),
{
    if items.len() >= 2 {
        let half = items.len() as int / 2;
        lemma_sort_sorts(items.take(half), after);
        lemma_sort_sorts(items.skip(half), after);
        lemma_merged_sorted(
            stable_sorted(items.take(half), after),
            stable_sorted(items.skip(half), after),
            after,
        );
    }
}

/// Items that are equal to a given one.
pub open spec fn equal_items<T>(items: Seq<T>, like: T, after: spec_fn(T, T) -> bool) -> Seq<T> {
    items.filter(|item: T| !after(item, like) && !after(like, item))
}

proof fn lemma_merged_stable<T>(a: Seq<T>, b: Seq<T>, like: T, after: spec_fn(T, T) -> bool)
    requires
        is_order(after),
        is_sorted(a, after),
        is_sorted(b, after),
    ensures
        equal_items(merged(a, b, after), like, after) == equal_items(a, like, after) + equal_items(
            b,
            like,
            after,
        ),
    decreases a.len() + b.len(),
{
    reveal(Seq::filter);
    let same = |item: T| !after(item, like) && !after(like, item);
    if a.len() == 0 {
        assert(equal_items(a, like, after) =~= Seq::empty());
        assert(equal_items(a, like, after) + equal_items(b, like, after) =~= equal_items(b, like, after));
    } else if b.len() == 0 {
        assert(equal_items(b, like, after) =~= Seq::empty());
        assert(equal_items(a, like, after) + equal_items(b, like, after) =~= equal_items(a, like, after));
    } else if after(a.last(), b.last()) {
        let rest = merged(a.drop_last(), b, after);
        lemma_merged_stable(a.drop_last(), b, like, after);
        assert(rest.push(a.last()).drop_last() =~= rest);
        if same(a.last()) {
            assert forall|k: int| 0 <= k < b.len() implies !same(#[trigger] b[k]) by {
                assert(k < b.len() - 1 ==> !after(b[k], b[b.len() - 1]));
                assert(!after(b.last(), b.last()));
                assert(!after(b[k], b.last()));
                if !after(like, b[k]) {
                    assert(!after(a.last(), like));
                    assert(!after(a.last(), b[k]));
                    assert(!after(a.last(), b.last()));
                }
            }
            lemma_none_kept(b, same);
        }
        assert(equal_items(merged(a, b, after), like, after) =~= equal_items(a, like, after) + equal_items(b, like, after));
    } else {
        let rest = merged(a, b.drop_last(), after);
        lemma_merged_stable(a, b.drop_last(), like, after);
        assert(rest.push(b.last()).drop_last() =~= rest);
        assert(equal_items(merged(a, b, after), like, after) =~= equal_items(a, like, after) + equal_items(b, like, after));
    }
}

proof fn lemma_none_kept<T>(items: Seq<T>, keep: spec_fn(T) -> bool)
    requires
        forall|k: int| 0 <= k < items.len() ==> !keep(#[trigger] items[k]),
    ensures
        items.filter(keep) == Seq::<T>::empty(),
    decreases items.len(),
{
    reveal(Seq::filter);
    if items.len() > 0 {
        assert forall|k: int| 0 <= k < items.drop_last().len() implies !keep(#[trigger] items.drop_last()[k]) by {
            assert(items.drop_last()[k] == items[k]);
        }
        lemma_none_kept(items.drop_last(), keep);
        assert(items.last() == items[items.len() - 1]);
    }
}

/// Sorting is stable: the items that are equal to any one stand in the order they came in.
pub proof fn lemma_sort_is_stable<T>(items: Seq<T>, like: T, after: spec_fn(T, T) -> bool)
    requires
        is_order(after),
    ensures
        equal_items(stable_sorted(items, after), like, after) == equal_items(items, like, after),
    decreases items.len(),
{
    if items.len() >= 2 {
        let half = items.len() as int / 2;
        let (left, right) = (items.take(half), items.skip(half));
        lemma_sort_is_stable(left, like, after);
        lemma_sort_is_stable(right, like, after);
        lemma_sort_sorts(left, after);
        lemma_sort_sorts(right, after);
        lemma_merged_stable(stable_sorted(left, after), stable_sorted(right, after), like, after);
        Seq::filter_distributes_over_add(left, right, |item: T| !after(item, like) && !after(like, item));
        assert(left + right =~= items);
    }
}

proof fn lemma_merged_agree<T>(
    a: Seq<T>,
    b: Seq<T>,
    among: spec_fn(T) -> bool,
    one: spec_fn(T, T) -> bool,
    other: spec_fn(T, T) -> bool,
)
    requires
        forall|i: int| 0 <= i < a.len() ==> among(#[trigger] a[i]),
        forall|i: int| 0 <= i < b.len() ==> among(#[trigger] b[i]),
        forall|x: T, y: T| among(x) && among(y) ==> #[trigger] one(x, y) == other(x, y),
    ensures
        merged(a, b, one) == merged(a, b, other),
        forall|i: int| 0 <= i < merged(a, b, one).len() ==> among(#[trigger] merged(a, b, one)[i]),
    decreases a.len() + b.len(),
{
    if a.len() > 0 && b.len() > 0 {
        assert(among(a[a.len() - 1]) && among(b[b.len() - 1]));
        assert(one(a.last(), b.last()) == other(a.last(), b.last()));
        if one(a.last(), b.last()) {
            lemma_merged_agree(a.drop_last(), b, among, one, other);
        } else {
            lemma_merged_agree(a, b.drop_last(), among, one, other);
        }
    }
}

/// Two orders that agree on the items sort them alike.
pub proof fn lemma_sort_agrees<T>(
    items: Seq<T>,
    among: spec_fn(T) -> bool,
    one: spec_fn(T, T) -> bool,
    other: spec_fn(T, T) -> bool,
)
    requires
        forall|i: int| 0 <= i < items.len() ==> among(#[trigger] items[i]),
        forall|x: T, y: T| among(x) && among(y) ==> #[trigger] one(x, y) == other(x, y),
    ensures
        stable_sorted(items, one) == stable_sorted(items, other),
        forall|i: int| 0 <= i < items.len() ==> among(#[trigger] stable_sorted(items, one)[i]),
        stable_sorted(items, one).len() == items.len(),
    decreases items.len(),
{
    lemma_sort_keeps_items(items, one);
    if items.len() >= 2 {
        let half = items.len() as int / 2;
        lemma_sort_agrees(items.take(half), among, one, other);
        lemma_sort_agrees(items.skip(half), among, one, other);
        lemma_merged_agree(
            stable_sorted(items.take(half), one),
            stable_sorted(items.skip(half), one),
            among,
            one,
            other,
        );
    }
}

proof fn lemma_merged_map<A, B>(
    a: Seq<A>,
    b: Seq<A>,
    f: spec_fn(A) -> B,
    after_a: spec_fn(A, A) -> bool,
    after_b: spec_fn(B, B) -> bool,
)
    requires
        forall|x: A, y: A| #[trigger] after_a(x, y) == after_b(f(x), f(y)),
    ensures
        merged(a, b, after_a).map_values(f) == merged(a.map_values(f), b.map_values(f), after_b),
    decreases a.len() + b.len(),
{
    let (x, y) = (a.map_values(f), b.map_values(f));
    if a.len() == 0 || b.len() == 0 {
    } else {
        assert(x.last() == f(a.last()) && y.last() == f(b.last()));
        assert(a.drop_last().map_values(f) =~= x.drop_last());
        assert(b.drop_last().map_values(f) =~= y.drop_last());
        if after_a(a.last(), b.last()) {
            lemma_merged_map(a.drop_last(), b, f, after_a, after_b);
            assert(merged(a, b, after_a).map_values(f) =~= merged(a.drop_last(), b, after_a).map_values(f).push(f(a.last())));
        } else {
            lemma_merged_map(a, b.drop_last(), f, after_a, after_b);
            assert(merged(a, b, after_a).map_values(f) =~= merged(a, b.drop_last(), after_a).map_values(f).push(f(b.last())));
        }
    }
}

/// Sorting by an image sorts the images.
pub proof fn lemma_sort_map<A, B>(
    items: Seq<A>,
    f: spec_fn(A) -> B,
    after_a: spec_fn(A, A) -> bool,
    after_b: spec_fn(B, B) -> bool,
)
    requires
        forall|x: A, y: A| #[trigger] after_a(x, y) == after_b(f(x), f(y)),
    ensures
        stable_sorted(items, after_a).map_values(f) == stable_sorted(items.map_values(f), after_b),
    decreases items.len(),
{
    if items.len() >= 2 {
        let half = items.len() as int / 2;
        let (left, right) = (items.take(half), items.skip(half));
        lemma_sort_map(left, f, after_a, after_b);
        lemma_sort_map(right, f, after_a, after_b);
        lemma_merged_map(stable_sorted(left, after_a), stable_sorted(right, after_a), f, after_a, after_b);
        assert(left.map_values(f) =~= items.map_values(f).take(half));
        assert(right.map_values(f) =~= items.map_values(f).skip(half));
    }
}

fn merge<T, F: Fn(&T, &T) -> bool>(
    left: Vec<T>,
    right: Vec<T>,
    after: &F,
    Ghost(order): Ghost<spec_fn(T, T) -> bool>,
) -> (result: Vec<T>)
    requires
        forall|x: &T, y: &T| call_requires(*after, (x, y)),
        forall|x: &T, y: &T, r: bool| call_ensures(*after, (x, y), r) ==> r == order(*x, *y),
    ensures
        result@ == merged(left@, right@, order),
{
    let ghost whole = merged(left@, right@, order);
    let mut a = left;
    let mut b = right;
    let mut backwards: Vec<T> = Vec::new();
    while a.len() > 0 && b.len() > 0
        invariant
            forall|x: &T, y: &T| call_requires(*after, (x, y)),
            forall|x: &T, y: &T, r: bool| call_ensures(*after, (x, y), r) ==> r == order(*x, *y),
            whole == merged(a@, b@, order) + backwards@.reverse(),
        decreases a.len() + b.len(),
    {
        let ghost (before_a, before_b, done) = (a@, b@, backwards@);
        let first = after(&a[a.len() - 1], &b[b.len() - 1]);
        if first {
            if let Some(item) = a.pop() {
                backwards.push(item);
                assert(before_a.drop_last() =~= a@);
                assert(done.push(item).reverse() =~= seq![item] + done.reverse());
                assert(merged(before_a, before_b, order) + done.reverse() =~= merged(a@, b@, order) + backwards@.reverse());
            }
        } else {
            if let Some(item) = b.pop() {
                backwards.push(item);
                assert(before_b.drop_last() =~= b@);
                assert(done.push(item).reverse() =~= seq![item] + done.reverse());
                assert(merged(before_a, before_b, order) + done.reverse() =~= merged(a@, b@, order) + backwards@.reverse());
            }
        }
    }
    let mut result = if a.len() > 0 {
        a
    } else {
        b
    };
    assert(whole =~= result@ + backwards@.reverse());
    while backwards.len() > 0
        invariant
            whole == result@ + backwards@.reverse(),
        decreases backwards.len(),
    {
        let ghost (kept, done) = (result@, backwards@);
        if let Some(item) = backwards.pop() {
            result.push(item);
            assert(done.reverse() =~= seq![item] + backwards@.reverse());
            assert(kept + done.reverse() =~= result@ + backwards@.reverse());
        }
    }
    assert(whole =~= result@);
    result
}

/// Sorts by merging; `after` tells whether its first argument comes strictly after its second.
pub(crate) fn stable_sort<T, F: Fn(&T, &T) -> bool>(
    items: Vec<T>,
    after: &F,
    Ghost(order): Ghost<spec_fn(T, T) -> bool>,
) -> (sorted: Vec<T>)
    requires
        forall|x: &T, y: &T| call_requires(*after, (x, y)),
        forall|x: &T, y: &T, r: bool| call_ensures(*after, (x, y), r) ==> r == order(*x, *y),
    ensures
        sorted@ == stable_sorted(items@, order),
    decreases items.len(),
{
    if items.len() < 2 {
        return items;
    }
    let ghost all = items@;
    let half: usize = items.len() / 2;
    let mut left = items;
    let right = left.split_off(half);
    assert(left@ =~= all.take(half as int));
    assert(right@ =~= all.skip(half as int));
    let sorted_left = stable_sort(left, after, Ghost(order));
    let sorted_right = stable_sort(right, after, Ghost(order));
    merge(sorted_left, sorted_right, after, Ghost(order))
}

/// The order of integers.
pub open spec fn int_order(a: int, b: int) -> Order {
    if a < b {
        Order::Less
    } else if a == b {
        Order::Equal
    } else {
        Order::Greater
    }
}

/// The order of texts.
pub open spec fn text_order(a: Seq<char>, b: Seq<char>) -> Order {
    if text_lt(a, b) {
        Order::Less
    } else if a == b {
        Order::Equal
    } else {
        Order::Greater
    }
}

/// The place of a value's type in the order of types.
pub open spec fn type_rank_of(value: Json) -> int {
    match value {
        Json::Null => 0,
        Json::Bool(_) => 1,
        Json::Number(_) => 2,
        Json::Text(_) => 3,
        Json::Array(_) => 4,
        Json::Object(_) => 5,
    }
}

/// The order of values: by type, then numbers, strings and booleans by value; null comes first,
/// and two arrays or two objects are equal in it.
pub open spec fn json_order(a: Json, b: Json) -> Order {
    match (a, b) {
        (Json::Number(x), Json::Number(y)) => int_order(num_key(x), num_key(y)),
        (Json::Text(x), Json::Text(y)) => text_order(x, y),
        (Json::Bool(x), Json::Bool(y)) => if x == y {
            Order::Equal
        } else if y {
            Order::Less
        } else {
            Order::Greater
        },
        _ => int_order(type_rank_of(a), type_rank_of(b)),
    }
}

/// The opposite order.
pub open spec fn reversed(order: Order) -> Order {
    match order {
        Order::Less => Order::Greater,
        Order::Equal => Order::Equal,
        Order::Greater => Order::Less,
    }
}

/// The order of values reads the same from both sides, and every value equals itself in it.
pub proof fn lemma_json_order_symmetric(a: Json, b: Json)
    ensures
        json_order(b, a) == reversed(json_order(a, b)),
        json_order(a, a) == Order::Equal,
{
    match (a, b) {
        (Json::Text(x), Json::Text(y)) => {
            lemma_text_lt_total(x, y);
            lemma_text_lt_total(x, x);
        },
        (Json::Text(x), _) => {
            lemma_text_lt_total(x, x);
        },
        _ => {},
    }
}

/// The order of values is transitive.
pub proof fn lemma_json_order_transitive(a: Json, b: Json, c: Json)
    requires
        json_order(a, b) != Order::Greater,
        json_order(b, c) != Order::Greater,
    ensures
        json_order(a, c) != Order::Greater,
        json_order(a, c) == Order::Equal <==> (json_order(a, b) == Order::Equal && json_order(b, c) == Order::Equal),
{
    match (a, b, c) {
        (Json::Text(x), Json::Text(y), Json::Text(z)) => {
            lemma_text_lt_total(x, y);
            lemma_text_lt_total(y, z);
            lemma_text_lt_total(x, z);
            if text_lt(x, y) && text_lt(y, z) {
                lemma_text_lt_transitive(x, y, z);
            }
        },
        _ => {},
    }
}

fn order_texts(a: &str, b: &str) -> (order: Order)
    ensures
        order == text_order(a@, b@),
{
    if text_less(a, b) {
        Order::Less
    } else if text_less(b, a) {
        proof {
            lemma_text_lt_total(a@, b@);
        }
        Order::Greater
    } else {
        proof {
            lemma_text_lt_total(a@, b@);
        }
        Order::Equal
    }
}

fn order_keys(a: i128, b: i128) -> (order: Order)
    ensures
        order == int_order(a as int, b as int),
{
    if a < b {
        Order::Less
    } else if a == b {
        Order::Equal
    } else {
        Order::Greater
    }
}

/// The place of a value's type in the order of types.
pub fn type_rank(value: &Value) -> (rank: u8)
    ensures
        rank == type_rank_of(value@),
{
    match value {
        Value::Null => 0,
        Value::Bool(_) => 1,
        Value::Number(_) => 2,
        Value::String(_) => 3,
        Value::Array(_) => 4,
        Value::Object(_) => 5,
    }
}

/// The order of two values.
pub fn compare_values(a: &Value, b: &Value) -> (order: Order)
    ensures
        order == json_order(a@, b@),
{
    match (a, b) {
        (Value::Number(x), Value::Number(y)) => order_keys(number_key(x), number_key(y)),
        (Value::String(x), Value::String(y)) => order_texts(x.as_str(), y.as_str()),
        (Value::Bool(x), Value::Bool(y)) => if *x == *y {
            Order::Equal
        } else if *y {
            Order::Less
        } else {
            Order::Greater
        },
        _ => order_keys(type_rank(a) as i128, type_rank(b) as i128),
    }
}

} // verus!
