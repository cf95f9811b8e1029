//! Laws of expressions: literals, secrets and calls.
use vstd::prelude::*;
use crate::call::{function_of, Question};
use crate::eval::{eval, eval_call, eval_list, eval_members, lemma_eval_settled, Eval, EvalList, EvalMembers};
use crate::laws::filtering::value_on;
use crate::query::Expr;
use crate::value::{lemma_get_after_insert, obj_get, Json};

verus! {

/// A constant is its value. A secret is asked for by its name, and is the answer.
pub proof fn lemma_constant_and_secret(value: Json, name: Seq<char>, row: Json, answers: Seq<Json>, used: nat)
    ensures
        eval(Expr::Constant(value), row, answers, used) == Eval::Done(value, used),
        eval(Expr::Secret(name), row, answers, used) == if used < answers.len() {
            Eval::Done(answers[used as int], used + 1)
        } else {
            Eval::Ask(Question::Secret(name))
        },
{
}

/// Expressions are evaluated from first to last: a further one is evaluated after the others, with
/// the answers that they left, and its value stands behind theirs. The first question is asked
/// first.
pub proof fn lemma_list_in_order(items: Seq<Expr>, item: Expr, row: Json, answers: Seq<Json>, used: nat)
    ensures
        eval_list(Seq::empty(), row, answers, used) == EvalList::Done(Seq::empty(), used),
        eval_list(items.push(item), row, answers, used) == match eval_list(items, row, answers, used) {
            EvalList::Ask(question) => EvalList::Ask(question),
            EvalList::Done(values, now_used) => match eval(item, row, answers, now_used) {
                Eval::Ask(question) => EvalList::Ask(question),
                Eval::Done(value, then_used) => EvalList::Done(values.push(value), then_used),
            },
        },
{
    assert(items.push(item).drop_last() =~= items);
}

/// Expressions that ask for nothing come to their values, each at its place.
pub proof fn lemma_list_values(items: Seq<Expr>, row: Json)
    requires
        forall|i: int| 0 <= i < items.len() ==> eval(#[trigger] items[i], row, Seq::empty(), 0) is Done,
    ensures
        eval_list(items, row, Seq::empty(), 0) == EvalList::Done(
            Seq::new(items.len(), |i: int| value_on(items[i], row)),
            0,
        ),
    decreases items.len(),
{
    let none = Seq::<Json>::empty();
    let values = Seq::new(items.len(), |i: int| value_on(items[i], row));
    if items.len() == 0 {
        assert(values =~= Seq::empty());
    } else {
        let rest = items.drop_last();
        assert forall|i: int| 0 <= i < rest.len() implies eval(#[trigger] rest[i], row, none, 0) is Done by {
            assert(rest[i] == items[i]);
        }
        lemma_list_values(rest, row);
        let last = items[items.len() - 1];
        assert(eval(last, row, none, 0) is Done);
        lemma_eval_settled(last, row, none, none, 0);
        assert(Seq::new(rest.len(), |i: int| value_on(rest[i], row)).push(value_on(last, row)) =~= values);
    }
}

/// A list in brackets is the array of its items' values, in order.
pub proof fn lemma_array_literal(items: Seq<Expr>, row: Json)
    requires
        forall|i: int| 0 <= i < items.len() ==> eval(#[trigger] items[i], row, Seq::empty(), 0) is Done,
    ensures
        eval(Expr::Array(items), row, Seq::empty(), 0) == Eval::Done(
            Json::Array(Seq::new(items.len(), |i: int| value_on(items[i], row))),
            0,
        ),
{
    lemma_list_values(items, row);
}

/// An object in braces has, under each key, the value of the last entry with that key, and no other
/// keys.
pub proof fn lemma_object_literal(entries: Seq<(Seq<char>, Expr)>, row: Json, k: int, key: Seq<char>)
    requires
        forall|i: int| 0 <= i < entries.len() ==> eval((#[trigger] entries[i]).1, row, Seq::empty(), 0) is Done,
    ensures
        ({
            &&& eval(Expr::Object(entries), row, Seq::empty(), 0) matches Eval::Done(Json::Object(members), used)
            &&& used == 0
            &&& 0 <= k < entries.len() && entries[k].0 == key && (forall|j: int|
                k < j < entries.len() ==> (#[trigger] entries[j]).0 != key) ==> obj_get(members, key) == Some(
                value_on(entries[k].1, row),
            )
            &&& (forall|j: int| 0 <= j < entries.len() ==> (#[trigger] entries[j]).0 != key) ==> obj_get(members, key) is None
        }),
{
    lemma_members_values(entries, row, k, key);
}

proof fn lemma_members_values(entries: Seq<(Seq<char>, Expr)>, row: Json, k: int, key: Seq<char>)
    requires
        forall|i: int| 0 <= i < entries.len() ==> eval((#[trigger] entries[i]).1, row, Seq::empty(), 0) is Done,
    ensures
        ({
            &&& eval_members(entries, row, Seq::empty(), 0) matches EvalMembers::Done(members, used)
            &&& used == 0
            &&& 0 <= k < entries.len() && entries[k].0 == key && (forall|j: int|
                k < j < entries.len() ==> (#[trigger] entries[j]).0 != key) ==> obj_get(members, key) == Some(
                value_on(entries[k].1, row),
            )
            &&& (forall|j: int| 0 <= j < entries.len() ==> (#[trigger] entries[j]).0 != key) ==> obj_get(members, key) is None
        }),
    decreases entries.len(),
{
    let none = Seq::<Json>::empty();
    if entries.len() > 0 {
        let rest = entries.drop_last();
        assert forall|i: int| 0 <= i < rest.len() implies eval((#[trigger] rest[i]).1, row, none, 0) is Done by {
            assert(rest[i] == entries[i]);
        }
        lemma_members_values(rest, row, k, key);
        let last = entries[entries.len() - 1];
        assert(eval(last.1, row, none, 0) is Done);
        lemma_eval_settled(last.1, row, none, none, 0);
        let before = eval_members(rest, row, none, 0)->Done_0;
        lemma_get_after_insert(before, last.0, value_on(last.1, row), key);
        if 0 <= k < entries.len() && entries[k].0 == key && (forall|j: int|
            k < j < entries.len() ==> (#[trigger] entries[j]).0 != key) {
            if k < rest.len() {
                assert(rest[k].0 == key);
                assert forall|j: int| k < j < rest.len() implies (#[trigger] rest[j]).0 != key by {
                    assert(rest[j] == entries[j]);
                }
                assert(last.0 != key);
            }
        }
        if forall|j: int| 0 <= j < entries.len() ==> (#[trigger] entries[j]).0 != key {
            assert forall|j: int| 0 <= j < rest.len() implies (#[trigger] rest[j]).0 != key by {
                assert(rest[j] == entries[j]);
            }
            assert(last.0 != key);
        }
    }
}

/// A call is made on the values of its arguments, in order, after they were evaluated.
pub proof fn lemma_call_on_values(name: Seq<char>, parameters: Seq<Expr>, row: Json, answers: Seq<Json>, used: nat)
    ensures
        eval(Expr::Call(name, parameters), row, answers, used) == match eval_list(parameters, row, answers, used) {
            EvalList::Done(args, now_used) => eval_call(name, args, answers, now_used),
            EvalList::Ask(question) => Eval::Ask(question),
        },
{
}

/// A call of a name that stands for no function, or with a number of arguments that the function does
/// not take, is null.
pub proof fn lemma_unknown_call(name: Seq<char>, args: Seq<Json>, answers: Seq<Json>, used: nat)
    requires
        function_of(name, args.len() as int) is None,
    ensures
        eval_call(name, args, answers, used) == Eval::Done(Json::Null, used),
{
}

/// Names that differ only in the case of ASCII letters make the same call.
pub proof fn lemma_call_ignores_case(a: Seq<char>, b: Seq<char>, args: Seq<Json>, answers: Seq<Json>, used: nat)
    requires
        crate::text::ascii_lower_text(a) == crate::text::ascii_lower_text(b),
    ensures
        eval_call(a, args, answers, used) == eval_call(b, args, answers, used),
{
    crate::call::lemma_calls_ignore_case(a, b, args.len() as int);
}

} // verus!
