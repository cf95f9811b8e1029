//! Laws of FILTER and of the conditions EQ, AND and OR.
use vstd::prelude::*;
use crate::eval::{eval, eval_call, eval_list, lemma_eval_settled, Eval, EvalList};
use crate::json::{same_json, truthy};
use crate::laws::names::{lemma_and_name, lemma_eq_name, lemma_or_name};
use crate::laws::values::{lemma_equal_is_same, no_zero_double};
use crate::pipeline::{lemma_filters_chain, step_rows, task_eval, task_inputs, Many};
use crate::query::{Expr, Step};
use crate::run::{asks_nothing, task_results};
use crate::value::Json;

verus! {

/// `AND` is true exactly where every argument counts as true.
pub proof fn lemma_and(args: Seq<Json>, answers: Seq<Json>, used: nat)
    ensures
        eval_call("AND"@, args, answers, used) == Eval::Done(
            Json::Bool(forall|i: int| 0 <= i < args.len() ==> truthy(#[trigger] args[i])),
            used,
        ),
{
    lemma_and_name(args.len() as int);
}

/// `OR` is true exactly where some argument counts as true.
pub proof fn lemma_or(args: Seq<Json>, answers: Seq<Json>, used: nat)
    ensures
        eval_call("OR"@, args, answers, used) == Eval::Done(
            Json::Bool(exists|i: int| 0 <= i < args.len() && truthy(#[trigger] args[i])),
            used,
        ),
{
    lemma_or_name(args.len() as int);
}

/// `EQ` is true where its two arguments are the same value, and false where they are not; the two
/// zeros of doubles are one.
pub proof fn lemma_eq(a: Json, b: Json, answers: Seq<Json>, used: nat)
    ensures
        eval_call("EQ"@, seq![a, b], answers, used) == Eval::Done(Json::Bool(same_json(a, b)), used),
        no_zero_double(a) ==> eval_call("EQ"@, seq![a, b], answers, used) == Eval::Done(Json::Bool(a == b), used),
        eval_call("EQ"@, seq![a, a], answers, used) == Eval::Done(Json::Bool(true), used),
        eval_call("EQ"@, seq![b, a], answers, used) == eval_call("EQ"@, seq![a, b], answers, used),
{
    lemma_eq_name(2);
    crate::json::lemma_same_json_reflexive(a);
    crate::json::lemma_same_json_symmetric(a, b);
    if no_zero_double(a) {
        lemma_equal_is_same(a, b);
    }
}

/// What an expression that asks for nothing comes to on a row.
pub open spec fn value_on(expr: Expr, row: Json) -> Json {
    eval(expr, row, Seq::empty(), 0)->Done_0
}

/// Whether an expression asks for nothing on any of the rows.
pub open spec fn settled(expr: Expr, rows: Seq<Json>) -> bool {
    forall|i: int| 0 <= i < rows.len() ==> eval(expr, #[trigger] rows[i], Seq::empty(), 0) is Done
}

/// FILTER keeps exactly the rows on which its condition counts as true, in their order.
pub proof fn lemma_filter_step(filter: Expr, rows: Seq<Json>)
    requires
        settled(filter, rows),
    ensures
        asks_nothing(Step::Filter(filter), rows),
        step_rows(Step::Filter(filter), rows, task_results(Step::Filter(filter), rows)) == Many::Rows(
            rows.filter(|row: Json| truthy(value_on(filter, row))),
        ),
{
    let step = Step::Filter(filter);
    let keep = |row: Json| value_on(filter, row);
    assert forall|i: int| 0 <= i < task_inputs(step, rows).len() implies (#[trigger] task_eval(step, rows, i, Seq::empty())) is Done by {
        assert(eval(filter, rows[i], Seq::empty(), 0) is Done);
    }
    assert(task_results(step, rows) =~= rows.map_values(keep));
    lemma_filters_chain(rows, keep, keep);
    assert((|row: Json| truthy(keep(row))) =~= (|row: Json| truthy(value_on(filter, row))));
}

/// Whatever the tasks of a filter came to, a row is kept where its own result counts as true, behind
/// the rows kept before it.
pub proof fn lemma_filter_by_results(filter: Expr, rows: Seq<Json>, results: Seq<Json>, row: Json, result: Json)
    requires
        rows.len() == results.len(),
    ensures
        step_rows(Step::Filter(filter), Seq::empty(), Seq::empty()) == Many::Rows(Seq::empty()),
        ({
            let before = step_rows(Step::Filter(filter), rows, results);
            let after = step_rows(Step::Filter(filter), rows.push(row), results.push(result));
            &&& before matches Many::Rows(kept)
            &&& after == Many::Rows(if truthy(result) {
                kept.push(row)
            } else {
                kept
            })
        }),
{
    assert(rows.push(row).drop_last() =~= rows);
    assert(results.push(result).drop_last() =~= results);
}

/// The values of two arguments that ask for nothing.
pub proof fn lemma_two_arguments(a: Expr, b: Expr, row: Json)
    requires
        eval(a, row, Seq::empty(), 0) is Done,
        eval(b, row, Seq::empty(), 0) is Done,
    ensures
        eval_list(seq![a, b], row, Seq::empty(), 0) == EvalList::Done(seq![value_on(a, row), value_on(b, row)], 0),
{
    let none = Seq::<Json>::empty();
    lemma_eval_settled(a, row, none, none, 0);
    lemma_eval_settled(b, row, none, none, 0);
    let both = seq![a, b];
    assert(both.drop_last() =~= seq![a]);
    assert(both.drop_last().drop_last() =~= Seq::empty());
    assert(eval_list(both.drop_last().drop_last(), row, none, 0) == EvalList::Done(Seq::empty(), 0));
    assert(eval_list(both.drop_last(), row, none, 0) == EvalList::Done(Seq::empty().push(value_on(a, row)), 0));
    assert(Seq::empty().push(value_on(a, row)).push(value_on(b, row)) =~= seq![value_on(a, row), value_on(b, row)]);
}

/// The condition `AND(a, b)`.
pub open spec fn both(a: Expr, b: Expr) -> Expr {
    Expr::Call("AND"@, seq![a, b])
}

/// The condition `OR(a, b)`.
pub open spec fn either(a: Expr, b: Expr) -> Expr {
    Expr::Call("OR"@, seq![a, b])
}

/// The condition `EQ(a, b)`.
pub open spec fn equal(a: Expr, b: Expr) -> Expr {
    Expr::Call("EQ"@, seq![a, b])
}

proof fn lemma_both_on(a: Expr, b: Expr, row: Json)
    requires
        eval(a, row, Seq::empty(), 0) is Done,
        eval(b, row, Seq::empty(), 0) is Done,
    ensures
        eval(both(a, b), row, Seq::empty(), 0) is Done,
        truthy(value_on(both(a, b), row)) == (truthy(value_on(a, row)) && truthy(value_on(b, row))),
{
    lemma_two_arguments(a, b, row);
    let args = seq![value_on(a, row), value_on(b, row)];
    lemma_and(args, Seq::empty(), 0);
    if truthy(args[0]) && truthy(args[1]) {
        assert(forall|k: int| 0 <= k < args.len() ==> truthy(#[trigger] args[k]));
    }
}

/// Filtering by `AND(a, b)` keeps the rows on which both `a` and `b` count as true, in their order.
pub proof fn lemma_filter_and(a: Expr, b: Expr, rows: Seq<Json>)
    requires
        settled(a, rows),
        settled(b, rows),
    ensures
        asks_nothing(Step::Filter(both(a, b)), rows),
        step_rows(Step::Filter(both(a, b)), rows, task_results(Step::Filter(both(a, b)), rows)) == Many::Rows(
            rows.filter(|row: Json| truthy(value_on(a, row)) && truthy(value_on(b, row))),
        ),
{
    let whole = both(a, b);
    assert forall|i: int| 0 <= i < rows.len() implies eval(whole, #[trigger] rows[i], Seq::empty(), 0) is Done && truthy(
        value_on(whole, rows[i]),
    ) == (truthy(value_on(a, rows[i])) && truthy(value_on(b, rows[i]))) by {
        lemma_both_on(a, b, rows[i]);
    }
    lemma_filter_step(whole, rows);
    lemma_filter_agrees(
        rows,
        |row: Json| truthy(value_on(whole, row)),
        |row: Json| truthy(value_on(a, row)) && truthy(value_on(b, row)),
    );
}

/// Filtering by `AND(a, b)` keeps the same rows as filtering by `a` and then by `b`.
pub proof fn lemma_filters_in_turn(a: Expr, b: Expr, rows: Seq<Json>, once: Seq<Json>)
    requires
        settled(a, rows),
        settled(b, rows),
        step_rows(Step::Filter(a), rows, task_results(Step::Filter(a), rows)) == Many::Rows(once),
    ensures
        settled(b, once),
        step_rows(Step::Filter(both(a, b)), rows, task_results(Step::Filter(both(a, b)), rows)) == step_rows(
            Step::Filter(b),
            once,
            task_results(Step::Filter(b), once),
        ),
{
    let (first, second) = (|row: Json| truthy(value_on(a, row)), |row: Json| truthy(value_on(b, row)));
    let each = |row: Json| truthy(value_on(a, row)) && truthy(value_on(b, row));
    lemma_filter_step(a, rows);
    assert(once == rows.filter(first));
    assert forall|i: int| 0 <= i < once.len() implies eval(b, #[trigger] once[i], Seq::empty(), 0) is Done by {
        assert(once.contains(once[i]));
        rows.lemma_filter_contains_rev(first, once[i]);
        let k = choose|k: int| 0 <= k < rows.len() && rows[k] == once[i];
        assert(eval(b, rows[k], Seq::empty(), 0) is Done);
    }
    lemma_filter_step(b, once);
    lemma_filter_and(a, b, rows);
    lemma_filter_both(rows, first, second, each);
}

proof fn lemma_filter_both<T>(items: Seq<T>, first: spec_fn(T) -> bool, second: spec_fn(T) -> bool, each: spec_fn(T) -> bool)
    requires
        forall|item: T| #[trigger] each(item) == (first(item) && second(item)),
    ensures
        items.filter(first).filter(second) == items.filter(each),
    decreases items.len(),
{
    reveal(Seq::filter);
    if items.len() > 0 {
        lemma_filter_both(items.drop_last(), first, second, each);
        let kept = items.drop_last().filter(first);
        assert(each(items.last()) == (first(items.last()) && second(items.last())));
        assert(kept.push(items.last()).drop_last() =~= kept);
    }
}

/// Two conditions that agree on the items keep the same items.
pub proof fn lemma_filter_agrees<T>(items: Seq<T>, one: spec_fn(T) -> bool, other: spec_fn(T) -> bool)
    requires
        forall|i: int| 0 <= i < items.len() ==> one(#[trigger] items[i]) == other(items[i]),
    ensures
        items.filter(one) == items.filter(other),
    decreases items.len(),
{
    reveal(Seq::filter);
    if items.len() > 0 {
        let rest = items.drop_last();
        assert forall|i: int| 0 <= i < rest.len() implies one(#[trigger] rest[i]) == other(rest[i]) by {
            assert(rest[i] == items[i]);
        }
        lemma_filter_agrees(rest, one, other);
        assert(items.last() == items[items.len() - 1]);
    }
}

/// Filtering by `OR(a, b)` keeps the rows on which `a` or `b` counts as true, in their order.
pub proof fn lemma_filter_or(a: Expr, b: Expr, rows: Seq<Json>)
    requires
        settled(a, rows),
        settled(b, rows),
    ensures
        asks_nothing(Step::Filter(either(a, b)), rows),
        step_rows(Step::Filter(either(a, b)), rows, task_results(Step::Filter(either(a, b)), rows)) == Many::Rows(
            rows.filter(|row: Json| truthy(value_on(a, row)) || truthy(value_on(b, row))),
        ),
{
    let whole = either(a, b);
    assert forall|i: int| 0 <= i < rows.len() implies eval(whole, #[trigger] rows[i], Seq::empty(), 0) is Done && truthy(
        value_on(whole, rows[i]),
    ) == (truthy(value_on(a, rows[i])) || truthy(value_on(b, rows[i]))) by {
        lemma_two_arguments(a, b, rows[i]);
        let args = seq![value_on(a, rows[i]), value_on(b, rows[i])];
        lemma_or(args, Seq::empty(), 0);
        if truthy(args[0]) || truthy(args[1]) {
            assert(exists|k: int| 0 <= k < args.len() && truthy(#[trigger] args[k]));
        }
    }
    lemma_filter_step(whole, rows);
    lemma_filter_agrees(
        rows,
        |row: Json| truthy(value_on(whole, row)),
        |row: Json| truthy(value_on(a, row)) || truthy(value_on(b, row)),
    );
}

/// Filtering by `EQ(a, b)` keeps the rows on which `a` and `b` come to equal values, in their order.
pub proof fn lemma_filter_eq(a: Expr, b: Expr, rows: Seq<Json>)
    requires
        settled(a, rows),
        settled(b, rows),
    ensures
        asks_nothing(Step::Filter(equal(a, b)), rows),
        step_rows(Step::Filter(equal(a, b)), rows, task_results(Step::Filter(equal(a, b)), rows)) == Many::Rows(
            rows.filter(|row: Json| same_json(value_on(a, row), value_on(b, row))),
        ),
{
    let whole = equal(a, b);
    assert forall|i: int| 0 <= i < rows.len() implies eval(whole, #[trigger] rows[i], Seq::empty(), 0) is Done && truthy(
        value_on(whole, rows[i]),
    ) == same_json(value_on(a, rows[i]), value_on(b, rows[i])) by {
        lemma_two_arguments(a, b, rows[i]);
        lemma_eq(value_on(a, rows[i]), value_on(b, rows[i]), Seq::empty(), 0);
    }
    lemma_filter_step(whole, rows);
    lemma_filter_agrees(
        rows,
        |row: Json| truthy(value_on(whole, row)),
        |row: Json| same_json(value_on(a, row), value_on(b, row)),
    );
}

} // verus!
