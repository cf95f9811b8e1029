//! Evaluation of expressions. What an expression needs from the outside it asks for, one question
//! at a time; evaluated again with the answers so far, it goes on from there.
use vstd::prelude::*;
use crate::call::{call, call_of, finish, finish_of, fn_info_for_call, function_of, Call, Called, Question, Request};
use crate::paths::{follow, follow_reference};
use crate::query::{entries_of, exprs, lemma_array_expr, lemma_call_expr, lemma_object_expr, CaluculatedValue, Expr};
use crate::value::{jsons, lemma_array_json, lemma_jsons_push, obj_insert, Json, Object, Value};

verus! {

broadcast use {
    lemma_array_json,
    lemma_jsons_push,
    lemma_array_expr,
    lemma_object_expr,
    lemma_call_expr,
};

/// What an evaluation comes to: a value with the number of answers used so far, or a question.
#[verifier::ext_equal]
pub enum Eval {
    Done(Json, nat),
    Ask(Question),
}

/// What the evaluation of a list comes to.
#[verifier::ext_equal]
pub enum EvalList {
    Done(Seq<Json>, nat),
    Ask(Question),
}

/// What the evaluation of the entries of an object comes to.
#[verifier::ext_equal]
pub enum EvalMembers {
    Done(Seq<(Seq<char>, Json)>, nat),
    Ask(Question),
}

/// The answer to a question where it has been given, else the question.
pub open spec fn answered(question: Question, answers: Seq<Json>, used: nat) -> Eval {
    if used < answers.len() {
        Eval::Done(answers[used as int], used + 1)
    } else {
        Eval::Ask(question)
    }
}

/// What a call comes to.
pub open spec fn eval_call(name: Seq<char>, args: Seq<Json>, answers: Seq<Json>, used: nat) -> Eval {
    match function_of(name, args.len() as int) {
        None => Eval::Done(Json::Null, used),
        Some(function) => match call_of(function, args) {
            Called::Done(value) => Eval::Done(value, used),
            Called::Ask(question) => match answered(question, answers, used) {
                Eval::Done(answer, now_used) => Eval::Done(finish_of(function, args, answer), now_used),
                Eval::Ask(question) => Eval::Ask(question),
            },
        },
    }
}

/// What an expression comes to on a row, with the answers given so far of which some are used.
pub open spec fn eval(expr: Expr, row: Json, answers: Seq<Json>, used: nat) -> Eval
    decreases expr,
{
    match expr {
        Expr::Reference(path) => Eval::Done(follow(row, path), used),
        Expr::Secret(name) => answered(Question::Secret(name), answers, used),
        Expr::Constant(value) => Eval::Done(value, used),
        Expr::Object(entries) => match eval_members(entries, row, answers, used) {
            EvalMembers::Done(members, now_used) => Eval::Done(Json::Object(members), now_used),
            EvalMembers::Ask(question) => Eval::Ask(question),
        },
        Expr::Array(items) => match eval_list(items, row, answers, used) {
            EvalList::Done(values, now_used) => Eval::Done(Json::Array(values), now_used),
            EvalList::Ask(question) => Eval::Ask(question),
        },
        Expr::Call(name, parameters) => match eval_list(parameters, row, answers, used) {
            EvalList::Done(args, now_used) => eval_call(name, args, answers, now_used),
            EvalList::Ask(question) => Eval::Ask(question),
        },
    }
}

/// What expressions come to, from first to last.
pub open spec fn eval_list(items: Seq<Expr>, row: Json, answers: Seq<Json>, used: nat) -> EvalList
    decreases items,
{
    if items.len() == 0 {
        EvalList::Done(Seq::empty(), used)
    } else {
        match eval_list(items.drop_last(), row, answers, used) {
            EvalList::Ask(question) => EvalList::Ask(question),
            EvalList::Done(values, now_used) => match eval(items.last(), row, answers, now_used) {
                Eval::Ask(question) => EvalList::Ask(question),
                Eval::Done(value, then_used) => EvalList::Done(values.push(value), then_used),
            },
        }
    }
}

/// What the entries of an object come to, from first to last; a later entry replaces an earlier
/// one with the same key.
pub open spec fn eval_members(entries: Seq<(Seq<char>, Expr)>, row: Json, answers: Seq<Json>, used: nat) -> EvalMembers
    decreases entries,
{
    if entries.len() == 0 {
        EvalMembers::Done(Seq::empty(), used)
    } else {
        match eval_members(entries.drop_last(), row, answers, used) {
            EvalMembers::Ask(question) => EvalMembers::Ask(question),
            EvalMembers::Done(members, now_used) => match eval(entries.last().1, row, answers, now_used) {
                Eval::Ask(question) => EvalMembers::Ask(question),
                Eval::Done(value, then_used) => EvalMembers::Done(
                    obj_insert(members, entries.last().0, value),
                    then_used,
                ),
            },
        }
    }
}

/// What an evaluation came to.
#[derive(Debug, PartialEq)]
pub enum Evaluated {
    Done(Value, usize),
    Ask(Request),
}

impl View for Evaluated {
    type V = Eval;

    open spec fn view(&self) -> Eval {
        match self {
            Evaluated::Done(value, used) => Eval::Done(value@, *used as nat),
            Evaluated::Ask(request) => Eval::Ask(request@),
        }
    }
}

fn answer(request: Request, answers: &Vec<Value>, used: usize) -> (result: Evaluated)
    requires
        used <= answers@.len(),
    ensures
        result@ == answered(request@, jsons(answers@), used as nat),
        result matches Evaluated::Done(_, now_used) ==> now_used <= answers@.len(),
{
    if used < answers.len() {
        assert(jsons(answers@)[used as int] == answers@[used as int]@);
        Evaluated::Done(answers[used].copy(), used + 1)
    } else {
        Evaluated::Ask(request)
    }
}

fn evaluate_call(name: &str, args: &Vec<Value>, answers: &Vec<Value>, used: usize) -> (result: Evaluated)
    requires
        used <= answers@.len(),
    ensures
        result@ == eval_call(name@, jsons(args@), jsons(answers@), used as nat),
        result matches Evaluated::Done(_, now_used) ==> now_used <= answers@.len(),
{
    assert(jsons(args@).len() == args@.len());
    match fn_info_for_call(name, args.len()) {
        None => Evaluated::Done(Value::Null, used),
        Some(function) => match call(function, args) {
            Call::Done(value) => Evaluated::Done(value, used),
            Call::Ask(request) => match answer(request, answers, used) {
                Evaluated::Done(reply, now_used) => Evaluated::Done(finish(function, args, &reply), now_used),
                Evaluated::Ask(request) => Evaluated::Ask(request),
            },
        },
    }
}

impl CaluculatedValue {
    /// Evaluates the expression on a row, with the answers given so far of which `used` are used.
    pub fn caluculate(&self, row: &Value, answers: &Vec<Value>, used: usize) -> (result: Evaluated)
        requires
            used <= answers@.len(),
        ensures
            result@ == eval(self@, row@, jsons(answers@), used as nat),
            result matches Evaluated::Done(_, now_used) ==> now_used <= answers@.len(),
        decreases self,
    {
        match self {
            CaluculatedValue::Reference(path) => Evaluated::Done(follow_reference(row, path), used),
            CaluculatedValue::Secret(name) => answer(Request::Secret(name.clone()), answers, used),
            CaluculatedValue::Static(value) => Evaluated::Done(value.copy(), used),
            CaluculatedValue::Object(entries) => evaluate_members(entries, row, answers, used),
            CaluculatedValue::Array(items) => match evaluate_list(items, row, answers, used) {
                Ok((values, now_used)) => Evaluated::Done(Value::Array(values), now_used),
                Err(request) => Evaluated::Ask(request),
            },
            CaluculatedValue::FunctionCall { function, parameters } => match evaluate_list(
                parameters,
                row,
                answers,
                used,
            ) {
                Ok((args, now_used)) => evaluate_call(function.as_str(), &args, answers, now_used),
                Err(request) => Evaluated::Ask(request),
            },
        }
    }
}

fn evaluate_list(items: &Vec<CaluculatedValue>, row: &Value, answers: &Vec<Value>, used: usize) -> (result: Result<(Vec<Value>, usize), Request>)
    requires
        used <= answers@.len(),
    ensures
        match result {
            Ok((values, now_used)) => eval_list(exprs(items@), row@, jsons(answers@), used as nat) == EvalList::Done(
                jsons(values@),
                now_used as nat,
            ) && now_used <= answers@.len(),
            Err(request) => eval_list(exprs(items@), row@, jsons(answers@), used as nat) == EvalList::Ask(request@),
        },
    decreases items,
{
    let ghost all = exprs(items@);
    let mut values: Vec<Value> = Vec::new();
    let mut now_used: usize = used;
    let mut i: usize = 0;
    assert(all.take(0) =~= Seq::empty());
    assert(jsons(values@) =~= Seq::empty());
    while i < items.len()
        invariant
            i <= items.len(),
            now_used <= answers@.len(),
            all == exprs(items@),
            eval_list(all.take(i as int), row@, jsons(answers@), used as nat) == EvalList::Done(
                jsons(values@),
                now_used as nat,
            ),
        decreases items.len() - i,
    {
        assert(all.take(i + 1).drop_last() =~= all.take(i as int));
        assert(all.take(i + 1).last() == items@[i as int]@);
        assert(decreases_to!(items => items@[i as int]));
        match items[i].caluculate(row, answers, now_used) {
            Evaluated::Done(value, then_used) => {
                values.push(value);
                now_used = then_used;
            },
            Evaluated::Ask(request) => {
                proof {
                    lemma_list_asks(all, i + 1, row@, jsons(answers@), used as nat);
                }
                return Err(request);
            },
        }
        i = i + 1;
    }
    assert(all.take(i as int) =~= all);
    Ok((values, now_used))
}

proof fn lemma_list_asks(items: Seq<Expr>, shorter: int, row: Json, answers: Seq<Json>, used: nat)
    requires
        0 <= shorter <= items.len(),
        eval_list(items.take(shorter), row, answers, used) is Ask,
    ensures
        eval_list(items, row, answers, used) == eval_list(items.take(shorter), row, answers, used),
    decreases items.len(),
{
    if shorter == items.len() {
        assert(items.take(shorter) =~= items);
    } else {
        assert(items.drop_last().take(shorter) =~= items.take(shorter));
        lemma_list_asks(items.drop_last(), shorter, row, answers, used);
    }
}

proof fn lemma_members_ask(entries: Seq<(Seq<char>, Expr)>, shorter: int, row: Json, answers: Seq<Json>, used: nat)
    requires
        0 <= shorter <= entries.len(),
        eval_members(entries.take(shorter), row, answers, used) is Ask,
    ensures
        eval_members(entries, row, answers, used) == eval_members(entries.take(shorter), row, answers, used),
    decreases entries.len(),
{
    if shorter == entries.len() {
        assert(entries.take(shorter) =~= entries);
    } else {
        assert(entries.drop_last().take(shorter) =~= entries.take(shorter));
        lemma_members_ask(entries.drop_last(), shorter, row, answers, used);
    }
}

fn evaluate_members(entries: &Vec<(String, CaluculatedValue)>, row: &Value, answers: &Vec<Value>, used: usize) -> (result: Evaluated)
    requires
        used <= answers@.len(),
    ensures
        match eval_members(entries_of(entries@), row@, jsons(answers@), used as nat) {
            EvalMembers::Done(members, now_used) => result@ == Eval::Done(Json::Object(members), now_used),
            EvalMembers::Ask(question) => result@ == Eval::Ask(question),
        },
        result matches Evaluated::Done(_, now_used) ==> now_used <= answers@.len(),
    decreases entries,
{
    let ghost all = entries_of(entries@);
    let mut output = Object::new();
    let mut now_used: usize = used;
    let mut i: usize = 0;
    assert(all.take(0) =~= Seq::empty());
    while i < entries.len()
        invariant
            i <= entries.len(),
            now_used <= answers@.len(),
            all == entries_of(entries@),
            eval_members(all.take(i as int), row@, jsons(answers@), used as nat) == EvalMembers::Done(
                output@,
                now_used as nat,
            ),
        decreases entries.len() - i,
    {
        assert(all.take(i + 1).drop_last() =~= all.take(i as int));
        assert(all.take(i + 1).last() == (entries@[i as int].0@, entries@[i as int].1@));
        assert(decreases_to!(entries => entries@[i as int].1));
        match entries[i].1.caluculate(row, answers, now_used) {
            Evaluated::Done(value, then_used) => {
                output.insert(entries[i].0.clone(), value);
                now_used = then_used;
            },
            Evaluated::Ask(request) => {
                proof {
                    lemma_members_ask(all, i + 1, row@, jsons(answers@), used as nat);
                }
                return Evaluated::Ask(request);
            },
        }
        i = i + 1;
    }
    assert(all.take(i as int) =~= all);
    Evaluated::Done(Value::Object(output), now_used)
}

/// A finished evaluation has used no more answers than were given, and more answers do not change
/// it.
pub proof fn lemma_eval_settled(expr: Expr, row: Json, answers: Seq<Json>, more: Seq<Json>, used: nat)
    requires
        used <= answers.len(),
        eval(expr, row, answers, used) is Done,
    ensures
        used <= eval(expr, row, answers, used)->Done_1 <= answers.len(),
        eval(expr, row, answers + more, used) == eval(expr, row, answers, used),
    decreases expr,
{
    match expr {
        Expr::Object(entries) => lemma_members_settled(entries, row, answers, more, used),
        Expr::Array(items) => lemma_list_settled(items, row, answers, more, used),
        Expr::Call(name, parameters) => {
            lemma_list_settled(parameters, row, answers, more, used);
        },
        _ => {},
    }
}

proof fn lemma_list_settled(items: Seq<Expr>, row: Json, answers: Seq<Json>, more: Seq<Json>, used: nat)
    requires
        used <= answers.len(),
        eval_list(items, row, answers, used) is Done,
    ensures
        used <= eval_list(items, row, answers, used)->Done_1 <= answers.len(),
        eval_list(items, row, answers + more, used) == eval_list(items, row, answers, used),
    decreases items,
{
    if items.len() > 0 {
        lemma_list_settled(items.drop_last(), row, answers, more, used);
        let now_used = eval_list(items.drop_last(), row, answers, used)->Done_1;
        lemma_eval_settled(items.last(), row, answers, more, now_used);
    }
}

proof fn lemma_members_settled(entries: Seq<(Seq<char>, Expr)>, row: Json, answers: Seq<Json>, more: Seq<Json>, used: nat)
    requires
        used <= answers.len(),
        eval_members(entries, row, answers, used) is Done,
    ensures
        used <= eval_members(entries, row, answers, used)->Done_1 <= answers.len(),
        eval_members(entries, row, answers + more, used) == eval_members(entries, row, answers, used),
    decreases entries,
{
    if entries.len() > 0 {
        lemma_members_settled(entries.drop_last(), row, answers, more, used);
        let now_used = eval_members(entries.drop_last(), row, answers, used)->Done_1;
        lemma_eval_settled(entries.last().1, row, answers, more, now_used);
    }
}

} // verus!
