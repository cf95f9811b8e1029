//! What calls give for arguments that they are not made for: null, and never a made-up value.
use vstd::prelude::*;
use crate::eval::{eval_call, Eval};
use crate::laws::names::{lemma_adddate_name, lemma_at_name, lemma_color_name, lemma_crossjoin_name, lemma_getdate_name, lemma_indexof_name, lemma_isodate_name, lemma_joinrows_name, lemma_joinrowsindex_name, lemma_nn2_name, lemma_nn_name, lemma_open_name, lemma_optics_name, lemma_post_name, lemma_put_name, lemma_range_name, lemma_split_name, lemma_tsne_name, lemma_ziprows_name};
use crate::value::{Json, Num};

verus! {

/// Whether a value is an integer of 64 bits with a sign.
pub open spec fn is_integer(value: Json) -> bool {
    match value {
        Json::Number(Num::PosInt(n)) => n <= i64::MAX,
        Json::Number(Num::NegInt(_)) => true,
        _ => false,
    }
}

/// Whether a value is a whole number that is not negative and has the size of a length.
pub open spec fn is_size(value: Json) -> bool {
    match value {
        Json::Number(Num::PosInt(n)) => n <= usize::MAX,
        _ => false,
    }
}

proof fn lemma_pair(first: Json, second: Json)
    ensures
        seq![first, second][0] == first,
        seq![first, second][1] == second,
        seq![first, second].len() == 2,
{
}

/// `AT` and `INDEXOF` look into lists only, `AT` at an integer or between bounds, and `RANGE` counts
/// between integers only.
pub proof fn lemma_list_refusals(first: Json, second: Json, answers: Seq<Json>, used: nat)
    ensures
        !(first is Array) ==> eval_call("AT"@, seq![first, second], answers, used) == Eval::Done(Json::Null, used),
        !(second is Array) && !is_integer(second) ==> eval_call("AT"@, seq![first, second], answers, used) == Eval::Done(
            Json::Null,
            used,
        ),
        (second is Array && second->Array_0.len() != 1 && second->Array_0.len() != 2) ==> eval_call(
            "AT"@,
            seq![first, second],
            answers,
            used,
        ) == Eval::Done(Json::Null, used),
        (second is Array && second->Array_0.len() > 0 && !is_integer(second->Array_0[0])) ==> eval_call(
            "AT"@,
            seq![first, second],
            answers,
            used,
        ) == Eval::Done(Json::Null, used),
        !(first is Array) ==> eval_call("INDEXOF"@, seq![first, second], answers, used) == Eval::Done(Json::Null, used),
        !is_integer(first) || !is_integer(second) ==> eval_call("RANGE"@, seq![first, second], answers, used) == Eval::Done(
            Json::Null,
            used,
        ),
{
    lemma_at_name(2);
    lemma_indexof_name(2);
    lemma_range_name(2);
    lemma_pair(first, second);
}

/// `SPLIT`, `ISODATE`, `GETDATE` and `ADDDATE` take texts, `SPLIT` a size and `ADDDATE` an integer.
pub proof fn lemma_text_refusals(first: Json, second: Json, answers: Seq<Json>, used: nat)
    ensures
        !(first is Text) || !is_size(second) ==> eval_call("SPLIT"@, seq![first, second], answers, used) == Eval::Done(
            Json::Null,
            used,
        ),
        !(first is Text) || !is_integer(second) ==> eval_call("ADDDATE"@, seq![first, second], answers, used) == Eval::Done(
            Json::Null,
            used,
        ),
        !(first is Text) ==> eval_call("ISODATE"@, seq![first], answers, used) == Eval::Done(Json::Null, used),
        !(first is Text) ==> eval_call("GETDATE"@, seq![first], answers, used) == Eval::Done(Json::Null, used),
{
    lemma_split_name(2);
    lemma_adddate_name(2);
    lemma_isodate_name(1);
    lemma_getdate_name(1);
    lemma_pair(first, second);
    assert(seq![first][0] == first && seq![first].len() == 1);
}

/// Joins take the name of a field, and the functions that combine rows take objects and lists.
pub proof fn lemma_row_refusals(first: Json, second: Json, answers: Seq<Json>, used: nat)
    ensures
        !(second is Text) ==> eval_call("JOINROWS"@, seq![first, second], answers, used) == Eval::Done(Json::Null, used),
        !(second is Text) ==> eval_call("JOINROWSINDEX"@, seq![first, second], answers, used) == Eval::Done(Json::Null, used),
        !(first is Object) ==> eval_call("ZIPROWS"@, seq![first], answers, used) == Eval::Done(Json::Null, used),
        !(first is Object) ==> eval_call("CROSSJOIN"@, seq![first], answers, used) == Eval::Done(Json::Null, used),
{
    lemma_joinrows_name(2);
    lemma_joinrowsindex_name(2);
    lemma_ziprows_name(1);
    lemma_crossjoin_name(1);
    lemma_pair(first, second);
    assert(seq![first][0] == first && seq![first].len() == 1);
}

/// What is neither a text nor an object names no source.
pub proof fn lemma_source_refusals(value: Json, answers: Seq<Json>, used: nat)
    requires
        !(value is Text),
        !(value is Object),
    ensures
        eval_call("OPEN"@, seq![value], answers, used) == Eval::Done(Json::Null, used),
        eval_call("POST"@, seq![value], answers, used) == Eval::Done(Json::Null, used),
        eval_call("PUT"@, seq![value], answers, used) == Eval::Done(Json::Null, used),
{
    lemma_open_name(1);
    lemma_post_name(1);
    lemma_put_name(1);
    assert(seq![value][0] == value && seq![value].len() == 1);
}

/// Searches take the number of neighbours as a size, a colour is that of a size, and analyses take
/// their settings as an object.
pub proof fn lemma_analysis_refusals(first: Json, second: Json, third: Json, answers: Seq<Json>, used: nat)
    ensures
        !is_size(third) ==> eval_call("NN"@, seq![first, second, third], answers, used) == Eval::Done(Json::Null, used),
        !is_size(third) ==> eval_call("NN2"@, seq![first, second, third], answers, used) == Eval::Done(Json::Null, used),
        !is_size(first) ==> eval_call("COLOR"@, seq![first], answers, used) == Eval::Done(Json::Null, used),
        !(second is Object) ==> eval_call("TSNE"@, seq![first, second], answers, used) == Eval::Done(Json::Null, used),
        !(second is Object) ==> eval_call("OPTICS"@, seq![first, second], answers, used) == Eval::Done(Json::Null, used),
{
    lemma_nn_name(3);
    lemma_nn2_name(3);
    lemma_color_name(1);
    lemma_tsne_name(2);
    lemma_optics_name(2);
    lemma_pair(first, second);
    let three = seq![first, second, third];
    assert(three[2] == third && three.len() == 3);
    assert(seq![first][0] == first && seq![first].len() == 1);
}

} // verus!
