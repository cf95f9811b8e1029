//! Laws of the functions on numbers, called by name.
use vstd::prelude::*;
use crate::call::{Kernel, Question};
use crate::eval::{eval_call, Eval};
use crate::functions::numbers::{bits_of_value, smallest};
use crate::json::flattened;
use crate::laws::lists::integer;
use crate::laws::names::{lemma_ceil_name, lemma_floor_name, lemma_l2_name, lemma_entropy_name, lemma_min_name, lemma_random_name, lemma_randomstring_name, lemma_softmax_name, lemma_subtract_name, lemma_sum_name, lemma_today_name, lemma_tonumber_name};
use crate::number::{ceil_of, compact_num, exponent_field, floor_of, fractional, lemma_whole_number_is_exact, lemma_whole_part_is_below, num_bits, num_key, order_key, whole_bits, whole_part};
use crate::text::{integer_text, trimmed};
use crate::value::{double_of_text, double_text, finite_bits, Json, Num};

verus! {

/// A double.
pub open spec fn double(bits: u64) -> Json {
    Json::Number(Num::Float(bits))
}

proof fn lemma_sign_aside(bits: u64)
    requires
        bits < 0x8000_0000_0000_0000,
    ensures
        whole_part((bits + 0x8000_0000_0000_0000) as u64) == whole_part(bits),
        fractional((bits + 0x8000_0000_0000_0000) as u64) == fractional(bits),
{
    let negative = (bits + 0x8000_0000_0000_0000) as u64;
    assert(negative as nat % 0x8000_0000_0000_0000 == bits as nat);
    assert(negative as nat % 0x10_0000_0000_0000 == bits as nat % 0x10_0000_0000_0000);
    assert(bits as nat % 0x8000_0000_0000_0000 == bits as nat);
    assert(negative % 0x8000_0000_0000_0000 == bits % 0x8000_0000_0000_0000);
}

proof fn lemma_integer_is_exact(n: i64)
    requires
        -0x20_0000_0000_0000 < n < 0x20_0000_0000_0000,
    ensures
        ({
            let bits = num_bits(integer(n as int)->Number_0) as u64;
            floor_of(bits) == n && ceil_of(bits) == n && !fractional(bits)
        }),
{
    if n >= 0 {
        lemma_whole_number_is_exact(n as nat);
    } else {
        let magnitude = (-n) as nat;
        lemma_whole_number_is_exact(magnitude);
        lemma_sign_aside(whole_bits(magnitude) as u64);
    }
}

/// `FLOOR` and `CEIL` leave integers as they are.
pub proof fn lemma_rounded_integer(n: i64, answers: Seq<Json>, used: nat)
    requires
        -0x20_0000_0000_0000 < n < 0x20_0000_0000_0000,
    ensures
        eval_call("FLOOR"@, seq![integer(n as int)], answers, used) == Eval::Done(integer(n as int), used),
        eval_call("CEIL"@, seq![integer(n as int)], answers, used) == Eval::Done(integer(n as int), used),
{
    lemma_floor_name(1);
    lemma_ceil_name(1);
    lemma_integer_is_exact(n);
    let args = seq![integer(n as int)];
    assert(args[0] == integer(n as int) && args.len() == 1);
}

/// `FLOOR` of a double from zero up to 2^53 is the integer that it lies at or above, below the next
/// one. `CEIL` is the same integer where the double equals it, and else the next one. Under a minus
/// sign the two change places. What is no number is null.
pub proof fn lemma_rounded_double(bits: u64, other: Json, answers: Seq<Json>, used: nat)
    requires
        bits < 0x8000_0000_0000_0000,
        exponent_field(bits) < 1075,
        !(other is Number),
    ensures
        exists|n: nat|
            {
                &&& #[trigger] whole_bits(n) <= bits < whole_bits(n + 1)
                &&& eval_call("FLOOR"@, seq![double(bits)], answers, used) == Eval::Done(integer(n as int), used)
                &&& eval_call("CEIL"@, seq![double(bits)], answers, used) == Eval::Done(
                    integer(if whole_bits(n) == bits { n as int } else { n as int + 1 }),
                    used,
                )
                &&& eval_call("FLOOR"@, seq![double((bits + 0x8000_0000_0000_0000) as u64)], answers, used) == Eval::Done(
                    integer(if whole_bits(n) == bits { -n } else { -n - 1 }),
                    used,
                )
                &&& eval_call("CEIL"@, seq![double((bits + 0x8000_0000_0000_0000) as u64)], answers, used) == Eval::Done(
                    integer(-n),
                    used,
                )
            },
        eval_call("FLOOR"@, seq![other], answers, used) == Eval::Done(Json::Null, used),
        eval_call("CEIL"@, seq![other], answers, used) == Eval::Done(Json::Null, used),
{
    lemma_floor_name(1);
    lemma_ceil_name(1);
    lemma_whole_part_is_below(bits);
    lemma_sign_aside(bits);
    let negative = (bits + 0x8000_0000_0000_0000) as u64;
    let n = whole_part(bits);
    lemma_whole_part_small(bits);
    assert(seq![double(bits)][0] == double(bits));
    assert(seq![double(negative)][0] == double(negative));
    assert(whole_bits(n) <= bits < whole_bits(n + 1));
}

proof fn lemma_whole_part_small(bits: u64)
    requires
        exponent_field(bits) < 1075,
    ensures
        whole_part(bits) < 0x20_0000_0000_0000,
{
    let e = exponent_field(bits);
    if e >= 1023 {
        let c = vstd::arithmetic::power2::pow2((1075 - e) as nat) as int;
        vstd::arithmetic::power2::lemma_pow2_pos((1075 - e) as nat);
        let s = crate::number::significand(bits) as int;
        assert(s / c <= s) by (nonlinear_arith)
            requires
                c >= 1,
                s >= 0,
        ;
    }
}

/// The text that an item adds to a sum: that of a number, the text itself where it is read as a
/// number, and zero for anything else.
pub open spec fn summand(item: Json) -> Seq<char> {
    match item {
        Json::Number(Num::PosInt(n)) => integer_text(n as int),
        Json::Number(Num::NegInt(n)) => integer_text(n as int),
        Json::Number(Num::Float(bits)) => double_text(bits),
        Json::Text(text) => if double_of_text(text) is Some {
            text
        } else {
            "0"@
        },
        _ => "0"@,
    }
}

/// `SUM` asks for the sum of all items of its arguments, each as often as it occurs and in order, and
/// comes to the answer: an integer where that has no fractional part, and else the double.
pub proof fn lemma_sum(args: Seq<Json>, answers: Seq<Json>, used: nat)
    ensures
        ({
            let items = flattened(args);
            let result = eval_call("SUM"@, args, answers, used);
            if used >= answers.len() {
                &&& result matches Eval::Ask(Question::Kernel(Kernel::Sum, Json::Array(summands)))
                &&& summands.len() == items.len()
                &&& forall|i: int| 0 <= i < items.len() ==> #[trigger] summands[i] == Json::Text(summand(items[i]))
            } else {
                &&& result matches Eval::Done(sum, now_used)
                &&& now_used == used + 1
                &&& match answers[used as int] {
                    Json::Number(Num::Float(bits)) => if fractional(bits) {
                        sum == double(bits)
                    } else {
                        -0x8000_0000_0000_0000 <= floor_of(bits) < 0x8000_0000_0000_0000 ==> sum == integer(floor_of(bits))
                    },
                    Json::Number(Num::PosInt(n)) => n < 0x20_0000_0000_0000 ==> sum == integer(n as int),
                    Json::Number(Num::NegInt(n)) => -0x20_0000_0000_0000 < n < 0 ==> sum == integer(n as int),
                    _ => sum is Null,
                }
            }
        }),
{
    lemma_sum_name(args.len() as int);
    let items = flattened(args);
    if used < answers.len() {
        match answers[used as int] {
            Json::Number(Num::PosInt(n)) => {
                if n < 0x20_0000_0000_0000 {
                    lemma_integer_is_exact(n as i64);
                }
            },
            Json::Number(Num::NegInt(n)) => {
                if -0x20_0000_0000_0000 < n < 0 {
                    lemma_integer_is_exact(n);
                }
            },
            _ => {},
        }
    } else {
        assert forall|i: int| 0 <= i < items.len() implies crate::functions::numbers::addend_of(#[trigger] items[i]) == summand(
            items[i],
        ) by {}
    }
}

proof fn lemma_smallest(items: Seq<Json>)
    ensures
        match smallest(items) {
            None => forall|j: int| 0 <= j < items.len() ==> bits_of_value(#[trigger] items[j]) is None,
            Some(bits) => {
                &&& exists|i: int| 0 <= i < items.len() && bits_of_value(#[trigger] items[i]) == Some(bits)
                &&& forall|j: int|
                    0 <= j < items.len() && bits_of_value(#[trigger] items[j]) is Some ==> order_key(bits as u64) <= order_key(
                        bits_of_value(items[j])->0 as u64,
                    )
            },
        },
    decreases items.len(),
{
    if items.len() > 0 {
        let rest = items.drop_last();
        let last = items.len() - 1;
        lemma_smallest(rest);
        assert forall|j: int| 0 <= j < rest.len() implies #[trigger] rest[j] == items[j] by {}
        match smallest(rest) {
            Some(best) => {
                let i = choose|i: int| 0 <= i < rest.len() && bits_of_value(#[trigger] rest[i]) == Some(best);
                assert(bits_of_value(items[i]) == Some(best));
                assert forall|j: int| 0 <= j < rest.len() && bits_of_value(#[trigger] items[j]) is Some implies order_key(
                    best as u64,
                ) <= order_key(bits_of_value(items[j])->0 as u64) by {
                    assert(bits_of_value(rest[j]) is Some);
                }
                assert(smallest(items) is Some);
                let bits = smallest(items)->0;
                assert(bits == best || bits_of_value(items[last]) == Some(bits));
            },
            None => {
                assert forall|j: int| 0 <= j < rest.len() implies bits_of_value(#[trigger] items[j]) is None by {
                    assert(bits_of_value(rest[j]) is None);
                }
                if bits_of_value(items[last]) is Some {
                    assert(smallest(items) == bits_of_value(items[last]));
                }
            },
        }
    }
}

/// `MIN` is the number that some item of the arguments stands for and that is not above any other; it
/// is null where no item stands for a number. An integral one is given as an integer.
pub proof fn lemma_min(args: Seq<Json>, answers: Seq<Json>, used: nat)
    ensures
        ({
            let items = flattened(args);
            let result = eval_call("MIN"@, args, answers, used);
            if exists|i: int| 0 <= i < items.len() && bits_of_value(#[trigger] items[i]) is Some {
                exists|i: int|
                    {
                        &&& 0 <= i < items.len()
                        &&& bits_of_value(#[trigger] items[i]) is Some
                        &&& forall|j: int|
                            0 <= j < items.len() && bits_of_value(#[trigger] items[j]) is Some ==> order_key(
                                bits_of_value(items[i])->0 as u64,
                            ) <= order_key(bits_of_value(items[j])->0 as u64)
                        &&& result == Eval::Done(Json::Number(compact_num(bits_of_value(items[i])->0 as u64)), used)
                    }
            } else {
                result == Eval::Done(Json::Null, used)
            }
        }),
{
    lemma_min_name(args.len() as int);
    let items = flattened(args);
    lemma_smallest(items);
    match smallest(items) {
        Some(bits) => {
            let i = choose|i: int| 0 <= i < items.len() && bits_of_value(#[trigger] items[i]) == Some(bits);
            assert(bits_of_value(items[i]) is Some);
        },
        None => {},
    }
}

/// Numbers are compared by their place in the order of numbers, and an integer is given back as it
/// is.
pub proof fn lemma_bits_of_numbers(number: Num, n: i64)
    requires
        number matches Num::NegInt(m) ==> m < 0,
        -0x20_0000_0000_0000 < n < 0x20_0000_0000_0000,
    ensures
        bits_of_value(Json::Number(number)) == Some(num_bits(number)),
        order_key(num_bits(number) as u64) == num_key(number),
        Json::Number(compact_num(num_bits(integer(n as int)->Number_0) as u64)) == integer(n as int),
        forall|bits: u64| fractional(bits) ==> #[trigger] compact_num(bits) == Num::Float(bits),
{
    lemma_integer_is_exact(n);
    lemma_whole_bits_range(number);
}

proof fn lemma_whole_bits_range(number: Num)
    ensures
        match number {
            Num::PosInt(n) => 0 <= whole_bits(n as nat) < 0x8000_0000_0000_0000,
            Num::NegInt(n) => n < 0 ==> 0 < whole_bits((-n) as nat) < 0x8000_0000_0000_0000,
            _ => true,
        },
{
    match number {
        Num::PosInt(n) => crate::number::lemma_whole_bits_bound(n as nat),
        Num::NegInt(n) => {
            if n < 0 {
                crate::number::lemma_whole_bits_bound((-n) as nat);
            }
        },
        _ => {},
    }
}

/// `TONUMBER` of a number is the double of that value; of a text it is the finite double that the text
/// is read as, where white space at the ends does not count, and a comma is a decimal point where
/// the text has no point. All else is null.
pub proof fn lemma_to_number(value: Json, answers: Seq<Json>, used: nat)
    ensures
        ({
            let result = eval_call("TONUMBER"@, seq![value], answers, used);
            &&& bits_of_value(value) is Some ==> result == Eval::Done(double(bits_of_value(value)->0 as u64), used)
            &&& bits_of_value(value) is None ==> result == Eval::Done(Json::Null, used)
            &&& match value {
                Json::Number(number) => result == Eval::Done(double(num_bits(number) as u64), used),
                Json::Text(text) => {
                    let inner = trimmed(text);
                    let read = if inner.contains(',') && !inner.contains('.') {
                        Seq::new(inner.len(), |i: int| if inner[i] == ',' { '.' } else { inner[i] })
                    } else {
                        inner
                    };
                    if inner.len() > 0 && double_of_text(read) is Some && finite_bits(double_of_text(read)->0) {
                        result == Eval::Done(double(double_of_text(read)->0), used)
                    } else {
                        result == Eval::Done(Json::Null, used)
                    }
                },
                _ => result == Eval::Done(Json::Null, used),
            }
        }),
{
    lemma_tonumber_name(1);
    let args = seq![value];
    assert(args[0] == value && args.len() == 1);
}

/// White space at the ends of a text is trimmed, and nothing else.
pub proof fn lemma_trimmed(text: Seq<char>, space: char)
    requires
        crate::text::is_space(space),
    ensures
        trimmed(seq![space] + text) == trimmed(text),
        trimmed(text.push(space)) == trimmed(text),
        text.len() > 0 && !crate::text::is_space(text[0]) && !crate::text::is_space(text.last()) ==> trimmed(text) == text,
{
    let front = seq![space] + text;
    assert(front.drop_first() =~= text);
    lemma_trim_behind(text, space);
}

proof fn lemma_trim_behind(text: Seq<char>, space: char)
    requires
        crate::text::is_space(space),
    ensures
        trimmed(text.push(space)) == trimmed(text),
    decreases text.len(),
{
    let longer = text.push(space);
    if text.len() == 0 {
        assert(longer.drop_first() =~= Seq::empty());
        assert(text =~= Seq::empty());
    } else if crate::text::is_space(text[0]) {
        assert(longer.drop_first() =~= text.drop_first().push(space));
        lemma_trim_behind(text.drop_first(), space);
    } else {
        assert(longer.drop_last() =~= text);
    }
}

/// Whether a value is a list of numbers.
pub open spec fn is_numbers(value: Json) -> bool {
    value matches Json::Array(items) && forall|i: int| 0 <= i < items.len() ==> (#[trigger] items[i]) is Number
}

/// What a call that asks for a computation comes to: the answer where it has been given, else the
/// question; null where there is nothing to compute.
pub open spec fn asked(kernel: Kernel, input: Json, fits: bool, answers: Seq<Json>, used: nat) -> Eval {
    if !fits {
        Eval::Done(Json::Null, used)
    } else if used < answers.len() {
        Eval::Done(answers[used as int], used + 1)
    } else {
        Eval::Ask(Question::Kernel(kernel, input))
    }
}

/// `SOFTMAX`, `ENTROPY` and `L2` ask for a computation on a list of numbers and come to its answer;
/// of anything else they are null. `SUBTRACT` asks for the difference of its two arguments in order.
pub proof fn lemma_vector_functions(value: Json, first: Json, second: Json, answers: Seq<Json>, used: nat)
    ensures
        eval_call("SOFTMAX"@, seq![value], answers, used) == asked(Kernel::Softmax, value, is_numbers(value), answers, used),
        eval_call("ENTROPY"@, seq![value], answers, used) == asked(Kernel::Entropy, value, is_numbers(value), answers, used),
        eval_call("L2"@, seq![value], answers, used) == asked(Kernel::L2, value, is_numbers(value), answers, used),
        eval_call("SUBTRACT"@, seq![first, second], answers, used) == asked(
            Kernel::Subtract,
            Json::Array(seq![first, second]),
            first is Number && second is Number,
            answers,
            used,
        ),
{
    lemma_softmax_name(1);
    lemma_entropy_name(1);
    lemma_l2_name(1);
    lemma_subtract_name(2);
    let pair = seq![first, second];
    assert(pair[0] == first && pair[1] == second && pair.len() == 2);
    let args = seq![value];
    assert(args[0] == value && args.len() == 1);
}

/// `TODAY`, `RANDOM` and `RANDOMSTRING` ask the outside and come to its answer; the length of a random
/// text is a whole number.
pub proof fn lemma_outside_functions(length: usize, other: Json, answers: Seq<Json>, used: nat)
    requires
        !(other matches Json::Number(Num::PosInt(_))),
    ensures
        eval_call("TODAY"@, Seq::empty(), answers, used) == asked(Kernel::Today, Json::Null, true, answers, used),
        eval_call("RANDOM"@, Seq::empty(), answers, used) == asked(Kernel::Random, Json::Null, true, answers, used),
        eval_call("RANDOMSTRING"@, seq![integer(length as int)], answers, used) == asked(
            Kernel::RandomString,
            integer(length as int),
            true,
            answers,
            used,
        ),
        eval_call("RANDOMSTRING"@, seq![other], answers, used) == Eval::Done(Json::Null, used),
{
    lemma_today_name(0);
    lemma_random_name(0);
    lemma_randomstring_name(1);
    assert(seq![other][0] == other);
    assert(seq![integer(length as int)][0] == integer(length as int));
}

/// `FLOOR` and `CEIL` of a double from 2^52 on are the whole number that it is, as far as an integer of
/// 64 bits goes, and under a minus sign its negative.
pub proof fn lemma_rounded_large_double(bits: u64, answers: Seq<Json>, used: nat)
    requires
        bits < 0x8000_0000_0000_0000,
        exponent_field(bits) >= 1075,
        whole_part(bits) < 0x8000_0000_0000_0000,
    ensures
        exists|n: nat|
            {
                &&& #[trigger] whole_bits(n) == bits
                &&& eval_call("FLOOR"@, seq![double(bits)], answers, used) == Eval::Done(integer(n as int), used)
                &&& eval_call("CEIL"@, seq![double(bits)], answers, used) == Eval::Done(integer(n as int), used)
                &&& eval_call("FLOOR"@, seq![double((bits + 0x8000_0000_0000_0000) as u64)], answers, used) == Eval::Done(
                    integer(-n),
                    used,
                )
                &&& eval_call("CEIL"@, seq![double((bits + 0x8000_0000_0000_0000) as u64)], answers, used) == Eval::Done(
                    integer(-n),
                    used,
                )
            },
{
    lemma_floor_name(1);
    lemma_ceil_name(1);
    crate::number::lemma_large_double_is_whole(bits);
    lemma_sign_aside(bits);
    let negative = (bits + 0x8000_0000_0000_0000) as u64;
    assert(seq![double(bits)][0] == double(bits));
    assert(seq![double(negative)][0] == double(negative));
    assert(whole_bits(whole_part(bits)) == bits);
}

} // verus!
