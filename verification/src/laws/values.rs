//! Laws of values: their members, their truth, their equality and the items of lists.
use vstd::prelude::*;
use crate::json::{display, flattened, same_items, same_json, same_members, text_of_json, truthy};
use crate::number::{num_key, order_key};
use crate::descriptor::keys_of;
use crate::text::{all_digits, ascii_lower, ascii_lower_text, decimal, digits_value, is_space, lemma_decimal, lemma_text_lt_total, text_lt};
use crate::value::{double_text, keys_ascending, lemma_obj_get_at, lemma_obj_get_rank, lemma_remove_ascending, lemma_rank_bound, obj_get, obj_rank, obj_remove, Json, Num};

verus! {

/// An object has a member with a key and a value exactly where the value is found under the key.
pub proof fn lemma_found_is_member(members: Seq<(Seq<char>, Json)>, key: Seq<char>, value: Json)
    requires
        keys_ascending(members),
    ensures
        obj_get(members, key) == Some(value) <==> members.contains((key, value)),
        obj_get(members, key) is None <==> forall|i: int| 0 <= i < members.len() ==> (#[trigger] members[i]).0 != key,
{
    lemma_obj_get_rank(members, key);
    lemma_rank_bound(members, key);
    assert forall|i: int| 0 <= i < members.len() && (#[trigger] members[i]).0 == key implies obj_get(members, key) == Some(
        members[i].1,
    ) by {
        lemma_obj_get_at(members, i);
    }
    if obj_get(members, key) == Some(value) {
        assert(members[obj_rank(members, key) as int] == (key, value));
    }
    if members.contains((key, value)) {
        let i = choose|i: int| 0 <= i < members.len() && members[i] == (key, value);
        assert(members[i].0 == key);
    }
}

/// A removed member is gone, and the others are as before.
pub proof fn lemma_get_after_remove(members: Seq<(Seq<char>, Json)>, key: Seq<char>, other: Seq<char>)
    requires
        keys_ascending(members),
    ensures
        obj_get(obj_remove(members, key), key) is None,
        other != key ==> obj_get(obj_remove(members, key), other) == obj_get(members, other),
{
    let rest = obj_remove(members, key);
    let rank = obj_rank(members, key) as int;
    lemma_rank_bound(members, key);
    lemma_remove_ascending(members, key);
    lemma_obj_get_rank(members, key);
    lemma_text_lt_total(key, key);
    assert forall|i: int| 0 <= i < rest.len() implies (#[trigger] rest[i]).0 != key by {
        if rank < members.len() && members[rank].0 == key {
            if i < rank {
                assert(crate::text::text_lt(members[i].0, members[rank].0));
            } else {
                assert(rest[i] == members[i + 1]);
                assert(crate::text::text_lt(members[rank].0, members[i + 1].0));
            }
        } else if members[i].0 == key {
            lemma_obj_get_at(members, i);
        }
    }
    lemma_found_is_member(rest, key, Json::Null);
    if other != key {
        lemma_found_is_member(rest, other, Json::Null);
        match obj_get(members, other) {
            Some(value) => {
                lemma_found_is_member(members, other, value);
                lemma_found_is_member(rest, other, value);
                let i = choose|i: int| 0 <= i < members.len() && members[i] == (other, value);
                if rank < members.len() && members[rank].0 == key {
                    if i < rank {
                        assert(rest[i] == (other, value));
                    } else {
                        assert(rest[i - 1] == (other, value));
                    }
                }
            },
            None => {
                lemma_found_is_member(members, other, Json::Null);
                assert forall|i: int| 0 <= i < rest.len() implies (#[trigger] rest[i]).0 != other by {
                    if rank < members.len() && members[rank].0 == key && i >= rank {
                        assert(rest[i] == members[i + 1]);
                    } else {
                        assert(rest[i] == members[i]);
                    }
                }
            },
        }
    }
}

/// What counts as false is null, false, zero, and the empty text, list and object; all else counts
/// as true.
pub proof fn lemma_falsy(value: Json)
    ensures
        !truthy(value) <==> {
            ||| value == Json::Null
            ||| value == Json::Bool(false)
            ||| value == Json::Number(Num::PosInt(0))
            ||| value == Json::Number(Num::NegInt(0))
            ||| value == Json::Number(Num::Float(0))
            ||| value == Json::Number(Num::Float(0x8000_0000_0000_0000))
            ||| value == Json::Text(Seq::empty())
            ||| value == Json::Array(Seq::empty())
            ||| value == Json::Object(Seq::empty())
        },
{
    match value {
        Json::Text(text) => {
            assert(text.len() == 0 ==> text =~= Seq::empty());
        },
        Json::Array(items) => {
            assert(items.len() == 0 ==> items =~= Seq::empty());
        },
        Json::Object(members) => {
            assert(members.len() == 0 ==> members =~= Seq::empty());
        },
        _ => {},
    }
}

/// Whether a value holds no double that is zero.
pub open spec fn no_zero_double(value: Json) -> bool
    decreases value,
{
    match value {
        Json::Number(Num::Float(bits)) => bits % 0x8000_0000_0000_0000 != 0,
        Json::Array(items) => forall|i: int| 0 <= i < items.len() ==> no_zero_double(#[trigger] items[i]),
        Json::Object(members) => forall|i: int|
            0 <= i < members.len() ==> no_zero_double((#[trigger] members[i]).1),
        _ => true,
    }
}

/// Values are equal exactly where they are the same value, but for the two zeros of doubles.
pub proof fn lemma_equal_is_same(a: Json, b: Json)
    requires
        no_zero_double(a),
    ensures
        same_json(a, b) <==> a == b,
    decreases a,
{
    crate::json::lemma_same_json_reflexive(a);
    match (a, b) {
        (Json::Array(x), Json::Array(y)) => {
            if x.len() == y.len() {
                assert(forall|i: int| 0 <= i < x.len() ==> no_zero_double(#[trigger] x[i]));
                lemma_equal_items(x, y);
            }
        },
        (Json::Object(x), Json::Object(y)) => {
            if x.len() == y.len() {
                lemma_equal_members(x, y);
            }
        },
        _ => {},
    }
}

proof fn lemma_equal_items(x: Seq<Json>, y: Seq<Json>)
    requires
        x.len() == y.len(),
        forall|i: int| 0 <= i < x.len() ==> no_zero_double(#[trigger] x[i]),
    ensures
        same_items(x, y) ==> x == y,
    decreases x,
{
    if x.len() > 0 {
        let (a, b) = (x.drop_last(), y.drop_last());
        assert forall|i: int| 0 <= i < a.len() implies no_zero_double(#[trigger] a[i]) by {
            assert(no_zero_double(x[i]));
        }
        assert(no_zero_double(x[x.len() - 1]));
        lemma_equal_items(a, b);
        lemma_equal_is_same(x.last(), y.last());
        assert(x =~= a.push(x.last()) && y =~= b.push(y.last()));
    } else {
        assert(x =~= y);
    }
}

proof fn lemma_equal_members(x: Seq<(Seq<char>, Json)>, y: Seq<(Seq<char>, Json)>)
    requires
        x.len() == y.len(),
        forall|i: int| 0 <= i < x.len() ==> no_zero_double((#[trigger] x[i]).1),
    ensures
        same_members(x, y) ==> x == y,
    decreases x,
{
    if x.len() > 0 {
        let (a, b) = (x.drop_last(), y.drop_last());
        assert forall|i: int| 0 <= i < a.len() implies no_zero_double((#[trigger] a[i]).1) by {
            assert(a[i] == x[i]);
        }
        assert(x.last() == x[x.len() - 1]);
        lemma_equal_members(a, b);
        lemma_equal_is_same(x.last().1, y.last().1);
        assert(x =~= a.push(x.last()) && y =~= b.push(y.last()));
        assert(x.last() == (x.last().0, x.last().1) && y.last() == (y.last().0, y.last().1));
    } else {
        assert(x =~= y);
    }
}

/// The items of lists of values, one after the other, are the items of the first and then those of
/// the second. An array stands for its items, and any other value for itself.
pub proof fn lemma_items_of_all(first: Seq<Json>, second: Seq<Json>)
    ensures
        flattened(Seq::empty()) == Seq::<Json>::empty(),
        flattened(first + second) == flattened(first) + flattened(second),
        forall|items: Seq<Json>| #[trigger] flattened(seq![Json::Array(items)]) == items,
        forall|value: Json| value !is Array ==> #[trigger] flattened(seq![value]) == seq![value],
    decreases second.len(),
{
    assert forall|items: Seq<Json>| #[trigger] flattened(seq![Json::Array(items)]) == items by {
        let one = seq![Json::Array(items)];
        assert(one.drop_last() =~= Seq::empty());
        assert(flattened(one.drop_last()) + items =~= items);
    }
    assert forall|value: Json| value !is Array implies #[trigger] flattened(seq![value]) == seq![value] by {
        let one = seq![value];
        assert(one.drop_last() =~= Seq::empty());
        assert(flattened(one.drop_last()) + seq![value] =~= seq![value]);
    }
    if second.len() == 0 {
        assert(first + second =~= first);
        assert(flattened(first) + flattened(second) =~= flattened(first));
    } else {
        lemma_items_of_all(first, second.drop_last());
        assert((first + second).drop_last() =~= first + second.drop_last());
        assert(flattened(first + second) =~= flattened(first) + flattened(second));
    }
}

/// Values that are not arrays are their own items.
pub proof fn lemma_items_of_plain(values: Seq<Json>)
    requires
        forall|i: int| 0 <= i < values.len() ==> (#[trigger] values[i]) !is Array,
    ensures
        flattened(values) == values,
    decreases values.len(),
{
    if values.len() > 0 {
        let rest = values.drop_last();
        assert forall|i: int| 0 <= i < rest.len() implies (#[trigger] rest[i]) !is Array by {
            assert(rest[i] == values[i]);
        }
        lemma_items_of_plain(rest);
        assert(values[values.len() - 1] !is Array);
        assert(flattened(values) =~= values);
    }
}

/// A text is its own textual form, null has none, an integer has its decimal digits behind a minus
/// sign where it is negative, and truth values have their names.
pub proof fn lemma_textual_form(text: Seq<char>, n: u64, m: i64)
    ensures
        display(Json::Text(text)) == text,
        display(Json::Null) == Seq::<char>::empty(),
        display(Json::Bool(true)) == "true"@,
        display(Json::Bool(false)) == "false"@,
        all_digits(display(Json::Number(Num::PosInt(n)))),
        digits_value(display(Json::Number(Num::PosInt(n)))) == n,
        display(Json::Number(Num::PosInt(n)))[0] == '0' ==> n == 0,
        m < 0 ==> display(Json::Number(Num::NegInt(m))) == seq!['-'] + display(Json::Number(Num::PosInt((-m) as u64))),
{
    lemma_decimal(n as nat);
    lemma_first_digit(n as nat);
}

proof fn lemma_first_digit(n: nat)
    ensures
        decimal(n)[0] == '0' <==> n == 0,
    decreases n,
{
    lemma_decimal(n);
    if n >= 10 {
        lemma_decimal(n / 10);
        lemma_first_digit(n / 10);
        assert(decimal(n)[0] == decimal(n / 10)[0]);
    }
}

/// Blanks, tabs and the ends of lines are white space, and visible ASCII characters are not.
pub proof fn lemma_white_space_characters(c: char)
    ensures
        is_space(' ') && is_space('\t') && is_space('\n') && is_space('\r'),
        is_space('\u{a0}') && is_space('\u{2003}') && is_space('\u{3000}'),
        '!' <= c <= '~' ==> !is_space(c),
{
}

/// The keys of an object, in order, are those of its members.
pub proof fn lemma_keys(members: Seq<(Seq<char>, Json)>, i: int)
    ensures
        keys_of(members).len() == members.len(),
        0 <= i < members.len() ==> keys_of(members)[i] == members[i].0,
{
}

/// A double has the text that JSON gives it, and lists and objects their JSON texts.
pub proof fn lemma_json_form(bits: u64, value: Json)
    ensures
        display(Json::Number(Num::Float(bits))) == double_text(bits),
        value is Array || value is Object ==> display(value) == text_of_json(value),
{
}

/// Texts are ordered by their first difference: a text comes before those that it begins, and else
/// the smaller character decides.
pub proof fn lemma_text_order(prefix: Seq<char>, x: char, rest: Seq<char>, y: char, other: Seq<char>)
    requires
        (x as int) < (y as int),
    ensures
        text_lt(prefix, prefix + seq![x] + rest),
        text_lt(prefix + seq![x] + rest, prefix + seq![y] + other),
        !text_lt(prefix, prefix),
    decreases prefix.len(),
{
    let (a, b) = (prefix + seq![x] + rest, prefix + seq![y] + other);
    if prefix.len() > 0 {
        let shorter = prefix.drop_first();
        lemma_text_order(shorter, x, rest, y, other);
        assert(a.drop_first() =~= shorter + seq![x] + rest);
        assert(b.drop_first() =~= shorter + seq![y] + other);
        assert(a[0] == prefix[0] && b[0] == prefix[0]);
    } else {
        assert(a[0] == x && b[0] == y);
    }
}

/// ASCII capitals are made small, and nothing else is changed.
pub proof fn lemma_small_letters(c: char, text: Seq<char>, i: int)
    ensures
        'A' <= c <= 'Z' ==> 'a' <= ascii_lower(c) <= 'z' && ascii_lower(c) as int - 'a' as int == c as int - 'A' as int,
        !('A' <= c <= 'Z') ==> ascii_lower(c) == c,
        ascii_lower_text(text).len() == text.len(),
        0 <= i < text.len() ==> ascii_lower_text(text)[i] == ascii_lower(text[i]),
{
}

/// Doubles are ordered by value: those without a sign by their bits, and a minus sign turns the order
/// round.
pub proof fn lemma_double_order(a: u64, b: u64)
    requires
        a < b < 0x8000_0000_0000_0000,
    ensures
        order_key(0) == 0,
        order_key(a) < order_key(b),
        order_key((a + 0x8000_0000_0000_0000) as u64) == -order_key(a),
        order_key((b + 0x8000_0000_0000_0000) as u64) < order_key((a + 0x8000_0000_0000_0000) as u64),
        num_key(Num::Float(a)) == order_key(a),
{
}

/// Decimal notation: a further digit makes a number ten times as large and adds itself, and a digit
/// alone stands for itself.
pub proof fn lemma_decimal_notation(digits: Seq<char>, digit: char)
    ensures
        digits_value(Seq::empty()) == 0,
        digits_value(digits.push(digit)) == 10 * digits_value(digits) + (digit as int - '0' as int),
        all_digits(digits.push(digit)) <==> all_digits(digits) && '0' <= digit <= '9',
{
    let longer = digits.push(digit);
    assert(longer.drop_last() =~= digits);
    if all_digits(longer) {
        assert forall|i: int| 0 <= i < digits.len() implies '0' <= #[trigger] digits[i] <= '9' by {
            assert('0' <= longer[i] <= '9');
        }
        assert('0' <= longer[digits.len() as int] <= '9');
    }
    if all_digits(digits) && '0' <= digit <= '9' {
        assert forall|i: int| 0 <= i < longer.len() implies '0' <= #[trigger] longer[i] <= '9' by {
            if i < digits.len() {
                assert('0' <= digits[i] <= '9');
            }
        }
    }
}

} // verus!
