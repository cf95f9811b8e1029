//! Laws of the functions on dates, called by name.
use vstd::prelude::*;
use crate::eval::{eval_call, Eval};
use crate::functions::date::{aggregate_of, date_key_of, date_part, date_separator, day_of_text, extreme_date, iso_form, iso_text, key_of_value, lemma_digits_hold, lemma_numeral_read, lemma_padded, padded, signed_number, text_of_day, truncated_div, truncated_rem, valid_date, whole_number, year_month_day, DateError};
use crate::json::flattened;
use crate::laws::lists::integer;
use crate::laws::names::{lemma_adddate_name, lemma_getdate_name, lemma_isodate_name, lemma_maxdate_name, lemma_mindate_name};
use crate::text::{all_digits, digits_value, lemma_split_behind, lemma_split_single, split_on, trimmed};
use crate::value::Json;

verus! {

/// The calendar: twelve months, of which February has 29 days in every fourth year, but not in the
/// last year of a century unless it is that of a fourth century.
pub proof fn lemma_calendar(year: int, month: int, day: int)
    ensures
        valid_date(year, month, day) <==> day >= 1 && {
            ||| (month == 1 || month == 3 || month == 5 || month == 7 || month == 8 || month == 10 || month == 12) && day <= 31
            ||| (month == 4 || month == 6 || month == 9 || month == 11) && day <= 30
            ||| month == 2 && day <= 28
            ||| month == 2 && day == 29 && year % 4 == 0 && (year % 100 == 0 ==> year % 400 == 0)
        },
{
}

proof fn lemma_first_piece(text: Seq<char>, rest: Seq<char>, separator: char)
    requires
        !text.contains(separator),
    ensures
        split_on(text.push(separator) + rest, separator).len() >= 2,
        split_on(text.push(separator) + rest, separator)[0] == text,
    decreases rest.len(),
{
    let whole = text.push(separator) + rest;
    if rest.len() == 0 {
        assert(whole =~= text.push(separator));
        assert(whole.drop_last() =~= text);
        lemma_split_single(text, separator);
    } else {
        lemma_first_piece(text, rest.drop_last(), separator);
        assert(whole.drop_last() =~= text.push(separator) + rest.drop_last());
    }
}

/// Three numerals with a separator between them.
pub open spec fn date_text(a: Seq<char>, b: Seq<char>, c: Seq<char>, separator: char) -> Seq<char> {
    (a.push(separator) + b).push(separator) + c
}

/// Whether a text is a numeral of few digits.
pub open spec fn is_numeral(text: Seq<char>) -> bool {
    0 < text.len() && all_digits(text) && digits_value(text) <= 9999
}

/// Whether a text is nothing or a time behind the letter `T`.
pub open spec fn is_time(tail: Seq<char>) -> bool {
    tail.len() == 0 || tail[0] == 'T'
}

/// The key of the day with a year, a month and a day.
pub open spec fn day_key(year: Seq<char>, month: Seq<char>, day: Seq<char>) -> Result<Option<int>, DateError> {
    let (y, m, d) = (digits_value(year), digits_value(month), digits_value(day));
    if valid_date(y, m, d) {
        Ok(Some(y * 10_000 + m * 100 + d))
    } else {
        Err(DateError::Invalid)
    }
}

proof fn lemma_date_text(a: Seq<char>, b: Seq<char>, c: Seq<char>, separator: char, other: char)
    requires
        is_numeral(a),
        is_numeral(b),
        is_numeral(c),
        separator == '.' || separator == '-',
        other < '0' || other > '9',
        other != separator,
    ensures
        !date_text(a, b, c, separator).contains(other),
        date_text(a, b, c, separator).contains(separator),
        date_text(a, b, c, separator).len() > 0,
        split_on(date_text(a, b, c, separator), separator) == seq![a, b, c],
        trimmed(date_text(a, b, c, separator)) == date_text(a, b, c, separator),
{
    let text = date_text(a, b, c, separator);
    lemma_digits_hold(a, other);
    lemma_digits_hold(b, other);
    lemma_digits_hold(c, other);
    lemma_digits_hold(a, separator);
    lemma_digits_hold(b, separator);
    lemma_digits_hold(c, separator);
    if text.contains(other) {
        let i = choose|i: int| 0 <= i < text.len() && text[i] == other;
        if i < a.len() {
            assert(a[i] == other);
        } else if a.len() < i < a.len() + 1 + b.len() {
            assert(b[i - a.len() - 1] == other);
        } else if i > a.len() + 1 + b.len() {
            assert(c[i - a.len() - b.len() - 2] == other);
        }
    }
    assert(text[a.len() as int] == separator);
    lemma_split_behind(a.push(separator) + b, c, separator);
    lemma_split_behind(a, b, separator);
    lemma_split_single(a, separator);
    assert(split_on(text, separator) =~= seq![a, b, c]);
    assert('0' <= a[0] <= '9' && '0' <= c[c.len() - 1] <= '9');
    assert(text[0] == a[0] && text.last() == c[c.len() - 1]);
    assert(trimmed(text) == text);
}

proof fn lemma_date_part(text: Seq<char>, tail: Seq<char>)
    requires
        !text.contains('T'),
        trimmed(text) == text,
        is_time(tail),
    ensures
        date_part(text + tail) == text,
{
    if tail.len() == 0 {
        assert(text + tail =~= text);
        lemma_split_single(text, 'T');
    } else {
        assert(text + tail =~= text.push('T') + tail.skip(1));
        lemma_first_piece(text, tail.skip(1), 'T');
    }
}

/// A date is read from its year, month and day in any of three forms, with a time behind it or
/// without: year-month-day where the year has four digits, day-month-year, and day.month.year.
pub proof fn lemma_date_is_read(a: Seq<char>, b: Seq<char>, c: Seq<char>, tail: Seq<char>)
    requires
        is_numeral(a),
        is_numeral(b),
        is_numeral(c),
        is_time(tail),
    ensures
        date_key_of(date_text(a, b, c, '.') + tail) == day_key(c, b, a),
        date_key_of(date_text(a, b, c, '-') + tail) == if a.len() == 4 {
            day_key(a, b, c)
        } else {
            day_key(c, b, a)
        },
{
    let (dotted, hyphened) = (date_text(a, b, c, '.'), date_text(a, b, c, '-'));
    lemma_date_text(a, b, c, '.', 'T');
    lemma_date_text(a, b, c, '-', 'T');
    lemma_date_text(a, b, c, '-', '.');
    lemma_date_part(dotted, tail);
    lemma_date_part(hyphened, tail);
    assert(vstd::utf8::encode_utf8(a).len() == a.len()) by {
        assert(vstd::utf8::is_ascii_chars(a)) by {
            assert forall|i: int| 0 <= i < a.len() implies (#[trigger] a[i] as nat) < 128 by {
                assert('0' <= a[i] <= '9');
            }
        }
        vstd::utf8::is_ascii_chars_encode_utf8(a);
    }
    lemma_numeral_read(a, i32::MIN as int, i32::MAX as int);
    lemma_numeral_read(a, 0, u32::MAX as int);
    lemma_numeral_read(b, 0, u32::MAX as int);
    lemma_numeral_read(c, i32::MIN as int, i32::MAX as int);
    lemma_numeral_read(c, 0, u32::MAX as int);
}

/// Whether a text is a day in the form `YYYY-MM-DD`.
pub open spec fn is_iso(text: Seq<char>, year: int, month: int, day: int) -> bool {
    &&& text.len() == 10
    &&& text[4] == '-' && text[7] == '-'
    &&& all_digits(text.subrange(0, 4)) && digits_value(text.subrange(0, 4)) == year
    &&& all_digits(text.subrange(5, 7)) && digits_value(text.subrange(5, 7)) == month
    &&& all_digits(text.subrange(8, 10)) && digits_value(text.subrange(8, 10)) == day
}

proof fn lemma_iso_text(year: int, month: int, day: int)
    requires
        0 <= year <= 9999,
        valid_date(year, month, day),
    ensures
        is_iso(iso_text(year * 10_000 + month * 100 + day), year, month, day),
{
    let key = year * 10_000 + month * 100 + day;
    let (y, m, d) = (padded(year as nat, 4), padded(month as nat, 2), padded(day as nat, 2));
    let text = iso_text(key);
    assert(truncated_div(key, 10_000) == year);
    assert(truncated_div(key, 100) == year * 100 + month);
    assert(truncated_rem(truncated_div(key, 100), 100) == month);
    assert(truncated_rem(key, 100) == day);
    lemma_padded(year as nat, 4);
    lemma_padded(month as nat, 2);
    lemma_padded(day as nat, 2);
    assert(text.subrange(0, 4) =~= y);
    assert(text.subrange(5, 7) =~= m);
    assert(text.subrange(8, 10) =~= d);
}

proof fn lemma_isodate_call(text: Seq<char>, answers: Seq<Json>, used: nat)
    ensures
        eval_call("ISODATE"@, seq![Json::Text(text)], answers, used) == Eval::Done(
            match date_key_of(text) {
                Ok(Some(key)) => Json::Text(iso_text(key)),
                _ => Json::Null,
            },
            used,
        ),
{
    lemma_isodate_name(1);
    assert(seq![Json::Text(text)][0] == Json::Text(text));
}

/// `ISODATE` writes a date in the form year-month-day, whatever the form it was read from, and is null
/// for a day that the calendar does not have.
pub proof fn lemma_iso_date(a: Seq<char>, b: Seq<char>, c: Seq<char>, tail: Seq<char>, answers: Seq<Json>, used: nat)
    requires
        is_numeral(a),
        is_numeral(b),
        is_numeral(c),
        is_time(tail),
    ensures
        iso_written(
            eval_call("ISODATE"@, seq![Json::Text(date_text(a, b, c, '.') + tail)], answers, used),
            digits_value(c),
            digits_value(b),
            digits_value(a),
            used,
        ),
        a.len() != 4 ==> iso_written(
            eval_call("ISODATE"@, seq![Json::Text(date_text(a, b, c, '-') + tail)], answers, used),
            digits_value(c),
            digits_value(b),
            digits_value(a),
            used,
        ),
        a.len() == 4 ==> iso_written(
            eval_call("ISODATE"@, seq![Json::Text(date_text(a, b, c, '-') + tail)], answers, used),
            digits_value(a),
            digits_value(b),
            digits_value(c),
            used,
        ),
{
    lemma_isodate_call(date_text(a, b, c, '.') + tail, answers, used);
    lemma_isodate_call(date_text(a, b, c, '-') + tail, answers, used);
    lemma_date_is_read(a, b, c, tail);
    lemma_digits_positive(a);
    lemma_digits_positive(c);
    let (x, y, z) = (digits_value(a), digits_value(b), digits_value(c));
    if valid_date(z, y, x) {
        lemma_iso_text(z, y, x);
    }
    if valid_date(x, y, z) {
        lemma_iso_text(x, y, z);
    }
}

proof fn lemma_digits_positive(text: Seq<char>)
    requires
        all_digits(text),
    ensures
        digits_value(text) >= 0,
    decreases text.len(),
{
    if text.len() > 0 {
        let rest = text.drop_last();
        assert forall|i: int| 0 <= i < rest.len() implies '0' <= #[trigger] rest[i] <= '9' by {
            assert(rest[i] == text[i]);
        }
        lemma_digits_positive(rest);
        assert('0' <= text[text.len() - 1] <= '9');
    }
}

/// Whether a result is the text of a day in the form year-month-day, or null where there is no such
/// day.
pub open spec fn iso_written(result: Eval, year: int, month: int, day: int, used: nat) -> bool {
    if valid_date(year, month, day) {
        result matches Eval::Done(Json::Text(iso), now_used) && now_used == used && is_iso(iso, year, month, day)
    } else {
        result == Eval::Done(Json::Null, used)
    }
}

/// `GETDATE` of a date and time in ISO form is the date as it is written; it is null for a day that
/// the calendar does not have and for a date in any other form.
pub proof fn lemma_get_date(a: Seq<char>, b: Seq<char>, c: Seq<char>, tail: Seq<char>, answers: Seq<Json>, used: nat)
    requires
        is_numeral(a),
        is_numeral(b),
        is_numeral(c),
        is_time(tail),
    ensures
        eval_call("GETDATE"@, seq![Json::Text(date_text(a, b, c, '-') + tail)], answers, used) == Eval::Done(
            if a.len() == 4 && b.len() == 2 && c.len() == 2 && valid_date(digits_value(a), digits_value(b), digits_value(c)) {
                Json::Text(date_text(a, b, c, '-'))
            } else {
                Json::Null
            },
            used,
        ),
        eval_call("GETDATE"@, seq![Json::Text(date_text(a, b, c, '.') + tail)], answers, used) == Eval::Done(Json::Null, used),
{
    lemma_getdate_name(1);
    let (hyphened, dotted) = (date_text(a, b, c, '-'), date_text(a, b, c, '.'));
    let (first, second) = (seq![Json::Text(hyphened + tail)], seq![Json::Text(dotted + tail)]);
    assert(first[0] == Json::Text(hyphened + tail) && second[0] == Json::Text(dotted + tail));
    lemma_date_is_read(a, b, c, tail);
    lemma_date_text(a, b, c, '-', 'T');
    lemma_date_text(a, b, c, '.', 'T');
    lemma_date_part(hyphened, tail);
    lemma_date_part(dotted, tail);
    assert(dotted[a.len() as int] == '.');
    assert(!iso_form(dotted)) by {
        if iso_form(dotted) {
            assert(dotted[a.len() as int] == '.');
        }
    }
    assert(hyphened[a.len() as int] == '-' && hyphened[a.len() as int + 1 + b.len() as int] == '-');
    if a.len() == 4 && b.len() == 2 && c.len() == 2 {
        assert forall|i: int| 0 <= i < 10 implies if i == 4 || i == 7 {
            #[trigger] hyphened[i] == '-'
        } else {
            '0' <= hyphened[i] <= '9'
        } by {
            if i < 4 {
                assert(hyphened[i] == a[i]);
            } else if 4 < i < 7 {
                assert(hyphened[i] == b[i - 5]);
            } else if i > 7 {
                assert(hyphened[i] == c[i - 8]);
            }
        }
        assert(iso_form(hyphened));
    } else {
        assert(!iso_form(hyphened)) by {
            if iso_form(hyphened) {
                assert(hyphened[a.len() as int] == '-');
                assert(hyphened[a.len() as int + 1 + b.len() as int] == '-');
            }
        }
    }
}

/// The name of the function for the earliest or the latest date.
pub open spec fn extreme_name(latest: bool) -> Seq<char> {
    if latest {
        "MAXDATE"@
    } else {
        "MINDATE"@
    }
}

/// `MINDATE` and `MAXDATE` give, as it is written, the date among the items of their arguments that no
/// other one is earlier or later than; of several the first. They are null where no item is a date.
pub proof fn lemma_extreme_dates(args: Seq<Json>, latest: bool, answers: Seq<Json>, used: nat)
    ensures
        ({
            let items = flattened(args);
            let result = eval_call(extreme_name(latest), args, answers, used);
            if exists|i: int| 0 <= i < items.len() && key_of_value(#[trigger] items[i]) is Some {
                exists|i: int|
                    {
                        &&& 0 <= i < items.len()
                        &&& key_of_value(#[trigger] items[i]) is Some
                        &&& result == Eval::Done(items[i], used)
                        &&& forall|j: int|
                            0 <= j < items.len() && key_of_value(#[trigger] items[j]) is Some ==> if latest {
                                key_of_value(items[j])->0 <= key_of_value(items[i])->0
                            } else {
                                key_of_value(items[j])->0 >= key_of_value(items[i])->0
                            }
                        &&& forall|j: int|
                            0 <= j < i && key_of_value(#[trigger] items[j]) is Some ==> key_of_value(items[j])->0
                                != key_of_value(items[i])->0
                    }
            } else {
                result == Eval::Done(Json::Null, used)
            }
        }),
{
    lemma_mindate_name(args.len() as int);
    lemma_maxdate_name(args.len() as int);
    let items = flattened(args);
    assert(eval_call(extreme_name(latest), args, answers, used) == Eval::Done(aggregate_of(items, latest), used));
    lemma_first_extreme(items, latest);
    match extreme_date(items, latest) {
        Some((key, text)) => {
            let i = choose|i: int| is_first_extreme(items, latest, i, key, text);
            assert(key_of_value(items[i]) is Some);
        },
        None => {},
    }
}

spec fn is_first_extreme(items: Seq<Json>, latest: bool, i: int, key: int, text: Seq<char>) -> bool {
    &&& 0 <= i < items.len()
    &&& items[i] == Json::Text(text)
    &&& key_of_value(items[i]) == Some(key)
    &&& forall|j: int|
        0 <= j < items.len() && key_of_value(#[trigger] items[j]) is Some ==> if latest {
            key_of_value(items[j])->0 <= key
        } else {
            key_of_value(items[j])->0 >= key
        }
    &&& forall|j: int| 0 <= j < i && key_of_value(#[trigger] items[j]) is Some ==> key_of_value(items[j])->0 != key
}

proof fn lemma_first_extreme(items: Seq<Json>, latest: bool)
    ensures
        match extreme_date(items, latest) {
            Some((key, text)) => exists|i: int| is_first_extreme(items, latest, i, key, text),
            None => forall|j: int| 0 <= j < items.len() ==> key_of_value(#[trigger] items[j]) is None,
        },
    decreases items.len(),
{
    if items.len() > 0 {
        let rest = items.drop_last();
        let last = items.len() - 1;
        lemma_first_extreme(rest, latest);
        assert forall|j: int| 0 <= j < rest.len() implies #[trigger] rest[j] == items[j] by {}
        match extreme_date(rest, latest) {
            Some((best, text)) => {
                let i = choose|i: int| is_first_extreme(rest, latest, i, best, text);
                assert(key_of_value(items[i]) == Some(best));
                assert forall|j: int| 0 <= j < rest.len() && key_of_value(#[trigger] items[j]) is Some implies if latest {
                    key_of_value(items[j])->0 <= best
                } else {
                    key_of_value(items[j])->0 >= best
                } by {
                    assert(key_of_value(rest[j]) is Some);
                }
                let (key, found) = extreme_date(items, latest)->0;
                if extreme_date(items, latest) == extreme_date(rest, latest) {
                    assert forall|j: int| 0 <= j < i && key_of_value(#[trigger] items[j]) is Some implies key_of_value(items[j])->0
                        != best by {
                        assert(key_of_value(rest[j]) is Some);
                    }
                    assert(is_first_extreme(items, latest, i, key, found));
                } else {
                    assert(is_first_extreme(items, latest, last, key, found));
                }
            },
            None => {
                assert forall|j: int| 0 <= j < rest.len() implies key_of_value(#[trigger] items[j]) is None by {
                    assert(key_of_value(rest[j]) is None);
                }
                match extreme_date(items, latest) {
                    Some((key, found)) => {
                        assert(is_first_extreme(items, latest, last, key, found));
                    },
                    None => {},
                }
            },
        }
    }
}

/// A value is a date where it is a text that is read as one.
pub proof fn lemma_key_of_value(value: Json)
    ensures
        key_of_value(value) is Some <==> value is Text && date_key_of(value->Text_0) matches Ok(Some(_)),
        key_of_value(value) matches Some(key) ==> date_key_of(value->Text_0) == Ok::<Option<int>, DateError>(Some(key)),
{
}

/// `ADDDATE` is the text of the day that lies so many days behind the one that was read, or before it
/// where the number is negative. It is null where there is no such day, and where the arguments are
/// not a date and an integer.
pub proof fn lemma_add_date(text: Seq<char>, days: i64, other: Json, answers: Seq<Json>, used: nat)
    requires
        !(other is Text),
    ensures
        ({
            let result = eval_call("ADDDATE"@, seq![Json::Text(text), integer(days as int)], answers, used);
            let day = day_of_text(text);
            if day is Some && i32::MIN <= day->0 + days <= i32::MAX && text_of_day((day->0 + days) as i32) is Some {
                result == Eval::Done(Json::Text(text_of_day((day->0 + days) as i32)->0), used)
            } else {
                result == Eval::Done(Json::Null, used)
            }
        }),
        eval_call("ADDDATE"@, seq![other, integer(days as int)], answers, used) == Eval::Done(Json::Null, used),
{
    lemma_adddate_name(2);
    let (args, none) = (seq![Json::Text(text), integer(days as int)], seq![other, integer(days as int)]);
    assert(args[0] == Json::Text(text) && args[1] == integer(days as int) && args.len() == 2);
    assert(none[0] == other && none.len() == 2);
}

/// Whether a text is a numeral: digits, with a sign before them or without.
pub open spec fn is_signed_numeral(text: Seq<char>) -> bool {
    let digits = if text.len() > 0 && (text[0] == '+' || text[0] == '-') {
        text.skip(1)
    } else {
        text
    };
    digits.len() > 0 && all_digits(digits)
}

/// A text is a date only where what stands before the first `T`, white space aside, is three numerals
/// with dots or hyphens between them that stand for a day of the calendar.
pub proof fn lemma_only_dates(text: Seq<char>)
    ensures
        date_key_of(text) matches Ok(Some(key)) ==> {
            let date = trimmed(split_on(text, 'T')[0]);
            let parts = if date.contains('.') {
                split_on(date, '.')
            } else {
                split_on(date, '-')
            };
            &&& parts.len() == 3
            &&& forall|i: int| 0 <= i < 3 ==> is_signed_numeral(#[trigger] parts[i])
            &&& exists|year: int, month: int, day: int| #[trigger]
                valid_date(year, month, day) && key == year * 10_000 + month * 100 + day
        },
{
    if let Ok(Some(key)) = date_key_of(text) {
        let date = date_part(text);
        let separator = date_separator(date)->0;
        let parts = split_on(date, separator);
        let (year, month, day) = year_month_day(parts, separator);
        assert(is_signed_numeral(year) && is_signed_numeral(month) && is_signed_numeral(day));
        let (y, m, d) = (
            signed_number(year, i32::MIN as int, i32::MAX as int)->0,
            whole_number(month, u32::MAX as int)->0,
            whole_number(day, u32::MAX as int)->0,
        );
        assert(valid_date(y, m, d));
        assert forall|i: int| 0 <= i < 3 implies is_signed_numeral(#[trigger] parts[i]) by {
            assert(i == 0 || i == 1 || i == 2);
        }
    }
}

} // verus!
