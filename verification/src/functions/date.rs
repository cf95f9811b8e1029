//! Functions on dates.
use chrono::Datelike;
use vstd::prelude::*;
use crate::json::{flatten, flattened};
use crate::text::{all_digits, chars_of, decimal, digits_value, has_char, lemma_decimal, lemma_leading_zeros, lemma_split_behind, lemma_split_single, push_decimal, read_digits, split_on, split_text, texts, trim_text, trimmed};
use crate::value::{jsons, Json, Value};

verus! {

broadcast use vstd::string::group_string_axioms;

/// Why a text is not a date.
#[derive(Debug, Clone, Copy, PartialEq, Eq, Structural)]
pub enum DateError {
    /// The day is not a whole number.
    Day,
    /// The month is not a whole number.
    Month,
    /// The year is not an integer.
    Year,
    /// There is no such day in the calendar.
    Invalid,
}

/// Whether a year is a leap year.
pub open spec fn leap(year: int) -> bool {
    (year % 4 == 0 && year % 100 != 0) || year % 400 == 0
}

/// The number of days of a month.
pub open spec fn days_in(year: int, month: int) -> int {
    if month == 4 || month == 6 || month == 9 || month == 11 {
        30
    } else if month != 2 {
        31
    } else if leap(year) {
        29
    } else {
        28
    }
}

/// Whether the calendar has a day.
pub open spec fn valid_date(year: int, month: int, day: int) -> bool {
    1 <= month <= 12 && 1 <= day <= days_in(year, month)
}

/// Whether a year is a leap year.
pub fn is_leap_year(year: i32) -> (answer: bool)
    ensures
        answer == leap(year as int),
{
    let y: i64 = year as i64 + 4_000_000_000;
    (y % 4 == 0 && y % 100 != 0) || y % 400 == 0
}

/// Whether the calendar has a day.
pub fn is_valid_date(year: i32, month: u32, day: u32) -> (answer: bool)
    ensures
        answer == valid_date(year as int, month as int, day as int),
{
    if month == 0 || month > 12 || day == 0 {
        return false;
    }
    let last: u32 = if month == 4 || month == 6 || month == 9 || month == 11 {
        30
    } else if month != 2 {
        31
    } else if is_leap_year(year) {
        29
    } else {
        28
    };
    day <= last
}

/// The digits of an unsigned numeral: the text without a leading plus sign.
pub open spec fn unsigned_digits(text: Seq<char>) -> Seq<char> {
    if text.len() > 0 && text[0] == '+' {
        text.skip(1)
    } else {
        text
    }
}

/// The number of an unsigned numeral up to a limit.
pub open spec fn whole_number(text: Seq<char>, limit: int) -> Option<int> {
    let digits = unsigned_digits(text);
    if digits.len() > 0 && all_digits(digits) && digits_value(digits) <= limit {
        Some(digits_value(digits))
    } else {
        None
    }
}

/// The number of a signed numeral between two limits.
pub open spec fn signed_number(text: Seq<char>, low: int, high: int) -> Option<int> {
    if text.len() > 0 && text[0] == '-' {
        let digits = text.skip(1);
        if digits.len() > 0 && all_digits(digits) && -digits_value(digits) >= low {
            Some(-digits_value(digits))
        } else {
            None
        }
    } else {
        whole_number(text, high)
    }
}

fn read_whole(text: &str) -> (number: Option<u32>)
    ensures
        number is Some <==> whole_number(text@, u32::MAX as int) is Some,
        number matches Some(n) ==> n == whole_number(text@, u32::MAX as int)->0,
{
    let chars = chars_of(text);
    let start: usize = if chars.len() > 0 && chars[0] == '+' {
        1
    } else {
        0
    };
    assert(chars@.skip(0) =~= chars@);
    match read_digits(&chars, start, u32::MAX as u64) {
        Some(n) => Some(n as u32),
        None => None,
    }
}

fn read_year(text: &str) -> (number: Option<i32>)
    ensures
        number is Some <==> signed_number(text@, i32::MIN as int, i32::MAX as int) is Some,
        number matches Some(n) ==> n == signed_number(text@, i32::MIN as int, i32::MAX as int)->0,
{
    let chars = chars_of(text);
    assert(chars@.skip(0) =~= chars@);
    if chars.len() > 0 && chars[0] == '-' {
        match read_digits(&chars, 1, 0x8000_0000) {
            Some(n) => Some((-(n as i64)) as i32),
            None => None,
        }
    } else {
        let start: usize = if chars.len() > 0 && chars[0] == '+' {
            1
        } else {
            0
        };
        match read_digits(&chars, start, i32::MAX as u64) {
            Some(n) => Some(n as i32),
            None => None,
        }
    }
}

/// The date part of a text: what stands before the first `T`, without white space at its ends.
pub open spec fn date_part(text: Seq<char>) -> Seq<char> {
    trimmed(split_on(text, 'T')[0])
}

/// The character that separates the parts of a date.
pub open spec fn date_separator(date: Seq<char>) -> Option<char> {
    if date.contains('.') {
        Some('.')
    } else if date.contains('-') {
        Some('-')
    } else {
        None
    }
}

/// The year, month and day parts of a date: the year comes first where the separator is a hyphen
/// and the first part has four bytes, else last.
pub open spec fn year_month_day(parts: Seq<Seq<char>>, separator: char) -> (Seq<char>, Seq<char>, Seq<char>) {
    if separator == '-' && vstd::utf8::encode_utf8(parts[0]).len() == 4 {
        (parts[0], parts[1], parts[2])
    } else {
        (parts[2], parts[1], parts[0])
    }
}

/// The key of a date that its parts stand for.
pub open spec fn key_of_parts(year: Seq<char>, month: Seq<char>, day: Seq<char>) -> Result<Option<int>, DateError> {
    match whole_number(day, u32::MAX as int) {
        None => Err(DateError::Day),
        Some(d) => match whole_number(month, u32::MAX as int) {
            None => Err(DateError::Month),
            Some(m) => match signed_number(year, i32::MIN as int, i32::MAX as int) {
                None => Err(DateError::Year),
                Some(y) => if valid_date(y, m, d) {
                    Ok(Some(y * 10_000 + m * 100 + d))
                } else {
                    Err(DateError::Invalid)
                },
            },
        },
    }
}

/// The key of a date text, year * 10000 + month * 100 + day, by which dates are ordered. None
/// where the text has not the shape of a date.
pub open spec fn date_key_of(text: Seq<char>) -> Result<Option<int>, DateError> {
    let date = date_part(text);
    match date_separator(date) {
        None => Ok(None),
        Some(separator) => {
            let parts = split_on(date, separator);
            if parts.len() != 3 {
                Ok(None)
            } else {
                let (year, month, day) = year_month_day(parts, separator);
                key_of_parts(year, month, day)
            }
        },
    }
}

fn date_part_of(text: &str) -> (date: String)
    ensures
        date@ == date_part(text@),
{
    let pieces = split_text(text, 'T');
    assert(texts(pieces@)[0] == pieces@[0]@);
    trim_text(pieces[0].as_str())
}

/// The key of a date text, whatever its size.
pub fn date_key(input: &str) -> (key: Result<Option<i64>, DateError>)
    ensures
        match key {
            Ok(Some(k)) => date_key_of(input@) == Ok::<Option<int>, DateError>(Some(k as int)) && k > i64::MIN,
            Ok(None) => date_key_of(input@) == Ok::<Option<int>, DateError>(None),
            Err(e) => date_key_of(input@) == Err::<Option<int>, DateError>(e),
        },
{
    let date = date_part_of(input);
    let separator = if has_char(date.as_str(), '.') {
        '.'
    } else if has_char(date.as_str(), '-') {
        '-'
    } else {
        return Ok(None);
    };
    let parts = split_text(date.as_str(), separator);
    let ghost pieces = texts(parts@);
    if parts.len() != 3 {
        return Ok(None);
    }
    assert(pieces[0] == parts@[0]@ && pieces[1] == parts@[1]@ && pieces[2] == parts@[2]@);
    let year_first = separator == '-' && parts[0].as_str().as_bytes().len() == 4;
    let (year, day) = if year_first {
        (&parts[0], &parts[2])
    } else {
        (&parts[2], &parts[0])
    };
    match read_whole(day.as_str()) {
        None => Err(DateError::Day),
        Some(d) => match read_whole(parts[1].as_str()) {
            None => Err(DateError::Month),
            Some(m) => match read_year(year.as_str()) {
                None => Err(DateError::Year),
                Some(y) => if is_valid_date(y, m, d) {
                    Ok(Some(y as i64 * 10_000 + m as i64 * 100 + d as i64))
                } else {
                    Err(DateError::Invalid)
                },
            },
        },
    }
}

/// The key of a date text. The year must be small enough for the key to have 32 bits.
pub fn parse_date_key(input: &str) -> (key: Result<Option<i32>, DateError>)
    requires
        date_key_of(input@) matches Ok(Some(k)) ==> i32::MIN <= k <= i32::MAX,
    ensures
        match key {
            Ok(Some(k)) => date_key_of(input@) == Ok::<Option<int>, DateError>(Some(k as int)),
            Ok(None) => date_key_of(input@) == Ok::<Option<int>, DateError>(None),
            Err(e) => date_key_of(input@) == Err::<Option<int>, DateError>(e),
        },
{
    match date_key(input) {
        Ok(Some(k)) => Ok(Some(k as i32)),
        Ok(None) => Ok(None),
        Err(e) => Err(e),
    }
}

/// Keys order dates: of two days of the calendar the earlier one has the smaller key.
pub proof fn lemma_date_keys_order(y1: int, m1: int, d1: int, y2: int, m2: int, d2: int)
    requires
        valid_date(y1, m1, d1),
        valid_date(y2, m2, d2),
    ensures
        y1 * 10_000 + m1 * 100 + d1 < y2 * 10_000 + m2 * 100 + d2 <==> (y1 < y2 || (y1 == y2 && (m1 < m2 || (m1
            == m2 && d1 < d2)))),
{
}

/// The quotient rounded towards zero.
pub open spec fn truncated_div(a: int, b: int) -> int {
    if a >= 0 {
        a / b
    } else {
        -((-a) / b)
    }
}

/// The remainder of the quotient rounded towards zero.
pub open spec fn truncated_rem(a: int, b: int) -> int {
    a - truncated_div(a, b) * b
}

/// The decimal digits of a number with zeros in front up to a width.
pub open spec fn padded(n: nat, width: int) -> Seq<char> {
    let digits = decimal(n);
    Seq::new((if digits.len() < width { width - digits.len() } else { 0 }) as nat, |i: int| '0') + digits
}

/// An integer with zeros in front up to a width, a minus sign included.
pub open spec fn zero_padded(n: int, width: int) -> Seq<char> {
    if n < 0 {
        seq!['-'] + padded((-n) as nat, width - 1)
    } else {
        padded(n as nat, width)
    }
}

/// The ISO text of the date with a key.
pub open spec fn iso_text(key: int) -> Seq<char> {
    zero_padded(truncated_div(key, 10_000), 4) + seq!['-'] + zero_padded(
        truncated_rem(truncated_div(key, 100), 100),
        2,
    ) + seq!['-'] + zero_padded(truncated_rem(key, 100), 2)
}

fn push_padded(text: &mut String, n: u64, width: usize)
    ensures
        final(text)@ == old(text)@ + padded(n as nat, width as int),
{
    let mut digits = String::new();
    push_decimal(&mut digits, n);
    assert(digits@ =~= decimal(n as nat));
    let chars = chars_of(digits.as_str());
    let ghost before = text@;
    let ghost zeros = Seq::new((if chars@.len() < width { width - chars@.len() } else { 0 }) as nat, |i: int| '0');
    let mut missing: usize = if chars.len() < width {
        width - chars.len()
    } else {
        0
    };
    let ghost total = missing;
    assert(text@ =~= before + zeros.take(0));
    while missing > 0
        invariant
            missing <= total,
            total == zeros.len(),
            zeros == Seq::new(total as nat, |i: int| '0'),
            text@ == before + zeros.take(total - missing),
        decreases missing,
    {
        text.push('0');
        missing = missing - 1;
        assert(zeros.take(total - missing) =~= zeros.take(total - missing - 1).push('0'));
        assert(text@ =~= before + zeros.take(total - missing));
    }
    assert(zeros.take(total as int) =~= zeros);
    push_decimal(text, n);
    assert(text@ =~= before + (zeros + decimal(n as nat)));
}

fn push_zero_padded(text: &mut String, n: i64, width: usize)
    requires
        n > i64::MIN,
        width >= 1,
    ensures
        final(text)@ == old(text)@ + zero_padded(n as int, width as int),
{
    let ghost before = text@;
    if n < 0 {
        text.push('-');
        push_padded(text, (-n) as u64, width - 1);
        assert(text@ =~= before + (seq!['-'] + padded((-n) as nat, width - 1)));
    } else {
        push_padded(text, n as u64, width);
    }
}

fn divide(a: i64, b: i64) -> (q: i64)
    requires
        b == 100 || b == 10_000,
        a > i64::MIN,
    ensures
        q == truncated_div(a as int, b as int),
        -(i64::MAX as int) / 100 <= q <= i64::MAX / 100,
        a - q * b == truncated_rem(a as int, b as int),
        -b < a - q * b < b,
{
    if a >= 0 {
        a / b
    } else {
        -((-a) / b)
    }
}

/// The ISO text of the date with a key.
fn iso_from_key(key: i64) -> (text: String)
    requires
        key > i64::MIN,
    ensures
        text@ == iso_text(key as int),
{
    let year: i64 = divide(key, 10_000);
    let months: i64 = divide(key, 100);
    let month: i64 = months - divide(months, 100) * 100;
    let day: i64 = key - months * 100;
    let mut text = String::new();
    push_zero_padded(&mut text, year, 4);
    text.push('-');
    push_zero_padded(&mut text, month, 2);
    text.push('-');
    push_zero_padded(&mut text, day, 2);
    assert(text@ =~= iso_text(key as int));
    text
}

/// A date text in the form year-month-day; null where the text is not a date.
pub open spec fn iso_date_of(text: Seq<char>) -> Json {
    match date_key_of(text) {
        Ok(Some(key)) => Json::Text(iso_text(key)),
        _ => Json::Null,
    }
}

/// A date text in the form year-month-day.
pub fn iso_date(date: &str) -> (iso: Value)
    ensures
        iso@ == iso_date_of(date@),
{
    match date_key(date) {
        Ok(Some(key)) => Value::String(iso_from_key(key)),
        _ => Value::Null,
    }
}

/// Whether a text has the form `YYYY-MM-DD`.
pub open spec fn iso_form(date: Seq<char>) -> bool {
    &&& date.len() == 10
    &&& forall|i: int| 0 <= i < 10 ==> if i == 4 || i == 7 {
        #[trigger] date[i] == '-'
    } else {
        '0' <= date[i] <= '9'
    }
}

/// The date part of a date and time; null where it is not a date in the form `YYYY-MM-DD`.
pub open spec fn get_date_of(text: Seq<char>) -> Json {
    if iso_form(date_part(text)) && date_key_of(text) matches Ok(Some(_)) {
        Json::Text(date_part(text))
    } else {
        Json::Null
    }
}

fn has_iso_form(date: &str) -> (answer: bool)
    ensures
        answer == iso_form(date@),
{
    let chars = chars_of(date);
    if chars.len() != 10 {
        return false;
    }
    let mut i: usize = 0;
    while i < 10
        invariant
            i <= 10,
            chars@ == date@,
            chars@.len() == 10,
            forall|j: int| 0 <= j < i ==> if j == 4 || j == 7 {
                #[trigger] date@[j] == '-'
            } else {
                '0' <= date@[j] <= '9'
            },
        decreases 10 - i,
    {
        let c = chars[i];
        let fits = if i == 4 || i == 7 {
            c == '-'
        } else {
            '0' <= c && c <= '9'
        };
        if !fits {
            assert(date@[i as int] == c);
            return false;
        }
        i = i + 1;
    }
    true
}

/// The date part of a date and time.
pub fn get_date(text: &str) -> (date: Value)
    ensures
        date@ == get_date_of(text@),
{
    let date = date_part_of(text);
    match date_key(text) {
        Ok(Some(_)) => if has_iso_form(date.as_str()) {
            Value::String(date)
        } else {
            Value::Null
        },
        _ => Value::Null,
    }
}

/// The key of a value that is a date text.
pub open spec fn key_of_value(value: Json) -> Option<int> {
    match value {
        Json::Text(text) => match date_key_of(text) {
            Ok(Some(key)) => Some(key),
            _ => None,
        },
        _ => None,
    }
}

/// The first of the earliest (or latest) dates among the values, with its key.
pub open spec fn extreme_date(values: Seq<Json>, latest: bool) -> Option<(int, Seq<char>)>
    decreases values.len(),
{
    if values.len() == 0 {
        None
    } else {
        let earlier = extreme_date(values.drop_last(), latest);
        match key_of_value(values.last()) {
            None => earlier,
            Some(key) => match earlier {
                Some((best, text)) => if (latest && key > best) || (!latest && key < best) {
                    Some((key, values.last()->Text_0))
                } else {
                    earlier
                },
                None => Some((key, values.last()->Text_0)),
            },
        }
    }
}

/// The earliest (or latest) date text among the values; null where none is a date.
pub open spec fn aggregate_of(values: Seq<Json>, latest: bool) -> Json {
    match extreme_date(values, latest) {
        Some((_, text)) => Json::Text(text),
        None => Json::Null,
    }
}

/// The chosen date is one of the values, and no value is earlier (later) than it.
pub proof fn lemma_extreme_date(values: Seq<Json>, latest: bool, i: int)
    requires
        0 <= i < values.len(),
        key_of_value(values[i]) is Some,
    ensures
        extreme_date(values, latest) is Some,
        values.contains(Json::Text((extreme_date(values, latest)->0).1)),
        key_of_value(Json::Text((extreme_date(values, latest)->0).1)) == Some((extreme_date(values, latest)->0).0),
        latest ==> key_of_value(values[i])->0 <= (extreme_date(values, latest)->0).0,
        !latest ==> key_of_value(values[i])->0 >= (extreme_date(values, latest)->0).0,
    decreases values.len(),
{
    let rest = values.drop_last();
    if i < rest.len() {
        lemma_extreme_date(rest, latest, i);
    }
    lemma_extreme_member(values, latest);
}

proof fn lemma_extreme_member(values: Seq<Json>, latest: bool)
    ensures
        extreme_date(values, latest) matches Some((key, text)) ==> values.contains(Json::Text(text)) && key_of_value(
            Json::Text(text),
        ) == Some(key),
    decreases values.len(),
{
    if values.len() > 0 {
        let rest = values.drop_last();
        lemma_extreme_member(rest, latest);
        match extreme_date(values, latest) {
            Some((key, text)) => {
                if extreme_date(values, latest) == extreme_date(rest, latest) {
                    let k = choose|k: int| 0 <= k < rest.len() && rest[k] == Json::Text(text);
                    assert(values[k] == Json::Text(text));
                } else {
                    assert(values[values.len() - 1] == Json::Text(text));
                }
            },
            None => {},
        }
    }
}

fn aggregate_date(values: &Vec<Value>, latest: bool) -> (date: Value)
    ensures
        date@ == aggregate_of(jsons(values@), latest),
{
    let ghost all = jsons(values@);
    let mut selected: Option<(i64, String)> = None;
    let mut i: usize = 0;
    assert(all.take(0) =~= Seq::empty());
    while i < values.len()
        invariant
            i <= values.len(),
            all == jsons(values@),
            selected is Some <==> extreme_date(all.take(i as int), latest) is Some,
            selected matches Some(s) ==> extreme_date(all.take(i as int), latest) == Some((s.0 as int, s.1@)),
        decreases values.len() - i,
    {
        assert(all.take(i + 1).drop_last() =~= all.take(i as int));
        assert(all.take(i + 1).last() == values@[i as int]@);
        match &values[i] {
            Value::String(text) => match date_key(text.as_str()) {
                Ok(Some(key)) => {
                    let replace = match &selected {
                        None => true,
                        Some((best, _)) => if latest {
                            key > *best
                        } else {
                            key < *best
                        },
                    };
                    if replace {
                        selected = Some((key, text.clone()));
                    }
                },
                _ => {},
            },
            _ => {},
        }
        i = i + 1;
    }
    assert(all.take(i as int) =~= all);
    match selected {
        Some((_, text)) => Value::String(text),
        None => Value::Null,
    }
}

/// The earliest date text among the items of the values.
pub fn min_date(values: &Vec<Value>) -> (date: Value)
    ensures
        date@ == aggregate_of(flattened(jsons(values@)), false),
{
    let items = flatten(values);
    aggregate_date(&items, false)
}

/// The latest date text among the items of the values.
pub fn max_date(values: &Vec<Value>) -> (date: Value)
    ensures
        date@ == aggregate_of(flattened(jsons(values@)), true),
{
    let items = flatten(values);
    aggregate_date(&items, true)
}

/// The number of the day, counted from the first of January of the year one, that
/// `chrono::NaiveDate::parse_from_str` reads from a text in the form `%Y-%m-%d`, if it reads one.
pub uninterp spec fn day_of_text(text: Seq<char>) -> Option<i32>;

/// The text of the day with a number, if `chrono` has that day.
pub uninterp spec fn text_of_day(day: i32) -> Option<Seq<char>>;

/// Reads a date with `NaiveDate::parse_from_str` and numbers its day with `num_days_from_ce`. A day
/// that was read has a text.
#[verifier::external_body]
fn read_day(text: &str) -> (day: Option<i32>)
    ensures
        day == day_of_text(text@),
        day matches Some(d) ==> text_of_day(d) is Some,
{
    chrono::NaiveDate::parse_from_str(text, "%Y-%m-%d").ok().map(|date| date.num_days_from_ce())
}

/// The date that `NaiveDate::from_num_days_from_ce_opt` gives for a day number, written by its
/// `Display`. What was written is read as the same day.
#[verifier::external_body]
fn write_day(day: i32) -> (text: Option<String>)
    ensures
        text is Some <==> text_of_day(day) is Some,
        text matches Some(t) ==> t@ == text_of_day(day)->0 && day_of_text(t@) == Some(day),
{
    chrono::NaiveDate::from_num_days_from_ce_opt(day).map(|date| date.to_string())
}

/// The text of the day that lies a number of days after another; null where one of the two is no
/// date.
pub open spec fn add_date_of(text: Seq<char>, days: int) -> Json {
    match day_of_text(text) {
        Some(day) => if i32::MIN <= day + days <= i32::MAX {
            match text_of_day((day + days) as i32) {
                Some(shifted) => Json::Text(shifted),
                None => Json::Null,
            }
        } else {
            Json::Null
        },
        None => Json::Null,
    }
}

/// The day that lies a number of days after the one read.
pub fn shift_day(day: Option<i32>, days: i64) -> (shifted: Option<i32>)
    ensures
        shifted is Some <==> day is Some && i32::MIN <= day->0 + days <= i32::MAX,
        shifted matches Some(s) ==> s == day->0 + days,
{
    match day {
        Some(day) => {
            let sum: i128 = day as i128 + days as i128;
            if i32::MIN as i128 <= sum && sum <= i32::MAX as i128 {
                Some(sum as i32)
            } else {
                None
            }
        },
        None => None,
    }
}

/// Adds days to a date. The result is a date that many days later, so that adding the days one after
/// another comes to the same as adding their sum.
pub fn add_date(date: &str, days: i64) -> (shifted: Value)
    ensures
        shifted@ == add_date_of(date@, days as int),
        shifted@ matches Json::Text(text) ==> day_of_text(text) == Some((day_of_text(date@)->0 + days) as i32) && i32::MIN
            <= day_of_text(date@)->0 + days <= i32::MAX,
        days == 0 && day_of_text(date@) is Some ==> shifted@ is Text,
{
    match shift_day(read_day(date), days) {
        Some(day) => match write_day(day) {
            Some(text) => Value::String(text),
            None => Value::Null,
        },
        None => Value::Null,
    }
}

/// A padded number has its width and stands for itself.
pub proof fn lemma_padded(n: nat, width: int)
    requires
        1 <= width <= 4,
        width == 2 ==> n < 100,
        width == 4 ==> n < 10_000,
        width != 1 && width != 3,
    ensures
        padded(n, width).len() == width,
        all_digits(padded(n, width)),
        digits_value(padded(n, width)) == n,
{
    lemma_decimal(n);
    let digits = decimal(n);
    let zeros = Seq::new((if digits.len() < width { width - digits.len() } else { 0 }) as nat, |i: int| '0');
    lemma_leading_zeros(zeros, digits);
    let all = zeros + digits;
    assert forall|i: int| 0 <= i < all.len() implies '0' <= #[trigger] all[i] <= '9' by {
        if i < zeros.len() {
            assert(all[i] == zeros[i]);
        } else {
            assert(all[i] == digits[i - zeros.len()]);
        }
    }
}

/// Digits hold no other character.
pub proof fn lemma_digits_hold(text: Seq<char>, c: char)
    requires
        all_digits(text),
        c < '0' || c > '9',
    ensures
        !text.contains(c),
{
    if text.contains(c) {
        let i = choose|i: int| 0 <= i < text.len() && text[i] == c;
        assert('0' <= text[i] <= '9');
    }
}

/// Digits are read as the number that they stand for.
pub proof fn lemma_numeral_read(text: Seq<char>, low: int, high: int)
    requires
        text.len() > 0,
        all_digits(text),
        digits_value(text) <= high,
    ensures
        whole_number(text, high) == Some(digits_value(text)),
        signed_number(text, low, high) == Some(digits_value(text)),
{
    assert('0' <= text[0] <= '9');
}

/// The ISO text of a day of a year of four digits is read back as that day, so that a date in ISO
/// form stays as it is, and is its own date part.
pub proof fn lemma_iso_date_is_read_back(year: int, month: int, day: int)
    requires
        0 <= year <= 9999,
        valid_date(year, month, day),
    ensures
        date_key_of(iso_text(year * 10_000 + month * 100 + day)) == Ok::<Option<int>, DateError>(
            Some(year * 10_000 + month * 100 + day),
        ),
        iso_date_of(iso_text(year * 10_000 + month * 100 + day)) == Json::Text(iso_text(year * 10_000 + month * 100 + day)),
        get_date_of(iso_text(year * 10_000 + month * 100 + day)) == Json::Text(iso_text(year * 10_000 + month * 100 + day)),
{
    let key = year * 10_000 + month * 100 + day;
    let (y, m, d) = (padded(year as nat, 4), padded(month as nat, 2), padded(day as nat, 2));
    let text = iso_text(key);
    assert(truncated_div(key, 10_000) == year);
    assert(truncated_div(key, 100) == year * 100 + month);
    assert(truncated_rem(truncated_div(key, 100), 100) == month);
    assert(truncated_rem(key, 100) == day);
    lemma_padded(year as nat, 4);
    lemma_padded(month as nat, 2);
    lemma_padded(day as nat, 2);
    assert(text =~= (y.push('-') + m).push('-') + d);
    assert forall|c: char| (c < '0' || c > '9') && c != '-' implies !(#[trigger] text.contains(c)) by {
        lemma_digits_hold(y, c);
        lemma_digits_hold(m, c);
        lemma_digits_hold(d, c);
        if text.contains(c) {
            let i = choose|i: int| 0 <= i < text.len() && text[i] == c;
            if i < 4 {
                assert(y[i] == c);
            } else if 4 < i < 7 {
                assert(m[i - 5] == c);
            } else if i > 7 {
                assert(d[i - 8] == c);
            }
        }
    }
    lemma_split_single(text, 'T');
    assert(split_on(text, 'T')[0] == text);
    assert('0' <= y[0] <= '9' && '0' <= d[1] <= '9');
    assert(text[0] == y[0] && text.last() == d[1]);
    assert(trimmed(text) == text);
    assert(iso_form(text)) by {
        assert forall|i: int| 0 <= i < 10 implies if i == 4 || i == 7 {
            #[trigger] text[i] == '-'
        } else {
            '0' <= text[i] <= '9'
        } by {
            if i < 4 {
                assert(text[i] == y[i]);
            } else if 4 < i < 7 {
                assert(text[i] == m[i - 5]);
            } else if i > 7 {
                assert(text[i] == d[i - 8]);
            }
        }
    }
    assert(text[4] == '-');
    assert(text.contains('-'));
    assert(date_separator(text) == Some('-'));
    lemma_digits_hold(y, '-');
    lemma_digits_hold(m, '-');
    lemma_digits_hold(d, '-');
    lemma_split_behind(y.push('-') + m, d, '-');
    lemma_split_behind(y, m, '-');
    lemma_split_single(y, '-');
    let parts = split_on(text, '-');
    assert(parts =~= seq![y, m, d]);
    assert(vstd::utf8::encode_utf8(y).len() == 4) by {
        assert(vstd::utf8::is_ascii_chars(y)) by {
            assert forall|i: int| 0 <= i < y.len() implies (#[trigger] y[i] as nat) < 128 by {
                assert('0' <= y[i] <= '9');
            }
        }
        vstd::utf8::is_ascii_chars_encode_utf8(y);
    }
    lemma_numeral_read(y, i32::MIN as int, i32::MAX as int);
    lemma_numeral_read(m, 0, u32::MAX as int);
    lemma_numeral_read(d, 0, u32::MAX as int);
    assert(key_of_parts(y, m, d) == Ok::<Option<int>, DateError>(Some(key)));
}

} // verus!
