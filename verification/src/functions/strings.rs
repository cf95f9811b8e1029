//! Functions on texts.
use base64::Engine;
use vstd::prelude::*;
use crate::json::{display, flatten, flattened, items_of, push_items, value_to_string};
use crate::text::{chars_of, join_on, lemma_texts_push, push_text, text_between, texts};
use crate::value::{jsons, lemma_array_json, lemma_jsons_push, Json, Value};

verus! {

broadcast use {lemma_array_json, lemma_jsons_push};

/// A line feed.
pub fn new_line() -> (text: String)
    ensures
        text@ == seq!['\n'],
{
    let mut text = String::new();
    text.push('\n');
    assert(text@ =~= seq!['\n']);
    text
}

/// The textual forms of the values, one after another.
pub open spec fn concatenated(values: Seq<Json>) -> Seq<char>
    decreases values.len(),
{
    if values.len() == 0 {
        Seq::empty()
    } else {
        concatenated(values.drop_last()) + display(values.last())
    }
}

/// The textual forms of the items of the values, one after another.
pub fn concat(values: &Vec<Value>) -> (text: String)
    ensures
        text@ == concatenated(flattened(jsons(values@))),
{
    let items = flatten(values);
    let ghost all = jsons(items@);
    let mut text = String::new();
    let mut i: usize = 0;
    assert(text@ =~= concatenated(all.take(0)));
    while i < items.len()
        invariant
            i <= items.len(),
            all == jsons(items@),
            text@ == concatenated(all.take(i as int)),
        decreases items.len() - i,
    {
        assert(all.take(i + 1).drop_last() =~= all.take(i as int));
        assert(all.take(i + 1).last() == items@[i as int]@);
        let part = value_to_string(&items[i]);
        push_text(&mut text, part.as_str());
        i = i + 1;
    }
    assert(all.take(i as int) =~= all);
    text
}

/// The text that the standard base64 encoding with padding gives for the UTF-8 bytes of a text.
pub uninterp spec fn base64_of(text: Seq<char>) -> Seq<char>;

/// Encodes the UTF-8 bytes of a text with `base64`'s `STANDARD` engine. The result has four
/// characters for every three bytes, the last three padded.
#[verifier::external_body]
fn encode_base64(text: &str) -> (encoded: String)
    ensures
        encoded@ == base64_of(text@),
        encoded@.len() == (vstd::utf8::encode_utf8(text@).len() + 2) / 3 * 4,
{
    base64::engine::general_purpose::STANDARD.encode(text)
}

/// The textual form of a value in base64.
pub fn base64(value: &Value) -> (encoded: String)
    ensures
        encoded@ == base64_of(display(value@)),
{
    encode_base64(value_to_string(value).as_str())
}

/// The number of parts that a text of some length is split into.
pub open spec fn part_count(length: int, limit: int) -> int {
    (length + limit - 1) / limit
}

/// Where a part starts: all parts have the same length, but the first ones are longer by one as
/// long as a remainder lasts.
pub open spec fn part_start(length: int, count: int, i: int) -> int {
    let longer = length % count;
    i * (length / count) + if i < longer {
        i
    } else {
        longer
    }
}

/// The parts that a text is split into.
pub open spec fn parts_of(text: Seq<char>, limit: int) -> Seq<Seq<char>> {
    let count = part_count(text.len() as int, limit);
    Seq::new(
        count as nat,
        |i: int| text.subrange(part_start(text.len() as int, count, i), part_start(text.len() as int, count, i + 1)),
    )
}

/// The parts as an array of strings; null where the limit is zero.
pub open spec fn split_of(text: Seq<char>, limit: int) -> Json {
    if limit == 0 {
        Json::Null
    } else if text.len() == 0 {
        Json::Array(Seq::empty())
    } else {
        Json::Array(Seq::new(parts_of(text, limit).len(), |i: int| Json::Text(parts_of(text, limit)[i])))
    }
}

proof fn lemma_part_bounds(length: int, limit: int, i: int)
    requires
        length > 0,
        limit > 0,
        0 <= i <= part_count(length, limit),
    ensures
        1 <= part_count(length, limit) <= length,
        0 <= part_start(length, part_count(length, limit), i) <= length,
        part_start(length, part_count(length, limit), part_count(length, limit)) == length,
        i < part_count(length, limit) ==> part_start(length, part_count(length, limit), i + 1) - part_start(
            length,
            part_count(length, limit),
            i,
        ) == length / part_count(length, limit) + (if i < length % part_count(length, limit) { 1int } else { 0int }),
{
    let count = part_count(length, limit);
    assert(1 <= count <= length) by (nonlinear_arith)
        requires
            length > 0,
            limit > 0,
            count == (length + limit - 1) / limit,
    ;
    let base = length / count;
    let longer = length % count;
    assert(count * base + longer == length && 0 <= longer < count && base >= 0) by (nonlinear_arith)
        requires
            length > 0,
            count > 0,
            base == length / count,
            longer == length % count,
    ;
    assert(0 <= i * base <= count * base) by (nonlinear_arith)
        requires
            0 <= i <= count,
            base >= 0,
    ;
    if i < count {
        assert(i * base + base == (i + 1) * base) by (nonlinear_arith);
    }
    if i < longer {
        assert(i * base + i <= count * base + longer);
    }
}

/// No part is longer than the limit, and the lengths of two parts differ by at most one.
pub proof fn lemma_split_even(text: Seq<char>, limit: int, i: int, j: int)
    requires
        text.len() > 0,
        limit > 0,
        0 <= i < parts_of(text, limit).len(),
        0 <= j < parts_of(text, limit).len(),
    ensures
        parts_of(text, limit)[i].len() <= limit,
        parts_of(text, limit)[i].len() <= parts_of(text, limit)[j].len() + 1,
{
    let length = text.len() as int;
    let count = part_count(length, limit);
    lemma_part_bounds(length, limit, i);
    lemma_part_bounds(length, limit, i + 1);
    lemma_part_bounds(length, limit, j);
    lemma_part_bounds(length, limit, j + 1);
    let base = length / count;
    assert(count * limit >= length && (count - 1) * limit < length) by (nonlinear_arith)
        requires
            count == (length + limit - 1) / limit,
            limit > 0,
            length > 0,
    ;
    assert(base + (if length % count > 0 { 1int } else { 0int }) <= limit) by (nonlinear_arith)
        requires
            count * limit >= length,
            count > 0,
            length > 0,
            base == length / count,
    ;
}

/// The first parts of a text are its beginning.
pub proof fn lemma_split_prefix(text: Seq<char>, limit: int, i: int)
    requires
        text.len() > 0,
        limit > 0,
        0 <= i <= parts_of(text, limit).len(),
    ensures
        join_on(parts_of(text, limit).take(i), Seq::empty()) == text.take(
            part_start(text.len() as int, part_count(text.len() as int, limit), i),
        ),
    decreases i,
{
    let length = text.len() as int;
    let count = part_count(length, limit);
    let parts = parts_of(text, limit);
    lemma_part_bounds(length, limit, i);
    if i == 0 {
        assert(part_start(length, count, 0) == 0);
        assert(join_on(parts.take(0), Seq::empty()) =~= text.take(0));
    } else {
        lemma_part_bounds(length, limit, i - 1);
        lemma_split_prefix(text, limit, i - 1);
        assert(parts.take(i).drop_last() =~= parts.take(i - 1));
        assert(parts.take(i).last() == parts[i - 1]);
        if i == 1 {
            assert(part_start(length, count, 0) == 0);
            assert(parts.take(1)[0] =~= text.take(part_start(length, count, 1)));
        } else {
            assert(join_on(parts.take(i), Seq::empty()) =~= text.take(part_start(length, count, i)));
        }
    }
}

/// The parts of a text make up the text.
pub proof fn lemma_split_whole(text: Seq<char>, limit: int)
    requires
        text.len() > 0,
        limit > 0,
    ensures
        join_on(parts_of(text, limit), Seq::empty()) == text,
{
    let length = text.len() as int;
    let count = part_count(length, limit);
    lemma_part_bounds(length, limit, count);
    lemma_split_prefix(text, limit, count);
    assert(parts_of(text, limit).take(count) =~= parts_of(text, limit));
    assert(text.take(length) =~= text);
}

/// Splits a text into parts of nearly equal length, none longer than the limit.
pub fn split(input: &str, limit: usize) -> (parts: Value)
    ensures
        parts@ == split_of(input@, limit as int),
{
    if limit == 0 {
        return Value::Null;
    }
    let chars = chars_of(input);
    let length: usize = chars.len();
    let mut parts: Vec<Value> = Vec::new();
    if length == 0 {
        assert(jsons(parts@) =~= Seq::empty());
        return Value::Array(parts);
    }
    let ghost whole = Seq::new(parts_of(input@, limit as int).len(), |i: int| Json::Text(parts_of(input@, limit as int)[i]));
    let count: usize = (length - 1) / limit + 1;
    proof {
        let (n, l) = (length as int, limit as int);
        assert((n - 1) / l + 1 == (n + l - 1) / l) by (nonlinear_arith)
            requires
                l > 0,
                n > 0,
        ;
        lemma_part_bounds(n, l, 0);
    }
    let base: usize = length / count;
    let longer: usize = length % count;
    let mut start: usize = 0;
    let mut i: usize = 0;
    assert(jsons(parts@) =~= whole.take(0));
    while i < count
        invariant
            i <= count,
            limit > 0,
            length > 0,
            chars@ == input@,
            length == chars@.len(),
            count == part_count(length as int, limit as int),
            base == length / count,
            longer == length % count,
            start == part_start(length as int, count as int, i as int),
            whole == Seq::new(parts_of(input@, limit as int).len(), |i: int| Json::Text(parts_of(input@, limit as int)[i])),
            jsons(parts@) == whole.take(i as int),
        decreases count - i,
    {
        proof {
            lemma_part_bounds(length as int, limit as int, i as int);
            lemma_part_bounds(length as int, limit as int, i + 1);
        }
        let end: usize = if i < longer {
            start + base + 1
        } else {
            start + base
        };
        let part = Value::String(text_between(&chars, start, end));
        assert(part@ == whole[i as int]);
        parts.push(part);
        assert(whole.take(i + 1) =~= whole.take(i as int).push(whole[i as int]));
        start = end;
        i = i + 1;
    }
    assert(whole.take(i as int) =~= whole);
    Value::Array(parts)
}

/// The textual forms of the values.
pub open spec fn displays(values: Seq<Json>) -> Seq<Seq<char>> {
    Seq::new(values.len(), |i: int| display(values[i]))
}

/// Joins texts with a separator between them.
pub fn join_texts(pieces: &Vec<String>, separator: &str) -> (text: String)
    ensures
        text@ == join_on(texts(pieces@), separator@),
{
    let ghost all = texts(pieces@);
    let mut text = String::new();
    let mut i: usize = 0;
    assert(text@ =~= join_on(all.take(0), separator@));
    while i < pieces.len()
        invariant
            i <= pieces.len(),
            all == texts(pieces@),
            text@ == join_on(all.take(i as int), separator@),
        decreases pieces.len() - i,
    {
        assert(all.take(i + 1).drop_last() =~= all.take(i as int));
        assert(all.take(i + 1).last() == pieces@[i as int]@);
        let ghost before = text@;
        if i > 0 {
            push_text(&mut text, separator);
        }
        push_text(&mut text, pieces[i].as_str());
        if i == 0 {
            assert(before =~= Seq::<char>::empty());
            assert(text@ =~= all.take(1)[0]);
        }
        i = i + 1;
    }
    assert(all.take(i as int) =~= all);
    text
}

/// The textual forms of the items of a value with a separator between them.
pub fn join_string(input: &Value, separator: &str) -> (text: String)
    ensures
        text@ == join_on(displays(items_of(input@)), separator@),
{
    let mut items: Vec<Value> = Vec::new();
    assert(jsons(items@) =~= Seq::<Json>::empty());
    push_items(&mut items, input);
    assert(jsons(items@) =~= items_of(input@));
    let ghost whole = displays(items_of(input@));
    let mut pieces: Vec<String> = Vec::new();
    let mut i: usize = 0;
    assert(texts(pieces@) =~= whole.take(0));
    while i < items.len()
        invariant
            i <= items.len(),
            jsons(items@) == items_of(input@),
            whole == displays(items_of(input@)),
            texts(pieces@) == whole.take(i as int),
        decreases items.len() - i,
    {
        assert(jsons(items@)[i as int] == items@[i as int]@);
        let piece = value_to_string(&items[i]);
        proof {
            lemma_texts_push(pieces@, piece);
        }
        pieces.push(piece);
        assert(whole.take(i + 1) =~= whole.take(i as int).push(whole[i as int]));
        i = i + 1;
    }
    assert(whole.take(i as int) =~= whole);
    join_texts(&pieces, separator)
}

} // verus!
