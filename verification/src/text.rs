//! Text as sequences of characters: order, trimming, splitting and decimal numerals.
use vstd::prelude::*;

verus! {

broadcast use vstd::string::group_string_axioms;

/// `String::push` appends one character.
pub assume_specification[ std::string::String::push ](s: &mut std::string::String, c: char)
    ensures
        final(s)@ == old(s)@.push(c),
;

/// `==` on `str` compares the characters.
#[verifier::external_body]
pub(crate) fn same_text(a: &str, b: &str) -> (same: bool)
    ensures
        same == (a@ == b@),
{
    a == b
}

/// The characters of a text, in order.
pub fn chars_of(text: &str) -> (chars: Vec<char>)
    ensures
        chars@ == text@,
{
    let mut chars: Vec<char> = Vec::new();
    for c in iter: text.chars()
        invariant
            iter.seq() == text@,
            chars@ == text@.take(iter.index() as int),
    {
        chars.push(c);
        assert(text@.take(iter.index() + 1) == text@.take(iter.index() as int).push(c));
    }
    assert(text@.take(text@.len() as int) == text@);
    chars
}

/// The text made of the characters from `start` up to `end`.
pub fn text_between(chars: &Vec<char>, start: usize, end: usize) -> (text: String)
    requires
        start <= end <= chars@.len(),
    ensures
        text@ == chars@.subrange(start as int, end as int),
{
    let mut text = String::new();
    let mut i: usize = start;
    while i < end
        invariant
            start <= i <= end <= chars@.len(),
            text@ == chars@.subrange(start as int, i as int),
        decreases end - i,
    {
        text.push(chars[i]);
        i = i + 1;
        assert(chars@.subrange(start as int, i as int) == chars@.subrange(start as int, i - 1).push(chars@[i - 1]));
    }
    text
}

/// Lexicographic order of texts by the code points of their characters.
pub open spec fn text_lt(a: Seq<char>, b: Seq<char>) -> bool
    decreases a.len(),
{
    if b.len() == 0 {
        false
    } else if a.len() == 0 {
        true
    } else if a[0] != b[0] {
        (a[0] as int) < (b[0] as int)
    } else {
        text_lt(a.drop_first(), b.drop_first())
    }
}

/// Texts are totally ordered: exactly one of "less", "equal", "greater" holds.
pub proof fn lemma_text_lt_total(a: Seq<char>, b: Seq<char>)
    ensures
        a == b ==> !text_lt(a, b) && !text_lt(b, a),
        a != b ==> text_lt(a, b) != text_lt(b, a),
    decreases a.len(),
{
    if a.len() > 0 && b.len() > 0 && a[0] == b[0] {
        lemma_text_lt_total(a.drop_first(), b.drop_first());
        if a.drop_first() == b.drop_first() {
            assert(a == seq![a[0]] + a.drop_first());
            assert(b == seq![b[0]] + b.drop_first());
        }
    } else if a.len() == 0 && b.len() == 0 {
        assert(a == b);
    }
}

/// The order of texts is transitive.
pub proof fn lemma_text_lt_transitive(a: Seq<char>, b: Seq<char>, c: Seq<char>)
    requires
        text_lt(a, b),
        text_lt(b, c),
    ensures
        text_lt(a, c),
    decreases a.len(),
{
    if a.len() > 0 && a[0] == b[0] && b[0] == c[0] {
        lemma_text_lt_transitive(a.drop_first(), b.drop_first(), c.drop_first());
    }
}

/// Whether `a` comes strictly before `b`.
pub fn text_less(a: &str, b: &str) -> (less: bool)
    ensures
        less == text_lt(a@, b@),
{
    let left = chars_of(a);
    let right = chars_of(b);
    let mut i: usize = 0;
    assert(a@.skip(0) =~= a@ && b@.skip(0) =~= b@);
    while i < left.len() && i < right.len() && left[i] == right[i]
        invariant
            left@ == a@,
            right@ == b@,
            0 <= i <= left.len(),
            i <= right.len(),
            text_lt(a@, b@) == text_lt(a@.skip(i as int), b@.skip(i as int)),
        decreases left.len() - i,
    {
        assert(a@.skip(i as int).drop_first() == a@.skip(i + 1));
        assert(b@.skip(i as int).drop_first() == b@.skip(i + 1));
        i = i + 1;
    }
    if i >= right.len() {
        false
    } else if i >= left.len() {
        true
    } else {
        left[i] < right[i]
    }
}

/// The texts of a sequence of strings.
pub open spec fn texts(strings: Seq<String>) -> Seq<Seq<char>> {
    Seq::new(strings.len(), |i: int| strings[i]@)
}

/// Appending a string appends its text.
pub broadcast proof fn lemma_texts_push(strings: Seq<String>, string: String)
    ensures
        #[trigger] texts(strings.push(string)) == texts(strings).push(string@),
{
    assert(texts(strings.push(string)) =~= texts(strings).push(string@));
}

/// A copy of a list of strings.
pub fn copy_strings(strings: &Vec<String>) -> (copies: Vec<String>)
    ensures
        texts(copies@) == texts(strings@),
{
    let mut copies: Vec<String> = Vec::new();
    let mut i: usize = 0;
    while i < strings.len()
        invariant
            i <= strings.len(),
            copies@.len() == i,
            forall|j: int| 0 <= j < i ==> (#[trigger] copies@[j])@ == strings@[j]@,
        decreases strings.len() - i,
    {
        copies.push(strings[i].clone());
        i = i + 1;
    }
    assert(texts(copies@) =~= texts(strings@));
    copies
}

/// Whether a list of strings has one with the given text.
pub fn has_text(strings: &Vec<String>, text: &str) -> (found: bool)
    ensures
        found == texts(strings@).contains(text@),
{
    let mut i: usize = 0;
    while i < strings.len()
        invariant
            i <= strings.len(),
            forall|j: int| 0 <= j < i ==> (#[trigger] strings@[j])@ != text@,
        decreases strings.len() - i,
    {
        if same_text(strings[i].as_str(), text) {
            assert(texts(strings@)[i as int] == text@);
            return true;
        }
        i = i + 1;
    }
    assert forall|j: int| 0 <= j < texts(strings@).len() implies texts(strings@)[j] != text@ by {
        assert(strings@[j]@ != text@);
    }
    false
}

/// Whether a text holds a character.
pub fn has_char(text: &str, wanted: char) -> (found: bool)
    ensures
        found == text@.contains(wanted),
{
    let chars = chars_of(text);
    let mut i: usize = 0;
    while i < chars.len()
        invariant
            i <= chars.len(),
            chars@ == text@,
            forall|j: int| 0 <= j < i ==> text@[j] != wanted,
        decreases chars.len() - i,
    {
        if chars[i] == wanted {
            assert(text@[i as int] == wanted);
            return true;
        }
        i = i + 1;
    }
    false
}

/// The pieces of a text between the occurrences of a separator.
pub open spec fn split_on(text: Seq<char>, separator: char) -> Seq<Seq<char>>
    decreases text.len(),
{
    if text.len() == 0 {
        seq![Seq::empty()]
    } else {
        let pieces = split_on(text.drop_last(), separator);
        if text.last() == separator {
            pieces.push(Seq::empty())
        } else {
            pieces.drop_last().push(pieces.last().push(text.last()))
        }
    }
}

/// There is always at least one piece.
pub proof fn lemma_split_nonempty(text: Seq<char>, separator: char)
    ensures
        split_on(text, separator).len() >= 1,
    decreases text.len(),
{
    if text.len() > 0 {
        lemma_split_nonempty(text.drop_last(), separator);
    }
}

/// The pieces of a text between the occurrences of a separator.
pub fn split_text(text: &str, separator: char) -> (pieces: Vec<String>)
    ensures
        texts(pieces@) == split_on(text@, separator),
        pieces@.len() >= 1,
{
    let chars = chars_of(text);
    let mut pieces: Vec<String> = Vec::new();
    let mut piece = String::new();
    let mut i: usize = 0;
    assert(texts(pieces@).push(piece@) =~= split_on(text@.take(0), separator));
    while i < chars.len()
        invariant
            i <= chars.len(),
            chars@ == text@,
            texts(pieces@).push(piece@) == split_on(text@.take(i as int), separator),
        decreases chars.len() - i,
    {
        let c = chars[i];
        proof {
            assert(text@.take(i + 1).drop_last() =~= text@.take(i as int));
            assert(text@.take(i + 1).last() == c);
            assert(texts(pieces@).push(piece@).drop_last() =~= texts(pieces@));
        }
        if c == separator {
            proof {
                lemma_texts_push(pieces@, piece);
            }
            pieces.push(piece);
            piece = String::new();
            assert(piece@ =~= Seq::<char>::empty());
        } else {
            piece.push(c);
        }
        i = i + 1;
    }
    assert(text@.take(text@.len() as int) =~= text@);
    proof {
        lemma_texts_push(pieces@, piece);
        lemma_split_nonempty(text@, separator);
    }
    pieces.push(piece);
    pieces
}

/// The pieces put together again with the separator between them.
pub open spec fn join_on(pieces: Seq<Seq<char>>, separator: Seq<char>) -> Seq<char>
    decreases pieces.len(),
{
    if pieces.len() == 0 {
        Seq::empty()
    } else if pieces.len() == 1 {
        pieces[0]
    } else {
        join_on(pieces.drop_last(), separator) + separator + pieces.last()
    }
}

/// Splitting loses nothing: joining the pieces with the separator gives the text back.
pub proof fn lemma_join_split(text: Seq<char>, separator: char)
    ensures
        join_on(split_on(text, separator), seq![separator]) == text,
    decreases text.len(),
{
    if text.len() > 0 {
        let shorter = text.drop_last();
        let pieces = split_on(shorter, separator);
        lemma_join_split(shorter, separator);
        lemma_split_nonempty(shorter, separator);
        let now = split_on(text, separator);
        if text.last() == separator {
            assert(now.drop_last() =~= pieces);
            assert(join_on(now, seq![separator]) =~= shorter.push(separator));
        } else {
            assert(now.drop_last() =~= pieces.drop_last());
            if pieces.len() == 1 {
                assert(now.len() == 1);
                assert(join_on(now, seq![separator]) =~= shorter.push(text.last()));
            } else {
                assert(join_on(now, seq![separator]) =~= join_on(pieces, seq![separator]).push(text.last()));
            }
        }
        assert(shorter.push(text.last()) =~= text);
    }
}

/// The pieces that are not empty.
pub open spec fn nonempty(pieces: Seq<Seq<char>>) -> Seq<Seq<char>> {
    pieces.filter(|piece: Seq<char>| piece.len() > 0)
}

/// The parts of a dotted path; empty parts are dropped.
pub open spec fn path_of(text: Seq<char>) -> Seq<Seq<char>> {
    nonempty(split_on(text, '.'))
}

/// The parts of a dotted path; empty parts are dropped.
pub fn path_parts(input: &str) -> (parts: Vec<String>)
    ensures
        texts(parts@) == path_of(input@),
{
    let pieces = split_text(input, '.');
    let ghost all = texts(pieces@);
    let mut parts: Vec<String> = Vec::new();
    let mut i: usize = 0;
    assert(texts(parts@) =~= nonempty(all.take(0))) by {
        reveal(Seq::filter);
    }
    while i < pieces.len()
        invariant
            i <= pieces.len(),
            all == texts(pieces@),
            texts(parts@) == nonempty(all.take(i as int)),
        decreases pieces.len() - i,
    {
        assert(all.take(i + 1).drop_last() =~= all.take(i as int));
        assert(all.take(i + 1).last() == pieces@[i as int]@);
        proof {
            reveal(Seq::filter);
        }
        if !pieces[i].as_str().is_empty() {
            proof {
                lemma_texts_push(parts@, pieces@[i as int]);
            }
            parts.push(pieces[i].clone());
        }
        i = i + 1;
    }
    assert(all.take(all.len() as int) =~= all);
    parts
}

/// The characters with the Unicode property White_Space.
pub open spec fn is_space(c: char) -> bool {
    let code = c as int;
    ||| 0x9 <= code <= 0xd
    ||| code == 0x20
    ||| code == 0x85
    ||| code == 0xa0
    ||| code == 0x1680
    ||| 0x2000 <= code <= 0x200a
    ||| code == 0x2028
    ||| code == 0x2029
    ||| code == 0x202f
    ||| code == 0x205f
    ||| code == 0x3000
}

/// Whether a character is white space.
pub fn is_white_space(c: char) -> (space: bool)
    ensures
        space == is_space(c),
{
    let code: u32 = c as u32;
    (0x9 <= code && code <= 0xd) || code == 0x20 || code == 0x85 || code == 0xa0 || code == 0x1680
        || (0x2000 <= code && code <= 0x200a) || code == 0x2028 || code == 0x2029 || code == 0x202f
        || code == 0x205f || code == 0x3000
}

/// The text without the white space at its start.
pub open spec fn trim_start(text: Seq<char>) -> Seq<char>
    decreases text.len(),
{
    if text.len() > 0 && is_space(text[0]) {
        trim_start(text.drop_first())
    } else {
        text
    }
}

/// The text without the white space at its end.
pub open spec fn trim_end(text: Seq<char>) -> Seq<char>
    decreases text.len(),
{
    if text.len() > 0 && is_space(text.last()) {
        trim_end(text.drop_last())
    } else {
        text
    }
}

/// The text without the white space at its ends.
pub open spec fn trimmed(text: Seq<char>) -> Seq<char> {
    trim_end(trim_start(text))
}

/// The text without the white space at its ends.
pub fn trim_text(text: &str) -> (result: String)
    ensures
        result@ == trimmed(text@),
{
    let chars = chars_of(text);
    let mut start: usize = 0;
    let mut end: usize = chars.len();
    assert(text@.skip(0) =~= text@);
    while start < chars.len() && is_white_space(chars[start])
        invariant
            start <= chars.len(),
            chars@ == text@,
            trim_start(text@) == trim_start(text@.skip(start as int)),
        decreases chars.len() - start,
    {
        assert(text@.skip(start as int).drop_first() =~= text@.skip(start + 1));
        start = start + 1;
    }
    assert(text@.skip(start as int) == text@.subrange(start as int, end as int));
    while start < end && is_white_space(chars[end - 1])
        invariant
            start <= end <= chars.len(),
            chars@ == text@,
            trimmed(text@) == trim_end(text@.subrange(start as int, end as int)),
        decreases end,
    {
        assert(text@.subrange(start as int, end as int).drop_last() =~= text@.subrange(start as int, end - 1));
        end = end - 1;
    }
    text_between(&chars, start, end)
}

/// A character with ASCII capitals made small.
pub open spec fn ascii_lower(c: char) -> char {
    if 'A' <= c <= 'Z' {
        (c as int + 32) as char
    } else {
        c
    }
}

/// A text with ASCII capitals made small.
pub open spec fn ascii_lower_text(text: Seq<char>) -> Seq<char> {
    Seq::new(text.len(), |i: int| ascii_lower(text[i]))
}

/// A text with ASCII capitals made small.
pub fn lower_text(text: &str) -> (lower: String)
    ensures
        lower@ == ascii_lower_text(text@),
{
    let chars = chars_of(text);
    let mut lower = String::new();
    let mut i: usize = 0;
    while i < chars.len()
        invariant
            i <= chars.len(),
            chars@ == text@,
            lower@.len() == i,
            forall|j: int| 0 <= j < i ==> lower@[j] == ascii_lower(text@[j]),
        decreases chars.len() - i,
    {
        let c = chars[i];
        if 'A' <= c && c <= 'Z' {
            lower.push((c as u8 + 32) as char);
        } else {
            lower.push(c);
        }
        i = i + 1;
    }
    assert(lower@ =~= ascii_lower_text(text@));
    lower
}

/// Whether two texts are the same but for the case of ASCII letters.
pub fn same_ignoring_case(a: &str, b: &str) -> (same: bool)
    ensures
        same == (ascii_lower_text(a@) == ascii_lower_text(b@)),
{
    let left = lower_text(a);
    let right = lower_text(b);
    left == right
}

/// The number that a decimal digit stands for.
pub open spec fn digit_value(c: char) -> int {
    c as int - 48
}

/// Whether a text is made of decimal digits only.
pub open spec fn all_digits(text: Seq<char>) -> bool {
    forall|i: int| 0 <= i < text.len() ==> '0' <= #[trigger] text[i] <= '9'
}

/// The number that a text of decimal digits stands for.
pub open spec fn digits_value(text: Seq<char>) -> int
    decreases text.len(),
{
    if text.len() == 0 {
        0
    } else {
        digits_value(text.drop_last()) * 10 + digit_value(text.last())
    }
}

proof fn lemma_digits_grow(text: Seq<char>, shorter: int)
    requires
        all_digits(text),
        0 <= shorter <= text.len(),
    ensures
        0 <= digits_value(text.take(shorter)) <= digits_value(text),
    decreases text.len(),
{
    if shorter == text.len() {
        assert(text.take(shorter) =~= text);
        if text.len() > 0 {
            lemma_digits_grow(text.drop_last(), text.len() - 1);
            assert(text.drop_last().take(text.len() - 1) =~= text.drop_last());
        }
    } else {
        lemma_digits_grow(text.drop_last(), shorter);
        assert(text.drop_last().take(shorter) =~= text.take(shorter));
    }
}

/// The number that the digits of a text stand for, where it is made of digits and the number is
/// at most `limit`.
pub fn read_digits(chars: &Vec<char>, start: usize, limit: u64) -> (number: Option<u64>)
    requires
        start <= chars@.len(),
    ensures
        number is Some <==> (chars@.skip(start as int).len() > 0 && all_digits(chars@.skip(start as int))
            && digits_value(chars@.skip(start as int)) <= limit),
        number matches Some(n) ==> n == digits_value(chars@.skip(start as int)),
{
    let ghost text = chars@.skip(start as int);
    if start == chars.len() {
        return None;
    }
    let mut number: u64 = 0;
    let mut i: usize = start;
    assert(text.take(0) =~= Seq::<char>::empty());
    while i < chars.len()
        invariant
            start <= i <= chars.len(),
            text == chars@.skip(start as int),
            all_digits(text.take(i - start)),
            number == digits_value(text.take(i - start)),
            number <= limit,
        decreases chars.len() - i,
    {
        let c = chars[i];
        assert(text[i - start] == c);
        if c < '0' || c > '9' {
            return None;
        }
        let digit: u64 = (c as u32 - 48) as u64;
        proof {
            let longer = text.take(i + 1 - start);
            assert(longer.drop_last() =~= text.take(i - start));
            assert(longer.last() == c);
            assert(digits_value(longer) == number * 10 + digit);
            if all_digits(text) {
                lemma_digits_grow(text, i + 1 - start);
            }
        }
        if digit > limit || number > (limit - digit) / 10 {
            return None;
        }
        number = number * 10 + digit;
        i = i + 1;
    }
    assert(text.take(text.len() as int) =~= text);
    Some(number)
}

/// The decimal digits of a number.
pub open spec fn decimal(n: nat) -> Seq<char>
    decreases n,
{
    if n < 10 {
        seq![(48 + n) as char]
    } else {
        decimal(n / 10).push((48 + n % 10) as char)
    }
}

/// The decimal text of an integer.
pub open spec fn integer_text(n: int) -> Seq<char> {
    if n < 0 {
        seq!['-'] + decimal((-n) as nat)
    } else {
        decimal(n as nat)
    }
}

fn digit_char(digit: u64) -> (c: char)
    requires
        digit < 10,
    ensures
        c == (48 + digit) as char,
{
    (48 + digit as u8) as char
}

/// Appends the decimal digits of a number.
pub fn push_decimal(text: &mut String, n: u64)
    ensures
        final(text)@ == old(text)@ + decimal(n as nat),
    decreases n,
{
    if n < 10 {
        text.push(digit_char(n));
        assert(text@ =~= old(text)@ + decimal(n as nat));
    } else {
        push_decimal(text, n / 10);
        text.push(digit_char(n % 10));
        assert(text@ =~= old(text)@ + decimal(n as nat));
    }
}

/// The decimal text of an integer.
pub fn decimal_text(n: i128) -> (text: String)
    requires
        -0xffff_ffff_ffff_ffff <= n <= 0xffff_ffff_ffff_ffff,
    ensures
        text@ == integer_text(n as int),
{
    let mut text = String::new();
    if n < 0 {
        text.push('-');
        push_decimal(&mut text, (-n) as u64);
        assert(text@ =~= seq!['-'] + decimal((-n) as nat));
    } else {
        push_decimal(&mut text, n as u64);
        assert(text@ =~= decimal(n as nat));
    }
    text
}

/// The text that `char::to_uppercase` gives for a character.
pub uninterp spec fn uppercase_of(c: char) -> Seq<char>;

/// The upper case of a character, by `char::to_uppercase`.
#[verifier::external_body]
fn uppercase(c: char) -> (upper: String)
    ensures
        upper@ == uppercase_of(c),
{
    c.to_uppercase().to_string()
}

/// The upper case of a character.
pub open spec fn upper(c: char) -> Seq<char> {
    if 'a' <= c <= 'z' {
        seq![(c as int - 32) as char]
    } else if (c as int) < 128 {
        seq![c]
    } else {
        uppercase_of(c)
    }
}

/// A function name as it is looked up: underscores dropped, all in upper case.
pub open spec fn normalized(name: Seq<char>) -> Seq<char>
    decreases name.len(),
{
    if name.len() == 0 {
        Seq::empty()
    } else if name.last() == '_' {
        normalized(name.drop_last())
    } else {
        normalized(name.drop_last()) + upper(name.last())
    }
}

/// A function name as it is looked up.
pub fn normalized_function_name(function: &str) -> (name: String)
    ensures
        name@ == normalized(function@),
{
    let chars = chars_of(function);
    let mut name = String::new();
    let mut i: usize = 0;
    assert(function@.take(0) =~= Seq::<char>::empty());
    assert(name@ =~= normalized(function@.take(0)));
    while i < chars.len()
        invariant
            i <= chars.len(),
            chars@ == function@,
            name@ == normalized(function@.take(i as int)),
        decreases chars.len() - i,
    {
        let c = chars[i];
        assert(function@.take(i + 1).drop_last() =~= function@.take(i as int));
        assert(function@.take(i + 1).last() == c);
        let ghost before = name@;
        if c == '_' {
        } else if 'a' <= c && c <= 'z' {
            name.push((c as u8 - 32) as char);
            assert(name@ =~= before + upper(c));
        } else if c <= '\x7f' {
            name.push(c);
            assert(name@ =~= before + upper(c));
        } else {
            let more = uppercase(c);
            push_text(&mut name, more.as_str());
        }
        i = i + 1;
    }
    assert(function@.take(i as int) =~= function@);
    name
}

/// Names that differ only in the case of ASCII letters are looked up alike.
pub proof fn lemma_names_ignore_case(a: Seq<char>, b: Seq<char>)
    requires
        ascii_lower_text(a) == ascii_lower_text(b),
    ensures
        normalized(a) == normalized(b),
    decreases a.len(),
{
    assert(ascii_lower_text(a).len() == a.len());
    assert(ascii_lower_text(b).len() == b.len());
    if a.len() > 0 {
        assert(ascii_lower_text(a).last() == ascii_lower(a.last()));
        assert(ascii_lower_text(b).last() == ascii_lower(b.last()));
        assert(ascii_lower_text(a.drop_last()) =~= ascii_lower_text(a).drop_last());
        assert(ascii_lower_text(b.drop_last()) =~= ascii_lower_text(b).drop_last());
        lemma_names_ignore_case(a.drop_last(), b.drop_last());
    }
}

/// Appends a text to another.
pub fn push_text(text: &mut String, more: &str)
    ensures
        final(text)@ == old(text)@ + more@,
{
    let chars = chars_of(more);
    let ghost before = text@;
    let mut i: usize = 0;
    assert(text@ =~= before + more@.take(0));
    while i < chars.len()
        invariant
            i <= chars.len(),
            chars@ == more@,
            text@ == before + more@.take(i as int),
        decreases chars.len() - i,
    {
        text.push(chars[i]);
        i = i + 1;
        assert(more@.take(i as int) =~= more@.take(i - 1).push(more@[i - 1]));
        assert(text@ =~= before + more@.take(i as int));
    }
    assert(more@.take(i as int) =~= more@);
}

/// The decimal digits of a number stand for it.
pub proof fn lemma_decimal(n: nat)
    ensures
        all_digits(decimal(n)),
        digits_value(decimal(n)) == n,
        decimal(n).len() >= 1,
        n < 10 ==> decimal(n).len() == 1,
        10 <= n < 100 ==> decimal(n).len() == 2,
        100 <= n < 1000 ==> decimal(n).len() == 3,
        1000 <= n < 10000 ==> decimal(n).len() == 4,
    decreases n,
{
    if n < 10 {
        let digits = seq![(48 + n) as char];
        assert(digits.drop_last() =~= Seq::<char>::empty());
        assert(digits.last() == (48 + n) as char);
        assert(digits_value(digits) == digits_value(digits.drop_last()) * 10 + digit_value(digits.last()));
    } else {
        lemma_decimal(n / 10);
        let digits = decimal(n);
        assert(digits.drop_last() =~= decimal(n / 10));
        assert(digits.last() == (48 + n % 10) as char);
        assert forall|i: int| 0 <= i < digits.len() implies '0' <= #[trigger] digits[i] <= '9' by {
            if i < digits.len() - 1 {
                assert(digits[i] == decimal(n / 10)[i]);
            }
        }
    }
}

/// Zeros in front do not change a number.
pub proof fn lemma_leading_zeros(zeros: Seq<char>, digits: Seq<char>)
    requires
        forall|i: int| 0 <= i < zeros.len() ==> zeros[i] == '0',
    ensures
        digits_value(zeros + digits) == digits_value(digits),
    decreases zeros.len() + digits.len(),
{
    let all = zeros + digits;
    if digits.len() > 0 {
        lemma_leading_zeros(zeros, digits.drop_last());
        assert(all.drop_last() =~= zeros + digits.drop_last());
    } else if zeros.len() > 0 {
        assert(all =~= zeros);
        assert(zeros.drop_last() + digits =~= zeros.drop_last());
        lemma_leading_zeros(zeros.drop_last(), digits);
    } else {
        assert(all =~= digits);
    }
}

/// A text without the separator is one piece.
pub proof fn lemma_split_single(text: Seq<char>, separator: char)
    requires
        !text.contains(separator),
    ensures
        split_on(text, separator) == seq![text],
    decreases text.len(),
{
    if text.len() > 0 {
        let rest = text.drop_last();
        assert(!rest.contains(separator)) by {
            if rest.contains(separator) {
                let i = choose|i: int| 0 <= i < rest.len() && rest[i] == separator;
                assert(text[i] == separator);
            }
        }
        lemma_split_single(rest, separator);
        assert(text.last() == text[text.len() - 1]);
        assert(rest.push(text.last()) =~= text);
        assert(split_on(text, separator) =~= seq![text]);
    } else {
        assert(text =~= Seq::empty());
    }
}

/// Behind a separator a text without one is the last piece.
pub proof fn lemma_split_behind(text: Seq<char>, last: Seq<char>, separator: char)
    requires
        !last.contains(separator),
    ensures
        split_on(text.push(separator) + last, separator) == split_on(text, separator).push(last),
    decreases last.len(),
{
    let whole = text.push(separator) + last;
    if last.len() == 0 {
        assert(whole =~= text.push(separator));
        assert(whole.drop_last() =~= text);
        assert(last =~= Seq::empty());
    } else {
        let rest = last.drop_last();
        assert(!rest.contains(separator)) by {
            if rest.contains(separator) {
                let i = choose|i: int| 0 <= i < rest.len() && rest[i] == separator;
                assert(last[i] == separator);
            }
        }
        lemma_split_behind(text, rest, separator);
        assert(whole.drop_last() =~= text.push(separator) + rest);
        assert(last.last() == last[last.len() - 1]);
        assert(whole.last() == last.last());
        let pieces = split_on(text, separator).push(rest);
        assert(pieces.drop_last() =~= split_on(text, separator));
        assert(rest.push(last.last()) =~= last);
    }
}

} // verus!
