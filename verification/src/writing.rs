//! How queries are written: texts, comments and values are read back as they were meant.
use vstd::prelude::*;
use crate::lexer::{before, comment_at, depth_after, is_sign, is_word_char, line_end, quoted, word_end, words_from, Tok};
use crate::number::integer_num;
use crate::parser::{columns_at, entries_at, is_name, is_numeral, map_item_at, map_items_at, numeral_value, query_of, sign_at, sort_keys_at, step_at, steps_from, value_at, values_at, without_sign, word_value};
use crate::query::{Expr, MapItem, SortDirection, Step};
use crate::text::{ascii_lower_text, decimal, integer_text, is_space, join_on, lemma_decimal, lemma_join_split, lemma_split_nonempty, lemma_split_single, path_of, split_on};
use crate::value::{Json, Num};

verus! {

/// Whether a part stands in a sequence at a position.
pub open spec fn stands_at<A>(all: Seq<A>, pos: int, part: Seq<A>) -> bool {
    &&& 0 <= pos
    &&& pos + part.len() <= all.len()
    &&& forall|i: int| 0 <= i < part.len() ==> all[pos + i] == #[trigger] part[i]
}

/// A text with a backslash before each quote.
pub open spec fn escaped(text: Seq<char>, quote: char) -> Seq<char>
    decreases text.len(),
{
    if text.len() == 0 {
        Seq::empty()
    } else if text[0] == quote {
        seq!['\\', quote] + escaped(text.drop_first(), quote)
    } else {
        seq![text[0]] + escaped(text.drop_first(), quote)
    }
}

/// Whether a text can be put in quotes: a backslash at its end would escape the quote.
pub open spec fn can_be_quoted(text: Seq<char>) -> bool {
    text.len() == 0 || text.last() != '\\'
}

proof fn lemma_part_stands<A>(all: Seq<A>, pos: int, first: Seq<A>, rest: Seq<A>)
    requires
        stands_at(all, pos, first + rest),
    ensures
        stands_at(all, pos, first),
        stands_at(all, pos + first.len(), rest),
{
    let whole = first + rest;
    assert forall|i: int| 0 <= i < first.len() implies all[pos + i] == #[trigger] first[i] by {
        assert(whole[i] == first[i]);
    }
    assert forall|i: int| 0 <= i < rest.len() implies all[pos + first.len() + i] == #[trigger] rest[i] by {
        assert(whole[first.len() + i] == rest[i]);
    }
}

/// A quoted text is read as it was meant, whatever quotes it holds.
pub proof fn lemma_quoted_text_is_read(all: Seq<char>, pos: int, text: Seq<char>, quote: char)
    requires
        quote == '\'' || quote == '"',
        can_be_quoted(text),
        stands_at(all, pos, escaped(text, quote).push(quote)),
    ensures
        quoted(all, pos, quote) == Some((text, pos + escaped(text, quote).len() + 1)),
    decreases text.len(),
{
    let written = escaped(text, quote);
    assert(written.push(quote) =~= written + seq![quote]);
    lemma_part_stands(all, pos, written, seq![quote]);
    if text.len() == 0 {
        assert(all[pos + 0] == seq![quote][0]);
    } else {
        let rest = text.drop_first();
        let more = escaped(rest, quote);
        let first = if text[0] == quote {
            seq!['\\', quote]
        } else {
            seq![text[0]]
        };
        assert(written.push(quote) =~= first + more.push(quote));
        lemma_part_stands(all, pos, first, more.push(quote));
        lemma_quoted_text_is_read(all, pos + first.len(), rest, quote);
        assert(all[pos + 0] == first[0]);
        assert(seq![text[0]] + rest =~= text);
        if text[0] == quote {
            assert(all[pos + 1] == first[1]);
        } else if text[0] == '\\' {
            assert(rest.len() > 0);
            assert(all[pos + 1 + 0] == more.push(quote)[0]);
            assert(more[0] != quote);
        }
    }
}

/// What stands before a position does not matter to the words from there on.
pub proof fn lemma_words_are_local(text: Seq<char>, pos: int, depth: int)
    requires
        0 <= pos <= text.len(),
    ensures
        words_from(text, pos, depth) == words_from(text.skip(pos), 0, depth),
{
    lemma_same_words_from(text, text.skip(pos), pos, 0, depth);
}

proof fn lemma_same_words_from(text: Seq<char>, tail: Seq<char>, shift: int, pos: int, depth: int)
    requires
        0 <= shift <= text.len(),
        tail == text.skip(shift),
        0 <= pos <= tail.len(),
    ensures
        words_from(text, shift + pos, depth) == words_from(tail, pos, depth),
    decreases tail.len() - pos,
{
    if pos < tail.len() {
        let c = tail[pos];
        assert(text[shift + pos] == c);
        assert(comment_at(text, shift + pos) == comment_at(tail, pos));
        lemma_same_ends(text, tail, shift, pos);
        if c == '\n' || is_space(c) {
            lemma_same_words_from(text, tail, shift, pos + 1, depth);
        } else if comment_at(tail, pos) {
            lemma_same_words_from(text, tail, shift, line_end(tail, pos), depth);
        } else if c == '\'' || c == '"' {
            lemma_same_quoted(text, tail, shift, pos + 1, c);
            match quoted(tail, pos + 1, c) {
                Some((inner, end)) => lemma_same_words_from(text, tail, shift, end, depth),
                None => {},
            }
        } else if is_word_char(c) {
            assert(text.subrange(shift + pos, shift + word_end(tail, pos)) =~= tail.subrange(pos, word_end(tail, pos)));
            lemma_same_words_from(text, tail, shift, word_end(tail, pos), depth);
        } else if is_sign(c) {
            lemma_same_words_from(text, tail, shift, pos + 1, depth_after(depth, c));
        }
    }
}

proof fn lemma_same_ends(text: Seq<char>, tail: Seq<char>, shift: int, pos: int)
    requires
        0 <= shift <= text.len(),
        tail == text.skip(shift),
        0 <= pos <= tail.len(),
    ensures
        line_end(text, shift + pos) == shift + line_end(tail, pos),
        pos <= line_end(tail, pos) <= tail.len(),
        pos < tail.len() && tail[pos] != '\n' ==> pos < line_end(tail, pos),
        word_end(text, shift + pos) == shift + word_end(tail, pos),
        pos <= word_end(tail, pos) <= tail.len(),
        pos < tail.len() && is_word_char(tail[pos]) && !comment_at(tail, pos) ==> pos < word_end(tail, pos),
    decreases tail.len() - pos,
{
    if pos < tail.len() {
        assert(text[shift + pos] == tail[pos]);
        assert(comment_at(text, shift + pos) == comment_at(tail, pos));
        lemma_same_ends(text, tail, shift, pos + 1);
    }
}

proof fn lemma_same_quoted(text: Seq<char>, tail: Seq<char>, shift: int, pos: int, quote: char)
    requires
        0 <= shift <= text.len(),
        tail == text.skip(shift),
        0 <= pos <= tail.len(),
    ensures
        match quoted(tail, pos, quote) {
            Some((inner, end)) => quoted(text, shift + pos, quote) == Some((inner, shift + end)) && pos < end <= tail.len(),
            None => quoted(text, shift + pos, quote) is None,
        },
    decreases tail.len() - pos,
{
    if pos < tail.len() {
        assert(text[shift + pos] == tail[pos]);
        if pos + 1 < tail.len() {
            assert(text[shift + pos + 1] == tail[pos + 1]);
        }
        if tail[pos] == quote {
        } else if tail[pos] == '\\' && pos + 1 < tail.len() && tail[pos + 1] == quote {
            lemma_same_quoted(text, tail, shift, pos + 2, quote);
        } else {
            lemma_same_quoted(text, tail, shift, pos + 1, quote);
        }
    }
}

/// Whether a text is a comment: two minus signs and the rest of a line.
pub open spec fn is_comment(text: Seq<char>) -> bool {
    comment_at(text, 0) && !text.contains('\n')
}

proof fn lemma_comment_end(comment: Seq<char>, rest: Seq<char>, pos: int)
    requires
        0 <= pos <= comment.len(),
        !comment.contains('\n'),
        rest.len() == 0 || rest[0] == '\n',
    ensures
        line_end(comment + rest, pos) == comment.len(),
    decreases comment.len() - pos,
{
    if pos < comment.len() {
        assert(comment.contains(comment[pos]));
        lemma_comment_end(comment, rest, pos + 1);
    }
}

/// A comment is ignored: the words of a line tail with a comment in front are those without it.
pub proof fn lemma_comment_is_ignored(comment: Seq<char>, rest: Seq<char>, depth: int)
    requires
        is_comment(comment),
        rest.len() == 0 || rest[0] == '\n',
    ensures
        words_from(comment + rest, 0, depth) == words_from(rest, 0, depth),
{
    let all = comment + rest;
    assert(all[0] == '-' && all[1] == '-');
    assert(comment_at(all, 0));
    lemma_comment_end(comment, rest, 0);
    lemma_words_are_local(all, comment.len() as int, depth);
    assert(all.skip(comment.len() as int) =~= rest);
}

/// The text of a word of a query.
pub open spec fn tok_text(tok: Tok) -> Seq<char> {
    match tok {
        Tok::Word(word) => word,
        Tok::Text(text) => seq!['\''] + escaped(text, '\'').push('\''),
        Tok::Sign(sign) => seq![sign],
        Tok::Line => seq!['\n'],
    }
}

/// Whether a word of a query can be written: a word is made of characters that can stand in one,
/// without the start of a comment in it.
pub open spec fn tok_can_be_written(tok: Tok) -> bool {
    match tok {
        Tok::Word(word) => {
            &&& word.len() > 0
            &&& forall|i: int| 0 <= i < word.len() ==> is_word_char(#[trigger] word[i])
            &&& forall|i: int| 0 <= i < word.len() - 1 ==> !((#[trigger] word[i]) == '-' && word[i + 1] == '-')
        },
        Tok::Text(text) => can_be_quoted(text),
        Tok::Sign(sign) => is_sign(sign),
        Tok::Line => true,
    }
}

/// Words written one after another, with a space behind each.
pub open spec fn toks_text(toks: Seq<Tok>) -> Seq<char>
    decreases toks.len(),
{
    if toks.len() == 0 {
        Seq::empty()
    } else {
        tok_text(toks[0]) + (seq![' '] + toks_text(toks.drop_first()))
    }
}

/// The depth of brackets behind a word.
pub open spec fn tok_depth(tok: Tok, depth: int) -> int {
    match tok {
        Tok::Sign(sign) => depth_after(depth, sign),
        _ => depth,
    }
}

/// The depth of brackets behind words.
pub open spec fn depth_behind(toks: Seq<Tok>, depth: int) -> int
    decreases toks.len(),
{
    if toks.len() == 0 {
        depth
    } else {
        depth_behind(toks.drop_first(), tok_depth(toks[0], depth))
    }
}

/// Whether lines end outside brackets only.
pub open spec fn lines_end_outside(toks: Seq<Tok>, depth: int) -> bool
    decreases toks.len(),
{
    toks.len() == 0 || ((toks[0] is Line ==> depth == 0) && lines_end_outside(
        toks.drop_first(),
        tok_depth(toks[0], depth),
    ))
}

proof fn lemma_word_end_is_found(all: Seq<char>, pos: int, word: Seq<char>, read: int)
    requires
        tok_can_be_written(Tok::Word(word)),
        stands_at(all, pos, word),
        0 <= read <= word.len(),
        pos + word.len() < all.len(),
        all[pos + word.len()] == ' ',
    ensures
        word_end(all, pos + read) == pos + word.len(),
    decreases word.len() - read,
{
    if read < word.len() {
        assert(all[pos + read] == word[read]);
        if read + 1 < word.len() {
            assert(all[pos + (read + 1)] == word[read + 1]);
        }
        assert(!comment_at(all, pos + read));
        lemma_word_end_is_found(all, pos, word, read + 1);
    }
}

/// Words that can be written are read as they were meant.
pub proof fn lemma_words_are_read(all: Seq<char>, pos: int, toks: Seq<Tok>, depth: int)
    requires
        forall|i: int| 0 <= i < toks.len() ==> tok_can_be_written(#[trigger] toks[i]),
        lines_end_outside(toks, depth),
        stands_at(all, pos, toks_text(toks)),
        pos + toks_text(toks).len() == all.len(),
    ensures
        words_from(all, pos, depth) == Some(toks),
    decreases toks.len(),
{
    if toks.len() == 0 {
        assert(toks =~= Seq::empty());
    } else {
        let rest = toks.drop_first();
        let written = tok_text(toks[0]);
        let behind = pos + written.len();
        lemma_part_stands(all, pos, written, seq![' '] + toks_text(rest));
        lemma_part_stands(all, behind, seq![' '], toks_text(rest));
        assert(all[behind + 0] == seq![' '][0]);
        assert forall|i: int| 0 <= i < rest.len() implies tok_can_be_written(#[trigger] rest[i]) by {
            assert(rest[i] == toks[i + 1]);
        }
        let next_depth = tok_depth(toks[0], depth);
        lemma_words_are_read(all, behind + 1, rest, next_depth);
        assert(words_from(all, behind, next_depth) == Some(rest));
        assert(seq![toks[0]] + rest =~= toks);
        assert(tok_can_be_written(toks[0]));
        assert(all[pos + 0] == written[0]);
        match toks[0] {
            Tok::Word(word) => {
                if word.len() > 1 {
                    assert(all[pos + 1] == word[1]);
                }
                lemma_word_end_is_found(all, pos, word, 0);
                assert(all.subrange(pos, behind) =~= word);
                assert(!comment_at(all, pos));
                assert(words_from(all, pos, depth) == before(toks[0], words_from(all, behind, depth)));
            },
            Tok::Text(text) => {
                lemma_part_stands(all, pos, seq!['\''], escaped(text, '\'').push('\''));
                lemma_quoted_text_is_read(all, pos + 1, text, '\'');
                assert(words_from(all, pos, depth) == before(toks[0], words_from(all, behind, depth)));
            },
            Tok::Sign(sign) => {
                assert(words_from(all, pos, depth) == before(toks[0], words_from(all, behind, next_depth)));
            },
            Tok::Line => {
                assert(words_from(all, pos, depth) == before(toks[0], words_from(all, behind, depth)));
            },
        }
    }
}

/// The word for an integer of 64 bits.
pub open spec fn number_word(number: Num) -> Seq<char> {
    match number {
        Num::PosInt(n) => integer_text(n as int),
        Num::NegInt(n) => integer_text(n as int),
        Num::Float(_) => Seq::empty(),
    }
}

/// The words that a value is written with.
pub open spec fn words_for(expr: Expr) -> Seq<Tok>
    decreases expr,
{
    match expr {
        Expr::Constant(Json::Text(text)) => seq![Tok::Text(text)],
        Expr::Constant(Json::Bool(answer)) => seq![
            Tok::Word(
                if answer {
                    "true"@
                } else {
                    "false"@
                },
            ),
        ],
        Expr::Constant(Json::Number(number)) => seq![Tok::Word(number_word(number))],
        Expr::Constant(_) => Seq::empty(),
        Expr::Reference(path) => seq![Tok::Word(join_on(path, seq!['.']))],
        Expr::Secret(name) => seq![Tok::Word(seq!['@'] + name)],
        Expr::Array(items) => seq![Tok::Sign('[')] + (list_words(items) + seq![Tok::Sign(']')]),
        Expr::Object(entries) => seq![Tok::Sign('{')] + (entry_words(entries) + seq![Tok::Sign('}')]),
        Expr::Call(name, arguments) => seq![Tok::Word(name), Tok::Sign('(')] + (list_words(arguments) + seq![
            Tok::Sign(')'),
        ]),
    }
}

/// The words that a list of values is written with.
pub open spec fn list_words(list: Seq<Expr>) -> Seq<Tok>
    decreases list,
{
    if list.len() == 0 {
        Seq::empty()
    } else if list.len() == 1 {
        words_for(list[0])
    } else {
        words_for(list[0]) + (seq![Tok::Sign(',')] + list_words(list.drop_first()))
    }
}

/// The words that the entries of an object are written with.
pub open spec fn entry_words(entries: Seq<(Seq<char>, Expr)>) -> Seq<Tok>
    decreases entries,
{
    if entries.len() == 0 {
        Seq::empty()
    } else {
        let first = seq![Tok::Text(entries[0].0), Tok::Sign(':')] + words_for(entries[0].1);
        if entries.len() == 1 {
            first
        } else {
            first + (seq![Tok::Sign(',')] + entry_words(entries.drop_first()))
        }
    }
}

/// Whether a value can be written: texts, truth values and integers of 64 bits can; a path has to
/// be a name that is not a truth value, and so does the name of a function.
pub open spec fn can_be_written(expr: Expr) -> bool
    decreases expr,
{
    match expr {
        Expr::Constant(Json::Text(_)) => true,
        Expr::Constant(Json::Bool(_)) => true,
        Expr::Constant(Json::Number(number)) => exists|n: i64| number == integer_num(n),
        Expr::Constant(_) => false,
        Expr::Reference(path) => {
            let word = join_on(path, seq!['.']);
            &&& is_name(word)
            &&& path_of(word) == path
            &&& ascii_lower_text(word) != ascii_lower_text("true"@)
            &&& ascii_lower_text(word) != ascii_lower_text("false"@)
        },
        Expr::Secret(name) => name.len() > 0,
        Expr::Array(items) => all_can_be_written(items),
        Expr::Object(entries) => entries_can_be_written(entries),
        Expr::Call(name, arguments) => is_name(name) && all_can_be_written(arguments),
    }
}

/// Whether all values of a list can be written.
pub open spec fn all_can_be_written(list: Seq<Expr>) -> bool
    decreases list,
{
    list.len() == 0 || (can_be_written(list[0]) && all_can_be_written(list.drop_first()))
}

/// Whether the values of all entries can be written.
pub open spec fn entries_can_be_written(entries: Seq<(Seq<char>, Expr)>) -> bool
    decreases entries,
{
    entries.len() == 0 || (can_be_written(entries[0].1) && entries_can_be_written(entries.drop_first()))
}

proof fn lemma_first_piece(text: Seq<char>, separator: char)
    requires
        text.len() > 0,
        split_on(text, separator)[0].len() > 0,
    ensures
        split_on(text, separator)[0][0] == text[0],
    decreases text.len(),
{
    let shorter = text.drop_last();
    lemma_split_nonempty(shorter, separator);
    let pieces = split_on(shorter, separator);
    if shorter.len() == 0 {
    } else if text.last() == separator || pieces.len() > 1 || pieces[0].len() > 0 {
        assert(split_on(text, separator)[0].len() > 0);
        if pieces[0].len() > 0 {
            lemma_first_piece(shorter, separator);
        }
    } else {
        lemma_join_split(shorter, separator);
    }
}

proof fn lemma_no_numeral(word: Seq<char>)
    requires
        word.len() > 0,
        word[0] != '-',
        !('0' <= word[0] <= '9'),
    ensures
        !is_numeral(word),
{
    if is_numeral(word) {
        let parts = split_on(word, '.');
        assert(parts[0].len() > 0);
        lemma_first_piece(word, '.');
        assert('0' <= parts[0][0] <= '9');
    }
}

proof fn lemma_no_truth_value(word: Seq<char>)
    requires
        word.len() > 0,
        !('a' <= word[0] <= 'z'),
        !('A' <= word[0] <= 'Z'),
    ensures
        ascii_lower_text(word) != ascii_lower_text("true"@),
        ascii_lower_text(word) != ascii_lower_text("false"@),
{
    reveal_strlit("true");
    reveal_strlit("false");
    assert(ascii_lower_text(word)[0] == word[0]);
    assert(ascii_lower_text("true"@)[0] == 't');
    assert(ascii_lower_text("false"@)[0] == 'f');
}

proof fn lemma_digits_are_a_numeral(n: nat)
    ensures
        is_numeral(decimal(n)),
        is_numeral(seq!['-'] + decimal(n)),
{
    let digits = decimal(n);
    lemma_decimal(n);
    assert('0' <= digits[0] <= '9');
    assert(!digits.contains('.'));
    lemma_split_single(digits, '.');
    assert(without_sign(digits) == digits);
    assert((seq!['-'] + digits).skip(1) =~= digits);
}

proof fn lemma_number_is_read(n: i64)
    ensures
        word_value(number_word(integer_num(n))) == Some(Expr::Constant(Json::Number(integer_num(n)))),
{
    let word = number_word(integer_num(n));
    let size = if n < 0 {
        (-n) as nat
    } else {
        n as nat
    };
    let digits = decimal(size);
    lemma_decimal(size);
    lemma_digits_are_a_numeral(size);
    assert('0' <= digits[0] <= '9');
    assert((seq!['-'] + digits).skip(1) =~= digits);
    lemma_no_truth_value(word);
    assert(is_numeral(word));
    assert(numeral_value(word) == Json::Number(integer_num(n)));
}

/// Values compose freely: what a value is written with is read as that value, wherever it stands.
pub proof fn lemma_value_is_read(t: Seq<Tok>, pos: int, expr: Expr)
    requires
        can_be_written(expr),
        stands_at(t, pos, words_for(expr)),
        !sign_at(t, pos + words_for(expr).len(), '('),
    ensures
        value_at(t, pos) == Some((expr, pos + words_for(expr).len())),
    decreases expr,
{
    let words = words_for(expr);
    match expr {
        Expr::Constant(Json::Text(text)) => {
            assert(t[pos + 0] == words[0]);
        },
        Expr::Constant(Json::Bool(answer)) => {
            assert(t[pos + 0] == words[0]);
            reveal_strlit("true");
            reveal_strlit("false");
            assert(ascii_lower_text("true"@)[0] == 't');
            assert(ascii_lower_text("false"@)[0] == 'f');
        },
        Expr::Constant(Json::Number(number)) => {
            assert(t[pos + 0] == words[0]);
            lemma_number_is_read(choose|n: i64| number == integer_num(n));
        },
        Expr::Constant(_) => {},
        Expr::Reference(path) => {
            assert(t[pos + 0] == words[0]);
            lemma_no_numeral(join_on(path, seq!['.']));
        },
        Expr::Secret(name) => {
            assert(t[pos + 0] == words[0]);
            let word = seq!['@'] + name;
            lemma_no_numeral(word);
            lemma_no_truth_value(word);
            assert(word.skip(1) =~= name);
        },
        Expr::Array(items) => {
            let list = list_words(items);
            lemma_part_stands(t, pos, seq![Tok::Sign('[')], list + seq![Tok::Sign(']')]);
            lemma_part_stands(t, pos + 1, list, seq![Tok::Sign(']')]);
            assert(t[pos + 0] == seq![Tok::Sign('[')][0]);
            assert(t[pos + 1 + list.len() + 0] == seq![Tok::Sign(']')][0]);
            if items.len() > 0 {
                lemma_list_is_read(t, pos + 1, items);
                lemma_value_starts(items[0]);
                assert(t[pos + 1 + 0] == list[0]);
            } else {
                assert(items =~= Seq::empty());
            }
        },
        Expr::Object(entries) => {
            let list = entry_words(entries);
            lemma_part_stands(t, pos, seq![Tok::Sign('{')], list + seq![Tok::Sign('}')]);
            lemma_part_stands(t, pos + 1, list, seq![Tok::Sign('}')]);
            assert(t[pos + 0] == seq![Tok::Sign('{')][0]);
            assert(t[pos + 1 + list.len() + 0] == seq![Tok::Sign('}')][0]);
            if entries.len() > 0 {
                lemma_entries_are_read(t, pos + 1, entries);
                assert(t[pos + 1 + 0] == list[0]);
            } else {
                assert(entries =~= Seq::empty());
            }
        },
        Expr::Call(name, arguments) => {
            let list = list_words(arguments);
            let head = seq![Tok::Word(name), Tok::Sign('(')];
            lemma_part_stands(t, pos, head, list + seq![Tok::Sign(')')]);
            lemma_part_stands(t, pos + 2, list, seq![Tok::Sign(')')]);
            assert(t[pos + 0] == head[0]);
            assert(t[pos + 1] == head[1]);
            assert(t[pos + 2 + list.len() + 0] == seq![Tok::Sign(')')][0]);
            if arguments.len() > 0 {
                lemma_list_is_read(t, pos + 2, arguments);
                lemma_value_starts(arguments[0]);
                assert(t[pos + 2 + 0] == list[0]);
            } else {
                assert(arguments =~= Seq::empty());
            }
        },
    }
}

proof fn lemma_value_starts(expr: Expr)
    requires
        can_be_written(expr),
    ensures
        words_for(expr).len() > 0,
        words_for(expr)[0] != Tok::Sign(']'),
        words_for(expr)[0] != Tok::Sign(')'),
{
}

/// What a list of values is written with is read as those values.
pub proof fn lemma_list_is_read(t: Seq<Tok>, pos: int, list: Seq<Expr>)
    requires
        list.len() > 0,
        all_can_be_written(list),
        stands_at(t, pos, list_words(list)),
        !sign_at(t, pos + list_words(list).len(), '('),
        !sign_at(t, pos + list_words(list).len(), ','),
    ensures
        values_at(t, pos) == Some((list, pos + list_words(list).len())),
    decreases list,
{
    let first = words_for(list[0]);
    lemma_value_starts(list[0]);
    if list.len() == 1 {
        lemma_value_is_read(t, pos, list[0]);
        assert(seq![list[0]] =~= list);
    } else {
        let rest = list.drop_first();
        let next = pos + first.len();
        lemma_part_stands(t, pos, first, seq![Tok::Sign(',')] + list_words(rest));
        lemma_part_stands(t, next, seq![Tok::Sign(',')], list_words(rest));
        assert(t[next + 0] == seq![Tok::Sign(',')][0]);
        lemma_value_is_read(t, pos, list[0]);
        lemma_list_is_read(t, next + 1, rest);
        assert(seq![list[0]] + rest =~= list);
    }
}

proof fn lemma_entries_are_read(t: Seq<Tok>, pos: int, entries: Seq<(Seq<char>, Expr)>)
    requires
        entries.len() > 0,
        entries_can_be_written(entries),
        stands_at(t, pos, entry_words(entries)),
        !sign_at(t, pos + entry_words(entries).len(), '('),
        !sign_at(t, pos + entry_words(entries).len(), ','),
    ensures
        entries_at(t, pos) == Some((entries, pos + entry_words(entries).len())),
    decreases entries,
{
    let head = seq![Tok::Text(entries[0].0), Tok::Sign(':')];
    let value = words_for(entries[0].1);
    lemma_value_starts(entries[0].1);
    if entries.len() == 1 {
        lemma_part_stands(t, pos, head, value);
        assert(t[pos + 0] == head[0]);
        assert(t[pos + 1] == head[1]);
        lemma_value_is_read(t, pos + 2, entries[0].1);
        assert(seq![entries[0]] =~= entries);
    } else {
        let rest = entries.drop_first();
        let next = pos + 2 + value.len();
        lemma_part_stands(t, pos, head + value, seq![Tok::Sign(',')] + entry_words(rest));
        lemma_part_stands(t, pos, head, value);
        lemma_part_stands(t, next, seq![Tok::Sign(',')], entry_words(rest));
        assert(t[pos + 0] == head[0]);
        assert(t[pos + 1] == head[1]);
        assert(t[next + 0] == seq![Tok::Sign(',')][0]);
        lemma_value_is_read(t, pos + 2, entries[0].1);
        lemma_entries_are_read(t, next + 1, rest);
        assert(seq![entries[0]] + rest =~= entries);
    }
}

/// Whether words open and close as many brackets, and hold no end of a line.
spec fn is_balanced(toks: Seq<Tok>) -> bool {
    forall|depth: int| #![trigger depth_behind(toks, depth)]
        depth >= 0 ==> depth_behind(toks, depth) == depth && lines_end_outside(toks, depth)
}

proof fn lemma_depth_adds(a: Seq<Tok>, b: Seq<Tok>, depth: int)
    ensures
        depth_behind(a + b, depth) == depth_behind(b, depth_behind(a, depth)),
        lines_end_outside(a + b, depth) == (lines_end_outside(a, depth) && lines_end_outside(b, depth_behind(a, depth))),
    decreases a.len(),
{
    if a.len() == 0 {
        assert(a + b =~= b);
    } else {
        assert((a + b).drop_first() =~= a.drop_first() + b);
        lemma_depth_adds(a.drop_first(), b, tok_depth(a[0], depth));
    }
}

proof fn lemma_balanced_adds(a: Seq<Tok>, b: Seq<Tok>)
    requires
        is_balanced(a),
        is_balanced(b),
    ensures
        is_balanced(a + b),
{
    assert forall|depth: int| #![trigger depth_behind(a + b, depth)] depth >= 0 implies depth_behind(a + b, depth) == depth
        && lines_end_outside(a + b, depth) by {
        lemma_depth_adds(a, b, depth);
        assert(depth_behind(a, depth) == depth);
        assert(depth_behind(b, depth) == depth);
    }
}

proof fn lemma_one_balanced(tok: Tok)
    requires
        tok is Word || tok is Text || tok == Tok::Sign(',') || tok == Tok::Sign(':') || tok == Tok::Sign('=') || tok
            == Tok::Sign('*'),
    ensures
        is_balanced(seq![tok]),
{
    assert forall|depth: int| #![trigger depth_behind(seq![tok], depth)] depth >= 0 implies depth_behind(seq![tok], depth)
        == depth && lines_end_outside(seq![tok], depth) by {
        assert(seq![tok].drop_first() =~= Seq::empty());
        reveal_with_fuel(depth_behind, 2);
        reveal_with_fuel(lines_end_outside, 2);
    }
}

proof fn lemma_bracketed_balanced(open: char, inner: Seq<Tok>, close: char)
    requires
        open == '(' || open == '[' || open == '{',
        close == ')' || close == ']' || close == '}',
        is_balanced(inner),
    ensures
        is_balanced(seq![Tok::Sign(open)] + (inner + seq![Tok::Sign(close)])),
{
    let (first, last) = (seq![Tok::Sign(open)], seq![Tok::Sign(close)]);
    let whole = first + (inner + last);
    assert forall|depth: int| #![trigger depth_behind(whole, depth)] depth >= 0 implies depth_behind(whole, depth) == depth
        && lines_end_outside(whole, depth) by {
        lemma_depth_adds(first, inner + last, depth);
        lemma_depth_adds(inner, last, depth + 1);
        assert(first.drop_first() =~= Seq::empty());
        assert(last.drop_first() =~= Seq::empty());
        reveal_with_fuel(depth_behind, 2);
        reveal_with_fuel(lines_end_outside, 2);
        assert(depth_behind(inner, depth + 1) == depth + 1);
    }
}

proof fn lemma_nothing_balanced()
    ensures
        is_balanced(Seq::<Tok>::empty()),
{
}

proof fn lemma_value_balanced(expr: Expr)
    ensures
        is_balanced(words_for(expr)),
    decreases expr,
{
    lemma_nothing_balanced();
    match expr {
        Expr::Constant(Json::Null) | Expr::Constant(Json::Array(_)) | Expr::Constant(Json::Object(_)) => {},
        Expr::Array(items) => {
            lemma_list_balanced(items);
            lemma_bracketed_balanced('[', list_words(items), ']');
        },
        Expr::Object(entries) => {
            lemma_entries_balanced(entries);
            lemma_bracketed_balanced('{', entry_words(entries), '}');
        },
        Expr::Call(name, arguments) => {
            lemma_list_balanced(arguments);
            lemma_bracketed_balanced('(', list_words(arguments), ')');
            lemma_one_balanced(Tok::Word(name));
            lemma_balanced_adds(
                seq![Tok::Word(name)],
                seq![Tok::Sign('(')] + (list_words(arguments) + seq![Tok::Sign(')')]),
            );
            assert(words_for(expr) =~= seq![Tok::Word(name)] + (seq![Tok::Sign('(')] + (list_words(arguments) + seq![
                Tok::Sign(')'),
            ])));
        },
        _ => {
            lemma_one_balanced(words_for(expr)[0]);
            assert(words_for(expr) =~= seq![words_for(expr)[0]]);
        },
    }
}

proof fn lemma_list_balanced(list: Seq<Expr>)
    ensures
        is_balanced(list_words(list)),
    decreases list,
{
    lemma_nothing_balanced();
    if list.len() > 0 {
        lemma_value_balanced(list[0]);
        if list.len() > 1 {
            let rest = list_words(list.drop_first());
            lemma_list_balanced(list.drop_first());
            lemma_one_balanced(Tok::Sign(','));
            lemma_balanced_adds(seq![Tok::Sign(',')], rest);
            lemma_balanced_adds(words_for(list[0]), seq![Tok::Sign(',')] + rest);
        }
    }
}

proof fn lemma_entries_balanced(entries: Seq<(Seq<char>, Expr)>)
    ensures
        is_balanced(entry_words(entries)),
    decreases entries,
{
    lemma_nothing_balanced();
    if entries.len() > 0 {
        let value = words_for(entries[0].1);
        let (key, colon) = (Tok::Text(entries[0].0), Tok::Sign(':'));
        lemma_value_balanced(entries[0].1);
        lemma_one_balanced(key);
        lemma_one_balanced(colon);
        lemma_balanced_adds(seq![key], seq![colon]);
        assert(seq![key] + seq![colon] =~= seq![key, colon]);
        lemma_balanced_adds(seq![key, colon], value);
        if entries.len() > 1 {
            let rest = entry_words(entries.drop_first());
            lemma_entries_balanced(entries.drop_first());
            lemma_one_balanced(Tok::Sign(','));
            lemma_balanced_adds(seq![Tok::Sign(',')], rest);
            lemma_balanced_adds(seq![key, colon] + value, seq![Tok::Sign(',')] + rest);
        }
    }
}

/// The words that a part of a mapping is written with.
pub open spec fn item_words(item: MapItem) -> Seq<Tok> {
    match item {
        MapItem::All => seq![Tok::Sign('*')],
        MapItem::Column(path, value) => seq![Tok::Word(join_on(path, seq!['.'])), Tok::Sign('=')] + words_for(value),
    }
}

/// Whether a part of a mapping can be written.
pub open spec fn item_can_be_written(item: MapItem) -> bool {
    match item {
        MapItem::All => true,
        MapItem::Column(path, value) => {
            &&& is_name(join_on(path, seq!['.']))
            &&& path_of(join_on(path, seq!['.'])) == path
            &&& can_be_written(value)
        },
    }
}

/// The words that a mapping is written with.
pub open spec fn mapping_words(items: Seq<MapItem>) -> Seq<Tok>
    decreases items.len(),
{
    if items.len() == 0 {
        Seq::empty()
    } else if items.len() == 1 {
        item_words(items[0])
    } else {
        item_words(items[0]) + (seq![Tok::Sign(',')] + mapping_words(items.drop_first()))
    }
}

/// The word that a key column is written with.
pub open spec fn column_word(column: Seq<char>) -> Tok {
    if column == seq!['*'] {
        Tok::Sign('*')
    } else {
        Tok::Word(column)
    }
}

/// The words that key columns are written with.
pub open spec fn columns_words(columns: Seq<Seq<char>>) -> Seq<Tok>
    decreases columns.len(),
{
    if columns.len() == 0 {
        Seq::empty()
    } else if columns.len() == 1 {
        seq![column_word(columns[0])]
    } else {
        seq![column_word(columns[0])] + (seq![Tok::Sign(',')] + columns_words(columns.drop_first()))
    }
}

/// The words that a sort key is written with.
pub open spec fn sort_key_words(key: (Seq<char>, SortDirection)) -> Seq<Tok> {
    seq![
        Tok::Word(key.0),
        Tok::Word(
            match key.1 {
                SortDirection::Asc => "ASC"@,
                SortDirection::Desc => "DESC"@,
            },
        ),
    ]
}

/// The words that sort keys are written with.
pub open spec fn sort_keys_words(keys: Seq<(Seq<char>, SortDirection)>) -> Seq<Tok>
    decreases keys.len(),
{
    if keys.len() == 0 {
        Seq::empty()
    } else if keys.len() == 1 {
        sort_key_words(keys[0])
    } else {
        sort_key_words(keys[0]) + (seq![Tok::Sign(',')] + sort_keys_words(keys.drop_first()))
    }
}

/// The words that a step is written with.
pub open spec fn step_words(step: Step) -> Seq<Tok> {
    match step {
        Step::Source(sources) => seq![Tok::Word("SOURCE"@)] + list_words(sources),
        Step::MapRows(_, items) => seq![Tok::Word("MAP"@)] + mapping_words(items),
        Step::Filter(condition) => seq![Tok::Word("FILTER"@)] + words_for(condition),
        Step::MapMany(field, _) => seq![Tok::Word("MAP_MANY"@)] + seq![Tok::Word(field)],
        Step::GroupBy(keys, items) => seq![Tok::Word("GROUP_BY"@)] + (columns_words(keys) + if items.len() == 0 {
            Seq::empty()
        } else {
            seq![Tok::Word("MAP"@)] + mapping_words(items)
        }),
        Step::SortBy(keys) => seq![Tok::Word("SORT_BY"@)] + sort_keys_words(keys),
        Step::Limit(count) => seq![Tok::Word("LIMIT"@)] + seq![Tok::Word(decimal(count))],
    }
}

/// Whether a step can be written.
pub open spec fn step_can_be_written(step: Step) -> bool {
    match step {
        Step::Source(sources) => sources.len() > 0 && all_can_be_written(sources),
        Step::MapRows(config, items) => {
            &&& config == Json::Object(Seq::empty())
            &&& items.len() > 0
            &&& forall|i: int| 0 <= i < items.len() ==> item_can_be_written(#[trigger] items[i])
        },
        Step::Filter(condition) => can_be_written(condition),
        Step::MapMany(field, others) => is_name(field) && others.len() == 0,
        Step::GroupBy(keys, items) => {
            &&& keys.len() > 0
            &&& forall|i: int| 0 <= i < keys.len() ==> (#[trigger] keys[i]) == seq!['*'] || is_name(keys[i])
            &&& forall|i: int| 0 <= i < items.len() ==> item_can_be_written(#[trigger] items[i])
        },
        Step::SortBy(keys) => {
            &&& keys.len() > 0
            &&& forall|i: int| 0 <= i < keys.len() ==> is_name((#[trigger] keys[i]).0)
        },
        Step::Limit(count) => count <= usize::MAX,
    }
}

/// The words that a query is written with: a line for each step.
pub open spec fn query_words(steps: Seq<Step>) -> Seq<Tok>
    decreases steps.len(),
{
    if steps.len() == 0 {
        Seq::empty()
    } else if steps.len() == 1 {
        step_words(steps[0])
    } else {
        step_words(steps[0]) + (seq![Tok::Line] + query_words(steps.drop_first()))
    }
}

proof fn lemma_item_is_read(t: Seq<Tok>, pos: int, item: MapItem)
    requires
        item_can_be_written(item),
        stands_at(t, pos, item_words(item)),
        !sign_at(t, pos + item_words(item).len(), '('),
    ensures
        map_item_at(t, pos) == Some((item, pos + item_words(item).len())),
        item_words(item).len() > 0,
{
    let words = item_words(item);
    match item {
        MapItem::All => {
            assert(t[pos + 0] == words[0]);
        },
        MapItem::Column(path, value) => {
            let head = seq![Tok::Word(join_on(path, seq!['.'])), Tok::Sign('=')];
            lemma_part_stands(t, pos, head, words_for(value));
            assert(t[pos + 0] == head[0]);
            assert(t[pos + 1] == head[1]);
            lemma_value_is_read(t, pos + 2, value);
        },
    }
}

proof fn lemma_mapping_is_read(t: Seq<Tok>, pos: int, items: Seq<MapItem>)
    requires
        items.len() > 0,
        forall|i: int| 0 <= i < items.len() ==> item_can_be_written(#[trigger] items[i]),
        stands_at(t, pos, mapping_words(items)),
        !sign_at(t, pos + mapping_words(items).len(), '('),
        !sign_at(t, pos + mapping_words(items).len(), ','),
    ensures
        map_items_at(t, pos) == Some((items, pos + mapping_words(items).len())),
    decreases items.len(),
{
    let first = item_words(items[0]);
    assert(item_can_be_written(items[0]));
    if items.len() == 1 {
        lemma_item_is_read(t, pos, items[0]);
        assert(seq![items[0]] =~= items);
    } else {
        let rest = items.drop_first();
        let next = pos + first.len();
        lemma_part_stands(t, pos, first, seq![Tok::Sign(',')] + mapping_words(rest));
        lemma_part_stands(t, next, seq![Tok::Sign(',')], mapping_words(rest));
        assert(t[next + 0] == seq![Tok::Sign(',')][0]);
        lemma_item_is_read(t, pos, items[0]);
        assert forall|i: int| 0 <= i < rest.len() implies item_can_be_written(#[trigger] rest[i]) by {
            assert(rest[i] == items[i + 1]);
        }
        lemma_mapping_is_read(t, next + 1, rest);
        assert(seq![items[0]] + rest =~= items);
    }
}

proof fn lemma_columns_are_read(t: Seq<Tok>, pos: int, columns: Seq<Seq<char>>)
    requires
        columns.len() > 0,
        forall|i: int| 0 <= i < columns.len() ==> (#[trigger] columns[i]) == seq!['*'] || is_name(columns[i]),
        stands_at(t, pos, columns_words(columns)),
        !sign_at(t, pos + columns_words(columns).len(), ','),
    ensures
        columns_at(t, pos) == Some((columns, pos + columns_words(columns).len())),
    decreases columns.len(),
{
    let first = seq![column_word(columns[0])];
    if columns.len() == 1 {
        assert(t[pos + 0] == first[0]);
        assert(seq![columns[0]] =~= columns);
    } else {
        let rest = columns.drop_first();
        lemma_part_stands(t, pos, first, seq![Tok::Sign(',')] + columns_words(rest));
        lemma_part_stands(t, pos + 1, seq![Tok::Sign(',')], columns_words(rest));
        assert(t[pos + 0] == first[0]);
        assert(t[pos + 1 + 0] == seq![Tok::Sign(',')][0]);
        assert forall|i: int| 0 <= i < rest.len() implies (#[trigger] rest[i]) == seq!['*'] || is_name(rest[i]) by {
            assert(rest[i] == columns[i + 1]);
        }
        lemma_columns_are_read(t, pos + 2, rest);
        assert(seq![columns[0]] + rest =~= columns);
    }
}

proof fn lemma_sort_keys_are_read(t: Seq<Tok>, pos: int, keys: Seq<(Seq<char>, SortDirection)>)
    requires
        keys.len() > 0,
        forall|i: int| 0 <= i < keys.len() ==> is_name((#[trigger] keys[i]).0),
        stands_at(t, pos, sort_keys_words(keys)),
        !sign_at(t, pos + sort_keys_words(keys).len(), ','),
    ensures
        sort_keys_at(t, pos) == Some((keys, pos + sort_keys_words(keys).len())),
    decreases keys.len(),
{
    let first = sort_key_words(keys[0]);
    assert(is_name(keys[0].0));
    reveal_strlit("ASC");
    reveal_strlit("DESC");
    assert(ascii_lower_text("ASC"@).len() == 3 && ascii_lower_text("DESC"@).len() == 4);
    if keys.len() == 1 {
        assert(t[pos + 0] == first[0]);
        assert(t[pos + 1] == first[1]);
        assert(seq![keys[0]] =~= keys);
    } else {
        let rest = keys.drop_first();
        lemma_part_stands(t, pos, first, seq![Tok::Sign(',')] + sort_keys_words(rest));
        lemma_part_stands(t, pos + 2, seq![Tok::Sign(',')], sort_keys_words(rest));
        assert(t[pos + 0] == first[0]);
        assert(t[pos + 1] == first[1]);
        assert(t[pos + 2 + 0] == seq![Tok::Sign(',')][0]);
        assert forall|i: int| 0 <= i < rest.len() implies is_name((#[trigger] rest[i]).0) by {
            assert(rest[i] == keys[i + 1]);
        }
        lemma_sort_keys_are_read(t, pos + 3, rest);
        assert(seq![keys[0]] + rest =~= keys);
    }
}

/// The keywords of steps are told apart by their lengths and first letters.
pub proof fn lemma_keywords_differ()
    ensures
        ascii_lower_text("SOURCE"@).len() == 6,
        ascii_lower_text("SOURCE"@)[0] == 's',
        ascii_lower_text("MAP"@).len() == 3,
        ascii_lower_text("FILTER"@).len() == 6,
        ascii_lower_text("FILTER"@)[0] == 'f',
        ascii_lower_text("MAP_MANY"@).len() == 8,
        ascii_lower_text("MAP_MANY"@)[0] == 'm',
        ascii_lower_text("GROUP_BY"@).len() == 8,
        ascii_lower_text("GROUP_BY"@)[0] == 'g',
        ascii_lower_text("SORT_BY"@).len() == 7,
        ascii_lower_text("LIMIT"@).len() == 5,
{
    reveal_strlit("SOURCE");
    reveal_strlit("MAP");
    reveal_strlit("FILTER");
    reveal_strlit("MAP_MANY");
    reveal_strlit("GROUP_BY");
    reveal_strlit("SORT_BY");
    reveal_strlit("LIMIT");
}

proof fn lemma_step_is_read(t: Seq<Tok>, pos: int, step: Step)
    requires
        step_can_be_written(step),
        stands_at(t, pos, step_words(step)),
        pos + step_words(step).len() < t.len() ==> t[pos + step_words(step).len()] is Line,
    ensures
        step_at(t, pos) == Some((step, pos + step_words(step).len())),
        step_words(step).len() > 0,
        t[pos] !is Line,
{
    lemma_keywords_differ();
    let words = step_words(step);
    assert(t[pos + 0] == words[0]);
    match step {
        Step::Source(sources) => {
            lemma_part_stands(t, pos, seq![Tok::Word("SOURCE"@)], list_words(sources));
            lemma_list_is_read(t, pos + 1, sources);
        },
        Step::MapRows(config, items) => {
            lemma_part_stands(t, pos, seq![Tok::Word("MAP"@)], mapping_words(items));
            lemma_mapping_is_read(t, pos + 1, items);
        },
        Step::Filter(condition) => {
            lemma_part_stands(t, pos, seq![Tok::Word("FILTER"@)], words_for(condition));
            lemma_value_starts(condition);
            lemma_value_is_read(t, pos + 1, condition);
            assert(seq![condition].len() == 1);
        },
        Step::MapMany(field, others) => {
            assert(t[pos + 1] == words[1]);
            assert(others =~= Seq::empty());
        },
        Step::GroupBy(keys, items) => {
            let tail = if items.len() == 0 {
                Seq::empty()
            } else {
                seq![Tok::Word("MAP"@)] + mapping_words(items)
            };
            let next = pos + 1 + columns_words(keys).len();
            lemma_part_stands(t, pos, seq![Tok::Word("GROUP_BY"@)], columns_words(keys) + tail);
            lemma_part_stands(t, pos + 1, columns_words(keys), tail);
            if items.len() == 0 {
                assert(items =~= Seq::empty());
                lemma_columns_are_read(t, pos + 1, keys);
            } else {
                lemma_part_stands(t, next, seq![Tok::Word("MAP"@)], mapping_words(items));
                assert(t[next + 0] == seq![Tok::Word("MAP"@)][0]);
                lemma_columns_are_read(t, pos + 1, keys);
                lemma_mapping_is_read(t, next + 1, items);
            }
        },
        Step::SortBy(keys) => {
            lemma_part_stands(t, pos, seq![Tok::Word("SORT_BY"@)], sort_keys_words(keys));
            lemma_sort_keys_are_read(t, pos + 1, keys);
        },
        Step::Limit(count) => {
            assert(t[pos + 1] == words[1]);
            lemma_decimal(count);
        },
    }
}

proof fn lemma_steps_are_read(t: Seq<Tok>, pos: int, steps: Seq<Step>)
    requires
        forall|i: int| 0 <= i < steps.len() ==> step_can_be_written(#[trigger] steps[i]),
        stands_at(t, pos, query_words(steps)),
        pos + query_words(steps).len() == t.len(),
    ensures
        steps_from(t, pos) == Some(steps),
    decreases steps.len(),
{
    if steps.len() == 0 {
        assert(steps =~= Seq::empty());
    } else {
        let first = step_words(steps[0]);
        let end = pos + first.len();
        assert(step_can_be_written(steps[0]));
        if steps.len() == 1 {
            lemma_step_is_read(t, pos, steps[0]);
            assert(steps_from(t, end) == Some(Seq::<Step>::empty()));
            assert(seq![steps[0]] + Seq::<Step>::empty() =~= steps);
        } else {
            let rest = steps.drop_first();
            lemma_part_stands(t, pos, first, seq![Tok::Line] + query_words(rest));
            lemma_part_stands(t, end, seq![Tok::Line], query_words(rest));
            assert(t[end + 0] == seq![Tok::Line][0]);
            lemma_step_is_read(t, pos, steps[0]);
            assert forall|i: int| 0 <= i < rest.len() implies step_can_be_written(#[trigger] rest[i]) by {
                assert(rest[i] == steps[i + 1]);
            }
            lemma_steps_are_read(t, end + 1, rest);
            assert(steps_from(t, end) == Some(rest));
            assert(seq![steps[0]] + rest =~= steps);
        }
    }
}

proof fn lemma_mapping_balanced(items: Seq<MapItem>)
    ensures
        is_balanced(mapping_words(items)),
    decreases items.len(),
{
    lemma_nothing_balanced();
    if items.len() > 0 {
        match items[0] {
            MapItem::All => lemma_one_balanced(Tok::Sign('*')),
            MapItem::Column(path, value) => {
                let (name, equals) = (Tok::Word(join_on(path, seq!['.'])), Tok::Sign('='));
                lemma_one_balanced(name);
                lemma_one_balanced(equals);
                lemma_balanced_adds(seq![name], seq![equals]);
                assert(seq![name] + seq![equals] =~= seq![name, equals]);
                lemma_value_balanced(value);
                lemma_balanced_adds(seq![name, equals], words_for(value));
            },
        }
        if items.len() > 1 {
            let rest = mapping_words(items.drop_first());
            lemma_mapping_balanced(items.drop_first());
            lemma_one_balanced(Tok::Sign(','));
            lemma_balanced_adds(seq![Tok::Sign(',')], rest);
            lemma_balanced_adds(item_words(items[0]), seq![Tok::Sign(',')] + rest);
        }
    }
}

proof fn lemma_columns_balanced(columns: Seq<Seq<char>>)
    ensures
        is_balanced(columns_words(columns)),
    decreases columns.len(),
{
    lemma_nothing_balanced();
    if columns.len() > 0 {
        lemma_one_balanced(column_word(columns[0]));
        if columns.len() > 1 {
            let rest = columns_words(columns.drop_first());
            lemma_columns_balanced(columns.drop_first());
            lemma_one_balanced(Tok::Sign(','));
            lemma_balanced_adds(seq![Tok::Sign(',')], rest);
            lemma_balanced_adds(seq![column_word(columns[0])], seq![Tok::Sign(',')] + rest);
        }
    }
}

proof fn lemma_sort_keys_balanced(keys: Seq<(Seq<char>, SortDirection)>)
    ensures
        is_balanced(sort_keys_words(keys)),
    decreases keys.len(),
{
    lemma_nothing_balanced();
    if keys.len() > 0 {
        let words = sort_key_words(keys[0]);
        lemma_one_balanced(words[0]);
        lemma_one_balanced(words[1]);
        lemma_balanced_adds(seq![words[0]], seq![words[1]]);
        assert(seq![words[0]] + seq![words[1]] =~= words);
        if keys.len() > 1 {
            let rest = sort_keys_words(keys.drop_first());
            lemma_sort_keys_balanced(keys.drop_first());
            lemma_one_balanced(Tok::Sign(','));
            lemma_balanced_adds(seq![Tok::Sign(',')], rest);
            lemma_balanced_adds(words, seq![Tok::Sign(',')] + rest);
        }
    }
}

proof fn lemma_step_balanced(step: Step)
    ensures
        is_balanced(step_words(step)),
{
    lemma_nothing_balanced();
    lemma_one_balanced(step_words(step)[0]);
    let keyword = seq![step_words(step)[0]];
    match step {
        Step::Source(sources) => {
            lemma_list_balanced(sources);
            lemma_balanced_adds(keyword, list_words(sources));
        },
        Step::MapRows(_, items) => {
            lemma_mapping_balanced(items);
            lemma_balanced_adds(keyword, mapping_words(items));
        },
        Step::Filter(condition) => {
            lemma_value_balanced(condition);
            lemma_balanced_adds(keyword, words_for(condition));
        },
        Step::MapMany(field, _) => {
            lemma_one_balanced(Tok::Word(field));
            lemma_balanced_adds(keyword, seq![Tok::Word(field)]);
        },
        Step::GroupBy(keys, items) => {
            let tail = if items.len() == 0 {
                Seq::empty()
            } else {
                seq![Tok::Word("MAP"@)] + mapping_words(items)
            };
            lemma_columns_balanced(keys);
            lemma_mapping_balanced(items);
            lemma_one_balanced(Tok::Word("MAP"@));
            lemma_balanced_adds(seq![Tok::Word("MAP"@)], mapping_words(items));
            lemma_balanced_adds(columns_words(keys), tail);
            lemma_balanced_adds(keyword, columns_words(keys) + tail);
        },
        Step::SortBy(keys) => {
            lemma_sort_keys_balanced(keys);
            lemma_balanced_adds(keyword, sort_keys_words(keys));
        },
        Step::Limit(count) => {
            lemma_one_balanced(Tok::Word(decimal(count)));
            lemma_balanced_adds(keyword, seq![Tok::Word(decimal(count))]);
        },
    }
}

proof fn lemma_lines_end_outside(steps: Seq<Step>)
    ensures
        lines_end_outside(query_words(steps), 0),
    decreases steps.len(),
{
    if steps.len() > 0 {
        lemma_step_balanced(steps[0]);
        assert(depth_behind(step_words(steps[0]), 0) == 0);
        if steps.len() > 1 {
            let rest = query_words(steps.drop_first());
            lemma_lines_end_outside(steps.drop_first());
            lemma_depth_adds(step_words(steps[0]), seq![Tok::Line] + rest, 0);
            assert((seq![Tok::Line] + rest).drop_first() =~= rest);
        }
    }
}

/// A query that can be written is read back from its text.
pub proof fn lemma_query_is_read(steps: Seq<Step>)
    requires
        forall|i: int| 0 <= i < steps.len() ==> step_can_be_written(#[trigger] steps[i]),
        forall|i: int| 0 <= i < query_words(steps).len() ==> tok_can_be_written(#[trigger] query_words(steps)[i]),
    ensures
        query_of(toks_text(query_words(steps))) == Some(steps),
{
    lemma_lines_end_outside(steps);
    lemma_words_are_read(toks_text(query_words(steps)), 0, query_words(steps), 0);
    lemma_steps_are_read(query_words(steps), 0, steps);
}

} // verus!
