//! The words of a query text.
use vstd::prelude::*;
use crate::text::{chars_of, is_space, is_white_space, text_between};

verus! {

/// A word of a query text.
#[derive(Debug, PartialEq)]
pub enum Token {
    /// A name, a number or a keyword.
    Word(String),
    /// A quoted text, without its quotes.
    Text(String),
    /// One of the signs `( ) [ ] { } , : = *`.
    Sign(char),
    /// The end of a line outside brackets.
    Line,
}

/// What a word of a query text is.
#[verifier::ext_equal]
pub enum Tok {
    Word(Seq<char>),
    Text(Seq<char>),
    Sign(char),
    Line,
}

impl View for Token {
    type V = Tok;

    open spec fn view(&self) -> Tok {
        match self {
            Token::Word(word) => Tok::Word(word@),
            Token::Text(text) => Tok::Text(text@),
            Token::Sign(sign) => Tok::Sign(*sign),
            Token::Line => Tok::Line,
        }
    }
}

/// The mathematical words.
pub open spec fn toks(tokens: Seq<Token>) -> Seq<Tok> {
    Seq::new(tokens.len(), |i: int| tokens[i]@)
}

/// Whether a character is one of the signs.
pub open spec fn is_sign(c: char) -> bool {
    c == '(' || c == ')' || c == '[' || c == ']' || c == '{' || c == '}' || c == ',' || c == ':' || c == '=' || c == '*'
}

/// Whether a character can stand in a word.
pub open spec fn is_word_char(c: char) -> bool {
    ('a' <= c <= 'z') || ('A' <= c <= 'Z') || ('0' <= c <= '9') || c == '_' || c == '.' || c == '$' || c == '@' || c
        == '-' || (c > '\x7f' && !is_space(c))
}

/// Whether a comment begins at a position.
pub open spec fn comment_at(text: Seq<char>, pos: int) -> bool {
    pos + 1 < text.len() && text[pos] == '-' && text[pos + 1] == '-'
}

/// The end of the line that a position is in.
pub open spec fn line_end(text: Seq<char>, pos: int) -> int
    decreases text.len() - pos,
{
    if pos >= text.len() || text[pos] == '\n' {
        pos
    } else {
        line_end(text, pos + 1)
    }
}

/// The end of the word that goes on at a position; a comment ends it.
pub open spec fn word_end(text: Seq<char>, pos: int) -> int
    decreases text.len() - pos,
{
    if pos >= text.len() || !is_word_char(text[pos]) || comment_at(text, pos) {
        pos
    } else {
        word_end(text, pos + 1)
    }
}

/// The rest of a quoted text, up to the quote that ends it, and the position after it. A
/// backslash before a quote of the same sort makes it part of the text.
pub open spec fn quoted(text: Seq<char>, pos: int, quote: char) -> Option<(Seq<char>, int)>
    decreases text.len() - pos,
{
    if pos >= text.len() {
        None
    } else if text[pos] == quote {
        Some((Seq::empty(), pos + 1))
    } else if text[pos] == '\\' && pos + 1 < text.len() && text[pos + 1] == quote {
        match quoted(text, pos + 2, quote) {
            Some((rest, end)) => Some((seq![quote] + rest, end)),
            None => None,
        }
    } else {
        match quoted(text, pos + 1, quote) {
            Some((rest, end)) => Some((seq![text[pos]] + rest, end)),
            None => None,
        }
    }
}

/// The depth of brackets after a sign.
pub open spec fn depth_after(depth: int, sign: char) -> int {
    if sign == '(' || sign == '[' || sign == '{' {
        depth + 1
    } else if (sign == ')' || sign == ']' || sign == '}') && depth > 0 {
        depth - 1
    } else {
        depth
    }
}

/// A word in front of others.
pub open spec fn before(tok: Tok, rest: Option<Seq<Tok>>) -> Option<Seq<Tok>> {
    match rest {
        Some(toks) => Some(seq![tok] + toks),
        None => None,
    }
}

proof fn lemma_line_end(text: Seq<char>, pos: int)
    requires
        0 <= pos <= text.len(),
    ensures
        pos <= line_end(text, pos) <= text.len(),
    decreases text.len() - pos,
{
    if pos < text.len() && text[pos] != '\n' {
        lemma_line_end(text, pos + 1);
    }
}

proof fn lemma_word_end(text: Seq<char>, pos: int)
    requires
        0 <= pos <= text.len(),
    ensures
        pos <= word_end(text, pos) <= text.len(),
    decreases text.len() - pos,
{
    if pos < text.len() && is_word_char(text[pos]) && !comment_at(text, pos) {
        lemma_word_end(text, pos + 1);
    }
}

proof fn lemma_quoted(text: Seq<char>, pos: int, quote: char)
    requires
        0 <= pos <= text.len(),
    ensures
        quoted(text, pos, quote) matches Some((_, end)) ==> pos < end <= text.len(),
    decreases text.len() - pos,
{
    if pos >= text.len() {
    } else if text[pos] == quote {
    } else if text[pos] == '\\' && pos + 1 < text.len() && text[pos + 1] == quote {
        lemma_quoted(text, pos + 2, quote);
    } else {
        lemma_quoted(text, pos + 1, quote);
    }
}

/// The words of a text from a position on, at a depth of brackets. None where a character cannot
/// stand in a query or a quoted text does not end.
pub open spec fn words_from(text: Seq<char>, pos: int, depth: int) -> Option<Seq<Tok>>
    decreases text.len() - pos,
    via words_from_decreases
{
    if pos < 0 || pos >= text.len() {
        Some(Seq::empty())
    } else {
        let c = text[pos];
        if c == '\n' {
            if depth == 0 {
                before(Tok::Line, words_from(text, pos + 1, depth))
            } else {
                words_from(text, pos + 1, depth)
            }
        } else if is_space(c) {
            words_from(text, pos + 1, depth)
        } else if comment_at(text, pos) {
            words_from(text, line_end(text, pos), depth)
        } else if c == '\'' || c == '"' {
            match quoted(text, pos + 1, c) {
                Some((inner, end)) => before(Tok::Text(inner), words_from(text, end, depth)),
                None => None,
            }
        } else if is_word_char(c) {
            before(
                Tok::Word(text.subrange(pos, word_end(text, pos))),
                words_from(text, word_end(text, pos), depth),
            )
        } else if is_sign(c) {
            before(Tok::Sign(c), words_from(text, pos + 1, depth_after(depth, c)))
        } else {
            None
        }
    }
}

#[via_fn]
proof fn words_from_decreases(text: Seq<char>, pos: int, depth: int) {
    if 0 <= pos < text.len() {
        let c = text[pos];
        if c != '\n' {
            lemma_line_end(text, pos + 1);
            lemma_word_end(text, pos + 1);
            lemma_quoted(text, pos + 1, c);
        }
    }
}

/// The words of a query text.
pub open spec fn words_of(text: Seq<char>) -> Option<Seq<Tok>> {
    words_from(text, 0, 0)
}

/// Words in front of the words that are still to come.
pub open spec fn joined(done: Seq<Tok>, rest: Option<Seq<Tok>>) -> Option<Seq<Tok>> {
    match rest {
        Some(toks) => Some(done + toks),
        None => None,
    }
}

proof fn lemma_joined(done: Seq<Tok>, tok: Tok, rest: Option<Seq<Tok>>)
    ensures
        joined(done, before(tok, rest)) == joined(done.push(tok), rest),
{
    match rest {
        Some(toks) => {
            assert(done + (seq![tok] + toks) =~= done.push(tok) + toks);
        },
        None => {},
    }
}

fn can_stand_in_word(c: char) -> (answer: bool)
    ensures
        answer == is_word_char(c),
{
    ('a' <= c && c <= 'z') || ('A' <= c && c <= 'Z') || ('0' <= c && c <= '9') || c == '_' || c == '.' || c == '$' || c
        == '@' || c == '-' || (c > '\x7f' && !is_white_space(c))
}

fn sign(c: char) -> (answer: bool)
    ensures
        answer == is_sign(c),
{
    c == '(' || c == ')' || c == '[' || c == ']' || c == '{' || c == '}' || c == ',' || c == ':' || c == '=' || c == '*'
}

fn at_comment(chars: &Vec<char>, pos: usize) -> (answer: bool)
    requires
        pos < chars@.len(),
    ensures
        answer == comment_at(chars@, pos as int),
{
    pos < chars.len() - 1 && chars[pos] == '-' && chars[pos + 1] == '-'
}

fn find_line_end(chars: &Vec<char>, start: usize) -> (end: usize)
    requires
        start <= chars@.len(),
    ensures
        end == line_end(chars@, start as int),
        start <= end <= chars@.len(),
{
    let mut pos: usize = start;
    while pos < chars.len() && chars[pos] != '\n'
        invariant
            start <= pos <= chars@.len(),
            line_end(chars@, start as int) == line_end(chars@, pos as int),
        decreases chars@.len() - pos,
    {
        pos = pos + 1;
    }
    pos
}

fn find_word_end(chars: &Vec<char>, start: usize) -> (end: usize)
    requires
        start <= chars@.len(),
    ensures
        end == word_end(chars@, start as int),
        start <= end <= chars@.len(),
{
    let mut pos: usize = start;
    while pos < chars.len() && can_stand_in_word(chars[pos]) && !at_comment(chars, pos)
        invariant
            start <= pos <= chars@.len(),
            word_end(chars@, start as int) == word_end(chars@, pos as int),
        decreases chars@.len() - pos,
    {
        pos = pos + 1;
    }
    pos
}

/// What a quoted text comes to where some of it has been read.
spec fn quoted_after(read: Seq<char>, rest: Option<(Seq<char>, int)>) -> Option<(Seq<char>, int)> {
    match rest {
        Some((more, end)) => Some((read + more, end)),
        None => None,
    }
}

fn read_quoted(chars: &Vec<char>, start: usize, quote: char) -> (result: Option<(String, usize)>)
    requires
        start <= chars@.len(),
    ensures
        match result {
            Some((inner, end)) => quoted(chars@, start as int, quote) == Some((inner@, end as int)) && start < end <= chars@.len(),
            None => quoted(chars@, start as int, quote) is None,
        },
{
    let ghost text = chars@;
    let mut inner = String::new();
    let mut pos: usize = start;
    proof {
        match quoted(text, start as int, quote) {
            Some((more, end)) => {
                assert(Seq::<char>::empty() + more =~= more);
            },
            None => {},
        }
        assert(inner@ =~= Seq::<char>::empty());
    }
    while pos < chars.len()
        invariant
            start <= pos <= chars@.len(),
            text == chars@,
            quoted(text, start as int, quote) == quoted_after(inner@, quoted(text, pos as int, quote)),
        decreases chars@.len() - pos,
    {
        let c = chars[pos];
        let ghost held = inner@;
        if c == quote {
            assert(held + Seq::<char>::empty() =~= held);
            return Some((inner, pos + 1));
        }
        if c == '\\' && pos < chars.len() - 1 && chars[pos + 1] == quote {
            inner.push(quote);
            proof {
                match quoted(text, pos + 2, quote) {
                    Some((more, end)) => {
                        assert(held + (seq![quote] + more) =~= inner@ + more);
                    },
                    None => {},
                }
            }
            pos = pos + 2;
        } else {
            inner.push(c);
            proof {
                match quoted(text, pos + 1, quote) {
                    Some((more, end)) => {
                        assert(held + (seq![c] + more) =~= inner@ + more);
                    },
                    None => {},
                }
            }
            pos = pos + 1;
        }
    }
    None
}

/// Appending a word appends its mathematical value.
pub broadcast proof fn lemma_toks_push(tokens: Seq<Token>, token: Token)
    ensures
        #[trigger] toks(tokens.push(token)) == toks(tokens).push(token@),
{
    assert(toks(tokens.push(token)) =~= toks(tokens).push(token@));
}

/// The words of a query text; none where it cannot be cut into words.
pub fn read_words(text: &str) -> (tokens: Option<Vec<Token>>)
    ensures
        match tokens {
            Some(tokens) => words_of(text@) == Some(toks(tokens@)),
            None => words_of(text@) is None,
        },
{
    broadcast use lemma_toks_push;

    let chars = chars_of(text);
    let ghost whole = text@;
    let mut tokens: Vec<Token> = Vec::new();
    let mut pos: usize = 0;
    let mut depth: u64 = 0;
    proof {
        assert(toks(tokens@) =~= Seq::empty());
        match words_of(whole) {
            Some(all) => {
                assert(Seq::<Tok>::empty() + all =~= all);
            },
            None => {},
        }
    }
    while pos < chars.len()
        invariant
            pos <= chars@.len(),
            chars@ == whole,
            whole == text@,
            depth <= pos,
            words_of(whole) == joined(toks(tokens@), words_from(whole, pos as int, depth as int)),
        decreases chars@.len() - pos,
    {
        let c = chars[pos];
        let ghost done = toks(tokens@);
        if c == '\n' {
            if depth == 0 {
                proof {
                    lemma_joined(done, Tok::Line, words_from(whole, pos + 1, depth as int));
                }
                tokens.push(Token::Line);
            }
            pos = pos + 1;
        } else if is_white_space(c) {
            pos = pos + 1;
        } else if at_comment(&chars, pos) {
            proof {
                lemma_line_end(whole, pos + 1);
            }
            pos = find_line_end(&chars, pos);
        } else if c == '\'' || c == '"' {
            match read_quoted(&chars, pos + 1, c) {
                Some((inner, end)) => {
                    proof {
                        lemma_joined(done, Tok::Text(inner@), words_from(whole, end as int, depth as int));
                    }
                    tokens.push(Token::Text(inner));
                    pos = end;
                },
                None => {
                    return None;
                },
            }
        } else if can_stand_in_word(c) {
            let end: usize = find_word_end(&chars, pos);
            let word = text_between(&chars, pos, end);
            proof {
                lemma_word_end(whole, pos + 1);
                lemma_joined(done, Tok::Word(word@), words_from(whole, end as int, depth as int));
            }
            tokens.push(Token::Word(word));
            pos = end;
        } else if sign(c) {
            let ghost next = depth_after(depth as int, c);
            proof {
                lemma_joined(done, Tok::Sign(c), words_from(whole, pos + 1, next));
            }
            tokens.push(Token::Sign(c));
            if c == '(' || c == '[' || c == '{' {
                depth = depth + 1;
            } else if (c == ')' || c == ']' || c == '}') && depth > 0 {
                depth = depth - 1;
            }
            pos = pos + 1;
        } else {
            return None;
        }
    }
    assert(toks(tokens@) + Seq::<Tok>::empty() =~= toks(tokens@));
    Some(tokens)
}

} // verus!
