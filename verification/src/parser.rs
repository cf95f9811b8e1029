//! The grammar of queries: from words to steps.
use vstd::prelude::*;
use crate::lexer::{read_words, toks, words_of, Tok, Token};
use crate::number::{integer_num, integer_number};
use crate::query::{entries_of, exprs, lemma_array_expr, lemma_call_expr, lemma_object_expr, map_items, sort_keys_of, CaluculatedValue, Expr, MapExpr, MapItem, MapMany, MapStep, Query, SortDirection, SortKey, Step, SubQuery};
use crate::text::{all_digits, ascii_lower_text, chars_of, copy_strings, digits_value, lemma_texts_push, path_of, path_parts, read_digits, same_ignoring_case, split_on, split_text, text_between, texts};
use crate::value::{double_of_text, finite_bits, Json, Num, Number, Object, Real, Value};

verus! {

broadcast use {lemma_array_expr, lemma_object_expr, lemma_call_expr};

/// Whether a word is a keyword, whatever its case.
pub open spec fn is_keyword(tok: Tok, keyword: Seq<char>) -> bool {
    match tok {
        Tok::Word(word) => ascii_lower_text(word) == ascii_lower_text(keyword),
        _ => false,
    }
}

/// Whether a word names something: it begins with a letter, an underscore or a dollar sign.
pub open spec fn is_name(word: Seq<char>) -> bool {
    word.len() > 0 && (('a' <= word[0] <= 'z') || ('A' <= word[0] <= 'Z') || word[0] == '_' || word[0] == '$' || word[0] > '\x7f')
}

/// The digits of a numeral, without its sign.
pub open spec fn without_sign(word: Seq<char>) -> Seq<char> {
    if word.len() > 0 && word[0] == '-' {
        word.skip(1)
    } else {
        word
    }
}

/// Whether a word is a numeral: digits, with at most one point between digits, behind a minus
/// sign or none.
pub open spec fn is_numeral(word: Seq<char>) -> bool {
    let parts = split_on(without_sign(word), '.');
    &&& 1 <= parts.len() <= 2
    &&& forall|i: int| 0 <= i < parts.len() ==> (#[trigger] parts[i]).len() > 0 && all_digits(parts[i])
}

/// The integer that a numeral without a point stands for, where it has 64 bits.
pub open spec fn numeral_integer(word: Seq<char>) -> Option<i64> {
    let digits = without_sign(word);
    if digits.len() == 0 || !all_digits(digits) {
        None
    } else if word[0] == '-' {
        if digits_value(digits) <= 0x8000_0000_0000_0000 {
            Some((-digits_value(digits)) as i64)
        } else {
            None
        }
    } else if digits_value(digits) <= i64::MAX {
        Some(digits_value(digits) as i64)
    } else {
        None
    }
}

/// The number that a numeral stands for: an integer where it has no point and fits 64 bits, else
/// a double; null where that is not finite.
pub open spec fn numeral_value(word: Seq<char>) -> Json {
    match numeral_integer(word) {
        Some(n) => Json::Number(integer_num(n)),
        None => match double_of_text(word) {
            Some(bits) => if finite_bits(bits) {
                Json::Number(Num::Float(bits))
            } else {
                Json::Null
            },
            None => Json::Null,
        },
    }
}

/// The value that a word stands for where it is not a call.
pub open spec fn word_value(word: Seq<char>) -> Option<Expr> {
    if ascii_lower_text(word) == ascii_lower_text("true"@) {
        Some(Expr::Constant(Json::Bool(true)))
    } else if ascii_lower_text(word) == ascii_lower_text("false"@) {
        Some(Expr::Constant(Json::Bool(false)))
    } else if is_numeral(word) {
        Some(Expr::Constant(numeral_value(word)))
    } else if word.len() > 1 && word[0] == '@' {
        Some(Expr::Secret(word.skip(1)))
    } else if is_name(word) {
        Some(Expr::Reference(path_of(word)))
    } else {
        None
    }
}

/// Truth values are read whatever their case.
pub proof fn lemma_truth_values_ignore_case(word: Seq<char>)
    ensures
        ascii_lower_text(word) == "true"@ ==> word_value(word) == Some(Expr::Constant(Json::Bool(true))),
        ascii_lower_text(word) == "false"@ ==> word_value(word) == Some(Expr::Constant(Json::Bool(false))),
{
    reveal_strlit("true");
    reveal_strlit("false");
    assert(ascii_lower_text("true"@) =~= "true"@);
    assert(ascii_lower_text("false"@) =~= "false"@);
    assert("true"@[0] != "false"@[0]);
}

/// Whether there is a certain sign at a position.
pub open spec fn sign_at(t: Seq<Tok>, pos: int, sign: char) -> bool {
    0 <= pos < t.len() && t[pos] == Tok::Sign(sign)
}

/// The value at a position and the position after it.
pub open spec fn value_at(t: Seq<Tok>, pos: int) -> Option<(Expr, int)>
    decreases t.len() - pos, 0int,
{
    if pos < 0 || pos >= t.len() {
        None
    } else {
        match t[pos] {
            Tok::Text(text) => Some((Expr::Constant(Json::Text(text)), pos + 1)),
            Tok::Word(word) => if sign_at(t, pos + 1, '(') {
                if !is_name(word) {
                    None
                } else if sign_at(t, pos + 2, ')') {
                    Some((Expr::Call(word, Seq::empty()), pos + 3))
                } else {
                    match values_at(t, pos + 2) {
                        Some((args, end)) => if sign_at(t, end, ')') {
                            Some((Expr::Call(word, args), end + 1))
                        } else {
                            None
                        },
                        None => None,
                    }
                }
            } else {
                match word_value(word) {
                    Some(expr) => Some((expr, pos + 1)),
                    None => None,
                }
            },
            Tok::Sign('[') => if sign_at(t, pos + 1, ']') {
                Some((Expr::Array(Seq::empty()), pos + 2))
            } else {
                match values_at(t, pos + 1) {
                    Some((items, end)) => if sign_at(t, end, ']') {
                        Some((Expr::Array(items), end + 1))
                    } else {
                        None
                    },
                    None => None,
                }
            },
            Tok::Sign('{') => if sign_at(t, pos + 1, '}') {
                Some((Expr::Object(Seq::empty()), pos + 2))
            } else {
                match entries_at(t, pos + 1) {
                    Some((entries, end)) => if sign_at(t, end, '}') {
                        Some((Expr::Object(entries), end + 1))
                    } else {
                        None
                    },
                    None => None,
                }
            },
            _ => None,
        }
    }
}

/// One value or more, with commas between them, and the position after them.
pub open spec fn values_at(t: Seq<Tok>, pos: int) -> Option<(Seq<Expr>, int)>
    decreases t.len() - pos, 1int,
{
    match value_at(t, pos) {
        None => None,
        Some((first, next)) => if next <= pos || next > t.len() {
            None
        } else if sign_at(t, next, ',') {
            match values_at(t, next + 1) {
                Some((rest, end)) => Some((seq![first] + rest, end)),
                None => None,
            }
        } else {
            Some((seq![first], next))
        },
    }
}

/// The key of an entry.
pub open spec fn entry_key(tok: Tok) -> Option<Seq<char>> {
    match tok {
        Tok::Word(word) => if is_name(word) {
            Some(word)
        } else {
            None
        },
        Tok::Text(text) => Some(text),
        _ => None,
    }
}

/// One entry or more, with commas between them, and the position after them.
pub open spec fn entries_at(t: Seq<Tok>, pos: int) -> Option<(Seq<(Seq<char>, Expr)>, int)>
    decreases t.len() - pos, 1int,
{
    if pos < 0 || pos >= t.len() || entry_key(t[pos]) is None || !sign_at(t, pos + 1, ':') {
        None
    } else {
        match value_at(t, pos + 2) {
            None => None,
            Some((value, next)) => {
                let entry = (entry_key(t[pos])->0, value);
                if next <= pos || next > t.len() {
                    None
                } else if sign_at(t, next, ',') {
                    match entries_at(t, next + 1) {
                        Some((rest, end)) => Some((seq![entry] + rest, end)),
                        None => None,
                    }
                } else {
                    Some((seq![entry], next))
                }
            },
        }
    }
}

/// The part of a mapping at a position: `*`, a column with its value, or a reference that is its
/// own column.
pub open spec fn map_item_at(t: Seq<Tok>, pos: int) -> Option<(MapItem, int)> {
    if sign_at(t, pos, '*') {
        Some((MapItem::All, pos + 1))
    } else if 0 <= pos < t.len() && (t[pos] matches Tok::Word(word) && is_name(word)) && sign_at(t, pos + 1, '=') {
        match value_at(t, pos + 2) {
            Some((value, end)) => Some((MapItem::Column(path_of(t[pos]->Word_0), value), end)),
            None => None,
        }
    } else {
        match value_at(t, pos) {
            Some((Expr::Reference(path), end)) => Some((MapItem::Column(path, Expr::Reference(path)), end)),
            _ => None,
        }
    }
}

/// One part of a mapping or more, and the position after them.
pub open spec fn map_items_at(t: Seq<Tok>, pos: int) -> Option<(Seq<MapItem>, int)>
    decreases t.len() - pos,
{
    match map_item_at(t, pos) {
        None => None,
        Some((first, next)) => if next <= pos || next > t.len() {
            None
        } else if sign_at(t, next, ',') {
            match map_items_at(t, next + 1) {
                Some((rest, end)) => Some((seq![first] + rest, end)),
                None => None,
            }
        } else {
            Some((seq![first], next))
        },
    }
}

/// The key column at a position: a name or `*`.
pub open spec fn column_at(t: Seq<Tok>, pos: int) -> Option<Seq<char>> {
    if sign_at(t, pos, '*') {
        Some(seq!['*'])
    } else if 0 <= pos < t.len() {
        match t[pos] {
            Tok::Word(word) => if is_name(word) {
                Some(word)
            } else {
                None
            },
            _ => None,
        }
    } else {
        None
    }
}

/// One key column or more, and the position after them.
pub open spec fn columns_at(t: Seq<Tok>, pos: int) -> Option<(Seq<Seq<char>>, int)>
    decreases t.len() - pos,
{
    match column_at(t, pos) {
        None => None,
        Some(first) => if sign_at(t, pos + 1, ',') {
            match columns_at(t, pos + 2) {
                Some((rest, end)) => Some((seq![first] + rest, end)),
                None => None,
            }
        } else {
            Some((seq![first], pos + 1))
        },
    }
}

/// The sort key at a position: a name and, perhaps, a direction.
pub open spec fn sort_key_at(t: Seq<Tok>, pos: int) -> Option<((Seq<char>, SortDirection), int)> {
    if 0 <= pos < t.len() && (t[pos] matches Tok::Word(word) && is_name(word)) {
        let column = t[pos]->Word_0;
        if pos + 1 < t.len() && is_keyword(t[pos + 1], "DESC"@) {
            Some(((column, SortDirection::Desc), pos + 2))
        } else if pos + 1 < t.len() && is_keyword(t[pos + 1], "ASC"@) {
            Some(((column, SortDirection::Asc), pos + 2))
        } else {
            Some(((column, SortDirection::Asc), pos + 1))
        }
    } else {
        None
    }
}

/// One sort key or more, and the position after them.
pub open spec fn sort_keys_at(t: Seq<Tok>, pos: int) -> Option<(Seq<(Seq<char>, SortDirection)>, int)>
    decreases t.len() - pos,
{
    match sort_key_at(t, pos) {
        None => None,
        Some((first, next)) => if sign_at(t, next, ',') {
            match sort_keys_at(t, next + 1) {
                Some((rest, end)) => Some((seq![first] + rest, end)),
                None => None,
            }
        } else {
            Some((seq![first], next))
        },
    }
}

/// The count at a position: digits that stand for a size.
pub open spec fn count_at(t: Seq<Tok>, pos: int) -> Option<nat> {
    if 0 <= pos < t.len() {
        match t[pos] {
            Tok::Word(word) => if word.len() > 0 && all_digits(word) && digits_value(word) <= usize::MAX {
                Some(digits_value(word) as nat)
            } else {
                None
            },
            _ => None,
        }
    } else {
        None
    }
}

/// The filter that expressions make: one as it is, several as alternatives.
pub open spec fn filter_of(values: Seq<Expr>) -> Expr {
    if values.len() == 1 {
        values[0]
    } else {
        Expr::Call("OR"@, values)
    }
}

/// The step at a position and the position after it.
pub open spec fn step_at(t: Seq<Tok>, pos: int) -> Option<(Step, int)> {
    if pos < 0 || pos >= t.len() {
        None
    } else if is_keyword(t[pos], "SOURCE"@) {
        match values_at(t, pos + 1) {
            Some((sources, end)) => Some((Step::Source(sources), end)),
            None => None,
        }
    } else if is_keyword(t[pos], "MAP"@) {
        match map_items_at(t, pos + 1) {
            Some((items, end)) => Some((Step::MapRows(Json::Object(Seq::empty()), items), end)),
            None => None,
        }
    } else if is_keyword(t[pos], "FILTER"@) {
        match values_at(t, pos + 1) {
            Some((values, end)) => Some((Step::Filter(filter_of(values)), end)),
            None => None,
        }
    } else if is_keyword(t[pos], "MAP_MANY"@) {
        if pos + 1 < t.len() && (t[pos + 1] matches Tok::Word(word) && is_name(word)) {
            Some((Step::MapMany(t[pos + 1]->Word_0, Seq::empty()), pos + 2))
        } else {
            None
        }
    } else if is_keyword(t[pos], "GROUP_BY"@) {
        match columns_at(t, pos + 1) {
            None => None,
            Some((keys, next)) => if 0 <= next < t.len() && is_keyword(t[next], "MAP"@) {
                match map_items_at(t, next + 1) {
                    Some((items, end)) => Some((Step::GroupBy(keys, items), end)),
                    None => None,
                }
            } else {
                Some((Step::GroupBy(keys, Seq::empty()), next))
            },
        }
    } else if is_keyword(t[pos], "SORT_BY"@) {
        match sort_keys_at(t, pos + 1) {
            Some((keys, end)) => Some((Step::SortBy(keys), end)),
            None => None,
        }
    } else if is_keyword(t[pos], "LIMIT"@) {
        match count_at(t, pos + 1) {
            Some(count) => Some((Step::Limit(count), pos + 2)),
            None => None,
        }
    } else {
        None
    }
}

/// The steps from a position on, each ended by the end of its line.
pub open spec fn steps_from(t: Seq<Tok>, pos: int) -> Option<Seq<Step>>
    decreases t.len() - pos,
{
    if pos < 0 || pos >= t.len() {
        Some(Seq::empty())
    } else if t[pos] is Line {
        steps_from(t, pos + 1)
    } else {
        match step_at(t, pos) {
            None => None,
            Some((step, end)) => if end <= pos || end > t.len() || (end < t.len() && t[end] !is Line) {
                None
            } else {
                match steps_from(t, end) {
                    Some(rest) => Some(seq![step] + rest),
                    None => None,
                }
            },
        }
    }
}

/// The steps of a query text.
pub open spec fn query_of(text: Seq<char>) -> Option<Seq<Step>> {
    match words_of(text) {
        Some(t) => steps_from(t, 0),
        None => None,
    }
}

/// The text is not a query.
#[derive(Debug, Clone, Copy, PartialEq, Eq, Structural)]
pub struct ParseError;

fn is_word(token: &Token, keyword: &str) -> (answer: bool)
    ensures
        answer == is_keyword(token@, keyword@),
{
    match token {
        Token::Word(word) => same_ignoring_case(word.as_str(), keyword),
        _ => false,
    }
}

fn has_sign(tokens: &Vec<Token>, pos: usize, sign: char) -> (answer: bool)
    ensures
        answer == sign_at(toks(tokens@), pos as int, sign),
        answer ==> pos < usize::MAX,
{
    if pos < tokens.len() {
        assert(toks(tokens@)[pos as int] == tokens@[pos as int]@);
        match &tokens[pos] {
            Token::Sign(c) => *c == sign,
            _ => false,
        }
    } else {
        false
    }
}

fn names(word: &str) -> (answer: bool)
    ensures
        answer == is_name(word@),
{
    let chars = chars_of(word);
    if chars.len() == 0 {
        return false;
    }
    let c = chars[0];
    ('a' <= c && c <= 'z') || ('A' <= c && c <= 'Z') || c == '_' || c == '$' || c > '\x7f'
}

fn digits_only(text: &str) -> (answer: bool)
    ensures
        answer == all_digits(text@),
{
    let chars = chars_of(text);
    let mut i: usize = 0;
    while i < chars.len()
        invariant
            i <= chars.len(),
            chars@ == text@,
            forall|j: int| 0 <= j < i ==> '0' <= #[trigger] text@[j] <= '9',
        decreases chars.len() - i,
    {
        if chars[i] < '0' || chars[i] > '9' {
            return false;
        }
        i = i + 1;
    }
    true
}

fn drop_sign(word: &str) -> (rest: String)
    ensures
        rest@ == without_sign(word@),
{
    let chars = chars_of(word);
    let start: usize = if chars.len() > 0 && chars[0] == '-' {
        1
    } else {
        0
    };
    let rest = text_between(&chars, start, chars.len());
    assert(rest@ =~= without_sign(word@));
    rest
}

fn numeral(word: &str) -> (answer: bool)
    ensures
        answer == is_numeral(word@),
{
    let rest = drop_sign(word);
    let parts = split_text(rest.as_str(), '.');
    let ghost pieces = split_on(without_sign(word@), '.');
    if parts.len() > 2 {
        return false;
    }
    let mut i: usize = 0;
    while i < parts.len()
        invariant
            i <= parts.len() <= 2,
            texts(parts@) == pieces,
            pieces == split_on(without_sign(word@), '.'),
            forall|j: int| 0 <= j < i ==> (#[trigger] pieces[j]).len() > 0 && all_digits(pieces[j]),
        decreases parts.len() - i,
    {
        assert(pieces[i as int] == parts@[i as int]@);
        if parts[i].as_str().is_empty() || !digits_only(parts[i].as_str()) {
            return false;
        }
        i = i + 1;
    }
    true
}

fn whole_numeral(word: &str) -> (number: Option<i64>)
    ensures
        number == numeral_integer(word@),
{
    let chars = chars_of(word);
    if chars.len() > 0 && chars[0] == '-' {
        match read_digits(&chars, 1, 0x8000_0000_0000_0000) {
            Some(n) => Some((-(n as i128)) as i64),
            None => None,
        }
    } else {
        assert(chars@.skip(0) =~= chars@);
        match read_digits(&chars, 0, i64::MAX as u64) {
            Some(n) => Some(n as i64),
            None => None,
        }
    }
}

/// The number that a numeral stands for.
pub fn parse_number(word: &str) -> (value: Value)
    ensures
        value@ == numeral_value(word@),
{
    match whole_numeral(word) {
        Some(n) => Value::Number(integer_number(n)),
        None => match Real::read(word) {
            Some(number) => Value::Number(Number::Float(number)),
            None => Value::Null,
        },
    }
}

fn read_word(word: &String) -> (expr: Option<CaluculatedValue>)
    ensures
        match expr {
            Some(e) => word_value(word@) == Some(e@),
            None => word_value(word@) is None,
        },
{
    if same_ignoring_case(word.as_str(), "true") {
        return Some(CaluculatedValue::Static(Value::Bool(true)));
    }
    if same_ignoring_case(word.as_str(), "false") {
        return Some(CaluculatedValue::Static(Value::Bool(false)));
    }
    if numeral(word.as_str()) {
        return Some(CaluculatedValue::Static(parse_number(word.as_str())));
    }
    let chars = chars_of(word.as_str());
    if chars.len() > 1 && chars[0] == '@' {
        let name = text_between(&chars, 1, chars.len());
        assert(name@ =~= word@.skip(1));
        return Some(CaluculatedValue::Secret(name));
    }
    if names(word.as_str()) {
        Some(CaluculatedValue::Reference(path_parts(word.as_str())))
    } else {
        None
    }
}

/// The result of reading at a position, where the position after it is known.
spec fn reads_expr(result: Option<(CaluculatedValue, usize)>, t: Seq<Tok>, pos: int) -> bool {
    match result {
        Some((expr, end)) => value_at(t, pos) == Some((expr@, end as int)) && pos < end <= t.len(),
        None => value_at(t, pos) is None,
    }
}

spec fn reads_exprs(result: Option<(Vec<CaluculatedValue>, usize)>, t: Seq<Tok>, pos: int) -> bool {
    match result {
        Some((list, end)) => values_at(t, pos) == Some((exprs(list@), end as int)) && pos < end <= t.len() && list@.len() > 0,
        None => values_at(t, pos) is None,
    }
}

spec fn reads_entries(result: Option<(Vec<(String, CaluculatedValue)>, usize)>, t: Seq<Tok>, pos: int) -> bool {
    match result {
        Some((list, end)) => entries_at(t, pos) == Some((entries_of(list@), end as int)) && pos < end <= t.len(),
        None => entries_at(t, pos) is None,
    }
}

fn parse_value(tokens: &Vec<Token>, pos: usize) -> (result: Option<(CaluculatedValue, usize)>)
    ensures
        reads_expr(result, toks(tokens@), pos as int),
    decreases tokens@.len() - pos, 0int,
{
    let ghost t = toks(tokens@);
    if pos >= tokens.len() {
        return None;
    }
    assert(t[pos as int] == tokens@[pos as int]@);
    match &tokens[pos] {
        Token::Text(text) => Some((CaluculatedValue::Static(Value::String(text.clone())), pos + 1)),
        Token::Word(word) => {
            if !has_sign(tokens, pos + 1, '(') {
                return match read_word(word) {
                    Some(expr) => Some((expr, pos + 1)),
                    None => None,
                };
            }
            if !names(word.as_str()) {
                return None;
            }
            if has_sign(tokens, pos + 2, ')') {
                let none: Vec<CaluculatedValue> = Vec::new();
                assert(exprs(none@) =~= Seq::empty());
                return Some((CaluculatedValue::FunctionCall { function: word.clone(), parameters: none }, pos + 3));
            }
            match parse_values(tokens, pos + 2) {
                Some((parameters, end)) => if has_sign(tokens, end, ')') {
                    Some((CaluculatedValue::FunctionCall { function: word.clone(), parameters }, end + 1))
                } else {
                    None
                },
                None => None,
            }
        },
        Token::Sign(sign) => {
            if *sign == '[' {
                if has_sign(tokens, pos + 1, ']') {
                    let none: Vec<CaluculatedValue> = Vec::new();
                    assert(exprs(none@) =~= Seq::empty());
                    return Some((CaluculatedValue::Array(none), pos + 2));
                }
                match parse_values(tokens, pos + 1) {
                    Some((items, end)) => if has_sign(tokens, end, ']') {
                        Some((CaluculatedValue::Array(items), end + 1))
                    } else {
                        None
                    },
                    None => None,
                }
            } else if *sign == '{' {
                if has_sign(tokens, pos + 1, '}') {
                    let none: Vec<(String, CaluculatedValue)> = Vec::new();
                    assert(entries_of(none@) =~= Seq::empty());
                    return Some((CaluculatedValue::Object(none), pos + 2));
                }
                match parse_entries(tokens, pos + 1) {
                    Some((entries, end)) => if has_sign(tokens, end, '}') {
                        Some((CaluculatedValue::Object(entries), end + 1))
                    } else {
                        None
                    },
                    None => None,
                }
            } else {
                None
            }
        },
        Token::Line => None,
    }
}

fn parse_values(tokens: &Vec<Token>, pos: usize) -> (result: Option<(Vec<CaluculatedValue>, usize)>)
    ensures
        reads_exprs(result, toks(tokens@), pos as int),
    decreases tokens@.len() - pos, 1int,
{
    match parse_value(tokens, pos) {
        None => None,
        Some((first, next)) => {
            let ghost head = first@;
            let mut list: Vec<CaluculatedValue> = Vec::new();
            list.push(first);
            if has_sign(tokens, next, ',') {
                match parse_values(tokens, next + 1) {
                    Some((rest, end)) => {
                        let ghost tail = exprs(rest@);
                        let mut more = rest;
                        list.append(&mut more);
                        assert(exprs(list@) =~= seq![head] + tail);
                        Some((list, end))
                    },
                    None => None,
                }
            } else {
                assert(exprs(list@) =~= seq![head]);
                Some((list, next))
            }
        },
    }
}

fn parse_json_key(token: &Token) -> (key: Option<String>)
    ensures
        match key {
            Some(k) => entry_key(token@) == Some(k@),
            None => entry_key(token@) is None,
        },
{
    match token {
        Token::Word(word) => if names(word.as_str()) {
            Some(word.clone())
        } else {
            None
        },
        Token::Text(text) => Some(text.clone()),
        _ => None,
    }
}

fn parse_entries(tokens: &Vec<Token>, pos: usize) -> (result: Option<(Vec<(String, CaluculatedValue)>, usize)>)
    ensures
        reads_entries(result, toks(tokens@), pos as int),
    decreases tokens@.len() - pos, 1int,
{
    if pos >= tokens.len() {
        return None;
    }
    assert(toks(tokens@)[pos as int] == tokens@[pos as int]@);
    let key = match parse_json_key(&tokens[pos]) {
        Some(key) => key,
        None => {
            return None;
        },
    };
    if !has_sign(tokens, pos + 1, ':') {
        return None;
    }
    match parse_value(tokens, pos + 2) {
        None => None,
        Some((value, next)) => {
            let ghost head = (key@, value@);
            let mut list: Vec<(String, CaluculatedValue)> = Vec::new();
            list.push((key, value));
            if has_sign(tokens, next, ',') {
                match parse_entries(tokens, next + 1) {
                    Some((rest, end)) => {
                        let ghost tail = entries_of(rest@);
                        let mut more = rest;
                        list.append(&mut more);
                        assert(entries_of(list@) =~= seq![head] + tail);
                        Some((list, end))
                    },
                    None => None,
                }
            } else {
                assert(entries_of(list@) =~= seq![head]);
                Some((list, next))
            }
        },
    }
}

fn word_at(tokens: &Vec<Token>, pos: usize) -> (word: Option<String>)
    ensures
        match word {
            Some(w) => pos < tokens@.len() && pos < usize::MAX && toks(tokens@)[pos as int] == Tok::Word(w@) && is_name(w@),
            None => !(pos < tokens@.len() && (toks(tokens@)[pos as int] matches Tok::Word(w) && is_name(w))),
        },
{
    if pos < tokens.len() {
        assert(toks(tokens@)[pos as int] == tokens@[pos as int]@);
        match &tokens[pos] {
            Token::Word(word) => if names(word.as_str()) {
                Some(word.clone())
            } else {
                None
            },
            _ => None,
        }
    } else {
        None
    }
}

fn parse_map_item(tokens: &Vec<Token>, pos: usize) -> (result: Option<(MapExpr, usize)>)
    ensures
        match result {
            Some((item, end)) => map_item_at(toks(tokens@), pos as int) == Some((item@, end as int)) && pos < end <= tokens@.len(),
            None => map_item_at(toks(tokens@), pos as int) is None,
        },
{
    if has_sign(tokens, pos, '*') {
        return Some((MapExpr::All, pos + 1));
    }
    if pos < tokens.len() && has_sign(tokens, pos + 1, '=') {
        match word_at(tokens, pos) {
            Some(column) => {
                return match parse_value(tokens, pos + 2) {
                    Some((value, end)) => Some(
                        (MapExpr::Specific { column: path_parts(column.as_str()), value }, end),
                    ),
                    None => None,
                };
            },
            None => {},
        }
    }
    match parse_value(tokens, pos) {
        Some((CaluculatedValue::Reference(path), end)) => Some(
            (MapExpr::Specific { column: copy_strings(&path), value: CaluculatedValue::Reference(path) }, end),
        ),
        _ => None,
    }
}

fn parse_map_items(tokens: &Vec<Token>, pos: usize) -> (result: Option<(Vec<MapExpr>, usize)>)
    ensures
        match result {
            Some((items, end)) => map_items_at(toks(tokens@), pos as int) == Some((map_items(items@), end as int)) && pos < end
                <= tokens@.len(),
            None => map_items_at(toks(tokens@), pos as int) is None,
        },
    decreases tokens@.len() - pos,
{
    match parse_map_item(tokens, pos) {
        None => None,
        Some((first, next)) => {
            let ghost head = first@;
            let mut list: Vec<MapExpr> = Vec::new();
            list.push(first);
            if has_sign(tokens, next, ',') {
                match parse_map_items(tokens, next + 1) {
                    Some((rest, end)) => {
                        let ghost tail = map_items(rest@);
                        let mut more = rest;
                        list.append(&mut more);
                        assert(map_items(list@) =~= seq![head] + tail);
                        Some((list, end))
                    },
                    None => None,
                }
            } else {
                assert(map_items(list@) =~= seq![head]);
                Some((list, next))
            }
        },
    }
}

fn parse_column(tokens: &Vec<Token>, pos: usize) -> (column: Option<String>)
    ensures
        match column {
            Some(c) => column_at(toks(tokens@), pos as int) == Some(c@) && pos < tokens@.len() && pos < usize::MAX,
            None => column_at(toks(tokens@), pos as int) is None,
        },
{
    if has_sign(tokens, pos, '*') {
        let mut star = String::new();
        star.push('*');
        assert(star@ =~= seq!['*']);
        Some(star)
    } else {
        word_at(tokens, pos)
    }
}

fn parse_columns(tokens: &Vec<Token>, pos: usize) -> (result: Option<(Vec<String>, usize)>)
    ensures
        match result {
            Some((columns, end)) => columns_at(toks(tokens@), pos as int) == Some((texts(columns@), end as int)) && pos < end
                <= tokens@.len(),
            None => columns_at(toks(tokens@), pos as int) is None,
        },
    decreases tokens@.len() - pos,
{
    match parse_column(tokens, pos) {
        None => None,
        Some(first) => {
            let ghost head = first@;
            let mut list: Vec<String> = Vec::new();
            list.push(first);
            if has_sign(tokens, pos + 1, ',') {
                match parse_columns(tokens, pos + 2) {
                    Some((rest, end)) => {
                        let ghost tail = texts(rest@);
                        let mut more = rest;
                        list.append(&mut more);
                        assert(texts(list@) =~= seq![head] + tail);
                        Some((list, end))
                    },
                    None => None,
                }
            } else {
                assert(texts(list@) =~= seq![head]);
                Some((list, pos + 1))
            }
        },
    }
}

fn parse_sort_key(tokens: &Vec<Token>, pos: usize) -> (result: Option<(SortKey, usize)>)
    ensures
        match result {
            Some((key, end)) => sort_key_at(toks(tokens@), pos as int) == Some(((key.column@, key.direction), end as int)) && pos
                < end <= tokens@.len(),
            None => sort_key_at(toks(tokens@), pos as int) is None,
        },
{
    match word_at(tokens, pos) {
        None => None,
        Some(column) => {
            if pos + 1 < tokens.len() {
                assert(toks(tokens@)[pos + 1] == tokens@[pos + 1]@);
                if is_word(&tokens[pos + 1], "DESC") {
                    return Some((SortKey { column, direction: SortDirection::Desc }, pos + 2));
                }
                if is_word(&tokens[pos + 1], "ASC") {
                    return Some((SortKey { column, direction: SortDirection::Asc }, pos + 2));
                }
            }
            Some((SortKey { column, direction: SortDirection::Asc }, pos + 1))
        },
    }
}

fn parse_sort_keys(tokens: &Vec<Token>, pos: usize) -> (result: Option<(Vec<SortKey>, usize)>)
    ensures
        match result {
            Some((keys, end)) => sort_keys_at(toks(tokens@), pos as int) == Some((sort_keys_of(keys@), end as int)) && pos < end
                <= tokens@.len(),
            None => sort_keys_at(toks(tokens@), pos as int) is None,
        },
    decreases tokens@.len() - pos,
{
    match parse_sort_key(tokens, pos) {
        None => None,
        Some((first, next)) => {
            let ghost head = (first.column@, first.direction);
            let mut list: Vec<SortKey> = Vec::new();
            list.push(first);
            if has_sign(tokens, next, ',') {
                match parse_sort_keys(tokens, next + 1) {
                    Some((rest, end)) => {
                        let ghost tail = sort_keys_of(rest@);
                        let mut more = rest;
                        list.append(&mut more);
                        assert(sort_keys_of(list@) =~= seq![head] + tail);
                        Some((list, end))
                    },
                    None => None,
                }
            } else {
                assert(sort_keys_of(list@) =~= seq![head]);
                Some((list, next))
            }
        },
    }
}

fn parse_count(tokens: &Vec<Token>, pos: usize) -> (count: Option<usize>)
    ensures
        match count {
            Some(n) => count_at(toks(tokens@), pos as int) == Some(n as nat) && pos < tokens@.len(),
            None => count_at(toks(tokens@), pos as int) is None,
        },
{
    if pos >= tokens.len() {
        return None;
    }
    assert(toks(tokens@)[pos as int] == tokens@[pos as int]@);
    match &tokens[pos] {
        Token::Word(word) => {
            let chars = chars_of(word.as_str());
            assert(chars@.skip(0) =~= chars@);
            match read_digits(&chars, 0, usize::MAX as u64) {
                Some(n) => Some(n as usize),
                None => None,
            }
        },
        _ => None,
    }
}

fn make_filter(values: Vec<CaluculatedValue>) -> (filter: CaluculatedValue)
    requires
        values@.len() > 0,
    ensures
        filter@ == filter_of(exprs(values@)),
{
    let mut list = values;
    if list.len() == 1 {
        let ghost first = list@[0]@;
        assert(exprs(list@)[0] == first);
        list.remove(0)
    } else {
        CaluculatedValue::FunctionCall { function: "OR".to_owned(), parameters: list }
    }
}

fn parse_statement(tokens: &Vec<Token>, pos: usize) -> (result: Option<(SubQuery, usize)>)
    ensures
        match result {
            Some((step, end)) => step_at(toks(tokens@), pos as int) == Some((step@, end as int)) && pos < end <= tokens@.len(),
            None => step_at(toks(tokens@), pos as int) is None,
        },
{
    if pos >= tokens.len() {
        return None;
    }
    let ghost t = toks(tokens@);
    assert(t[pos as int] == tokens@[pos as int]@);
    let keyword = &tokens[pos];
    if is_word(keyword, "SOURCE") {
        match parse_values(tokens, pos + 1) {
            Some((sources, end)) => Some((SubQuery::Source(sources), end)),
            None => None,
        }
    } else if is_word(keyword, "MAP") {
        match parse_map_items(tokens, pos + 1) {
            Some((mapping, end)) => Some(
                (SubQuery::MapRows(MapStep { config: Value::Object(Object::new()), mapping }), end),
            ),
            None => None,
        }
    } else if is_word(keyword, "FILTER") {
        match parse_values(tokens, pos + 1) {
            Some((values, end)) => Some((SubQuery::Filter(make_filter(values)), end)),
            None => None,
        }
    } else if is_word(keyword, "MAP_MANY") {
        match word_at(tokens, pos + 1) {
            Some(field) => {
                let none: Vec<String> = Vec::new();
                assert(texts(none@) =~= Seq::empty());
                Some((SubQuery::MapMany(MapMany { field, include_columns: none }), pos + 2))
            },
            None => None,
        }
    } else if is_word(keyword, "GROUP_BY") {
        match parse_columns(tokens, pos + 1) {
            None => None,
            Some((keys, next)) => {
                if next < tokens.len() {
                    assert(t[next as int] == tokens@[next as int]@);
                    if is_word(&tokens[next], "MAP") {
                        return match parse_map_items(tokens, next + 1) {
                            Some((mapping, end)) => Some((SubQuery::GroupBy { keys, mapping }, end)),
                            None => None,
                        };
                    }
                }
                let mapping: Vec<MapExpr> = Vec::new();
                assert(map_items(mapping@) =~= Seq::empty());
                Some((SubQuery::GroupBy { keys, mapping }, next))
            },
        }
    } else if is_word(keyword, "SORT_BY") {
        match parse_sort_keys(tokens, pos + 1) {
            Some((keys, end)) => Some((SubQuery::SortBy(keys), end)),
            None => None,
        }
    } else if is_word(keyword, "LIMIT") {
        match parse_count(tokens, pos + 1) {
            Some(count) => Some((SubQuery::Limit(count), pos + 2)),
            None => None,
        }
    } else {
        None
    }
}

/// The mathematical steps.
pub open spec fn steps_of(steps: Seq<SubQuery>) -> Seq<Step> {
    Seq::new(steps.len(), |i: int| steps[i]@)
}

/// Steps in front of the steps that are still to come.
spec fn with_rest(done: Seq<Step>, rest: Option<Seq<Step>>) -> Option<Seq<Step>> {
    match rest {
        Some(steps) => Some(done + steps),
        None => None,
    }
}

/// Reads a query.
pub fn parse_query(input: &str) -> (query: Result<Query, ParseError>)
    ensures
        match query {
            Ok(q) => query_of(input@) == Some(q@),
            Err(_) => query_of(input@) is None,
        },
{
    let tokens = match read_words(input) {
        Some(tokens) => tokens,
        None => {
            return Err(ParseError);
        },
    };
    let ghost t = toks(tokens@);
    let mut steps: Vec<SubQuery> = Vec::new();
    let mut pos: usize = 0;
    proof {
        assert(steps_of(steps@) =~= Seq::empty());
        match steps_from(t, 0) {
            Some(all) => {
                assert(Seq::<Step>::empty() + all =~= all);
            },
            None => {},
        }
    }
    while pos < tokens.len()
        invariant
            pos <= tokens@.len(),
            t == toks(tokens@),
            words_of(input@) == Some(t),
            steps_from(t, 0) == with_rest(steps_of(steps@), steps_from(t, pos as int)),
        decreases tokens@.len() - pos,
    {
        assert(t[pos as int] == tokens@[pos as int]@);
        let ended = match &tokens[pos] {
            Token::Line => true,
            _ => false,
        };
        if ended {
            pos = pos + 1;
        } else {
            match parse_statement(&tokens, pos) {
                None => {
                    return Err(ParseError);
                },
                Some((step, end)) => {
                    if end < tokens.len() {
                        assert(t[end as int] == tokens@[end as int]@);
                        match &tokens[end] {
                            Token::Line => {},
                            _ => {
                                return Err(ParseError);
                            },
                        }
                    }
                    let ghost held = steps_of(steps@);
                    let ghost step_view = step@;
                    steps.push(step);
                    proof {
                        assert(steps_of(steps@) =~= held.push(step_view));
                        match steps_from(t, end as int) {
                            Some(rest) => {
                                assert(held + (seq![step_view] + rest) =~= held.push(step_view) + rest);
                            },
                            None => {},
                        }
                    }
                    pos = end;
                },
            }
        }
    }
    let query = Query { steps };
    assert(query@ =~= steps_of(steps@));
    assert(steps_of(steps@) + Seq::<Step>::empty() =~= steps_of(steps@));
    Ok(query)
}

/// The constant texts among expressions.
pub open spec fn constant_texts(list: Seq<Expr>) -> Seq<Seq<char>>
    decreases list.len(),
{
    if list.len() == 0 {
        Seq::empty()
    } else {
        match list.last() {
            Expr::Constant(Json::Text(text)) => constant_texts(list.drop_last()).push(text),
            _ => constant_texts(list.drop_last()),
        }
    }
}

/// The sources that a single line gives, where it is a source step.
pub open spec fn line_sources(line: Seq<char>) -> Option<Seq<Expr>> {
    match query_of(line) {
        Some(steps) => if steps.len() == 1 {
            match steps[0] {
                Step::Source(sources) => Some(sources),
                _ => None,
            }
        } else {
            None
        },
        None => None,
    }
}

/// The texts that the last source line among the lines names as sources.
pub open spec fn named_sources(lines: Seq<Seq<char>>) -> Seq<Seq<char>>
    decreases lines.len(),
{
    if lines.len() == 0 {
        Seq::empty()
    } else {
        match line_sources(lines.last()) {
            Some(sources) => constant_texts(sources),
            None => named_sources(lines.drop_last()),
        }
    }
}

/// The sources that a line gives.
pub fn parse_sources(line: &str) -> (sources: Option<Vec<CaluculatedValue>>)
    ensures
        match sources {
            Some(s) => line_sources(line@) == Some(exprs(s@)),
            None => line_sources(line@) is None,
        },
{
    match parse_query(line) {
        Ok(query) => {
            let mut steps = query.steps;
            assert(query@.len() == steps@.len());
            if steps.len() != 1 {
                return None;
            }
            assert(query@[0] == steps@[0]@);
            match steps.remove(0) {
                SubQuery::Source(sources) => Some(sources),
                _ => None,
            }
        },
        Err(_) => None,
    }
}

fn text_constants(sources: &Vec<CaluculatedValue>) -> (found: Vec<String>)
    ensures
        texts(found@) == constant_texts(exprs(sources@)),
{
    let ghost all = exprs(sources@);
    let mut found: Vec<String> = Vec::new();
    let mut i: usize = 0;
    assert(all.take(0) =~= Seq::empty());
    assert(texts(found@) =~= Seq::empty());
    while i < sources.len()
        invariant
            i <= sources.len(),
            all == exprs(sources@),
            texts(found@) == constant_texts(all.take(i as int)),
        decreases sources.len() - i,
    {
        assert(all.take(i + 1).drop_last() =~= all.take(i as int));
        assert(all.take(i + 1).last() == sources@[i as int]@);
        match &sources[i] {
            CaluculatedValue::Static(Value::String(text)) => {
                proof {
                    lemma_texts_push(found@, *text);
                }
                found.push(text.clone());
            },
            _ => {},
        }
        i = i + 1;
    }
    assert(all.take(i as int) =~= all);
    found
}

/// The sources that a text names, though it may not be a query yet: those of its last line that
/// is a source step.
pub fn parse_query_lenient(input: &str) -> (sources: Vec<String>)
    ensures
        texts(sources@) == named_sources(split_on(input@, '\n')),
{
    let lines = split_text(input, '\n');
    let ghost all = split_on(input@, '\n');
    let mut sources: Vec<String> = Vec::new();
    let mut i: usize = 0;
    assert(all.take(0) =~= Seq::empty());
    assert(texts(sources@) =~= Seq::empty());
    while i < lines.len()
        invariant
            i <= lines.len(),
            all == texts(lines@),
            texts(sources@) == named_sources(all.take(i as int)),
        decreases lines.len() - i,
    {
        assert(all.take(i + 1).drop_last() =~= all.take(i as int));
        assert(all.take(i + 1).last() == lines@[i as int]@);
        match parse_sources(lines[i].as_str()) {
            Some(found) => {
                sources = text_constants(&found);
            },
            None => {},
        }
        i = i + 1;
    }
    assert(all.take(i as int) =~= all);
    sources
}

} // verus!
