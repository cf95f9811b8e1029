//! Laws of reading queries: keywords, quotes, what may be left out, and what is refused.
use vstd::prelude::*;
use crate::functions::date::lemma_digits_hold;
use crate::lexer::{before, depth_after, is_sign, is_word_char, words_from, Tok};
use crate::parser::{constant_texts, entry_key, is_keyword, is_name, is_numeral, map_item_at, named_sources, numeral_value, query_of, sign_at, sort_key_at, step_at, steps_from, value_at, values_at, word_value};
use crate::query::{Expr, MapItem, SortDirection, Step};
use crate::text::{all_digits, ascii_lower_text, digits_value, is_space, join_on, lemma_split_behind, lemma_split_nonempty, lemma_split_single, split_on};
use crate::value::{double_of_text, finite_bits, Json, Num};
use crate::writing::{all_can_be_written, can_be_quoted, can_be_written, escaped, lemma_keywords_differ, lemma_list_is_read, lemma_quoted_text_is_read, lemma_value_is_read, lemma_words_are_local, list_words, stands_at, words_for};

verus! {

/// A word is a keyword whatever the case of its letters, and a text in quotes never is.
pub proof fn lemma_keyword_case(a: Seq<char>, b: Seq<char>, keyword: Seq<char>, text: Seq<char>)
    requires
        ascii_lower_text(a) == ascii_lower_text(b),
    ensures
        is_keyword(Tok::Word(a), keyword) == is_keyword(Tok::Word(b), keyword),
        is_keyword(Tok::Word(keyword), keyword),
        !is_keyword(Tok::Text(text), keyword),
{
}

/// Whether a word of a query is a keyword in letters of any case.
pub open spec fn spells(t: Seq<Tok>, pos: int, keyword: Seq<char>) -> bool {
    0 <= pos < t.len() && t[pos] is Word && ascii_lower_text(t[pos]->Word_0) == ascii_lower_text(keyword)
}

/// A step begins with its keyword in letters of any case, and is of the sort that the keyword says.
/// Anything else is no step.
pub proof fn lemma_step_keyword(t: Seq<Tok>, pos: int)
    ensures
        match step_at(t, pos) {
            Some((Step::Source(_), _)) => spells(t, pos, "SOURCE"@),
            Some((Step::MapRows(_, _), _)) => spells(t, pos, "MAP"@),
            Some((Step::Filter(_), _)) => spells(t, pos, "FILTER"@),
            Some((Step::MapMany(_, _), _)) => spells(t, pos, "MAP_MANY"@),
            Some((Step::GroupBy(_, _), _)) => spells(t, pos, "GROUP_BY"@),
            Some((Step::SortBy(_), _)) => spells(t, pos, "SORT_BY"@),
            Some((Step::Limit(_), _)) => spells(t, pos, "LIMIT"@),
            None => true,
        },
{
}

/// FILTER with several conditions keeps the rows that meet one of them.
pub proof fn lemma_filter_alternatives(t: Seq<Tok>, pos: int, conditions: Seq<Expr>)
    requires
        spells(t, pos, "FILTER"@),
        conditions.len() > 0,
        all_can_be_written(conditions),
        stands_at(t, pos + 1, list_words(conditions)),
        !sign_at(t, pos + 1 + list_words(conditions).len(), '('),
        !sign_at(t, pos + 1 + list_words(conditions).len(), ','),
    ensures
        step_at(t, pos) == Some(
            (
                Step::Filter(
                    if conditions.len() == 1 {
                        conditions[0]
                    } else {
                        Expr::Call("OR"@, conditions)
                    },
                ),
                pos + 1 + list_words(conditions).len(),
            ),
        ),
{
    lemma_keywords_differ();
    lemma_list_is_read(t, pos + 1, conditions);
}

/// SOURCE takes one source or several, in letters of any case.
pub proof fn lemma_source_list(t: Seq<Tok>, pos: int, sources: Seq<Expr>)
    requires
        spells(t, pos, "SOURCE"@),
        sources.len() > 0,
        all_can_be_written(sources),
        stands_at(t, pos + 1, list_words(sources)),
        !sign_at(t, pos + 1 + list_words(sources).len(), '('),
        !sign_at(t, pos + 1 + list_words(sources).len(), ','),
    ensures
        step_at(t, pos) == Some((Step::Source(sources), pos + 1 + list_words(sources).len())),
{
    lemma_keywords_differ();
    lemma_list_is_read(t, pos + 1, sources);
}

/// A sort key without a direction ascends; `ASC` and `DESC` say so in letters of any case.
pub proof fn lemma_sort_direction(t: Seq<Tok>, pos: int)
    requires
        0 <= pos < t.len(),
        t[pos] is Word,
        is_name(t[pos]->Word_0),
    ensures
        sort_key_at(t, pos) == Some(
            if spells(t, pos + 1, "DESC"@) {
                ((t[pos]->Word_0, SortDirection::Desc), pos + 2)
            } else if spells(t, pos + 1, "ASC"@) {
                ((t[pos]->Word_0, SortDirection::Asc), pos + 2)
            } else {
                ((t[pos]->Word_0, SortDirection::Asc), pos + 1)
            },
        ),
{
}

/// A column of a mapping without a value is the field of that name, under that name.
pub proof fn lemma_column_of_its_own(t: Seq<Tok>, pos: int, path: Seq<Seq<char>>)
    requires
        can_be_written(Expr::Reference(path)),
        0 <= pos < t.len(),
        t[pos] == Tok::Word(join_on(path, seq!['.'])),
        !sign_at(t, pos + 1, '='),
        !sign_at(t, pos + 1, '('),
    ensures
        map_item_at(t, pos) == Some((MapItem::Column(path, Expr::Reference(path)), pos + 1)),
{
    let words = words_for(Expr::Reference(path));
    assert(words.len() == 1 && words[0] == t[pos]);
    assert(stands_at(t, pos, words)) by {
        assert forall|i: int| 0 <= i < words.len() implies t[pos + i] == #[trigger] words[i] by {}
    }
    lemma_value_is_read(t, pos, Expr::Reference(path));
}

/// LIMIT takes the number that its digits stand for.
pub proof fn lemma_limit_count(t: Seq<Tok>, pos: int, digits: Seq<char>)
    requires
        spells(t, pos, "LIMIT"@),
        pos + 1 < t.len(),
        t[pos + 1] == Tok::Word(digits),
    ensures
        digits.len() > 0 && all_digits(digits) && digits_value(digits) <= usize::MAX ==> step_at(t, pos) == Some(
            (Step::Limit(digits_value(digits) as nat), pos + 2),
        ),
        digits.len() == 0 || !all_digits(digits) ==> step_at(t, pos) is None,
{
    lemma_keywords_differ();
}

/// Lines without words do not matter, and a step that something else follows on its line makes the
/// query none.
pub proof fn lemma_lines(t: Seq<Tok>, pos: int)
    requires
        0 <= pos < t.len(),
    ensures
        t[pos] is Line ==> steps_from(t, pos) == steps_from(t, pos + 1),
        !(t[pos] is Line) && step_at(t, pos) is None ==> steps_from(t, pos) is None,
        !(t[pos] is Line) && (step_at(t, pos) matches Some((_, end)) && end < t.len() && !(t[end] is Line)) ==> steps_from(t, pos) is None,
        steps_from(t, t.len() as int) == Some(Seq::<Step>::empty()),
{
}

/// A text in quotes of either sort, with a backslash before each quote of that sort within it, is read
/// as that text.
pub proof fn lemma_quotes(text: Seq<char>, quote: char, rest: Seq<char>, depth: int)
    requires
        quote == '\'' || quote == '"',
        can_be_quoted(text),
    ensures
        words_from(seq![quote] + escaped(text, quote).push(quote) + rest, 0, depth) == before(
            Tok::Text(text),
            words_from(rest, 0, depth),
        ),
{
    let inner = escaped(text, quote).push(quote);
    let all = seq![quote] + inner + rest;
    assert(stands_at(all, 1, inner)) by {
        assert forall|i: int| 0 <= i < inner.len() implies all[1 + i] == #[trigger] inner[i] by {}
    }
    lemma_quoted_text_is_read(all, 1, text, quote);
    let end = 1 + inner.len() as int;
    lemma_words_are_local(all, end, depth);
    assert(all.skip(end) =~= rest);
    assert(all[0] == quote);
}

/// White space between words does not matter, but for the ends of lines outside brackets; within
/// brackets a query goes on over the lines.
pub proof fn lemma_white_space(space: char, rest: Seq<char>, depth: int)
    requires
        crate::text::is_space(space),
    ensures
        space != '\n' || depth != 0 ==> words_from(seq![space] + rest, 0, depth) == words_from(rest, 0, depth),
        space == '\n' && depth == 0 ==> words_from(seq![space] + rest, 0, depth) == before(
            Tok::Line,
            words_from(rest, 0, depth),
        ),
{
    let all = seq![space] + rest;
    lemma_words_are_local(all, 1, depth);
    assert(all.skip(1) =~= rest);
    assert(all[0] == space);
}

/// A numeral with a point is the double that it is read as, and digits alone are the integer that they
/// stand for, with a minus sign its negative.
pub proof fn lemma_numerals(whole: Seq<char>, fraction: Seq<char>)
    requires
        whole.len() > 0,
        all_digits(whole),
        all_digits(fraction),
        digits_value(whole) <= i64::MAX,
        digits_value(whole) >= 0,
    ensures
        numeral_value(whole) == Json::Number(Num::PosInt(digits_value(whole) as u64)),
        digits_value(whole) > 0 ==> numeral_value(seq!['-'] + whole) == Json::Number(
            Num::NegInt((-digits_value(whole)) as i64),
        ),
        numeral_value(whole.push('.') + fraction) == (if double_of_text(whole.push('.') + fraction) is Some && finite_bits(
            double_of_text(whole.push('.') + fraction)->0,
        ) {
            Json::Number(Num::Float(double_of_text(whole.push('.') + fraction)->0))
        } else {
            Json::Null
        }),
{
    assert('0' <= whole[0] <= '9');
    assert((seq!['-'] + whole).skip(1) =~= whole);
    let word = whole.push('.') + fraction;
    assert(word[whole.len() as int] == '.');
    assert(!all_digits(word)) by {
        if all_digits(word) {
            assert('0' <= word[whole.len() as int] <= '9');
        }
    }
    assert(word[0] == whole[0]);
}

/// The sources that a text names, though it may not be a query yet, are the texts of the last of its
/// lines that is a source step.
pub proof fn lemma_named_sources(lines: Seq<Seq<char>>, line: Seq<char>, sources: Seq<Expr>, source: Expr)
    ensures
        named_sources(Seq::empty()) == Seq::<Seq<char>>::empty(),
        query_of(line) == Some(seq![Step::Source(sources)]) ==> named_sources(lines.push(line)) == constant_texts(sources),
        !(query_of(line) matches Some(steps) && steps.len() == 1 && steps[0] is Source) ==> named_sources(lines.push(line))
            == named_sources(lines),
        constant_texts(Seq::empty()) == Seq::<Seq<char>>::empty(),
        constant_texts(sources.push(source)) == if source is Constant && source->Constant_0 is Text {
            constant_texts(sources).push(source->Constant_0->Text_0)
        } else {
            constant_texts(sources)
        },
{
    assert(lines.push(line).drop_last() =~= lines);
    assert(sources.push(source).drop_last() =~= sources);
    assert(seq![Step::Source(sources)][0] == Step::Source(sources));
}

/// Words are made of letters, digits, the characters `_`, `.`, `$`, `@` and `-`, and all that is not
/// ASCII but white space. Names begin with a letter, an underscore, a dollar sign or what is not
/// ASCII. Brackets, braces, parentheses, comma, colon, equals sign and star are signs.
pub proof fn lemma_word_characters(c: char, word: Seq<char>)
    ensures
        is_word_char(c) <==> {
            ||| 'a' <= c <= 'z' || 'A' <= c <= 'Z' || '0' <= c <= '9'
            ||| c == '_' || c == '.' || c == '$' || c == '@' || c == '-'
            ||| c as int > 127 && !is_space(c)
        },
        is_sign(c) <==> {
            ||| c == '(' || c == ')' || c == '[' || c == ']' || c == '{' || c == '}'
            ||| c == ',' || c == ':' || c == '=' || c == '*'
        },
        is_name(word) <==> word.len() > 0 && {
            ||| 'a' <= word[0] <= 'z' || 'A' <= word[0] <= 'Z'
            ||| word[0] == '_' || word[0] == '$' || word[0] as int > 127
        },
{
}

/// An entry of an object begins with a name or a text in quotes, which is its key.
pub proof fn lemma_entry_keys(word: Seq<char>, text: Seq<char>, sign: char)
    ensures
        entry_key(Tok::Text(text)) == Some(text),
        entry_key(Tok::Word(word)) == (if is_name(word) {
            Some(word)
        } else {
            None
        }),
        entry_key(Tok::Sign(sign)) is None,
{
}

/// What is opened is closed: a list ends with its bracket, an object with its brace and a call with its
/// parenthesis.
pub proof fn lemma_closed(t: Seq<Tok>, pos: int)
    ensures
        value_at(t, pos) matches Some((expr, end)) ==> match expr {
            Expr::Array(_) => sign_at(t, pos, '[') && sign_at(t, end - 1, ']'),
            Expr::Object(_) => sign_at(t, pos, '{') && sign_at(t, end - 1, '}'),
            Expr::Call(name, _) => 0 <= pos < t.len() && t[pos] == Tok::Word(name) && sign_at(t, pos + 1, '(') && sign_at(
                t,
                end - 1,
                ')',
            ),
            _ => end == pos + 1,
        },
{
}

/// A list of values goes on behind a comma, and only there.
pub proof fn lemma_list_goes_on(t: Seq<Tok>, pos: int)
    ensures
        match (values_at(t, pos), value_at(t, pos)) {
            (Some((list, end)), Some((first, next))) => {
                &&& list.len() > 0
                &&& list[0] == first
                &&& sign_at(t, next, ',') ==> list.len() > 1 && values_at(t, next + 1) == Some((list.drop_first(), end))
                &&& !sign_at(t, next, ',') ==> list.len() == 1 && end == next
            },
            (Some(_), None) => false,
            _ => true,
        },
{
    if let Some((list, end)) = values_at(t, pos) {
        let (first, next) = value_at(t, pos)->0;
        if sign_at(t, next, ',') {
            let (rest, last) = values_at(t, next + 1)->0;
            assert((seq![first] + rest).drop_first() =~= rest);
            lemma_values_some(t, next + 1);
        }
    }
}

proof fn lemma_values_some(t: Seq<Tok>, pos: int)
    ensures
        values_at(t, pos) matches Some((list, _)) ==> list.len() > 0,
{
}

/// Opening brackets of all sorts go one deeper, closing ones come one back where there is anything to
/// close, and other signs change nothing.
pub proof fn lemma_bracket_depth(depth: int, sign: char)
    requires
        depth >= 0,
    ensures
        sign == '(' || sign == '[' || sign == '{' ==> depth_after(depth, sign) == depth + 1,
        sign == ')' || sign == ']' || sign == '}' ==> depth_after(depth, sign) == if depth > 0 {
            depth - 1
        } else {
            0
        },
        sign == ',' || sign == ':' || sign == '=' || sign == '*' ==> depth_after(depth, sign) == depth,
{
}

/// A numeral with digits on both sides of a point is a constant, behind a minus sign or without one;
/// `@` and a name are a secret.
pub proof fn lemma_number_words(whole: Seq<char>, fraction: Seq<char>, name: Seq<char>)
    requires
        whole.len() > 0,
        all_digits(whole),
        fraction.len() > 0,
        all_digits(fraction),
        name.len() > 0,
    ensures
        word_value(whole.push('.') + fraction) == Some(Expr::Constant(numeral_value(whole.push('.') + fraction))),
        word_value(seq!['-'] + (whole.push('.') + fraction)) == Some(
            Expr::Constant(numeral_value(seq!['-'] + (whole.push('.') + fraction))),
        ),
        word_value(seq!['@'] + name) == Some(Expr::Secret(name)),
{
    let word = whole.push('.') + fraction;
    let negative = seq!['-'] + word;
    let secret = seq!['@'] + name;
    assert('0' <= whole[0] <= '9');
    lemma_digits_hold(whole, '.');
    lemma_digits_hold(fraction, '.');
    lemma_split_single(whole, '.');
    lemma_split_behind(whole, fraction, '.');
    assert(split_on(word, '.') =~= seq![whole, fraction]);
    assert(word[0] == whole[0]);
    assert(negative.skip(1) =~= word);
    assert(is_numeral(word) && is_numeral(negative));
    reveal_strlit("true");
    reveal_strlit("false");
    assert(ascii_lower_text("true"@)[0] == 't' && ascii_lower_text("false"@)[0] == 'f');
    assert(ascii_lower_text(word)[0] == word[0]);
    assert(ascii_lower_text(negative)[0] == '-');
    assert(ascii_lower_text(secret)[0] == '@');
    assert(secret.skip(1) =~= name);
    lemma_split_nonempty(secret, '.');
    lemma_first_character(secret, '.');
    assert(!is_numeral(secret)) by {
        if is_numeral(secret) {
            let parts = split_on(secret, '.');
            assert(parts[0].len() > 0 && all_digits(parts[0]));
            assert('0' <= parts[0][0] <= '9');
        }
    }
}

proof fn lemma_first_character(text: Seq<char>, separator: char)
    requires
        text.len() > 0,
        text[0] != separator,
    ensures
        split_on(text, separator).len() > 0,
        split_on(text, separator)[0].len() > 0,
        split_on(text, separator)[0][0] == text[0],
    decreases text.len(),
{
    let rest = text.drop_last();
    lemma_split_nonempty(rest, separator);
    if rest.len() == 0 {
        assert(split_on(rest, separator) =~= seq![Seq::empty()]);
        assert(split_on(text, separator)[0] =~= seq![text[0]]);
    } else {
        lemma_first_character(rest, separator);
        let pieces = split_on(rest, separator);
        if text.last() != separator && pieces.len() == 1 {
            assert(pieces.last() == pieces[0]);
        }
    }
}

} // verus!
