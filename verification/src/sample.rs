//! The fields that a sample of a source shows.
use vstd::prelude::*;
use crate::csv_source::{csv_fields_from_source, header_of};
use crate::descriptor::{keys_of, object_keys};
use crate::files::{has_extension, is_csv_path, is_ql_path, resolve_source, source_path};
use crate::json::{json_of_text, read_json};
use crate::parser::{named_sources, parse_query_lenient};
use crate::text::{chars_of, has_text, lemma_texts_push, split_on, text_between, texts};
use crate::value::{obj_insert, Json, Object, Value};

verus! {

/// The position of the quote that ends a string begun before a position, backslashes taken into
/// account.
pub open spec fn string_close(text: Seq<char>, pos: int, escaped: bool) -> Option<int>
    decreases text.len() - pos,
{
    if pos < 0 || pos >= text.len() {
        None
    } else if escaped {
        string_close(text, pos + 1, false)
    } else if text[pos] == '\\' {
        string_close(text, pos + 1, true)
    } else if text[pos] == '"' {
        Some(pos)
    } else {
        string_close(text, pos + 1, false)
    }
}

/// Whether a character is ASCII white space.
pub open spec fn is_blank(c: char) -> bool {
    c == ' ' || c == '\t' || c == '\n' || c == '\x0C' || c == '\r'
}

/// The first position that is not ASCII white space.
pub open spec fn after_blanks(text: Seq<char>, pos: int) -> int
    decreases text.len() - pos,
{
    if pos < 0 || pos >= text.len() || !is_blank(text[pos]) {
        pos
    } else {
        after_blanks(text, pos + 1)
    }
}

/// The keys with the key of a string added, where a colon follows it and it is valid JSON.
pub open spec fn with_key(keys: Seq<(Seq<char>, Json)>, text: Seq<char>, start: int, end: int) -> Seq<(Seq<char>, Json)> {
    let next = after_blanks(text, end + 1);
    if next < text.len() && text[next] == ':' {
        match json_of_text(text.subrange(start, end + 1)) {
            Some(Json::Text(key)) => obj_insert(keys, key, Json::Null),
            _ => keys,
        }
    } else {
        keys
    }
}

proof fn lemma_string_close(text: Seq<char>, pos: int, escaped: bool)
    ensures
        string_close(text, pos, escaped) matches Some(end) ==> pos <= end < text.len(),
    decreases text.len() - pos,
{
    if pos < 0 || pos >= text.len() {
    } else if escaped {
        lemma_string_close(text, pos + 1, false);
    } else if text[pos] == '\\' {
        lemma_string_close(text, pos + 1, true);
    } else if text[pos] != '"' {
        lemma_string_close(text, pos + 1, false);
    }
}

/// The keys that the beginning of a JSON text shows from a position on, added to others: strings
/// that a colon follows. A string that does not end ends the search.
pub open spec fn keys_from(text: Seq<char>, pos: int, keys: Seq<(Seq<char>, Json)>) -> Seq<(Seq<char>, Json)>
    decreases text.len() - pos,
    via keys_from_decreases
{
    if pos < 0 || pos >= text.len() {
        keys
    } else if text[pos] != '"' {
        keys_from(text, pos + 1, keys)
    } else {
        match string_close(text, pos + 1, false) {
            None => keys,
            Some(end) => keys_from(text, end + 1, with_key(keys, text, pos, end)),
        }
    }
}

#[via_fn]
proof fn keys_from_decreases(text: Seq<char>, pos: int, keys: Seq<(Seq<char>, Json)>) {
    lemma_string_close(text, pos + 1, false);
}

/// The fields that the beginning of a JSON text shows, in ascending order.
pub open spec fn prefix_fields(text: Seq<char>) -> Seq<Seq<char>> {
    keys_of(keys_from(text, 0, Seq::empty()))
}

fn find_close(chars: &Vec<char>, start: usize) -> (end: Option<usize>)
    requires
        start <= chars@.len(),
    ensures
        match end {
            Some(e) => string_close(chars@, start as int, false) == Some(e as int) && start <= e < chars@.len(),
            None => string_close(chars@, start as int, false) is None,
        },
{
    let mut pos: usize = start;
    let mut escaped = false;
    while pos < chars.len()
        invariant
            start <= pos <= chars@.len(),
            string_close(chars@, start as int, false) == string_close(chars@, pos as int, escaped),
        decreases chars@.len() - pos,
    {
        if escaped {
            escaped = false;
        } else if chars[pos] == '\\' {
            escaped = true;
        } else if chars[pos] == '"' {
            return Some(pos);
        }
        pos = pos + 1;
    }
    None
}

fn skip_blanks(chars: &Vec<char>, start: usize) -> (pos: usize)
    requires
        start <= chars@.len(),
    ensures
        pos == after_blanks(chars@, start as int),
        start <= pos <= chars@.len(),
{
    let mut pos: usize = start;
    while pos < chars.len() && (chars[pos] == ' ' || chars[pos] == '\t' || chars[pos] == '\n' || chars[pos] == '\x0C' || chars[pos] == '\r')
        invariant
            start <= pos <= chars@.len(),
            after_blanks(chars@, start as int) == after_blanks(chars@, pos as int),
        decreases chars@.len() - pos,
    {
        pos = pos + 1;
    }
    pos
}

/// The fields that the beginning of a JSON text shows, in ascending order.
pub fn fields_from_json_prefix(input: &str) -> (fields: Vec<String>)
    ensures
        texts(fields@) == prefix_fields(input@),
{
    let chars = chars_of(input);
    let ghost text = input@;
    let mut keys = Object::new();
    let mut pos: usize = 0;
    let mut open = true;
    while open && pos < chars.len()
        invariant
            pos <= chars@.len(),
            chars@ == text,
            open ==> keys_from(text, 0, Seq::empty()) == keys_from(text, pos as int, keys@),
            !open ==> keys_from(text, 0, Seq::empty()) == keys@,
        decreases (if open { 1int } else { 0int }) + chars@.len() - pos,
    {
        if chars[pos] != '"' {
            pos = pos + 1;
        } else {
            match find_close(&chars, pos + 1) {
                None => {
                    open = false;
                },
                Some(end) => {
                    let next: usize = skip_blanks(&chars, end + 1);
                    if next < chars.len() && chars[next] == ':' {
                        let literal = text_between(&chars, pos, end + 1);
                        match read_json(literal.as_str()) {
                            Some(Value::String(key)) => {
                                keys.insert(key, Value::Null);
                            },
                            _ => {},
                        }
                    }
                    pos = end + 1;
                },
            }
        }
    }
    object_keys(&keys)
}

/// The text that `String::from_utf8_lossy` makes of bytes.
pub uninterp spec fn lossy_text(bytes: Seq<u8>) -> Seq<char>;

/// The bytes as a text, by `String::from_utf8_lossy`.
#[verifier::external_body]
fn text_of_bytes(bytes: &Vec<u8>) -> (text: String)
    ensures
        text@ == lossy_text(bytes@),
{
    String::from_utf8_lossy(bytes).into_owned()
}

/// How many bytes of a JSON source are looked at: four kilobytes for every row wanted, at least 64
/// kilobytes and at most a megabyte.
pub open spec fn sample_size(max_rows: nat) -> nat {
    let wanted = if max_rows < 1 {
        4096nat
    } else {
        max_rows * 4096
    };
    if wanted < 65536 {
        65536
    } else if wanted > 1048576 {
        1048576
    } else {
        wanted
    }
}

/// How many bytes of a JSON source are looked at.
pub fn sample_bytes(max_rows: usize) -> (size: usize)
    ensures
        size == sample_size(max_rows as nat),
{
    if max_rows <= 16 {
        65536
    } else if max_rows >= 256 {
        1048576
    } else {
        max_rows * 4096
    }
}

/// The beginning of a source, at most so many bytes.
pub open spec fn head(bytes: Seq<u8>, size: nat) -> Seq<u8> {
    if size < bytes.len() {
        bytes.take(size as int)
    } else {
        bytes
    }
}

/// The fields of a source: known, not readable, or those of a query that has to be run.
#[derive(Debug, PartialEq)]
pub enum SampleFields {
    Known(Vec<String>),
    Unreadable,
    OfQuery,
}

/// The fields of a source.
#[verifier::ext_equal]
pub enum Sampled {
    Known(Seq<Seq<char>>),
    Unreadable,
    OfQuery,
}

impl View for SampleFields {
    type V = Sampled;

    open spec fn view(&self) -> Sampled {
        match self {
            SampleFields::Known(fields) => Sampled::Known(texts(fields@)),
            SampleFields::Unreadable => Sampled::Unreadable,
            SampleFields::OfQuery => Sampled::OfQuery,
        }
    }
}

/// The fields that the bytes of a source show: the header of a CSV file, the keys that the
/// beginning of a JSON file shows, and for a query those of its result.
pub open spec fn sampled_fields(path: Seq<char>, max_rows: nat, bytes: Seq<u8>) -> Sampled {
    if has_extension(path, "csv"@) {
        match header_of(bytes) {
            Some(header) => Sampled::Known(header),
            None => Sampled::Unreadable,
        }
    } else if has_extension(path, "ql"@) {
        Sampled::OfQuery
    } else {
        Sampled::Known(prefix_fields(lossy_text(head(bytes, sample_size(max_rows)))))
    }
}

/// The fields that the bytes of a source show.
pub fn json_fields_from_source_sample(source_path: &str, max_rows: usize, bytes: Vec<u8>) -> (fields: SampleFields)
    ensures
        fields@ == sampled_fields(source_path@, max_rows as nat, bytes@),
{
    if is_csv_path(source_path) {
        return match csv_fields_from_source(&bytes) {
            Some(fields) => SampleFields::Known(fields),
            None => SampleFields::Unreadable,
        };
    }
    if is_ql_path(source_path) {
        return SampleFields::OfQuery;
    }
    let size: usize = sample_bytes(max_rows);
    let mut buffer = bytes;
    if size < buffer.len() {
        buffer.truncate(size);
    }
    assert(buffer@ =~= head(bytes@, sample_size(max_rows as nat)));
    SampleFields::Known(fields_from_json_prefix(text_of_bytes(&buffer).as_str()))
}

/// The fields that the bytes of a source of any sort show.
pub fn fields_from_source_sample(source_path: &str, max_rows: usize, bytes: Vec<u8>) -> (fields: SampleFields)
    ensures
        fields@ == sampled_fields(source_path@, max_rows as nat, bytes@),
{
    json_fields_from_source_sample(source_path, max_rows, bytes)
}

/// The paths of the sources that a text names.
pub open spec fn named_paths(query_path: Seq<char>, query_text: Seq<char>) -> Seq<Seq<char>> {
    let sources = named_sources(split_on(query_text, '\n'));
    Seq::new(sources.len(), |i: int| source_path(query_path, sources[i]))
}

/// The paths of the sources that a text names.
pub fn source_paths_for_query(query_path: &str, query_text: &str) -> (paths: Vec<String>)
    ensures
        texts(paths@) == named_paths(query_path@, query_text@),
{
    let sources = parse_query_lenient(query_text);
    let ghost whole = named_paths(query_path@, query_text@);
    let mut paths: Vec<String> = Vec::new();
    let mut i: usize = 0;
    assert(texts(paths@) =~= whole.take(0));
    while i < sources.len()
        invariant
            i <= sources.len(),
            texts(sources@) == named_sources(split_on(query_text@, '\n')),
            whole == named_paths(query_path@, query_text@),
            texts(paths@) == whole.take(i as int),
        decreases sources.len() - i,
    {
        assert(texts(sources@)[i as int] == sources@[i as int]@);
        let path = resolve_source(query_path, sources[i].as_str());
        proof {
            lemma_texts_push(paths@, path);
        }
        paths.push(path);
        assert(whole.take(i + 1) =~= whole.take(i as int).push(whole[i as int]));
        i = i + 1;
    }
    assert(whole.take(i as int) =~= whole);
    paths
}

/// The path of the first source that a text names.
pub fn source_path_for_query(query_path: &str, query_text: &str) -> (path: Option<String>)
    ensures
        match path {
            Some(p) => named_paths(query_path@, query_text@).len() > 0 && p@ == named_paths(query_path@, query_text@)[0],
            None => named_paths(query_path@, query_text@).len() == 0,
        },
{
    let mut paths = source_paths_for_query(query_path, query_text);
    assert(texts(paths@).len() == paths@.len());
    if paths.len() == 0 {
        None
    } else {
        assert(texts(paths@)[0] == paths@[0]@);
        Some(paths.remove(0))
    }
}

/// A list with the fields of another added that it does not have.
pub open spec fn with_fields(fields: Seq<Seq<char>>, more: Seq<Seq<char>>) -> Seq<Seq<char>>
    decreases more.len(),
{
    if more.len() == 0 {
        fields
    } else {
        let earlier = with_fields(fields, more.drop_last());
        if earlier.contains(more.last()) {
            earlier
        } else {
            earlier.push(more.last())
        }
    }
}

/// The fields of several sources, each once, in the order in which they first occur.
pub open spec fn all_fields(lists: Seq<Seq<Seq<char>>>) -> Seq<Seq<char>>
    decreases lists.len(),
{
    if lists.len() == 0 {
        Seq::empty()
    } else {
        with_fields(all_fields(lists.drop_last()), lists.last())
    }
}

/// No field occurs twice.
pub proof fn lemma_fields_differ(lists: Seq<Seq<Seq<char>>>)
    ensures
        all_fields(lists).no_duplicates(),
    decreases lists.len(),
{
    if lists.len() > 0 {
        lemma_fields_differ(lists.drop_last());
        lemma_with_fields_differ(all_fields(lists.drop_last()), lists.last());
    }
}

proof fn lemma_with_fields_differ(fields: Seq<Seq<char>>, more: Seq<Seq<char>>)
    requires
        fields.no_duplicates(),
    ensures
        with_fields(fields, more).no_duplicates(),
    decreases more.len(),
{
    if more.len() > 0 {
        lemma_with_fields_differ(fields, more.drop_last());
        let earlier = with_fields(fields, more.drop_last());
        if !earlier.contains(more.last()) {
            let now = earlier.push(more.last());
            assert forall|i: int, j: int| 0 <= i < now.len() && 0 <= j < now.len() && i != j implies now[i] != now[j] by {
                if i < earlier.len() && j < earlier.len() {
                    assert(earlier[i] != earlier[j]);
                } else if i < earlier.len() {
                    assert(earlier.contains(earlier[i]));
                } else if j < earlier.len() {
                    assert(earlier.contains(earlier[j]));
                }
            }
        }
    }
}

/// The mathematical lists of fields.
pub open spec fn field_lists(lists: Seq<Vec<String>>) -> Seq<Seq<Seq<char>>> {
    Seq::new(lists.len(), |i: int| texts(lists[i]@))
}

/// The fields of a query's sources, given the fields of each source.
pub fn json_fields_for_query(source_fields: &Vec<Vec<String>>) -> (fields: Vec<String>)
    ensures
        texts(fields@) == all_fields(field_lists(source_fields@)),
{
    let ghost lists = field_lists(source_fields@);
    let mut fields: Vec<String> = Vec::new();
    let mut i: usize = 0;
    assert(lists.take(0) =~= Seq::empty());
    assert(texts(fields@) =~= Seq::empty());
    while i < source_fields.len()
        invariant
            i <= source_fields.len(),
            lists == field_lists(source_fields@),
            texts(fields@) == all_fields(lists.take(i as int)),
        decreases source_fields.len() - i,
    {
        assert(lists.take(i + 1).drop_last() =~= lists.take(i as int));
        assert(lists.take(i + 1).last() == texts(source_fields@[i as int]@));
        let ghost before = texts(fields@);
        let ghost more = texts(source_fields@[i as int]@);
        let mut k: usize = 0;
        assert(more.take(0) =~= Seq::empty());
        while k < source_fields[i].len()
            invariant
                i < source_fields.len(),
                k <= source_fields@[i as int]@.len(),
                more == texts(source_fields@[i as int]@),
                texts(fields@) == with_fields(before, more.take(k as int)),
            decreases source_fields@[i as int]@.len() - k,
        {
            assert(more.take(k + 1).drop_last() =~= more.take(k as int));
            assert(more.take(k + 1).last() == source_fields@[i as int]@[k as int]@);
            if !has_text(&fields, source_fields[i][k].as_str()) {
                proof {
                    lemma_texts_push(fields@, source_fields@[i as int]@[k as int]);
                }
                fields.push(source_fields[i][k].clone());
            }
            k = k + 1;
        }
        assert(more.take(k as int) =~= more);
        i = i + 1;
    }
    assert(lists.take(i as int) =~= lists);
    fields
}

} // verus!
