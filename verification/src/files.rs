//! Paths of files, written with slashes.
use vstd::prelude::*;
use crate::text::{ascii_lower_text, chars_of, join_on, lemma_texts_push, push_text, same_ignoring_case, split_on, split_text, text_between, texts};

verus! {

/// The path without what trails behind its last part: slashes, and dots that stand for the same
/// directory.
pub open spec fn without_tail(path: Seq<char>) -> Seq<char>
    decreases path.len(),
{
    if path.len() > 1 && path.last() == '/' {
        without_tail(path.drop_last())
    } else if path.len() > 1 && path.last() == '.' && path[path.len() - 2] == '/' {
        without_tail(path.drop_last())
    } else {
        path
    }
}

/// The position of the last slash.
pub open spec fn last_slash(path: Seq<char>) -> Option<int>
    decreases path.len(),
{
    if path.len() == 0 {
        None
    } else if path.last() == '/' {
        Some(path.len() - 1)
    } else {
        last_slash(path.drop_last())
    }
}

/// The directory that a path is in; none for the empty path and for the root.
pub open spec fn parent_of(path: Seq<char>) -> Option<Seq<char>> {
    let inner = without_tail(path);
    if inner.len() == 0 || inner == seq!['/'] {
        None
    } else {
        match last_slash(inner) {
            None => Some(Seq::empty()),
            Some(i) => if i == 0 {
                Some(seq!['/'])
            } else {
                Some(without_tail(inner.take(i)))
            },
        }
    }
}

/// The last part of a path.
pub open spec fn file_name_of(path: Seq<char>) -> Seq<char> {
    let inner = without_tail(path);
    match last_slash(inner) {
        None => inner,
        Some(i) => inner.skip(i + 1),
    }
}

/// A path below a directory.
pub open spec fn below(directory: Seq<char>, path: Seq<char>) -> Seq<char> {
    if directory.len() == 0 {
        path
    } else if directory.last() == '/' {
        directory + path
    } else {
        directory.push('/') + path
    }
}

/// Whether a path starts at the root.
pub open spec fn is_absolute(path: Seq<char>) -> bool {
    path.len() > 0 && path[0] == '/'
}

/// The path of a source: as it is where it starts at the root, else below the directory of the
/// query.
pub open spec fn source_path(query_path: Seq<char>, source: Seq<char>) -> Seq<char> {
    if is_absolute(source) {
        source
    } else {
        match parent_of(query_path) {
            Some(directory) => below(directory, source),
            None => below(seq!['.'], source),
        }
    }
}

/// Whether the last part of a path has an extension, whatever its case. A name that only begins
/// with a dot has none.
pub open spec fn has_extension(path: Seq<char>, extension: Seq<char>) -> bool {
    let parts = split_on(file_name_of(path), '.');
    &&& parts.len() >= 2
    &&& !(parts.len() == 2 && parts[0].len() == 0)
    &&& ascii_lower_text(parts.last()) == ascii_lower_text(extension)
}

proof fn lemma_without_tail(path: Seq<char>)
    ensures
        without_tail(path).len() <= path.len(),
        without_tail(path) == path.take(without_tail(path).len() as int),
    decreases path.len(),
{
    if path.len() > 1 && (path.last() == '/' || (path.last() == '.' && path[path.len() - 2] == '/')) {
        lemma_without_tail(path.drop_last());
        let n = without_tail(path).len() as int;
        assert(path.drop_last().take(n) =~= path.take(n));
    } else {
        assert(path.take(path.len() as int) =~= path);
    }
}

fn tail_start(chars: &Vec<char>, length: usize) -> (end: usize)
    requires
        length <= chars@.len(),
    ensures
        end <= length,
        chars@.take(end as int) == without_tail(chars@.take(length as int)),
{
    let mut end: usize = length;
    while end > 1 && (chars[end - 1] == '/' || (chars[end - 1] == '.' && chars[end - 2] == '/'))
        invariant
            end <= length <= chars@.len(),
            without_tail(chars@.take(end as int)) == without_tail(chars@.take(length as int)),
        decreases end,
    {
        assert(chars@.take(end as int).drop_last() =~= chars@.take(end - 1));
        assert(chars@.take(end as int).last() == chars@[end - 1]);
        assert(chars@.take(end as int)[end - 2] == chars@[end - 2]);
        end = end - 1;
    }
    proof {
        if end > 1 {
            assert(chars@.take(end as int).last() == chars@[end - 1]);
            assert(chars@.take(end as int)[end - 2] == chars@[end - 2]);
        }
    }
    end
}

fn find_last_slash(chars: &Vec<char>, length: usize) -> (position: Option<usize>)
    requires
        length <= chars@.len(),
    ensures
        match position {
            Some(i) => last_slash(chars@.take(length as int)) == Some(i as int) && i < length,
            None => last_slash(chars@.take(length as int)) is None,
        },
{
    let mut end: usize = length;
    while end > 0
        invariant
            end <= length <= chars@.len(),
            last_slash(chars@.take(end as int)) == last_slash(chars@.take(length as int)),
        decreases end,
    {
        assert(chars@.take(end as int).drop_last() =~= chars@.take(end - 1));
        assert(chars@.take(end as int).last() == chars@[end - 1]);
        if chars[end - 1] == '/' {
            return Some(end - 1);
        }
        end = end - 1;
    }
    None
}

/// The directory that a path is in.
pub fn parent(path: &str) -> (directory: Option<String>)
    ensures
        match directory {
            Some(d) => parent_of(path@) == Some(d@),
            None => parent_of(path@) is None,
        },
{
    let chars = chars_of(path);
    assert(chars@.take(chars@.len() as int) =~= path@);
    let end: usize = tail_start(&chars, chars.len());
    let ghost inner = without_tail(path@);
    if end == 0 {
        return None;
    }
    if end == 1 && chars[0] == '/' {
        assert(inner =~= seq!['/']);
        return None;
    }
    assert(inner != seq!['/']) by {
        if inner =~= seq!['/'] {
            assert(inner[0] == chars@[0]);
        }
    }
    match find_last_slash(&chars, end) {
        None => Some(String::new()),
        Some(i) => {
            if i == 0 {
                let mut root = String::new();
                root.push('/');
                assert(root@ =~= seq!['/']);
                Some(root)
            } else {
                assert(inner.take(i as int) =~= chars@.take(i as int));
                let stop: usize = tail_start(&chars, i);
                let directory = text_between(&chars, 0, stop);
                assert(directory@ =~= chars@.take(stop as int));
                Some(directory)
            }
        },
    }
}

/// The last part of a path.
pub fn file_name(path: &str) -> (name: String)
    ensures
        name@ == file_name_of(path@),
{
    let chars = chars_of(path);
    assert(chars@.take(chars@.len() as int) =~= path@);
    let end: usize = tail_start(&chars, chars.len());
    let ghost inner = without_tail(path@);
    match find_last_slash(&chars, end) {
        None => {
            let name = text_between(&chars, 0, end);
            assert(name@ =~= inner);
            name
        },
        Some(i) => {
            let name = text_between(&chars, i + 1, end);
            assert(name@ =~= inner.skip(i + 1));
            name
        },
    }
}

/// A path below a directory.
pub fn join_path(directory: &str, path: &str) -> (joined: String)
    ensures
        joined@ == below(directory@, path@),
{
    let chars = chars_of(directory);
    let mut joined = text_between(&chars, 0, chars.len());
    assert(joined@ =~= directory@);
    if chars.len() > 0 && chars[chars.len() - 1] != '/' {
        joined.push('/');
    }
    push_text(&mut joined, path);
    assert(joined@ =~= below(directory@, path@));
    joined
}

fn starts_at_root(path: &str) -> (answer: bool)
    ensures
        answer == is_absolute(path@),
{
    let chars = chars_of(path);
    chars.len() > 0 && chars[0] == '/'
}

/// The path of a source.
pub fn resolve_source(query_path: &str, source: &str) -> (path: String)
    ensures
        path@ == source_path(query_path@, source@),
{
    if starts_at_root(source) {
        return source.to_owned();
    }
    match parent(query_path) {
        Some(directory) => join_path(directory.as_str(), source),
        None => {
            let mut here = String::new();
            here.push('.');
            assert(here@ =~= seq!['.']);
            join_path(here.as_str(), source)
        },
    }
}

fn extension_is(path: &str, extension: &str) -> (answer: bool)
    ensures
        answer == has_extension(path@, extension@),
{
    let name = file_name(path);
    let parts = split_text(name.as_str(), '.');
    let ghost pieces = texts(parts@);
    assert(pieces[0] == parts@[0]@);
    assert(pieces.last() == parts@[parts@.len() - 1]@);
    if parts.len() < 2 || (parts.len() == 2 && parts[0].as_str().is_empty()) {
        return false;
    }
    same_ignoring_case(parts[parts.len() - 1].as_str(), extension)
}

/// Whether a path is one of a CSV file.
pub fn is_csv_path(path: &str) -> (answer: bool)
    ensures
        answer == has_extension(path@, "csv"@),
{
    extension_is(path, "csv")
}

/// Whether a path is one of a query.
pub fn is_ql_path(path: &str) -> (answer: bool)
    ensures
        answer == has_extension(path@, "ql"@),
{
    extension_is(path, "ql")
}

/// Whether a text begins with another.
pub fn starts_with(text: &str, prefix: &str) -> (answer: bool)
    ensures
        answer == prefix@.is_prefix_of(text@),
{
    let chars = chars_of(text);
    let wanted = chars_of(prefix);
    if wanted.len() > chars.len() {
        return false;
    }
    let mut i: usize = 0;
    while i < wanted.len()
        invariant
            i <= wanted.len() <= chars.len(),
            chars@ == text@,
            wanted@ == prefix@,
            forall|j: int| 0 <= j < i ==> text@[j] == prefix@[j],
        decreases wanted.len() - i,
    {
        if chars[i] != wanted[i] {
            assert(text@.subrange(0, prefix@.len() as int)[i as int] != prefix@[i as int]);
            return false;
        }
        i = i + 1;
    }
    assert(text@.subrange(0, prefix@.len() as int) =~= prefix@);
    true
}

/// Whether a text ends with another.
pub fn ends_with(text: &str, suffix: &str) -> (answer: bool)
    ensures
        answer == suffix@.is_suffix_of(text@),
{
    let chars = chars_of(text);
    let wanted = chars_of(suffix);
    if wanted.len() > chars.len() {
        return false;
    }
    let offset: usize = chars.len() - wanted.len();
    let mut i: usize = 0;
    while i < wanted.len()
        invariant
            i <= wanted.len(),
            offset + wanted.len() == chars.len(),
            chars@ == text@,
            wanted@ == suffix@,
            forall|j: int| 0 <= j < i ==> text@[offset + j] == suffix@[j],
        decreases wanted.len() - i,
    {
        if chars[offset + i] != wanted[i] {
            assert(text@.subrange(offset as int, text@.len() as int)[i as int] != suffix@[i as int]);
            return false;
        }
        i = i + 1;
    }
    assert(text@.subrange(offset as int, text@.len() as int) =~= suffix@);
    true
}

/// Whether a source is requested over HTTP.
pub open spec fn is_http(source: Seq<char>) -> bool {
    "http://"@.is_prefix_of(source) || "https://"@.is_prefix_of(source)
}

/// Whether a source is requested over HTTP.
pub fn is_http_uri(source: &str) -> (answer: bool)
    ensures
        answer == is_http(source@),
{
    starts_with(source, "http://") || starts_with(source, "https://")
}

/// The position of the dot before the extension of the last part of a path, none where it has no
/// extension.
pub open spec fn stem_end(path: Seq<char>, from: int) -> Option<int>
    decreases path.len() - from,
{
    if from >= path.len() {
        None
    } else {
        match stem_end(path, from + 1) {
            Some(i) => Some(i),
            None => if path[from] == '.' {
                Some(from)
            } else {
                None
            },
        }
    }
}

/// The name of a file with its extension replaced, or added where it has none. A name that only
/// begins with a dot has none.
pub open spec fn renamed(name: Seq<char>, extension: Seq<char>) -> Seq<char> {
    let stem = match stem_end(name, 1) {
        Some(i) => name.take(i),
        None => name,
    };
    stem.push('.') + extension
}

/// The path with the extension of its last part replaced. The empty path, the root and a path
/// that ends in `..` or is a lone dot stay as they are.
pub open spec fn with_extension_of(path: Seq<char>, extension: Seq<char>) -> Seq<char> {
    let inner = without_tail(path);
    let name = file_name_of(path);
    if name.len() == 0 || name == seq!['.', '.'] || name == seq!['.'] {
        path
    } else {
        inner.take(inner.len() - name.len()) + renamed(name, extension)
    }
}

fn find_stem_end(chars: &Vec<char>, start: usize) -> (position: Option<usize>)
    ensures
        match position {
            Some(i) => stem_end(chars@, start as int) == Some(i as int) && start <= i < chars@.len(),
            None => stem_end(chars@, start as int) is None,
        },
    decreases chars@.len() - start,
{
    if start >= chars.len() {
        return None;
    }
    match find_stem_end(chars, start + 1) {
        Some(i) => Some(i),
        None => if chars[start] == '.' {
            Some(start)
        } else {
            None
        },
    }
}

proof fn lemma_name_is_end(path: Seq<char>)
    ensures
        file_name_of(path).len() <= without_tail(path).len(),
{
    let inner = without_tail(path);
    lemma_last_slash(inner);
}

proof fn lemma_last_slash(path: Seq<char>)
    ensures
        last_slash(path) matches Some(i) ==> 0 <= i < path.len(),
    decreases path.len(),
{
    if path.len() > 0 && path.last() != '/' {
        lemma_last_slash(path.drop_last());
    }
}

/// The path with the extension of its last part replaced.
pub fn with_extension(path: &str, extension: &str) -> (result: String)
    ensures
        result@ == with_extension_of(path@, extension@),
{
    let name = file_name(path);
    let letters = chars_of(name.as_str());
    let chars = chars_of(path);
    assert(chars@.take(chars@.len() as int) =~= path@);
    let end: usize = tail_start(&chars, chars.len());
    proof {
        lemma_name_is_end(path@);
        lemma_without_tail(path@);
    }
    if letters.len() == 0 || (letters.len() == 1 && letters[0] == '.') || (letters.len() == 2 && letters[0] == '.' && letters[1] == '.') {
        proof {
            if letters@.len() == 1 {
                assert(name@ =~= seq!['.']);
            }
            if letters@.len() == 2 {
                assert(name@ =~= seq!['.', '.']);
            }
        }
        return path.to_owned();
    }
    assert(name@ != seq!['.'] && name@ != seq!['.', '.']) by {
        if name@ == seq!['.'] {
            assert(letters@[0] == '.');
        }
        if name@ == seq!['.', '.'] {
            assert(letters@[0] == '.' && letters@[1] == '.');
        }
    }
    let stem: usize = match find_stem_end(&letters, 1) {
        Some(i) => i,
        None => letters.len(),
    };
    let ghost inner = without_tail(path@);
    let start: usize = end - letters.len();
    let mut result = text_between(&chars, 0, start);
    assert(result@ =~= inner.take(inner.len() - name@.len()));
    let kept = text_between(&letters, 0, stem);
    assert(kept@ =~= match stem_end(name@, 1) {
        Some(i) => name@.take(i),
        None => name@,
    });
    push_text(&mut result, kept.as_str());
    result.push('.');
    push_text(&mut result, extension);
    assert(result@ =~= with_extension_of(path@, extension@));
    result
}

/// The path of the JSON file that a query's rows are written to.
pub fn json_output_path(query: &str) -> (path: String)
    ensures
        path@ == with_extension_of(query@, "json"@),
{
    with_extension(query, "json")
}

/// The parts of a path with each `..` taking back the part before it; parts that stand for the
/// same directory are dropped.
pub open spec fn normalized_parts(parts: Seq<Seq<char>>) -> Seq<Seq<char>>
    decreases parts.len(),
{
    if parts.len() == 0 {
        Seq::empty()
    } else {
        let earlier = normalized_parts(parts.drop_last());
        let part = parts.last();
        if part == seq!['.', '.'] {
            if earlier.len() == 0 {
                earlier
            } else {
                earlier.drop_last()
            }
        } else if part.len() == 0 || part == seq!['.'] {
            earlier
        } else {
            earlier.push(part)
        }
    }
}

/// The path below a provider's root that a path stands for.
pub open spec fn normalized_path(path: Seq<char>) -> Seq<char> {
    join_on(normalized_parts(split_on(path, '/')), seq!['/'])
}

fn is_dots(part: &str, count: usize) -> (answer: bool)
    requires
        count == 1 || count == 2,
    ensures
        count == 1 ==> answer == (part@ == seq!['.']),
        count == 2 ==> answer == (part@ == seq!['.', '.']),
{
    let chars = chars_of(part);
    if count == 1 {
        let answer = chars.len() == 1 && chars[0] == '.';
        assert(answer ==> part@ =~= seq!['.']);
        answer
    } else {
        let answer = chars.len() == 2 && chars[0] == '.' && chars[1] == '.';
        assert(answer ==> part@ =~= seq!['.', '.']);
        answer
    }
}

/// The path below a provider's root that a path stands for.
pub fn normalize_provider_path(path: &str) -> (result: String)
    ensures
        result@ == normalized_path(path@),
{
    let pieces = split_text(path, '/');
    let ghost all = texts(pieces@);
    let mut parts: Vec<String> = Vec::new();
    let mut i: usize = 0;
    assert(all.take(0) =~= Seq::empty());
    assert(texts(parts@) =~= Seq::empty());
    while i < pieces.len()
        invariant
            i <= pieces.len(),
            all == texts(pieces@),
            texts(parts@) == normalized_parts(all.take(i as int)),
        decreases pieces.len() - i,
    {
        assert(all.take(i + 1).drop_last() =~= all.take(i as int));
        assert(all.take(i + 1).last() == pieces@[i as int]@);
        let ghost before = parts@;
        if is_dots(pieces[i].as_str(), 2) {
            if parts.len() > 0 {
                parts.pop();
                assert(texts(parts@) =~= texts(before).drop_last());
            }
        } else if pieces[i].as_str().is_empty() || is_dots(pieces[i].as_str(), 1) {
        } else {
            proof {
                lemma_texts_push(parts@, pieces@[i as int]);
            }
            parts.push(pieces[i].clone());
        }
        i = i + 1;
    }
    assert(all.take(i as int) =~= all);
    let mut slash = String::new();
    slash.push('/');
    assert(slash@ =~= seq!['/']);
    crate::functions::strings::join_texts(&parts, slash.as_str())
}

} // verus!
