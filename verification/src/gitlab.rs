//! Queries kept in a GitLab repository.
use vstd::prelude::*;
use crate::files::{ends_with, normalize_provider_path, normalized_path, starts_with};
use crate::functions::strings::join_texts;
use crate::order::{lemma_sort_map, stable_sort, stable_sorted};
use crate::text::{all_digits, chars_of, digits_value, join_on, push_text, read_digits, same_text, text_between, text_less, text_lt, texts};

verus! {

/// The parts of a URL that matter: the scheme, the host, and the segments of the path.
#[derive(Debug, PartialEq)]
pub struct UrlParts {
    pub scheme: String,
    pub host: Option<String>,
    pub segments: Option<Vec<String>>,
}

/// The parts of a URL that matter.
#[verifier::ext_equal]
pub struct UrlView {
    pub scheme: Seq<char>,
    pub host: Option<Seq<char>>,
    pub segments: Option<Seq<Seq<char>>>,
}

impl View for UrlParts {
    type V = UrlView;

    open spec fn view(&self) -> UrlView {
        UrlView {
            scheme: self.scheme@,
            host: match self.host {
                Some(host) => Some(host@),
                None => None,
            },
            segments: match self.segments {
                Some(segments) => Some(texts(segments@)),
                None => None,
            },
        }
    }
}

/// The parts of the URL that `url::Url::parse` reads from a text, if it reads one.
pub uninterp spec fn url_of(text: Seq<char>) -> Option<UrlView>;

/// Reads a URL with `url::Url::parse` and takes its `scheme`, its `host_str` and its
/// `path_segments`.
#[verifier::external_body]
fn read_url(text: &str) -> (parts: Option<UrlParts>)
    ensures
        match parts {
            Some(p) => url_of(text@) == Some(p@),
            None => url_of(text@) is None,
        },
{
    let url = url::Url::parse(text).ok()?;
    let host = url.host_str().map(str::to_owned);
    let segments = url.path_segments().map(|segments| segments.map(str::to_owned).collect());
    Some(UrlParts { scheme: url.scheme().to_owned(), host, segments })
}

/// Whether a byte stands for itself in a URL: an ASCII letter or digit, or one of `*`, `-`, `.` and
/// `_`.
pub open spec fn url_safe(byte: u8) -> bool {
    ||| 'a' as int <= byte <= 'z' as int
    ||| 'A' as int <= byte <= 'Z' as int
    ||| '0' as int <= byte <= '9' as int
    ||| byte == '*' as int || byte == '-' as int || byte == '.' as int || byte == '_' as int
}

/// A byte encoded for a URL: itself, a plus for a space, and a percent sign with two hexadecimal
/// digits for any other.
pub open spec fn byte_encoded(byte: u8) -> Seq<char> {
    let digits = "0123456789ABCDEF"@;
    if url_safe(byte) {
        seq![byte as char]
    } else if byte == ' ' as int {
        seq!['+']
    } else {
        seq!['%', digits[byte as int / 16], digits[byte as int % 16]]
    }
}

/// Bytes encoded for a URL.
pub open spec fn bytes_encoded(bytes: Seq<u8>) -> Seq<char>
    decreases bytes.len(),
{
    if bytes.len() == 0 {
        Seq::empty()
    } else {
        bytes_encoded(bytes.drop_last()) + byte_encoded(bytes.last())
    }
}

/// A text encoded for a URL, byte by byte.
pub open spec fn url_encoded(text: Seq<char>) -> Seq<char> {
    bytes_encoded(vstd::utf8::encode_utf8(text))
}

/// Encodes a text for a URL with `url::form_urlencoded::byte_serialize`: of its UTF-8 bytes the
/// ASCII letters and digits, `*`, `-`, `.` and `_` stay, a space becomes a plus, and any other byte
/// a percent sign with two upper-case hexadecimal digits.
#[verifier::external_body]
fn encode_for_url(text: &str) -> (encoded: String)
    ensures
        encoded@ == url_encoded(text@),
{
    url::form_urlencoded::byte_serialize(text.as_bytes()).collect()
}

/// A text encoded for a URL.
pub fn url_encode_path_segment(value: &str) -> (encoded: String)
    ensures
        encoded@ == url_encoded(value@),
{
    encode_for_url(value)
}

/// A folder of a GitLab project that queries are read from.
#[derive(Debug, PartialEq)]
pub struct GitLabConfig {
    pub api_base: String,
    pub project: String,
    pub ref_name: String,
    pub folder: String,
    pub token: String,
}

/// Why a URL does not name a folder of a GitLab project.
#[derive(Debug, Clone, Copy, PartialEq, Eq, Structural)]
pub enum GitLabError {
    NotAUrl,
    NoSegments,
    NoMark,
    Incomplete,
    NoHost,
}

/// What a folder of a GitLab project is, without the token.
#[verifier::ext_equal]
pub struct Folder {
    pub api_base: Seq<char>,
    pub project: Seq<char>,
    pub ref_name: Seq<char>,
    pub folder: Seq<char>,
}

/// The position, from one on, of the segment that stands between the project and the reference.
pub open spec fn mark_position(segments: Seq<Seq<char>>, from: int) -> Option<int>
    decreases segments.len() - from,
{
    if from >= segments.len() {
        None
    } else if segments[from] == "blob"@ || segments[from] == "tree"@ {
        Some(from)
    } else {
        mark_position(segments, from + 1)
    }
}

/// The folder that the parts of a URL name.
pub open spec fn folder_of(url: UrlView) -> Result<Folder, GitLabError> {
    match url.segments {
        None => Err(GitLabError::NoSegments),
        Some(segments) => match mark_position(segments, 0) {
            None => Err(GitLabError::NoMark),
            Some(mark) => if mark == 0 || mark + 1 >= segments.len() {
                Err(GitLabError::Incomplete)
            } else {
                match url.host {
                    None => Err(GitLabError::NoHost),
                    Some(host) => Ok(
                        Folder {
                            api_base: url.scheme + "://"@ + host + "/api/v4"@,
                            project: join_on(segments.take(mark), seq!['/']),
                            ref_name: segments[mark + 1],
                            folder: join_on(segments.skip(mark + 2), seq!['/']),
                        },
                    ),
                }
            },
        },
    }
}

fn find_mark(segments: &Vec<String>) -> (position: Option<usize>)
    ensures
        match position {
            Some(i) => mark_position(texts(segments@), 0) == Some(i as int) && i < segments@.len(),
            None => mark_position(texts(segments@), 0) is None,
        },
{
    let mut i: usize = 0;
    while i < segments.len()
        invariant
            i <= segments.len(),
            mark_position(texts(segments@), 0) == mark_position(texts(segments@), i as int),
        decreases segments.len() - i,
    {
        assert(texts(segments@)[i as int] == segments@[i as int]@);
        if same_text(segments[i].as_str(), "blob") || same_text(segments[i].as_str(), "tree") {
            return Some(i);
        }
        i = i + 1;
    }
    None
}

fn join_segments(segments: &Vec<String>, start: usize, end: usize) -> (joined: String)
    requires
        start <= end <= segments@.len(),
    ensures
        joined@ == join_on(texts(segments@).subrange(start as int, end as int), seq!['/']),
{
    let mut chosen: Vec<String> = Vec::new();
    let mut i: usize = start;
    while i < end
        invariant
            start <= i <= end <= segments@.len(),
            texts(chosen@) == texts(segments@).subrange(start as int, i as int),
        decreases end - i,
    {
        proof {
            crate::text::lemma_texts_push(chosen@, segments@[i as int]);
        }
        chosen.push(segments[i].clone());
        i = i + 1;
        assert(texts(chosen@) =~= texts(segments@).subrange(start as int, i as int));
    }
    let mut slash = String::new();
    slash.push('/');
    assert(slash@ =~= seq!['/']);
    join_texts(&chosen, slash.as_str())
}

/// The folder that the parts of a URL name.
pub fn gitlab_folder(url: &UrlParts, token: String) -> (result: Result<GitLabConfig, GitLabError>)
    ensures
        match result {
            Ok(config) => folder_of(url@) == Ok::<Folder, GitLabError>(
                Folder {
                    api_base: config.api_base@,
                    project: config.project@,
                    ref_name: config.ref_name@,
                    folder: config.folder@,
                },
            ) && config.token@ == token@,
            Err(error) => folder_of(url@) == Err::<Folder, GitLabError>(error),
        },
{
    match &url.segments {
        None => Err(GitLabError::NoSegments),
        Some(segments) => {
            let ghost all = texts(segments@);
            match find_mark(segments) {
                None => Err(GitLabError::NoMark),
                Some(mark) => {
                    if mark == 0 || mark >= segments.len() - 1 {
                        return Err(GitLabError::Incomplete);
                    }
                    match &url.host {
                        None => Err(GitLabError::NoHost),
                        Some(host) => {
                            let mut api_base = url.scheme.clone();
                            push_text(&mut api_base, "://");
                            push_text(&mut api_base, host.as_str());
                            push_text(&mut api_base, "/api/v4");
                            let project = join_segments(segments, 0, mark);
                            let folder = join_segments(segments, mark + 2, segments.len());
                            assert(all.subrange(0, mark as int) =~= all.take(mark as int));
                            assert(all.subrange(mark + 2, all.len() as int) =~= all.skip(mark + 2));
                            assert(all[mark + 1] == segments@[mark + 1]@);
                            Ok(GitLabConfig { api_base, project, ref_name: segments[mark + 1].clone(), folder, token })
                        },
                    }
                },
            }
        },
    }
}

/// The folder that a URL names.
pub fn parse_gitlab_config(path: &str, token: String) -> (result: Result<GitLabConfig, GitLabError>)
    ensures
        match url_of(path@) {
            None => result == Err::<GitLabConfig, GitLabError>(GitLabError::NotAUrl),
            Some(url) => match result {
                Ok(config) => folder_of(url) == Ok::<Folder, GitLabError>(
                    Folder {
                        api_base: config.api_base@,
                        project: config.project@,
                        ref_name: config.ref_name@,
                        folder: config.folder@,
                    },
                ) && config.token@ == token@,
                Err(error) => folder_of(url) == Err::<Folder, GitLabError>(error),
            },
        },
{
    match read_url(path) {
        None => Err(GitLabError::NotAUrl),
        Some(url) => gitlab_folder(&url, token),
    }
}

/// A query file of a repository: its path, and its name below the folder.
#[derive(Debug, PartialEq)]
pub struct GitFile {
    pub path: String,
    pub name: String,
}

/// The text without the slashes at its start.
pub open spec fn without_leading_slashes(text: Seq<char>) -> Seq<char>
    decreases text.len(),
{
    if text.len() > 0 && text[0] == '/' {
        without_leading_slashes(text.drop_first())
    } else {
        text
    }
}

/// The text without the slashes at its end.
pub open spec fn without_trailing_slashes(text: Seq<char>) -> Seq<char>
    decreases text.len(),
{
    if text.len() > 0 && text.last() == '/' {
        without_trailing_slashes(text.drop_last())
    } else {
        text
    }
}

/// The name of a file below a folder: its path without the folder in front.
pub open spec fn name_below(path: Seq<char>, folder: Seq<char>) -> Seq<char> {
    let base = without_trailing_slashes(folder);
    without_leading_slashes(
        if base.is_prefix_of(path) {
            path.skip(base.len() as int)
        } else {
            path
        },
    )
}

/// Whether an item of a repository is a query file.
pub open spec fn is_query_file(path: Seq<char>, item_type: Seq<char>) -> bool {
    item_type == "blob"@ && ".ql"@.is_suffix_of(path)
}

fn drop_leading_slashes(text: &str) -> (rest: String)
    ensures
        rest@ == without_leading_slashes(text@),
{
    let chars = chars_of(text);
    let mut start: usize = 0;
    assert(text@.skip(0) =~= text@);
    while start < chars.len() && chars[start] == '/'
        invariant
            start <= chars.len(),
            chars@ == text@,
            without_leading_slashes(text@) == without_leading_slashes(text@.skip(start as int)),
        decreases chars.len() - start,
    {
        assert(text@.skip(start as int).drop_first() =~= text@.skip(start + 1));
        start = start + 1;
    }
    let rest = text_between(&chars, start, chars.len());
    assert(rest@ =~= text@.skip(start as int));
    rest
}

fn drop_trailing_slashes(text: &str) -> (rest: String)
    ensures
        rest@ == without_trailing_slashes(text@),
{
    let chars = chars_of(text);
    let mut end: usize = chars.len();
    assert(text@.take(end as int) =~= text@);
    while end > 0 && chars[end - 1] == '/'
        invariant
            end <= chars.len(),
            chars@ == text@,
            without_trailing_slashes(text@) == without_trailing_slashes(text@.take(end as int)),
        decreases end,
    {
        assert(text@.take(end as int).drop_last() =~= text@.take(end - 1));
        end = end - 1;
    }
    let rest = text_between(&chars, 0, end);
    assert(rest@ =~= text@.take(end as int));
    rest
}

/// The name of a file below a folder.
pub fn file_name_below(path: &str, folder: &str) -> (name: String)
    ensures
        name@ == name_below(path@, folder@),
{
    let base = drop_trailing_slashes(folder);
    if starts_with(path, base.as_str()) {
        let chars = chars_of(path);
        let length: usize = chars_of(base.as_str()).len();
        let rest = text_between(&chars, length, chars.len());
        assert(rest@ =~= path@.skip(base@.len() as int));
        drop_leading_slashes(rest.as_str())
    } else {
        drop_leading_slashes(path)
    }
}

/// The query files among the items of a repository, with their names.
pub open spec fn query_files(items: Seq<(Seq<char>, Seq<char>)>, folder: Seq<char>) -> Seq<(Seq<char>, Seq<char>)>
    decreases items.len(),
{
    if items.len() == 0 {
        Seq::empty()
    } else {
        let (path, item_type) = items.last();
        let earlier = query_files(items.drop_last(), folder);
        if is_query_file(path, item_type) {
            earlier.push((path, name_below(path, folder)))
        } else {
            earlier
        }
    }
}

/// The mathematical items.
pub open spec fn items_of(items: Seq<(String, String)>) -> Seq<(Seq<char>, Seq<char>)> {
    Seq::new(items.len(), |i: int| (items[i].0@, items[i].1@))
}

/// The mathematical files.
pub open spec fn files_of(files: Seq<GitFile>) -> Seq<(Seq<char>, Seq<char>)> {
    Seq::new(files.len(), |i: int| (files[i].path@, files[i].name@))
}

/// The query files among the items of a repository, sorted by name.
pub fn list_gitlab_ql_files(items: &Vec<(String, String)>, folder: &str) -> (files: Vec<GitFile>)
    ensures
        files_of(files@) == stable_sorted(
            query_files(items_of(items@), folder@),
            |a: (Seq<char>, Seq<char>), b: (Seq<char>, Seq<char>)| text_lt(b.1, a.1),
        ),
{
    let ghost all = items_of(items@);
    let mut files: Vec<GitFile> = Vec::new();
    let mut i: usize = 0;
    assert(all.take(0) =~= Seq::empty());
    assert(files_of(files@) =~= Seq::empty());
    while i < items.len()
        invariant
            i <= items.len(),
            all == items_of(items@),
            files_of(files@) == query_files(all.take(i as int), folder@),
        decreases items.len() - i,
    {
        assert(all.take(i + 1).drop_last() =~= all.take(i as int));
        assert(all.take(i + 1).last() == (items@[i as int].0@, items@[i as int].1@));
        if same_text(items[i].1.as_str(), "blob") && ends_with(items[i].0.as_str(), ".ql") {
            let ghost before = files@;
            let name = file_name_below(items[i].0.as_str(), folder);
            files.push(GitFile { path: items[i].0.clone(), name });
            assert(files_of(files@) =~= files_of(before).push((items@[i as int].0@, name@)));
        }
        i = i + 1;
    }
    assert(all.take(i as int) =~= all);
    let ghost unsorted = files@;
    let ghost order = |a: GitFile, b: GitFile| text_lt(b.name@, a.name@);
    let after = |a: &GitFile, b: &GitFile| -> (r: bool)
        ensures
            r == text_lt(b.name@, a.name@),
        { text_less(b.name.as_str(), a.name.as_str()) };
    let sorted = stable_sort(files, &after, Ghost(order));
    proof {
        let view = |f: GitFile| (f.path@, f.name@);
        let by_view = |a: (Seq<char>, Seq<char>), b: (Seq<char>, Seq<char>)| text_lt(b.1, a.1);
        lemma_sort_map(unsorted, view, order, by_view);
        assert(unsorted.map_values(view) =~= files_of(unsorted));
        assert(sorted@.map_values(view) =~= files_of(sorted@));
    }
    sorted
}

/// The number of the next page that a header gives, where it gives one.
pub open spec fn page_number(header: Seq<char>) -> Option<nat> {
    let digits = crate::functions::date::unsigned_digits(header);
    if digits.len() > 0 && all_digits(digits) && digits_value(digits) <= usize::MAX {
        Some(digits_value(digits) as nat)
    } else {
        None
    }
}

/// The number of the next page that a header gives.
pub fn next_page(header: &str) -> (page: Option<usize>)
    ensures
        match page {
            Some(n) => page_number(header@) == Some(n as nat),
            None => page_number(header@) is None,
        },
{
    let chars = chars_of(header);
    assert(chars@.skip(0) =~= chars@);
    let start: usize = if chars.len() > 0 && chars[0] == '+' {
        1
    } else {
        0
    };
    match read_digits(&chars, start, usize::MAX as u64) {
        Some(n) => Some(n as usize),
        None => None,
    }
}

/// The path of a query in the repository; none where the text is not the path of a query.
pub fn git_query_path(path: &str) -> (query_path: Option<String>)
    ensures
        match query_path {
            Some(p) => ".ql"@.is_suffix_of(path@) && p@ == normalized_path(path@),
            None => !".ql"@.is_suffix_of(path@),
        },
{
    if ends_with(path, ".ql") {
        Some(normalize_provider_path(path))
    } else {
        None
    }
}

} // verus!
