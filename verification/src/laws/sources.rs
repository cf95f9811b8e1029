//! Laws of sources: paths, tables, streams and repositories.
use vstd::prelude::*;
use crate::csv_source::{count_from, csv_records_of, csv_value, delimiter_of, file_delimiter, header_of, row_of, Counts};
use crate::files::{below, file_name_of, has_extension, last_slash, normalized_parts, normalized_path, renamed, source_path, stem_end, with_extension_of, without_tail};
use crate::gitlab::{folder_of, mark_position, name_below, page_number, query_files, without_leading_slashes, without_trailing_slashes, Folder, GitLabError, UrlView};
use crate::order::{is_order, lemma_sort_keeps_items, lemma_sort_sorts, stable_sorted};
use crate::json::json_of_text;
use crate::sample::{all_fields, keys_from, sample_size, string_close, with_fields};
use crate::stream::{batches_from, stream_of, Message};
use crate::text::{ascii_lower_text, join_on, lemma_split_behind, lemma_split_nonempty, lemma_text_lt_total, lemma_text_lt_transitive, split_on, text_lt};
use crate::value::{lemma_get_after_insert, obj_get, obj_insert, Json};

verus! {

/// Whether a text is the name of a file: not empty, without a slash, and not a lone dot.
pub open spec fn is_name(name: Seq<char>) -> bool {
    name.len() > 0 && !name.contains('/') && name != seq!['.']
}

/// Whether a path ends in a part, not in a slash or a lone dot.
pub open spec fn ends_in_part(path: Seq<char>) -> bool {
    path.len() > 0 && path.last() != '/' && !(path.len() > 1 && path.last() == '.' && path[path.len() - 2] == '/')
}

proof fn lemma_last_slash(directory: Seq<char>, name: Seq<char>)
    requires
        !name.contains('/'),
    ensures
        last_slash(name) is None,
        last_slash(directory.push('/') + name) == Some(directory.len() as int),
    decreases name.len(),
{
    let path = directory.push('/') + name;
    if name.len() == 0 {
        assert(path =~= directory.push('/'));
    } else {
        let rest = name.drop_last();
        assert(!rest.contains('/')) by {
            if rest.contains('/') {
                let i = choose|i: int| 0 <= i < rest.len() && rest[i] == '/';
                assert(name[i] == '/');
            }
        }
        assert(name[name.len() - 1] != '/');
        lemma_last_slash(directory, rest);
        assert(path.drop_last() =~= directory.push('/') + rest);
    }
}

proof fn lemma_whole_path(directory: Seq<char>, name: Seq<char>)
    requires
        is_name(name),
    ensures
        without_tail(directory.push('/') + name) == directory.push('/') + name,
        without_tail(name) == name,
        file_name_of(directory.push('/') + name) == name,
        file_name_of(name) == name,
{
    let path = directory.push('/') + name;
    let last = name.len() - 1;
    assert(name[last] != '/');
    assert(path.last() == name[last]);
    if name[last] == '.' {
        if name.len() == 1 {
            assert(name =~= seq!['.']);
        } else {
            assert(name[last - 1] != '/');
            assert(path[path.len() - 2] == name[last - 1]);
        }
    }
    lemma_last_slash(directory, name);
    assert(path.skip(directory.len() as int + 1) =~= name);
}

/// A source that starts at the root is where it says; any other is in the directory of the query
/// that names it.
pub proof fn lemma_source_path(directory: Seq<char>, name: Seq<char>, source: Seq<char>)
    requires
        is_name(name),
        ends_in_part(directory),
    ensures
        source.len() > 0 && source[0] == '/' ==> source_path(directory.push('/') + name, source) == source,
        source.len() == 0 || source[0] != '/' ==> source_path(directory.push('/') + name, source) == directory.push('/') + source
            && source_path(name, source) == source && source_path(seq!['/'] + name, source) == seq!['/'] + source,
{
    lemma_whole_path(directory, name);
    lemma_last_slash(directory, name);
    let path = directory.push('/') + name;
    assert(path.take(directory.len() as int) =~= directory);
    assert(path != seq!['/']) by {
        assert(path.len() >= 2);
    }
    assert(without_tail(directory) == directory);
    let none = Seq::<char>::empty();
    lemma_whole_path(none, name);
    lemma_last_slash(none, name);
    assert(none.push('/') + name =~= seq!['/'] + name);
    assert(name != seq!['/']) by {
        if name == seq!['/'] {
            assert(name[0] == '/');
            assert(name.contains('/'));
        }
    }
    assert((seq!['/'] + name).len() >= 2);
    assert(below(seq!['/'], source) == seq!['/'] + source);
}

/// The extension of a file is what follows the last dot of its name, whatever its case.
pub proof fn lemma_extension(directory: Seq<char>, stem: Seq<char>, extension: Seq<char>, wanted: Seq<char>)
    requires
        stem.len() > 0,
        !stem.contains('/'),
        extension.len() > 0,
        !extension.contains('/'),
        !extension.contains('.'),
    ensures
        has_extension(directory.push('/') + (stem.push('.') + extension), wanted) <==> ascii_lower_text(extension)
            == ascii_lower_text(wanted),
        has_extension(stem.push('.') + extension, wanted) <==> ascii_lower_text(extension) == ascii_lower_text(wanted),
{
    let name = stem.push('.') + extension;
    lemma_dotted_name(stem, extension);
    lemma_whole_path(directory, name);
    lemma_split_behind(stem, extension, '.');
    lemma_split_nonempty(stem, '.');
    let parts = split_on(name, '.');
    assert(parts.last() == extension);
    if parts.len() == 2 {
        assert(split_on(stem, '.').len() == 1);
        crate::text::lemma_join_split(stem, '.');
        assert(split_on(stem, '.')[0] == stem);
        assert(parts[0] == stem);
    }
}

proof fn lemma_dotted_name(stem: Seq<char>, extension: Seq<char>)
    requires
        stem.len() > 0,
        !stem.contains('/'),
        extension.len() > 0,
        !extension.contains('/'),
    ensures
        is_name(stem.push('.') + extension),
{
    let name = stem.push('.') + extension;
    if name.contains('/') {
        let i = choose|i: int| 0 <= i < name.len() && name[i] == '/';
        if i < stem.len() {
            assert(stem[i] == '/');
        } else if i > stem.len() {
            assert(extension[i - stem.len() - 1] == '/');
        }
    }
    assert(name.len() >= 3);
}

proof fn lemma_stem_end(stem: Seq<char>, extension: Seq<char>, from: int)
    requires
        !extension.contains('.'),
        0 <= from <= stem.len() + 1 + extension.len(),
    ensures
        stem_end(stem.push('.') + extension, from) == if from <= stem.len() {
            Some(stem.len() as int)
        } else {
            None
        },
    decreases stem.len() + 1 + extension.len() - from,
{
    let name = stem.push('.') + extension;
    if from < name.len() {
        lemma_stem_end(stem, extension, from + 1);
        if from > stem.len() {
            assert(name[from] == extension[from - stem.len() - 1]);
            assert(extension.contains(extension[from - stem.len() - 1]));
        }
    }
}

/// The path of a query's output is the path of the query with its extension replaced.
pub proof fn lemma_extension_replaced(directory: Seq<char>, stem: Seq<char>, extension: Seq<char>, new: Seq<char>)
    requires
        stem.len() > 0,
        !stem.contains('/'),
        extension.len() > 0,
        !extension.contains('/'),
        !extension.contains('.'),
        stem != seq!['.'],
    ensures
        with_extension_of(directory.push('/') + (stem.push('.') + extension), new) == directory.push('/') + (stem.push('.')
            + new),
        with_extension_of(stem.push('.') + extension, new) == stem.push('.') + new,
{
    let name = stem.push('.') + extension;
    let path = directory.push('/') + name;
    lemma_dotted_name(stem, extension);
    lemma_whole_path(directory, name);
    lemma_stem_end(stem, extension, 1);
    assert(name.take(stem.len() as int) =~= stem);
    assert(renamed(name, new) == stem.push('.') + new);
    assert(name.len() >= 3);
    assert(path.take(path.len() - name.len()) =~= directory.push('/'));
    assert(name.take(0) =~= Seq::empty());
    assert(name.take(0) + (stem.push('.') + new) =~= stem.push('.') + new);
}

/// Whether a part of a path is a name of its own, not empty and not a dot or two.
pub open spec fn is_plain_part(part: Seq<char>) -> bool {
    part.len() > 0 && part != seq!['.'] && part != seq!['.', '.']
}

/// A normalized path has plain parts only, so that it never leads out of the root. Plain parts stay,
/// a further `..` takes the last one back, and empty parts and dots change nothing.
pub proof fn lemma_normalized(parts: Seq<Seq<char>>, part: Seq<char>)
    ensures
        forall|i: int| 0 <= i < normalized_parts(parts).len() ==> is_plain_part(#[trigger] normalized_parts(parts)[i]),
        (forall|i: int| 0 <= i < parts.len() ==> is_plain_part(#[trigger] parts[i])) ==> normalized_parts(parts) == parts,
        is_plain_part(part) ==> normalized_parts(parts.push(part)) == normalized_parts(parts).push(part) && normalized_parts(
            parts.push(part).push(seq!['.', '.']),
        ) == normalized_parts(parts),
        part.len() == 0 || part == seq!['.'] ==> normalized_parts(parts.push(part)) == normalized_parts(parts),
    decreases parts.len(),
{
    let dots = seq!['.', '.'];
    let (one, two) = (parts.push(part), parts.push(part).push(dots));
    assert(one.drop_last() =~= parts && one.last() == part);
    assert(two.drop_last() =~= one && two.last() == dots);
    assert(dots.len() == 2 && seq!['.'].len() == 1);
    let before = normalized_parts(parts);
    if is_plain_part(part) {
        assert(normalized_parts(one) == before.push(part));
        assert(before.push(part).drop_last() =~= before);
        assert(normalized_parts(two) == before);
    }
    if parts.len() > 0 {
        let rest = parts.drop_last();
        let last = parts.last();
        lemma_normalized(rest, last);
        assert(rest.push(last) =~= parts);
        let earlier = normalized_parts(rest);
        assert forall|i: int| 0 <= i < before.len() implies is_plain_part(#[trigger] before[i]) by {
            if i < earlier.len() {
                assert(is_plain_part(earlier[i]));
            }
        }
        if forall|i: int| 0 <= i < parts.len() ==> is_plain_part(#[trigger] parts[i]) {
            assert forall|i: int| 0 <= i < rest.len() implies is_plain_part(#[trigger] rest[i]) by {
                assert(rest[i] == parts[i]);
            }
            assert(is_plain_part(parts[parts.len() - 1]));
        }
    }
}

/// How often a byte occurs.
pub open spec fn occurrences(bytes: Seq<u8>, byte: u8) -> nat
    decreases bytes.len(),
{
    if bytes.len() == 0 {
        0
    } else {
        (if bytes[0] == byte { 1nat } else { 0nat }) + occurrences(bytes.drop_first(), byte)
    }
}

/// Whether bytes are within one line and hold no quotes.
pub open spec fn is_plain_line(line: Seq<u8>) -> bool {
    forall|i: int| 0 <= i < line.len() ==> #[trigger] line[i] != 34 && line[i] != 10 && line[i] != 13
}

proof fn lemma_count_line(sample: Seq<u8>, pos: int, line: Seq<u8>, counts: Counts)
    requires
        0 <= pos <= sample.len(),
        is_plain_line(line),
        pos + line.len() <= sample.len(),
        sample.subrange(pos, pos + line.len()) == line,
        pos + line.len() == sample.len() || sample[pos + line.len()] == 10 || sample[pos + line.len()] == 13,
    ensures
        count_from(sample, pos, false, counts) == (Counts {
            commas: counts.commas + occurrences(line, 44),
            semicolons: counts.semicolons + occurrences(line, 59),
            tabs: counts.tabs + occurrences(line, 9),
        }),
    decreases line.len(),
{
    if line.len() > 0 {
        let rest = line.drop_first();
        assert(sample[pos] == line[0]);
        assert(sample.subrange(pos + 1, pos + 1 + rest.len()) =~= rest);
        assert forall|i: int| 0 <= i < rest.len() implies #[trigger] rest[i] != 34 && rest[i] != 10 && rest[i] != 13 by {
            assert(rest[i] == line[i + 1]);
        }
        let b = line[0];
        let next = if b == 44 {
            Counts { commas: counts.commas + 1, ..counts }
        } else if b == 59 {
            Counts { semicolons: counts.semicolons + 1, ..counts }
        } else if b == 9 {
            Counts { tabs: counts.tabs + 1, ..counts }
        } else {
            counts
        };
        lemma_count_line(sample, pos + 1, rest, next);
    }
}

/// The delimiter of a table is the character that occurs most often in its first line: of equally
/// frequent ones a tab before a semicolon before a comma, and a comma where none occurs. What
/// stands behind the first line does not count.
pub proof fn lemma_delimiter(line: Seq<u8>, rest: Seq<u8>)
    requires
        is_plain_line(line),
        rest.len() == 0 || rest[0] == 10 || rest[0] == 13,
    ensures
        ({
            let (commas, semicolons, tabs) = (occurrences(line, 44), occurrences(line, 59), occurrences(line, 9));
            delimiter_of(line + rest) == if tabs > 0 && tabs >= semicolons && tabs >= commas {
                9u8
            } else if semicolons > 0 && semicolons >= commas {
                59u8
            } else {
                44u8
            }
        }),
{
    let sample = line + rest;
    assert(sample.subrange(0, line.len() as int) =~= line);
    lemma_count_line(sample, 0, line, Counts { commas: 0, semicolons: 0, tabs: 0 });
}

/// A table is an array of one row for each record, in order. A row holds each field of its record
/// under the header at its place, as a text, and an empty text for a field that the record lacks; of
/// equal headers the last one stands. It holds nothing else.
pub proof fn lemma_table(bytes: Seq<u8>, i: int, k: int, key: Seq<char>)
    requires
        header_of(bytes) is Some,
        csv_records_of(bytes, file_delimiter(bytes)) is Some,
    ensures
        ({
            let header = header_of(bytes)->0;
            let records = csv_records_of(bytes, file_delimiter(bytes))->0;
            &&& csv_value(bytes) matches Some(Json::Array(rows))
            &&& rows.len() == records.len()
            &&& 0 <= i < rows.len() ==> rows[i] is Object && ((0 <= k < header.len() && header[k] == key && (forall|j: int|
                k < j < header.len() ==> #[trigger] header[j] != key)) ==> obj_get(rows[i]->Object_0, key) == Some(
                Json::Text(
                    if k < records[i].len() {
                        records[i][k]
                    } else {
                        Seq::empty()
                    },
                ),
            )) && (!header.contains(key) ==> obj_get(rows[i]->Object_0, key) is None)
        }),
{
    let header = header_of(bytes)->0;
    let records = csv_records_of(bytes, file_delimiter(bytes))->0;
    if 0 <= i < records.len() {
        lemma_row(header, records[i], k, key);
    }
}

proof fn lemma_row(header: Seq<Seq<char>>, record: Seq<Seq<char>>, k: int, key: Seq<char>)
    ensures
        (0 <= k < header.len() && header[k] == key && (forall|j: int| k < j < header.len() ==> #[trigger] header[j] != key))
            ==> obj_get(row_of(header, record), key) == Some(
            Json::Text(
                if k < record.len() {
                    record[k]
                } else {
                    Seq::empty()
                },
            ),
        ),
        !header.contains(key) ==> obj_get(row_of(header, record), key) is None,
    decreases header.len(),
{
    if header.len() > 0 {
        let rest = header.drop_last();
        let last = header.len() - 1;
        let field = if last < record.len() {
            record[last]
        } else {
            Seq::empty()
        };
        lemma_row(rest, record, k, key);
        lemma_get_after_insert(row_of(rest, record), header.last(), Json::Text(field), key);
        if 0 <= k < last && header[k] == key && (forall|j: int| k < j < header.len() ==> #[trigger] header[j] != key) {
            assert(rest[k] == key);
            assert(header[last] != key);
            assert forall|j: int| k < j < rest.len() implies #[trigger] rest[j] != key by {
                assert(rest[j] == header[j]);
            }
        }
        if !header.contains(key) {
            assert(header[last] != key);
            if rest.contains(key) {
                let j = choose|j: int| 0 <= j < rest.len() && rest[j] == key;
                assert(header[j] == key);
            }
        }
    }
}

proof fn lemma_batch(rows: Seq<Json>, start: int, size: int, i: int)
    requires
        0 <= start <= rows.len(),
        size > 0,
    ensures
        0 <= i < batches_from(rows, start, size).len() ==> {
            let from = start + i * size;
            let until = if from + size < rows.len() {
                from + size
            } else {
                rows.len() as int
            };
            from < rows.len() && batches_from(rows, start, size)[i] == Message::Batch(from as nat, rows.subrange(from, until))
        },
        i == batches_from(rows, start, size).len() ==> start + i * size >= rows.len(),
    decreases rows.len() - start,
{
    assert(0 * size == 0);
    if start < rows.len() {
        let end = if start + size < rows.len() {
            start + size
        } else {
            rows.len() as int
        };
        let rest = batches_from(rows, end, size);
        assert(batches_from(rows, start, size).len() == 1 + rest.len());
        if i > 0 {
            lemma_batch(rows, end, size, i - 1);
            assert((i - 1) * size + size == i * size) by (nonlinear_arith);
            if i <= rest.len() {
                assert(batches_from(rows, start, size)[i] == rest[i - 1]);
            }
            if end < start + size {
                assert(rest.len() == 0);
                assert(i >= 1 ==> i * size >= size) by (nonlinear_arith)
                    requires
                        size > 0,
                ;
            }
        }
    } else {
        if i == 0 {
            assert(i * size == 0) by (nonlinear_arith)
                requires
                    i == 0,
            ;
        }
    }
}

/// The stream of a result begins with its columns and its source and ends with the number of its
/// rows. Between them the batches hold the rows in order: the batch at a place begins where the
/// full batches before it end, and holds as many rows as a batch has, or the rest of them.
pub proof fn lemma_stream(columns: Seq<Seq<char>>, rows: Seq<Json>, source: Seq<char>, batch_size: nat, i: int)
    ensures
        ({
            let messages = stream_of(columns, rows, source, batch_size);
            let size = if batch_size == 0 {
                1
            } else {
                batch_size as int
            };
            let count = messages.len() - 2;
            &&& messages.len() >= 2
            &&& messages[0] == Message::Meta(columns, source)
            &&& messages[messages.len() - 1] == Message::Done(rows.len())
            &&& count * size >= rows.len()
            &&& 0 <= i < count ==> i * size < rows.len() && messages[i + 1] == Message::Batch(
                (i * size) as nat,
                rows.subrange(
                    i * size,
                    if i * size + size < rows.len() {
                        i * size + size
                    } else {
                        rows.len() as int
                    },
                ),
            )
        }),
{
    let size = if batch_size == 0 {
        1
    } else {
        batch_size as int
    };
    let batches = batches_from(rows, 0, size);
    lemma_batch(rows, 0, size, i);
    lemma_batch(rows, 0, size, batches.len() as int);
    let messages = stream_of(columns, rows, source, batch_size);
    assert(messages.len() == batches.len() + 2);
    if 0 <= i < batches.len() {
        assert(messages[i + 1] == batches[i]);
    }
}

/// The fields of several sources are those of all of them; those of the first sources stand first.
pub proof fn lemma_all_fields(lists: Seq<Seq<Seq<char>>>, list: Seq<Seq<char>>, field: Seq<char>)
    ensures
        all_fields(lists.push(list)).contains(field) <==> all_fields(lists).contains(field) || list.contains(field),
        all_fields(lists).is_prefix_of(all_fields(lists.push(list))),
        all_fields(Seq::empty()) == Seq::<Seq<char>>::empty(),
{
    assert(lists.push(list).drop_last() =~= lists);
    lemma_with_fields(all_fields(lists), list, field);
}

proof fn lemma_with_fields(fields: Seq<Seq<char>>, more: Seq<Seq<char>>, field: Seq<char>)
    ensures
        with_fields(fields, more).contains(field) <==> fields.contains(field) || more.contains(field),
        fields.is_prefix_of(with_fields(fields, more)),
    decreases more.len(),
{
    if more.len() > 0 {
        let rest = more.drop_last();
        let last = more.len() - 1;
        lemma_with_fields(fields, rest, field);
        let (earlier, all) = (with_fields(fields, rest), with_fields(fields, more));
        if more.contains(field) {
            let i = choose|i: int| 0 <= i < more.len() && more[i] == field;
            if i < last {
                assert(rest[i] == field);
                assert(rest.contains(field));
            }
        }
        if rest.contains(field) {
            let i = choose|i: int| 0 <= i < rest.len() && rest[i] == field;
            assert(more[i] == field);
        }
        if earlier.contains(field) && all.len() > earlier.len() {
            let i = choose|i: int| 0 <= i < earlier.len() && earlier[i] == field;
            assert(all[i] == field);
        }
        if all.contains(field) && all.len() > earlier.len() {
            let i = choose|i: int| 0 <= i < all.len() && all[i] == field;
            if i < earlier.len() {
                assert(earlier[i] == field);
            } else {
                assert(more[last] == field);
            }
        }
        if more[last] == field && all.len() > earlier.len() {
            assert(all[earlier.len() as int] == field);
        }
    } else {
        assert(with_fields(fields, more) =~= fields);
    }
}

proof fn lemma_mark(project: Seq<Seq<char>>, rest: Seq<Seq<char>>, from: int)
    requires
        forall|i: int| 0 <= i < project.len() ==> #[trigger] project[i] != "blob"@ && project[i] != "tree"@,
        rest.len() > 0,
        rest[0] == "blob"@ || rest[0] == "tree"@,
        0 <= from <= project.len(),
    ensures
        mark_position(project + rest, from) == Some(project.len() as int),
    decreases project.len() - from,
{
    let segments = project + rest;
    if from < project.len() {
        assert(segments[from] == project[from]);
        lemma_mark(project, rest, from + 1);
    } else {
        assert(segments[from] == rest[0]);
    }
}

/// The URL of a folder names the project by what stands before `tree` or `blob`, the reference by what
/// follows it, and the folder by the rest.
pub proof fn lemma_folder(
    scheme: Seq<char>,
    host: Seq<char>,
    project: Seq<Seq<char>>,
    mark: Seq<char>,
    reference: Seq<char>,
    folder: Seq<Seq<char>>,
)
    requires
        project.len() > 0,
        forall|i: int| 0 <= i < project.len() ==> #[trigger] project[i] != "blob"@ && project[i] != "tree"@,
        mark == "blob"@ || mark == "tree"@,
    ensures
        folder_of(
            UrlView { scheme, host: Some(host), segments: Some(project + (seq![mark, reference] + folder)) },
        ) == Ok::<Folder, GitLabError>(
            Folder {
                api_base: scheme + "://"@ + host + "/api/v4"@,
                project: join_on(project, seq!['/']),
                ref_name: reference,
                folder: join_on(folder, seq!['/']),
            },
        ),
{
    let rest = seq![mark, reference] + folder;
    let segments = project + rest;
    lemma_mark(project, rest, 0);
    assert(segments.take(project.len() as int) =~= project);
    assert(segments.skip(project.len() as int + 2) =~= folder);
    assert(segments[project.len() as int + 1] == reference);
}

/// The query files of a repository are, in order, its items that are files ending in `.ql`, each with
/// its name below the folder.
pub proof fn lemma_query_files(items: Seq<(Seq<char>, Seq<char>)>, path: Seq<char>, kind: Seq<char>, folder: Seq<char>)
    ensures
        query_files(Seq::empty(), folder) == Seq::<(Seq<char>, Seq<char>)>::empty(),
        query_files(items.push((path, kind)), folder) == if kind == "blob"@ && ".ql"@.is_suffix_of(path) {
            query_files(items, folder).push((path, name_below(path, folder)))
        } else {
            query_files(items, folder)
        },
{
    assert(items.push((path, kind)).drop_last() =~= items);
}

/// Files are listed by name, and none is lost.
pub proof fn lemma_files_by_name(files: Seq<(Seq<char>, Seq<char>)>)
    ensures
        ({
            let listed = stable_sorted(
                files,
                |a: (Seq<char>, Seq<char>), b: (Seq<char>, Seq<char>)| text_lt(b.1, a.1),
            );
            &&& listed.to_multiset() == files.to_multiset()
            &&& forall|i: int, j: int|
                0 <= i < j < listed.len() ==> (#[trigger] listed[i]).1 == (#[trigger] listed[j]).1 || text_lt(
                    listed[i].1,
                    listed[j].1,
                )
        }),
{
    let after = |a: (Seq<char>, Seq<char>), b: (Seq<char>, Seq<char>)| text_lt(b.1, a.1);
    assert forall|a: (Seq<char>, Seq<char>), b: (Seq<char>, Seq<char>)| #[trigger] after(a, b) implies !after(b, a) by {
        lemma_text_lt_total(a.1, b.1);
    }
    assert forall|a: (Seq<char>, Seq<char>), b: (Seq<char>, Seq<char>), c: (Seq<char>, Seq<char>)|
        !(#[trigger] after(a, b)) && !(#[trigger] after(b, c)) implies !after(a, c) by {
        lemma_text_lt_total(a.1, b.1);
        lemma_text_lt_total(b.1, c.1);
        lemma_text_lt_total(a.1, c.1);
        if text_lt(a.1, b.1) && text_lt(b.1, c.1) {
            lemma_text_lt_transitive(a.1, b.1, c.1);
        }
    }
    assert(is_order(after));
    lemma_sort_sorts(files, after);
    lemma_sort_keeps_items(files, after);
    let listed = stable_sorted(files, after);
    assert forall|i: int, j: int| 0 <= i < j < listed.len() implies (#[trigger] listed[i]).1 == (#[trigger] listed[j]).1 || text_lt(
        listed[i].1,
        listed[j].1,
    ) by {
        assert(!after(listed[i], listed[j]));
        lemma_text_lt_total(listed[i].1, listed[j].1);
    }
}

/// The delimiter of a file is looked for in its first 8192 bytes.
pub proof fn lemma_file_delimiter(bytes: Seq<u8>)
    ensures
        bytes.len() <= 8192 ==> file_delimiter(bytes) == delimiter_of(bytes),
        bytes.len() > 8192 ==> file_delimiter(bytes) == delimiter_of(bytes.take(8192)),
{
    if bytes.len() == 8192 {
        assert(bytes.take(8192) =~= bytes);
    }
}

/// What stands in quotes holds no delimiter.
pub proof fn lemma_quoted_field(sample: Seq<u8>, start: int, end: int, counts: Counts)
    requires
        0 <= start < end < sample.len(),
        sample[start] == 34,
        sample[end] == 34,
        forall|i: int| start < i < end ==> #[trigger] sample[i] != 34,
        end + 1 < sample.len() ==> sample[end + 1] != 34,
    ensures
        count_from(sample, start, false, counts) == count_from(sample, end + 1, false, counts),
{
    lemma_inside_quotes(sample, start + 1, end, counts);
}

proof fn lemma_inside_quotes(sample: Seq<u8>, pos: int, end: int, counts: Counts)
    requires
        0 <= pos <= end < sample.len(),
        sample[end] == 34,
        forall|i: int| pos <= i < end ==> #[trigger] sample[i] != 34,
        end + 1 < sample.len() ==> sample[end + 1] != 34,
    ensures
        count_from(sample, pos, true, counts) == count_from(sample, end + 1, false, counts),
    decreases end - pos,
{
    if pos < end {
        assert(sample[pos] != 34);
        lemma_inside_quotes(sample, pos + 1, end, counts);
    }
}

/// The name of a file below a folder is its path behind the folder.
pub proof fn lemma_name_below(folder: Seq<char>, name: Seq<char>)
    requires
        folder.len() > 0,
        folder.last() != '/',
        name.len() > 0,
        name[0] != '/',
    ensures
        name_below(folder.push('/') + name, folder) == name,
        name_below(folder.push('/') + name, folder.push('/')) == name,
{
    let path = folder.push('/') + name;
    assert(folder.push('/').drop_last() =~= folder);
    assert(folder.is_prefix_of(path)) by {
        assert(path.subrange(0, folder.len() as int) =~= folder);
    }
    let rest = path.skip(folder.len() as int);
    assert(rest =~= seq!['/'] + name);
    assert(rest.drop_first() =~= name);
    assert(without_trailing_slashes(folder) == folder);
    assert(without_trailing_slashes(folder.push('/')) == without_trailing_slashes(folder));
    assert(without_leading_slashes(name) == name);
    assert(without_leading_slashes(rest) == without_leading_slashes(rest.drop_first()));
}

/// A path of plain parts is its own normal form.
pub proof fn lemma_normal_path(path: Seq<char>)
    requires
        forall|i: int| 0 <= i < split_on(path, '/').len() ==> is_plain_part(#[trigger] split_on(path, '/')[i]),
    ensures
        normalized_path(path) == path,
{
    lemma_normalized(split_on(path, '/'), Seq::empty());
    crate::text::lemma_join_split(path, '/');
}

/// The next page is the number that the header's digits stand for.
pub proof fn lemma_page_number(n: usize)
    ensures
        page_number(crate::text::decimal(n as nat)) == Some(n as nat),
        page_number(Seq::empty()) is None,
{
    crate::text::lemma_decimal(n as nat);
    let digits = crate::text::decimal(n as nat);
    assert('0' <= digits[0] <= '9');
}

/// How many bytes of a source are looked at grows with the rows that are wanted, between 64 kilobytes
/// and a megabyte.
pub proof fn lemma_sample_size(rows: nat)
    ensures
        65536 <= sample_size(rows) <= 1048576,
        16 <= rows <= 256 ==> sample_size(rows) == rows * 4096,
        rows < 16 ==> sample_size(rows) == 65536,
        rows > 256 ==> sample_size(rows) == 1048576,
{
}

/// The keys of a beginning of a JSON text: a string that a colon follows is a key, and one that none
/// follows is not; keys that were found stay.
pub proof fn lemma_prefix_keys(text: Seq<char>, start: int, end: int, keys: Seq<(Seq<char>, Json)>, key: Seq<char>, other: Seq<char>)
    requires
        0 <= start < end < text.len(),
        text[start] == '"',
        text[end] == '"',
        forall|i: int| start < i < end ==> #[trigger] text[i] != '"' && text[i] != '\\',
        json_of_text(text.subrange(start, end + 1)) == Some(Json::Text(key)),
        end + 1 < text.len(),
    ensures
        text[end + 1] == ':' ==> keys_from(text, start, keys) == keys_from(text, end + 1, obj_insert(keys, key, Json::Null)),
        text[end + 1] == ',' ==> keys_from(text, start, keys) == keys_from(text, end + 1, keys),
        text[end + 1] != '"' ==> keys_from(text, end + 1, keys) == keys_from(text, end + 2, keys),
        obj_get(obj_insert(keys, key, Json::Null), key) is Some,
        obj_get(keys, other) is Some ==> obj_get(obj_insert(keys, key, Json::Null), other) is Some,
{
    lemma_string_close(text, start + 1, end);
    lemma_get_after_insert(keys, key, Json::Null, other);
}

proof fn lemma_string_close(text: Seq<char>, pos: int, end: int)
    requires
        0 <= pos <= end < text.len(),
        text[end] == '"',
        forall|i: int| pos <= i < end ==> #[trigger] text[i] != '"' && text[i] != '\\',
    ensures
        string_close(text, pos, false) == Some(end),
    decreases end - pos,
{
    if pos < end {
        assert(text[pos] != '"' && text[pos] != '\\');
        lemma_string_close(text, pos + 1, end);
    }
}

} // verus!
