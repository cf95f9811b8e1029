//! Rows from CSV files.
use vstd::prelude::*;
use crate::text::texts;
use crate::value::{jsons, lemma_array_json, lemma_get_after_insert, lemma_jsons_push, obj_get, obj_insert, Json, Object, Value};

verus! {

broadcast use {lemma_array_json, lemma_jsons_push};

/// How often each delimiter occurs outside quotes: commas, semicolons and tabs.
pub struct Counts {
    pub commas: nat,
    pub semicolons: nat,
    pub tabs: nat,
}

/// The delimiters of the first line from a position on, quotes taken into account: between quotes
/// nothing counts, and two quotes in a row there are none.
pub open spec fn count_from(sample: Seq<u8>, pos: int, quoted: bool, counts: Counts) -> Counts
    decreases sample.len() - pos,
{
    if pos < 0 || pos >= sample.len() {
        counts
    } else {
        let b = sample[pos];
        if b == 34 {
            if quoted && pos + 1 < sample.len() && sample[pos + 1] == 34 {
                count_from(sample, pos + 2, quoted, counts)
            } else {
                count_from(sample, pos + 1, !quoted, counts)
            }
        } else if quoted {
            count_from(sample, pos + 1, quoted, counts)
        } else if b == 10 || b == 13 {
            counts
        } else if b == 44 {
            count_from(sample, pos + 1, quoted, Counts { commas: counts.commas + 1, ..counts })
        } else if b == 59 {
            count_from(sample, pos + 1, quoted, Counts { semicolons: counts.semicolons + 1, ..counts })
        } else if b == 9 {
            count_from(sample, pos + 1, quoted, Counts { tabs: counts.tabs + 1, ..counts })
        } else {
            count_from(sample, pos + 1, quoted, counts)
        }
    }
}

/// The most frequent delimiter; of equally frequent ones a tab before a semicolon before a comma,
/// and a comma where none occurs.
pub open spec fn most_frequent(counts: Counts) -> u8 {
    if counts.tabs > 0 && counts.tabs >= counts.semicolons && counts.tabs >= counts.commas {
        9
    } else if counts.semicolons > 0 && counts.semicolons >= counts.commas && counts.semicolons > counts.tabs {
        59
    } else {
        44
    }
}

/// The delimiter of a sample of a CSV file.
pub open spec fn delimiter_of(sample: Seq<u8>) -> u8 {
    most_frequent(count_from(sample, 0, false, Counts { commas: 0, semicolons: 0, tabs: 0 }))
}

/// The delimiter of a CSV file, found in its first line.
pub fn detect_csv_delimiter(sample: &Vec<u8>, length: usize) -> (delimiter: u8)
    requires
        length <= sample@.len(),
    ensures
        delimiter == delimiter_of(sample@.take(length as int)),
{
    let ghost all = sample@.take(length as int);
    let ghost none = Counts { commas: 0, semicolons: 0, tabs: 0 };
    let mut commas: usize = 0;
    let mut semicolons: usize = 0;
    let mut tabs: usize = 0;
    let mut quoted = false;
    let mut i: usize = 0;
    let mut open = true;
    while open && i < length
        invariant
            length <= sample@.len(),
            i <= length,
            commas <= i,
            semicolons <= i,
            tabs <= i,
            all == sample@.take(length as int),
            none == (Counts { commas: 0, semicolons: 0, tabs: 0 }),
            open ==> count_from(all, 0, false, none) == count_from(
                all,
                i as int,
                quoted,
                Counts { commas: commas as nat, semicolons: semicolons as nat, tabs: tabs as nat },
            ),
            !open ==> count_from(all, 0, false, none) == (Counts { commas: commas as nat, semicolons: semicolons as nat, tabs: tabs as nat }),
        decreases (if open { 1int } else { 0int }) + length - i,
    {
        let b: u8 = sample[i];
        assert(all[i as int] == b);
        if b == 34 {
            if quoted && i < length - 1 && sample[i + 1] == 34 {
                assert(all[i + 1] == 34);
                i = i + 2;
            } else {
                assert(i + 1 < length ==> all[i + 1] == sample@[i + 1]);
                quoted = !quoted;
                i = i + 1;
            }
        } else if quoted {
            i = i + 1;
        } else if b == 10 || b == 13 {
            open = false;
        } else {
            if b == 44 {
                commas = commas + 1;
            } else if b == 59 {
                semicolons = semicolons + 1;
            } else if b == 9 {
                tabs = tabs + 1;
            }
            i = i + 1;
        }
    }
    if tabs > 0 && tabs >= semicolons && tabs >= commas {
        9
    } else if semicolons > 0 && semicolons >= commas && semicolons > tabs {
        59
    } else {
        44
    }
}

/// The header that `csv` reads from the bytes of a file with a delimiter, if it reads one.
pub uninterp spec fn csv_header_of(bytes: Seq<u8>, delimiter: u8) -> Option<Seq<Seq<char>>>;

/// The records behind the header that `csv` reads from the bytes of a file with a delimiter, if it
/// reads them all.
pub uninterp spec fn csv_records_of(bytes: Seq<u8>, delimiter: u8) -> Option<Seq<Seq<Seq<char>>>>;

/// The mathematical records.
pub open spec fn records_of(records: Seq<Vec<String>>) -> Seq<Seq<Seq<char>>> {
    Seq::new(records.len(), |i: int| texts(records[i]@))
}

/// Reads the header record of a file with `csv::Reader::headers`. An error gives `None`.
#[verifier::external_body]
fn read_header(bytes: &Vec<u8>, delimiter: u8) -> (header: Option<Vec<String>>)
    ensures
        match header {
            Some(h) => csv_header_of(bytes@, delimiter) == Some(texts(h@)),
            None => csv_header_of(bytes@, delimiter) is None,
        },
{
    let mut reader = csv::ReaderBuilder::new().delimiter(delimiter).from_reader(bytes.as_slice());
    let header = reader.headers().ok()?.iter().map(str::to_owned).collect();
    Some(header)
}

/// Reads the records behind the header of a file with `csv::Reader::records`. An error in any of
/// them gives `None`.
#[verifier::external_body]
fn read_records(bytes: &Vec<u8>, delimiter: u8) -> (records: Option<Vec<Vec<String>>>)
    ensures
        match records {
            Some(r) => csv_records_of(bytes@, delimiter) == Some(records_of(r@)),
            None => csv_records_of(bytes@, delimiter) is None,
        },
{
    let mut reader = csv::ReaderBuilder::new().delimiter(delimiter).from_reader(bytes.as_slice());
    let records = reader.records().map(|record| record.map(|fields| fields.iter().map(str::to_owned).collect()));
    records.collect::<Result<_, _>>().ok()
}

/// The bytes in which the delimiter is looked for.
pub open spec fn head_of(bytes: Seq<u8>) -> Seq<u8> {
    if bytes.len() < 8192 {
        bytes
    } else {
        bytes.take(8192)
    }
}

/// The delimiter of a CSV file.
pub open spec fn file_delimiter(bytes: Seq<u8>) -> u8 {
    delimiter_of(head_of(bytes))
}

fn find_delimiter(bytes: &Vec<u8>) -> (delimiter: u8)
    ensures
        delimiter == file_delimiter(bytes@),
{
    let length: usize = if bytes.len() < 8192 {
        bytes.len()
    } else {
        8192
    };
    assert(bytes@.take(length as int) =~= head_of(bytes@));
    detect_csv_delimiter(bytes, length)
}

/// The header of a CSV file.
pub open spec fn header_of(bytes: Seq<u8>) -> Option<Seq<Seq<char>>> {
    csv_header_of(bytes, file_delimiter(bytes))
}

/// The row of a record: each field under its header, an empty text where the record has none. Of
/// equal headers the last one stands.
pub open spec fn row_of(header: Seq<Seq<char>>, record: Seq<Seq<char>>) -> Seq<(Seq<char>, Json)>
    decreases header.len(),
{
    if header.len() == 0 {
        Seq::empty()
    } else {
        let i = header.len() - 1;
        let field = if i < record.len() {
            record[i]
        } else {
            Seq::empty()
        };
        obj_insert(row_of(header.drop_last(), record), header.last(), Json::Text(field))
    }
}

/// A row has each field of its record under the header of the field, and nothing else.
pub proof fn lemma_row_fields(header: Seq<Seq<char>>, record: Seq<Seq<char>>, key: Seq<char>)
    requires
        header.no_duplicates(),
        header.len() <= record.len(),
    ensures
        match obj_get(row_of(header, record), key) {
            Some(field) => exists|i: int| 0 <= i < header.len() && (#[trigger] header[i]) == key && field == Json::Text(record[i]),
            None => !header.contains(key),
        },
    decreases header.len(),
{
    if header.len() > 0 {
        let rest = header.drop_last();
        let i = header.len() - 1;
        assert(rest.no_duplicates());
        lemma_row_fields(rest, record, key);
        lemma_get_after_insert(row_of(rest, record), header.last(), Json::Text(record[i]), key);
        match obj_get(row_of(header, record), key) {
            Some(field) => {
                if header.last() == key {
                    assert(header[i] == key && field == Json::Text(record[i]));
                } else {
                    let j = choose|j: int| 0 <= j < rest.len() && (#[trigger] rest[j]) == key && field == Json::Text(record[j]);
                    assert(header[j] == key);
                }
            },
            None => {
                assert forall|j: int| 0 <= j < header.len() implies header[j] != key by {
                    if j < i {
                        assert(rest[j] == header[j]);
                    }
                }
            },
        }
    }
}

/// The rows of a table.
pub open spec fn rows_of(header: Seq<Seq<char>>, records: Seq<Seq<Seq<char>>>) -> Seq<Json> {
    Seq::new(records.len(), |i: int| Json::Object(row_of(header, records[i])))
}

fn make_row(header: &Vec<String>, record: &Vec<String>) -> (row: Object)
    ensures
        row@ == row_of(texts(header@), texts(record@)),
{
    let ghost names = texts(header@);
    let ghost fields = texts(record@);
    let mut row = Object::new();
    let mut i: usize = 0;
    assert(names.take(0) =~= Seq::empty());
    while i < header.len()
        invariant
            i <= header.len(),
            names == texts(header@),
            fields == texts(record@),
            row@ == row_of(names.take(i as int), fields),
        decreases header.len() - i,
    {
        assert(names.take(i + 1).drop_last() =~= names.take(i as int));
        assert(names.take(i + 1).last() == header@[i as int]@);
        let field = if i < record.len() {
            assert(fields[i as int] == record@[i as int]@);
            record[i].clone()
        } else {
            String::new()
        };
        row.insert(header[i].clone(), Value::String(field));
        i = i + 1;
    }
    assert(names.take(i as int) =~= names);
    row
}

/// The rows of a table.
pub fn csv_rows(header: &Vec<String>, records: &Vec<Vec<String>>) -> (rows: Vec<Value>)
    ensures
        jsons(rows@) == rows_of(texts(header@), records_of(records@)),
{
    let ghost whole = rows_of(texts(header@), records_of(records@));
    let mut rows: Vec<Value> = Vec::new();
    let mut i: usize = 0;
    assert(jsons(rows@) =~= whole.take(0));
    while i < records.len()
        invariant
            i <= records.len(),
            whole == rows_of(texts(header@), records_of(records@)),
            jsons(rows@) == whole.take(i as int),
        decreases records.len() - i,
    {
        assert(records_of(records@)[i as int] == texts(records@[i as int]@));
        rows.push(Value::Object(make_row(header, &records[i])));
        assert(whole.take(i + 1) =~= whole.take(i as int).push(whole[i as int]));
        i = i + 1;
    }
    assert(whole.take(i as int) =~= whole);
    rows
}

/// The value of a table: an array of its rows; none where its header or a record cannot be read.
pub open spec fn table_value(header: Option<Seq<Seq<char>>>, records: Option<Seq<Seq<Seq<char>>>>) -> Option<Json> {
    match (header, records) {
        (Some(h), Some(r)) => Some(Json::Array(rows_of(h, r))),
        _ => None,
    }
}

/// The value of a CSV file.
pub open spec fn csv_value(bytes: Seq<u8>) -> Option<Json> {
    table_value(header_of(bytes), csv_records_of(bytes, file_delimiter(bytes)))
}

/// The value of a CSV file.
pub fn load_csv_source(bytes: &Vec<u8>) -> (value: Option<Value>)
    ensures
        match value {
            Some(v) => csv_value(bytes@) == Some(v@),
            None => csv_value(bytes@) is None,
        },
{
    let delimiter = find_delimiter(bytes);
    match (read_header(bytes, delimiter), read_records(bytes, delimiter)) {
        (Some(header), Some(records)) => Some(Value::Array(csv_rows(&header, &records))),
        _ => None,
    }
}

/// The fields of a CSV file: its header, whatever stands behind it; none where it cannot be read.
pub fn csv_fields_from_source(bytes: &Vec<u8>) -> (fields: Option<Vec<String>>)
    ensures
        match fields {
            Some(f) => header_of(bytes@) == Some(texts(f@)),
            None => header_of(bytes@) is None,
        },
{
    let delimiter = find_delimiter(bytes);
    read_header(bytes, delimiter)
}

} // verus!
