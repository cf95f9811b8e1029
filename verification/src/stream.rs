//! Results as streams of messages.
use vstd::prelude::*;
use crate::descriptor::{columns_from_descriptor, keys_of, QueryResult};
use crate::text::{copy_strings, texts};
use crate::value::{copy_values, jsons, lemma_jsons_push, Json, Value};

verus! {

broadcast use lemma_jsons_push;

/// How many rows a query is read in blocks of, where nothing else is said.
pub const DEFAULT_BLOCK_SIZE: usize = 1000;

/// How many rows a message carries at most, where nothing else is said.
pub const DEFAULT_STREAM_BATCH_SIZE: usize = 1000;

/// A message of a stream.
#[derive(Debug, PartialEq)]
pub enum StreamMessage {
    Meta { columns: Vec<String>, source: String },
    Progress { substep: usize, total_substeps: usize, substep_name: String, completed: u128, total: u128 },
    Batch { start: usize, rows: Vec<Value> },
    Done { row_count: usize },
}

/// What a message of a stream is.
#[verifier::ext_equal]
pub enum Message {
    Meta(Seq<Seq<char>>, Seq<char>),
    Progress(nat, nat, Seq<char>, nat, nat),
    Batch(nat, Seq<Json>),
    Done(nat),
}

impl View for StreamMessage {
    type V = Message;

    open spec fn view(&self) -> Message {
        match self {
            StreamMessage::Meta { columns, source } => Message::Meta(texts(columns@), source@),
            StreamMessage::Progress { substep, total_substeps, substep_name, completed, total } => Message::Progress(
                *substep as nat,
                *total_substeps as nat,
                substep_name@,
                *completed as nat,
                *total as nat,
            ),
            StreamMessage::Batch { start, rows } => Message::Batch(*start as nat, jsons(rows@)),
            StreamMessage::Done { row_count } => Message::Done(*row_count as nat),
        }
    }
}

/// The mathematical messages.
pub open spec fn messages_of(messages: Seq<StreamMessage>) -> Seq<Message> {
    Seq::new(messages.len(), |i: int| messages[i]@)
}

/// The batches of rows from a position on: each of the given size, the last one perhaps shorter.
pub open spec fn batches_from(rows: Seq<Json>, start: int, size: int) -> Seq<Message>
    decreases rows.len() - start,
{
    if start < 0 || start >= rows.len() || size <= 0 {
        Seq::empty()
    } else {
        let end = if start + size < rows.len() {
            start + size
        } else {
            rows.len() as int
        };
        seq![Message::Batch(start as nat, rows.subrange(start, end))] + batches_from(rows, end, size)
    }
}

/// The size of batches: what is asked for, but at least one row.
pub open spec fn batch_size_of(size: nat) -> int {
    if size < 1 {
        1
    } else {
        size as int
    }
}

/// The stream of a result: its columns, its rows in batches, and their number.
pub open spec fn stream_of(columns: Seq<Seq<char>>, rows: Seq<Json>, source: Seq<char>, batch_size: nat) -> Seq<Message> {
    seq![Message::Meta(columns, source)] + batches_from(rows, 0, batch_size_of(batch_size)) + seq![Message::Done(rows.len())]
}

/// The rows of the batches among messages.
pub open spec fn batched_rows(messages: Seq<Message>) -> Seq<Json>
    decreases messages.len(),
{
    if messages.len() == 0 {
        Seq::empty()
    } else {
        match messages.last() {
            Message::Batch(_, rows) => batched_rows(messages.drop_last()) + rows,
            _ => batched_rows(messages.drop_last()),
        }
    }
}

proof fn lemma_batched_split(first: Seq<Message>, second: Seq<Message>)
    ensures
        batched_rows(first + second) == batched_rows(first) + batched_rows(second),
    decreases second.len(),
{
    if second.len() == 0 {
        assert(first + second =~= first);
        assert(batched_rows(first) + batched_rows(second) =~= batched_rows(first));
    } else {
        lemma_batched_split(first, second.drop_last());
        assert((first + second).drop_last() =~= first + second.drop_last());
        assert((first + second).last() == second.last());
        match second.last() {
            Message::Batch(_, rows) => {
                assert(batched_rows(first) + (batched_rows(second.drop_last()) + rows) =~= (batched_rows(first) + batched_rows(
                    second.drop_last(),
                )) + rows);
            },
            _ => {},
        }
    }
}

proof fn lemma_one_batch(message: Message)
    ensures
        batched_rows(seq![message]) == match message {
            Message::Batch(_, rows) => rows,
            _ => Seq::empty(),
        },
{
    assert(seq![message].drop_last() =~= Seq::<Message>::empty());
    assert(batched_rows(seq![message].drop_last()) =~= Seq::<Json>::empty());
    match message {
        Message::Batch(_, rows) => {
            assert(Seq::<Json>::empty() + rows =~= rows);
        },
        _ => {},
    }
}

/// The batches hold every row once, in order.
pub proof fn lemma_batches_hold_rows(rows: Seq<Json>, start: int, size: int)
    requires
        0 <= start <= rows.len(),
        size > 0,
    ensures
        batched_rows(batches_from(rows, start, size)) == rows.skip(start),
    decreases rows.len() - start,
{
    if start < rows.len() {
        let end = if start + size < rows.len() {
            start + size
        } else {
            rows.len() as int
        };
        lemma_batches_hold_rows(rows, end, size);
        let first = Message::Batch(start as nat, rows.subrange(start, end));
        lemma_batched_split(seq![first], batches_from(rows, end, size));
        lemma_one_batch(first);
        assert(rows.subrange(start, end) + rows.skip(end) =~= rows.skip(start));
    } else {
        assert(rows.skip(start) =~= Seq::<Json>::empty());
    }
}

/// Every batch starts where the rows before it end, has at least one row and at most as many as
/// the size says.
pub proof fn lemma_batch_bounds(rows: Seq<Json>, start: int, size: int, i: int)
    requires
        0 <= start <= rows.len(),
        size > 0,
        0 <= i < batches_from(rows, start, size).len(),
    ensures
        batches_from(rows, start, size)[i] matches Message::Batch(at, part) && at == start + i * size && 1 <= part.len() <= size && part
            == rows.subrange(at as int, (at + part.len()) as int),
    decreases rows.len() - start,
{
    let end = if start + size < rows.len() {
        start + size
    } else {
        rows.len() as int
    };
    assert(0 * size == 0) by (nonlinear_arith);
    if i > 0 {
        assert(batches_from(rows, start, size)[i] == batches_from(rows, end, size)[i - 1]);
        lemma_batch_bounds(rows, end, size, i - 1);
        assert(end == start + size);
        assert(size + (i - 1) * size == i * size) by (nonlinear_arith);
    }
}

/// Appending a message appends its mathematical value.
pub broadcast proof fn lemma_messages_push(messages: Seq<StreamMessage>, message: StreamMessage)
    ensures
        #[trigger] messages_of(messages.push(message)) == messages_of(messages).push(message@),
{
    assert(messages_of(messages.push(message)) =~= messages_of(messages).push(message@));
}

fn copy_range(rows: &Vec<Value>, start: usize, end: usize) -> (copies: Vec<Value>)
    requires
        start <= end <= rows@.len(),
    ensures
        jsons(copies@) == jsons(rows@).subrange(start as int, end as int),
{
    let mut copies: Vec<Value> = Vec::new();
    let mut i: usize = start;
    while i < end
        invariant
            start <= i <= end <= rows@.len(),
            jsons(copies@) == jsons(rows@).subrange(start as int, i as int),
        decreases end - i,
    {
        copies.push(rows[i].copy());
        i = i + 1;
        assert(jsons(copies@) =~= jsons(rows@).subrange(start as int, i as int));
    }
    copies
}

/// The stream of a result: its columns, its rows in batches, and their number.
pub fn stream_query_jsonl(result: &QueryResult, source: &str, batch_size: usize) -> (messages: Vec<StreamMessage>)
    ensures
        messages_of(messages@) == stream_of(keys_of(result.columns@), jsons(result.rows@), source@, batch_size as nat),
{
    broadcast use lemma_messages_push;

    let size: usize = if batch_size < 1 {
        1
    } else {
        batch_size
    };
    let ghost rows = jsons(result.rows@);
    let columns = columns_from_descriptor(&result.columns);
    let mut messages: Vec<StreamMessage> = Vec::new();
    messages.push(StreamMessage::Meta { columns, source: source.to_owned() });
    let ghost meta = seq![Message::Meta(keys_of(result.columns@), source@)];
    let ghost whole = batches_from(rows, 0, size as int);
    let mut start: usize = 0;
    assert(messages_of(messages@) + batches_from(rows, 0, size as int) =~= meta + whole);
    while start < result.rows.len()
        invariant
            size >= 1,
            size == batch_size_of(batch_size as nat),
            start <= result.rows@.len(),
            rows == jsons(result.rows@),
            messages_of(messages@) + batches_from(rows, start as int, size as int) == meta + whole,
        decreases result.rows@.len() - start,
    {
        let end: usize = if size < result.rows.len() - start {
            start + size
        } else {
            result.rows.len()
        };
        let ghost before = messages_of(messages@);
        let ghost rest = batches_from(rows, end as int, size as int);
        let part = copy_range(&result.rows, start, end);
        let ghost batch = Message::Batch(start as nat, rows.subrange(start as int, end as int));
        messages.push(StreamMessage::Batch { start, rows: part });
        assert(batches_from(rows, start as int, size as int) =~= seq![batch] + rest);
        assert(before + (seq![batch] + rest) =~= before.push(batch) + rest);
        start = end;
    }
    let ghost before = messages_of(messages@);
    assert(before + Seq::<Message>::empty() =~= before);
    messages.push(StreamMessage::Done { row_count: result.rows.len() });
    assert(messages_of(messages@) =~= stream_of(keys_of(result.columns@), rows, source@, batch_size as nat));
    messages
}

/// A result collected from a stream.
#[derive(Debug, PartialEq)]
pub struct QueryResponse {
    pub columns: Vec<String>,
    pub row_count: usize,
    pub rows: Vec<Value>,
}

/// The columns of the last message that names them.
pub open spec fn last_columns(messages: Seq<Message>) -> Seq<Seq<char>>
    decreases messages.len(),
{
    if messages.len() == 0 {
        Seq::empty()
    } else {
        match messages.last() {
            Message::Meta(columns, _) => columns,
            _ => last_columns(messages.drop_last()),
        }
    }
}

/// The number of rows of the last message that gives it, zero where none does.
pub open spec fn last_count(messages: Seq<Message>) -> nat
    decreases messages.len(),
{
    if messages.len() == 0 {
        0
    } else {
        match messages.last() {
            Message::Done(count) => count,
            _ => last_count(messages.drop_last()),
        }
    }
}

/// Collects a result from its stream. The number of rows is the one that the stream gives, or the
/// number of rows received where it gives none or zero.
pub fn query_response_from_stream(messages: &Vec<StreamMessage>) -> (response: QueryResponse)
    ensures
        texts(response.columns@) == last_columns(messages_of(messages@)),
        jsons(response.rows@) == batched_rows(messages_of(messages@)),
        response.row_count == (if last_count(messages_of(messages@)) == 0 {
            batched_rows(messages_of(messages@)).len()
        } else {
            last_count(messages_of(messages@))
        }),
{
    let ghost all = messages_of(messages@);
    let mut columns: Vec<String> = Vec::new();
    let mut rows: Vec<Value> = Vec::new();
    let mut row_count: usize = 0;
    let mut i: usize = 0;
    assert(all.take(0) =~= Seq::empty());
    assert(texts(columns@) =~= Seq::empty());
    assert(jsons(rows@) =~= Seq::empty());
    while i < messages.len()
        invariant
            i <= messages.len(),
            all == messages_of(messages@),
            texts(columns@) == last_columns(all.take(i as int)),
            jsons(rows@) == batched_rows(all.take(i as int)),
            row_count == last_count(all.take(i as int)),
        decreases messages.len() - i,
    {
        assert(all.take(i + 1).drop_last() =~= all.take(i as int));
        assert(all.take(i + 1).last() == messages@[i as int]@);
        match &messages[i] {
            StreamMessage::Meta { columns: named, source } => {
                columns = copy_strings(named);
            },
            StreamMessage::Batch { start, rows: part } => {
                let ghost before = jsons(rows@);
                let mut copies = copy_values(part);
                rows.append(&mut copies);
                assert(jsons(rows@) =~= before + jsons(part@));
            },
            StreamMessage::Done { row_count: count } => {
                row_count = *count;
            },
            StreamMessage::Progress { .. } => {},
        }
        i = i + 1;
    }
    assert(all.take(i as int) =~= all);
    if row_count == 0 {
        row_count = rows.len();
        assert(jsons(rows@).len() == rows@.len());
    }
    QueryResponse { columns, row_count, rows }
}

/// What is collected from the stream of a result is the result.
pub proof fn lemma_stream_round_trip(columns: Seq<Seq<char>>, rows: Seq<Json>, source: Seq<char>, batch_size: nat)
    ensures
        last_columns(stream_of(columns, rows, source, batch_size)) == columns,
        batched_rows(stream_of(columns, rows, source, batch_size)) == rows,
        last_count(stream_of(columns, rows, source, batch_size)) == rows.len(),
{
    let size = batch_size_of(batch_size);
    let meta = seq![Message::Meta(columns, source)];
    let batches = batches_from(rows, 0, size);
    let done = seq![Message::Done(rows.len())];
    let stream = stream_of(columns, rows, source, batch_size);
    lemma_batches_hold_rows(rows, 0, size);
    lemma_batched_split(meta + batches, done);
    lemma_batched_split(meta, batches);
    lemma_one_batch(meta[0]);
    lemma_one_batch(done[0]);
    assert(rows.skip(0) =~= rows);
    assert(Seq::<Json>::empty() + rows + Seq::<Json>::empty() =~= rows);
    assert(batched_rows(stream) =~= rows);
    assert(stream.drop_last() =~= meta + batches);
    assert(stream.last() == done[0]);
    lemma_batches_name_nothing(rows, 0, size, meta);
    assert(meta.drop_last() =~= Seq::<Message>::empty());
}

proof fn lemma_batches_name_nothing(rows: Seq<Json>, start: int, size: int, before: Seq<Message>)
    requires
        0 <= start <= rows.len(),
        size > 0,
    ensures
        last_columns(before + batches_from(rows, start, size)) == last_columns(before),
    decreases rows.len() - start,
{
    let batches = batches_from(rows, start, size);
    if start < rows.len() {
        let end = if start + size < rows.len() {
            start + size
        } else {
            rows.len() as int
        };
        let first = Message::Batch(start as nat, rows.subrange(start, end));
        lemma_batches_name_nothing(rows, end, size, before.push(first));
        assert(before.push(first) + batches_from(rows, end, size) =~= before + batches);
        assert(before.push(first).drop_last() =~= before);
    } else {
        assert(before + batches =~= before);
    }
}

} // verus!
