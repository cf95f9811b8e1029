//! Running a query: one small step at a time, asking the outside for what it needs.
//!
//! A run is a stack of queries, because a query can load another one. Each call of `advance` takes
//! in what came from the outside, does one thing and says what is wanted next.
use vstd::prelude::*;
use crate::call::{headers_of, maybe, Kernel, LoadRequest, Loading, Method, Question, Request};
use crate::csv_source::{csv_value, load_csv_source};
use crate::eval::{Eval, Evaluated};
use crate::files::{has_extension, is_csv_path, is_http, is_http_uri, is_ql_path, resolve_source, source_path};
use crate::json::{json_of_text, read_json};
use crate::paging::{after_page, first_page, paging_of, parse_paging_config, receive_page, start_paging, PageAsked, PageRequest, Paging, PagingNext, PagingState, PagingStep};
use crate::parser::{parse_query, query_of};
use crate::pipeline::{are_tasks, complete, map_parallelism, parallelism_of, prepare, run_task, step_name, step_rows, subquery_name, task_eval, task_inputs, Many, StepError, Tasks};
use crate::query::{Query, Step, SubQuery};
use crate::stream::{Message, StreamMessage};
use crate::text::same_text;
use crate::value::{jsons, lemma_array_json, lemma_jsons_push, Json, Object, Value};

verus! {

broadcast use {lemma_array_json, lemma_jsons_push};

/// A request over HTTP.
#[derive(Debug, PartialEq)]
pub struct HttpRequest {
    pub method: Method,
    pub uri: String,
    pub headers: Vec<(String, String)>,
    pub parameter: Option<(String, String)>,
    pub body: Option<Value>,
}

/// What a request over HTTP is.
#[verifier::ext_equal]
pub struct HttpAsked {
    pub method: Method,
    pub uri: Seq<char>,
    pub headers: Seq<(Seq<char>, Seq<char>)>,
    pub page: PageAsked,
}

/// A pair of texts, where there is one.
pub open spec fn pair_of(pair: Option<(String, String)>) -> Option<(Seq<char>, Seq<char>)> {
    match pair {
        Some((name, value)) => Some((name@, value@)),
        None => None,
    }
}

impl View for HttpRequest {
    type V = HttpAsked;

    open spec fn view(&self) -> HttpAsked {
        HttpAsked {
            method: self.method,
            uri: self.uri@,
            headers: headers_of(self.headers@),
            page: PageAsked { parameter: pair_of(self.parameter), body: maybe(self.body) },
        }
    }
}

/// What is wanted of the outside, or what has come of the run.
#[derive(Debug, PartialEq)]
pub enum Action {
    /// Nothing: the run goes on.
    Work,
    /// The result of a computation.
    Compute(Kernel, Value),
    /// The value of a secret.
    Secret(String),
    /// The text of a file.
    ReadText(String),
    /// The bytes of a file.
    ReadBytes(String),
    /// The one name of a file among all its names.
    Canonicalize(String),
    /// The text of a response.
    Http(HttpRequest),
    /// The rows of the query.
    Finished(Vec<Value>),
    /// The query failed.
    Failed(StepError),
    /// What came from the outside was not what was wanted.
    Unexpected,
}

/// What is wanted of the outside, or what has come of the run.
#[verifier::ext_equal]
pub enum Wanted {
    Work,
    Compute(Kernel, Json),
    Secret(Seq<char>),
    ReadText(Seq<char>),
    ReadBytes(Seq<char>),
    Canonicalize(Seq<char>),
    Http(HttpAsked),
    Finished(Seq<Json>),
    Failed(Seq<char>, Json),
    Unexpected,
}

impl View for Action {
    type V = Wanted;

    open spec fn view(&self) -> Wanted {
        match self {
            Action::Work => Wanted::Work,
            Action::Compute(kernel, input) => Wanted::Compute(*kernel, input@),
            Action::Secret(name) => Wanted::Secret(name@),
            Action::ReadText(path) => Wanted::ReadText(path@),
            Action::ReadBytes(path) => Wanted::ReadBytes(path@),
            Action::Canonicalize(path) => Wanted::Canonicalize(path@),
            Action::Http(request) => Wanted::Http(request@),
            Action::Finished(rows) => Wanted::Finished(jsons(rows@)),
            Action::Failed(error) => Wanted::Failed(error.column@, error.value@),
            Action::Unexpected => Wanted::Unexpected,
        }
    }
}

/// What comes from the outside.
#[derive(Debug, PartialEq)]
pub enum Event {
    /// Go on.
    Continue,
    /// The result of a computation, or the value of a secret.
    Answer(Value),
    /// The text of a file or a response, where it could be read.
    Text(Option<String>),
    /// The bytes of a file, where they could be read.
    Bytes(Option<Vec<u8>>),
    /// The one name of a file, where it has one.
    Canonical(Option<String>),
}

/// What comes from the outside.
#[verifier::ext_equal]
pub enum Came {
    Continue,
    Answer(Json),
    Text(Option<Seq<char>>),
    Bytes(Option<Seq<u8>>),
    Canonical(Option<Seq<char>>),
}

/// A text, where there is one.
pub open spec fn text_of(text: Option<String>) -> Option<Seq<char>> {
    match text {
        Some(t) => Some(t@),
        None => None,
    }
}

impl View for Event {
    type V = Came;

    open spec fn view(&self) -> Came {
        match self {
            Event::Continue => Came::Continue,
            Event::Answer(value) => Came::Answer(value@),
            Event::Text(text) => Came::Text(text_of(*text)),
            Event::Bytes(bytes) => Came::Bytes(match bytes {
                Some(b) => Some(b@),
                None => None,
            }),
            Event::Canonical(path) => Came::Canonical(text_of(*path)),
        }
    }
}

/// What a run waits for.
#[derive(Debug, PartialEq)]
enum Waiting {
    Nothing,
    Answer,
    JsonText,
    CsvBytes,
    CanonicalOf(String),
    QueryText(String, String),
    Page(Option<Paging>, LoadRequest),
    Over,
}

/// What a run waits for: nothing, an answer, the text of a JSON file, the bytes of a CSV file, the
/// one name of a query file, the text of a query file with its name, or a page of a source. A run
/// that is over waits for nothing more.
#[verifier::ext_equal]
pub enum Awaits {
    Nothing,
    Answer,
    JsonText,
    CsvBytes,
    CanonicalOf(Seq<char>),
    QueryText(Seq<char>, Seq<char>),
    Page(Option<PagingState>, Loading),
    Over,
}

impl Waiting {
    closed spec fn awaits(self) -> Awaits {
        match self {
            Waiting::Nothing => Awaits::Nothing,
            Waiting::Answer => Awaits::Answer,
            Waiting::JsonText => Awaits::JsonText,
            Waiting::CsvBytes => Awaits::CsvBytes,
            Waiting::CanonicalOf(path) => Awaits::CanonicalOf(path@),
            Waiting::QueryText(path, canonical) => Awaits::QueryText(path@, canonical@),
            Waiting::Page(paging, load) => Awaits::Page(
                match paging {
                    Some(p) => Some(p@),
                    None => None,
                },
                load@,
            ),
            Waiting::Over => Awaits::Over,
        }
    }
}

/// A query that is being run.
struct Frame {
    query: Query,
    path: String,
    canonical: Option<String>,
    step: usize,
    rows: Vec<Value>,
    tasks: Tasks,
    results: Vec<Value>,
    answers: Vec<Value>,
}

/// A query that is being run: its steps, its path and its one name; the step it is at and the rows
/// before that step; the results of the step's tasks so far, and the answers that the next task
/// has got.
#[verifier::ext_equal]
pub struct FrameState {
    pub steps: Seq<Step>,
    pub path: Seq<char>,
    pub canonical: Option<Seq<char>>,
    pub step: nat,
    pub rows: Seq<Json>,
    pub results: Seq<Json>,
    pub answers: Seq<Json>,
}

/// A run: the queries that are being run, the innermost last, and what is waited for.
#[verifier::ext_equal]
pub struct RunState {
    pub frames: Seq<FrameState>,
    pub awaits: Awaits,
}

impl View for Frame {
    type V = FrameState;

    closed spec fn view(&self) -> FrameState {
        FrameState {
            steps: self.query@,
            path: self.path@,
            canonical: text_of(self.canonical),
            step: self.step as nat,
            rows: jsons(self.rows@),
            results: jsons(self.results@),
            answers: jsons(self.answers@),
        }
    }
}

impl Frame {
    spec fn ready(self) -> bool {
        &&& self.step <= self.query.steps@.len()
        &&& self.step < self.query.steps@.len() ==> are_tasks(
            self.tasks,
            self.query.steps@[self.step as int]@,
            jsons(self.rows@),
        )
        &&& self.step == self.query.steps@.len() ==> self.tasks.inputs@.len() == 0 && self.tasks.starts@.len() == 0
    }
}

/// A query at its beginning.
pub open spec fn fresh(steps: Seq<Step>, path: Seq<char>, canonical: Option<Seq<char>>) -> FrameState {
    FrameState {
        steps,
        path,
        canonical,
        step: 0,
        rows: Seq::empty(),
        results: Seq::empty(),
        answers: Seq::empty(),
    }
}

/// A run with the innermost query replaced.
pub open spec fn with_top(state: RunState, frame: FrameState, awaits: Awaits) -> RunState {
    RunState { frames: state.frames.drop_last().push(frame), awaits }
}

/// The run goes on with an answer to the innermost query's question.
pub open spec fn with_answer(state: RunState, answer: Json) -> (RunState, Wanted) {
    let top = state.frames.last();
    (with_top(state, FrameState { answers: top.answers.push(answer), ..top }, Awaits::Nothing), Wanted::Work)
}

/// The innermost query has ended: the one around it gets the value as an answer.
pub open spec fn returned(state: RunState, answer: Json) -> (RunState, Wanted) {
    with_answer(RunState { frames: state.frames.drop_last(), awaits: Awaits::Nothing }, answer)
}

/// The run is over: its query is at its end, and its rows have been handed out.
pub open spec fn ended(state: RunState) -> RunState {
    let top = state.frames.last();
    with_top(
        state,
        FrameState {
            step: top.steps.len(),
            rows: Seq::empty(),
            results: Seq::empty(),
            answers: Seq::empty(),
            ..top
        },
        Awaits::Over,
    )
}

/// The request for a page of a source.
pub open spec fn page_wanted(load: Loading, page: PageAsked) -> Wanted {
    Wanted::Http(HttpAsked { method: load.method, uri: load.source, headers: load.headers, page })
}

/// A source begins to be loaded. One that cannot be is null.
pub open spec fn loading(state: RunState, load: Loading) -> (RunState, Wanted) {
    let top = state.frames.last();
    if is_http(load.source) {
        match load.paging {
            None => (
                RunState { awaits: Awaits::Page(None, load), ..state },
                page_wanted(load, PageAsked { parameter: None, body: load.body }),
            ),
            Some(config) => match paging_of(config) {
                Err(_) => with_answer(state, Json::Null),
                Ok(paged) => {
                    let (paging, page) = first_page(paged, load.body);
                    (RunState { awaits: Awaits::Page(Some(paging), load), ..state }, page_wanted(load, page))
                },
            },
        }
    } else {
        let path = source_path(top.path, load.source);
        if has_extension(path, "csv"@) {
            (RunState { awaits: Awaits::CsvBytes, ..state }, Wanted::ReadBytes(path))
        } else if has_extension(path, "ql"@) {
            (RunState { awaits: Awaits::CanonicalOf(path), ..state }, Wanted::Canonicalize(path))
        } else {
            (RunState { awaits: Awaits::JsonText, ..state }, Wanted::ReadText(path))
        }
    }
}

/// The innermost query asks a question.
pub open spec fn asking(state: RunState, question: Question) -> (RunState, Wanted) {
    match question {
        Question::Kernel(kernel, input) => (
            RunState { awaits: Awaits::Answer, ..state },
            Wanted::Compute(kernel, input),
        ),
        Question::Secret(name) => (RunState { awaits: Awaits::Answer, ..state }, Wanted::Secret(name)),
        Question::Load(load) => loading(state, load),
    }
}

/// The innermost query does one thing: it runs its next task, ends its step, or ends.
pub open spec fn worked(state: RunState) -> (RunState, Wanted) {
    let top = state.frames.last();
    if top.step >= top.steps.len() {
        if state.frames.len() == 1 {
            (ended(state), Wanted::Finished(top.rows))
        } else {
            returned(state, Json::Array(top.rows))
        }
    } else {
        let step = top.steps[top.step as int];
        let count = task_inputs(step, top.rows).len();
        if top.results.len() < count {
            match task_eval(step, top.rows, top.results.len() as int, top.answers) {
                Eval::Done(result, _) => (
                    with_top(
                        state,
                        FrameState { results: top.results.push(result), answers: Seq::empty(), ..top },
                        Awaits::Nothing,
                    ),
                    Wanted::Work,
                ),
                Eval::Ask(question) => asking(state, question),
            }
        } else {
            step_ended(state)
        }
    }
}

/// The value of a JSON text, null where there is none.
pub open spec fn value_or_null(text: Option<Seq<char>>) -> Json {
    match text {
        Some(t) => match json_of_text(t) {
            Some(value) => value,
            None => Json::Null,
        },
        None => Json::Null,
    }
}

/// Whether a query with that one name is being run.
pub open spec fn is_running(frames: Seq<FrameState>, canonical: Seq<char>) -> bool {
    exists|i: int| 0 <= i < frames.len() && (#[trigger] frames[i]).canonical == Some(canonical)
}

/// A page of a source has come.
pub open spec fn page_came(state: RunState, paging: Option<PagingState>, load: Loading, text: Option<Seq<char>>) -> (
    RunState,
    Wanted,
) {
    match text {
        None => with_answer(state, Json::Null),
        Some(t) => match json_of_text(t) {
            None => with_answer(state, Json::Null),
            Some(value) => match paging {
                None => with_answer(state, value),
                Some(pages) => match after_page(pages, value) {
                    PagingNext::Finished(whole) => with_answer(state, whole),
                    PagingNext::Failed => with_answer(state, Json::Null),
                    PagingNext::Fetch(next, page) => (
                        RunState { awaits: Awaits::Page(Some(next), load), ..state },
                        page_wanted(load, page),
                    ),
                },
            },
        },
    }
}

/// The run after what came from the outside, and what is wanted next.
pub open spec fn next_state(state: RunState, came: Came) -> (RunState, Wanted) {
    match (state.awaits, came) {
        (Awaits::Nothing, Came::Continue) => worked(state),
        (Awaits::Answer, Came::Answer(value)) => with_answer(state, value),
        (Awaits::JsonText, Came::Text(text)) => with_answer(state, value_or_null(text)),
        (Awaits::CsvBytes, Came::Bytes(Some(bytes))) => with_answer(
            state,
            match csv_value(bytes) {
                Some(value) => value,
                None => Json::Null,
            },
        ),
        (Awaits::CsvBytes, Came::Bytes(None)) => with_answer(state, Json::Null),
        (Awaits::CanonicalOf(_), Came::Canonical(None)) => with_answer(state, Json::Null),
        (Awaits::CanonicalOf(path), Came::Canonical(Some(canonical))) => if is_running(state.frames, canonical) {
            with_answer(state, Json::Null)
        } else {
            (RunState { awaits: Awaits::QueryText(path, canonical), ..state }, Wanted::ReadText(path))
        },
        (Awaits::QueryText(_, _), Came::Text(None)) => with_answer(state, Json::Null),
        (Awaits::QueryText(path, canonical), Came::Text(Some(text))) => match query_of(text) {
            None => with_answer(state, Json::Null),
            Some(steps) => (
                RunState { frames: state.frames.push(fresh(steps, path, Some(canonical))), awaits: Awaits::Nothing },
                Wanted::Work,
            ),
        },
        (Awaits::Page(paging, load), Came::Text(text)) => page_came(state, paging, load, text),
        _ => (state, Wanted::Unexpected),
    }
}

/// A run of a query.
pub struct Run {
    frames: Vec<Frame>,
    waiting: Waiting,
}

/// The mathematical queries that are being run.
spec fn frame_states(frames: Seq<Frame>) -> Seq<FrameState> {
    Seq::new(frames.len(), |i: int| frames[i]@)
}

spec fn all_ready(frames: Seq<Frame>) -> bool {
    forall|i: int| 0 <= i < frames.len() ==> (#[trigger] frames[i]).ready()
}

impl View for Run {
    type V = RunState;

    closed spec fn view(&self) -> RunState {
        RunState { frames: frame_states(self.frames@), awaits: self.waiting.awaits() }
    }
}

fn no_tasks() -> (tasks: Tasks)
    ensures
        tasks.inputs@ == Seq::<Value>::empty(),
        tasks.starts@ == Seq::<Object>::empty(),
{
    Tasks { inputs: Vec::new(), starts: Vec::new() }
}

fn new_frame(query: Query, path: String, canonical: Option<String>) -> (frame: Frame)
    ensures
        frame@ == fresh(query@, path@, text_of(canonical)),
        frame.ready(),
{
    let rows: Vec<Value> = Vec::new();
    let results: Vec<Value> = Vec::new();
    let answers: Vec<Value> = Vec::new();
    let tasks = if query.steps.len() > 0 {
        prepare(&query.steps[0], &rows)
    } else {
        no_tasks()
    };
    let frame = Frame { query, path, canonical, step: 0, rows, tasks, results, answers };
    assert(frame@.rows =~= Seq::empty());
    assert(frame@.results =~= Seq::empty());
    assert(frame@.answers =~= Seq::empty());
    frame
}

proof fn lemma_frames_push(frames: Seq<Frame>, frame: Frame)
    ensures
        frame_states(frames.push(frame)) == frame_states(frames).push(frame@),
{
    assert(frame_states(frames.push(frame)) =~= frame_states(frames).push(frame@));
}

/// A run whose innermost query was taken off.
spec fn taken(state: RunState, rest: Seq<Frame>, top: Frame) -> bool {
    &&& state.frames.len() > 0
    &&& frame_states(rest) == state.frames.drop_last()
    &&& top@ == state.frames.last()
    &&& all_ready(rest)
    &&& top.ready()
}

fn put_back(rest: Vec<Frame>, top: Frame, waiting: Waiting) -> (run: Run)
    requires
        all_ready(rest@),
        top.ready(),
    ensures
        run@ == (RunState { frames: frame_states(rest@).push(top@), awaits: waiting.awaits() }),
{
    let mut frames = rest;
    proof {
        lemma_frames_push(frames@, top);
    }
    let ghost before = frames@;
    frames.push(top);
    assert(all_ready(frames@)) by {
        assert forall|i: int| 0 <= i < frames@.len() implies (#[trigger] frames@[i]).ready() by {
            if i < before.len() {
                assert(frames@[i] == before[i]);
            }
        }
    }
    Run { frames, waiting }
}

fn answer_top(rest: Vec<Frame>, top: Frame, answer: Value, Ghost(state): Ghost<RunState>) -> (next: (Run, Action))
    requires
        taken(state, rest@, top),
    ensures
        (next.0@, next.1@) == with_answer(state, answer@),
{
    let Frame { query, path, canonical, step, rows, tasks, results, answers: mut given } = top;
    given.push(answer);
    let frame = Frame { query, path, canonical, step, rows, tasks, results, answers: given };
    assert(frame@ =~= FrameState { answers: top@.answers.push(answer@), ..top@ });
    (put_back(rest, frame, Waiting::Nothing), Action::Work)
}

fn http_action(load: &LoadRequest, page: PageRequest) -> (action: Action)
    ensures
        action@ == page_wanted(load@, page@),
{
    let mut headers: Vec<(String, String)> = Vec::new();
    let mut i: usize = 0;
    while i < load.headers.len()
        invariant
            i <= load.headers.len(),
            headers@.len() == i,
            forall|j: int| 0 <= j < i ==> (#[trigger] headers@[j]).0@ == load.headers@[j].0@ && headers@[j].1@ == load.headers@[j].1@,
        decreases load.headers.len() - i,
    {
        headers.push((load.headers[i].0.clone(), load.headers[i].1.clone()));
        i = i + 1;
    }
    assert(headers_of(headers@) =~= headers_of(load.headers@));
    Action::Http(
        HttpRequest {
            method: load.method,
            uri: load.source.clone(),
            headers,
            parameter: page.parameter,
            body: page.body,
        },
    )
}

fn copy_optional(value: &Option<Value>) -> (copy: Option<Value>)
    ensures
        maybe(copy) == maybe(*value),
{
    match value {
        Some(v) => Some(v.copy()),
        None => None,
    }
}

/// Begins to load a source.
fn load_query_source(rest: Vec<Frame>, top: Frame, load: LoadRequest, Ghost(state): Ghost<RunState>) -> (next: (Run, Action))
    requires
        taken(state, rest@, top),
    ensures
        (next.0@, next.1@) == loading(state, load@),
{
    assert(state.frames.drop_last().push(state.frames.last()) =~= state.frames);
    if is_http_uri(load.source.as_str()) {
        match &load.paging {
            None => {
                let page = PageRequest { parameter: None, body: copy_optional(&load.body) };
                let action = http_action(&load, page);
                (put_back(rest, top, Waiting::Page(None, load)), action)
            },
            Some(config) => match parse_paging_config(config) {
                Err(_) => answer_top(rest, top, Value::Null, Ghost(state)),
                Ok(paged) => {
                    let (paging, page) = start_paging(paged, copy_optional(&load.body));
                    let action = http_action(&load, page);
                    (put_back(rest, top, Waiting::Page(Some(paging), load)), action)
                },
            },
        }
    } else {
        let path = resolve_source(top.path.as_str(), load.source.as_str());
        if is_csv_path(path.as_str()) {
            (put_back(rest, top, Waiting::CsvBytes), Action::ReadBytes(path))
        } else if is_ql_path(path.as_str()) {
            let named = path.clone();
            (put_back(rest, top, Waiting::CanonicalOf(named)), Action::Canonicalize(path))
        } else {
            (put_back(rest, top, Waiting::JsonText), Action::ReadText(path))
        }
    }
}

fn ask_outside(rest: Vec<Frame>, top: Frame, request: Request, Ghost(state): Ghost<RunState>) -> (next: (Run, Action))
    requires
        taken(state, rest@, top),
    ensures
        (next.0@, next.1@) == asking(state, request@),
{
    assert(state.frames.drop_last().push(state.frames.last()) =~= state.frames);
    match request {
        Request::Kernel(kernel, input) => (put_back(rest, top, Waiting::Answer), Action::Compute(kernel, input)),
        Request::Secret(name) => (put_back(rest, top, Waiting::Answer), Action::Secret(name)),
        Request::Load(load) => load_query_source(rest, top, load, Ghost(state)),
    }
}

/// Hands the value of an ended query to the query around it.
fn return_value(rest: Vec<Frame>, answer: Value, Ghost(state): Ghost<RunState>) -> (next: (Run, Action))
    requires
        state.frames.len() > 1,
        frame_states(rest@) == state.frames.drop_last(),
        all_ready(rest@),
    ensures
        (next.0@, next.1@) == returned(state, answer@),
{
    let ghost inner = RunState { frames: state.frames.drop_last(), awaits: Awaits::Nothing };
    let mut frames = rest;
    let ghost before = frames@;
    assert(frame_states(rest@).len() == rest@.len());
    let last: usize = frames.len() - 1;
    let outer = frames.remove(last);
    proof {
        assert(frame_states(frames@) =~= inner.frames.drop_last());
        assert(frame_states(before)[last as int] == before[last as int]@);
        assert forall|i: int| 0 <= i < frames@.len() implies (#[trigger] frames@[i]).ready() by {
            assert(frames@[i] == before[i]);
        }
    }
    answer_top(frames, outer, answer, Ghost(inner))
}

fn end_run(rest: Vec<Frame>, query: Query, path: String, canonical: Option<String>, Ghost(state): Ghost<RunState>) -> (run: Run)
    requires
        state.frames.len() > 0,
        frame_states(rest@) == state.frames.drop_last(),
        all_ready(rest@),
        query@ == state.frames.last().steps,
        path@ == state.frames.last().path,
        text_of(canonical) == state.frames.last().canonical,
    ensures
        run@ == ended(state),
{
    let step: usize = query.steps.len();
    let frame = Frame {
        query,
        path,
        canonical,
        step,
        rows: Vec::new(),
        tasks: no_tasks(),
        results: Vec::new(),
        answers: Vec::new(),
    };
    assert(query@.len() == query.steps@.len());
    assert(frame@.rows =~= Seq::empty());
    assert(frame@.results =~= Seq::empty());
    assert(frame@.answers =~= Seq::empty());
    put_back(rest, frame, Waiting::Over)
}

/// What comes of the end of a step.
pub open spec fn step_ended(state: RunState) -> (RunState, Wanted) {
    let top = state.frames.last();
    match step_rows(top.steps[top.step as int], top.rows, top.results) {
        Many::Rows(rows) => (
            with_top(
                state,
                FrameState { step: top.step + 1, rows, results: Seq::empty(), answers: Seq::empty(), ..top },
                Awaits::Nothing,
            ),
            Wanted::Work,
        ),
        Many::Wrong(column, value) => if state.frames.len() == 1 {
            (ended(state), Wanted::Failed(column, value))
        } else {
            returned(state, Json::Null)
        },
    }
}

/// Ends the step that the innermost query is at.
fn end_step(rest: Vec<Frame>, top: Frame, Ghost(state): Ghost<RunState>) -> (next: (Run, Action))
    requires
        taken(state, rest@, top),
        top.step < top.query.steps@.len(),
    ensures
        (next.0@, next.1@) == step_ended(state),
{
    assert(frame_states(rest@).len() == rest@.len());
    let alone = rest.len() == 0;
    let Frame { query, path, canonical, step, rows, tasks, results, answers } = top;
    assert(query@[step as int] == query.steps@[step as int]@);
    match complete(&query.steps[step], rows, results) {
        Ok(output) => {
            let count: usize = query.steps.len();
            let next: usize = step + 1;
            let prepared = if next < count {
                prepare(&query.steps[next], &output)
            } else {
                no_tasks()
            };
            let frame = Frame {
                query,
                path,
                canonical,
                step: next,
                rows: output,
                tasks: prepared,
                results: Vec::new(),
                answers: Vec::new(),
            };
            assert(frame@.results =~= Seq::empty());
            assert(frame@.answers =~= Seq::empty());
            (put_back(rest, frame, Waiting::Nothing), Action::Work)
        },
        Err(error) => {
            if alone {
                (end_run(rest, query, path, canonical, Ghost(state)), Action::Failed(error))
            } else {
                return_value(rest, Value::Null, Ghost(state))
            }
        },
    }
}

/// Does one thing of the innermost query.
fn work(rest: Vec<Frame>, top: Frame, Ghost(state): Ghost<RunState>) -> (next: (Run, Action))
    requires
        taken(state, rest@, top),
        state.awaits == Awaits::Nothing,
    ensures
        (next.0@, next.1@) == worked(state),
{
    assert(frame_states(rest@).len() == rest@.len());
    assert(top.query@.len() == top.query.steps@.len());
    assert(jsons(top.results@).len() == top.results@.len());
    if top.step >= top.query.steps.len() {
        let alone = rest.len() == 0;
        let Frame { query, path, canonical, step, rows, tasks, results, answers } = top;
        if alone {
            return (end_run(rest, query, path, canonical, Ghost(state)), Action::Finished(rows));
        }
        return return_value(rest, Value::Array(rows), Ghost(state));
    }
    let ghost step_view = top.query@[top.step as int];
    assert(step_view == top.query.steps@[top.step as int]@);
    assert(task_inputs(step_view, jsons(top.rows@)).len() == jsons(top.tasks.inputs@).len());
    assert(jsons(top.tasks.inputs@).len() == top.tasks.inputs@.len());
    if top.results.len() >= top.tasks.inputs.len() {
        return end_step(rest, top, Ghost(state));
    }
    let outcome = run_task(
        &top.query.steps[top.step],
        &top.tasks,
        top.results.len(),
        &top.answers,
        Ghost(jsons(top.rows@)),
    );
    match outcome {
        Evaluated::Done(result, _) => {
            let Frame { query, path, canonical, step, rows, tasks, results: mut done, answers } = top;
            done.push(result);
            let frame = Frame { query, path, canonical, step, rows, tasks, results: done, answers: Vec::new() };
            assert(frame@.answers =~= Seq::empty());
            (put_back(rest, frame, Waiting::Nothing), Action::Work)
        },
        Evaluated::Ask(request) => ask_outside(rest, top, request, Ghost(state)),
    }
}

fn find_running(frames: &Vec<Frame>, canonical: &str) -> (found: bool)
    ensures
        found == is_running(frame_states(frames@), canonical@),
{
    let mut i: usize = 0;
    while i < frames.len()
        invariant
            i <= frames.len(),
            forall|j: int| 0 <= j < i ==> (#[trigger] frame_states(frames@)[j]).canonical != Some(canonical@),
        decreases frames.len() - i,
    {
        assert(frame_states(frames@)[i as int] == frames@[i as int]@);
        match &frames[i].canonical {
            Some(name) => if same_text(name.as_str(), canonical) {
                return true;
            },
            None => {},
        }
        i = i + 1;
    }
    false
}

fn json_or_null(text: &Option<String>) -> (value: Value)
    ensures
        value@ == value_or_null(text_of(*text)),
{
    match text {
        Some(t) => match read_json(t.as_str()) {
            Some(value) => value,
            None => Value::Null,
        },
        None => Value::Null,
    }
}

fn take_page(rest: Vec<Frame>, top: Frame, paging: Option<Paging>, load: LoadRequest, text: Option<String>, Ghost(state): Ghost<RunState>) -> (next: (Run, Action))
    requires
        taken(state, rest@, top),
    ensures
        (next.0@, next.1@) == page_came(
            state,
            match paging {
                Some(p) => Some(p@),
                None => None,
            },
            load@,
            text_of(text),
        ),
{
    assert(state.frames.drop_last().push(state.frames.last()) =~= state.frames);
    let value = match &text {
        None => {
            return answer_top(rest, top, Value::Null, Ghost(state));
        },
        Some(t) => match read_json(t.as_str()) {
            None => {
                return answer_top(rest, top, Value::Null, Ghost(state));
            },
            Some(value) => value,
        },
    };
    match paging {
        None => answer_top(rest, top, value, Ghost(state)),
        Some(pages) => match receive_page(pages, value) {
            PagingStep::Finished(whole) => answer_top(rest, top, whole, Ghost(state)),
            PagingStep::Failed => answer_top(rest, top, Value::Null, Ghost(state)),
            PagingStep::Fetch(next, page) => {
                let action = http_action(&load, page);
                (put_back(rest, top, Waiting::Page(Some(next), load)), action)
            },
        },
    }
}

fn open_query(rest: Vec<Frame>, top: Frame, path: String, canonical: String, text: &str, Ghost(state): Ghost<RunState>) -> (next: (Run, Action))
    requires
        taken(state, rest@, top),
    ensures
        (next.0@, next.1@) == (match query_of(text@) {
            None => with_answer(state, Json::Null),
            Some(steps) => (
                RunState { frames: state.frames.push(fresh(steps, path@, Some(canonical@))), awaits: Awaits::Nothing },
                Wanted::Work,
            ),
        }),
{
    match parse_query(text) {
        Err(_) => answer_top(rest, top, Value::Null, Ghost(state)),
        Ok(query) => {
            let frame = new_frame(query, path, Some(canonical));
            let mut frames = rest;
            proof {
                lemma_frames_push(frames@, top);
                assert(state.frames.drop_last().push(state.frames.last()) =~= state.frames);
            }
            let ghost before = frames@;
            frames.push(top);
            assert(all_ready(frames@)) by {
                assert forall|i: int| 0 <= i < frames@.len() implies (#[trigger] frames@[i]).ready() by {
                    if i < before.len() {
                        assert(frames@[i] == before[i]);
                    }
                }
            }
            (put_back(frames, frame, Waiting::Nothing), Action::Work)
        },
    }
}

impl Run {
    #[verifier::type_invariant]
    spec fn in_order(self) -> bool {
        self.frames@.len() > 0 && all_ready(self.frames@)
    }

    /// A run of a query at its beginning.
    pub fn start(query: Query, path: String, canonical: Option<String>) -> (run: Run)
        ensures
            run@ == (RunState { frames: seq![fresh(query@, path@, text_of(canonical))], awaits: Awaits::Nothing }),
    {
        let frame = new_frame(query, path, canonical);
        let none: Vec<Frame> = Vec::new();
        let run = put_back(none, frame, Waiting::Nothing);
        assert(run@.frames =~= seq![fresh(query@, path@, text_of(canonical))]);
        run
    }

    /// Takes in what came from the outside, does one thing and says what is wanted next.
    pub fn advance(self, event: Event) -> (next: (Run, Action))
        ensures
            (next.0@, next.1@) == next_state(self@, event@),
    {
        proof {
            use_type_invariant(&self);
        }
        let ghost state = self@;
        let Run { mut frames, waiting } = self;
        let ghost before = frames@;
        let last: usize = frames.len() - 1;
        let top = frames.remove(last);
        proof {
            assert(frame_states(frames@) =~= state.frames.drop_last());
            assert(frame_states(before)[last as int] == before[last as int]@);
            assert forall|i: int| 0 <= i < frames@.len() implies (#[trigger] frames@[i]).ready() by {
                assert(frames@[i] == before[i]);
            }
            assert(state.frames.drop_last().push(state.frames.last()) =~= state.frames);
        }
        match (waiting, event) {
            (Waiting::Nothing, Event::Continue) => work(frames, top, Ghost(state)),
            (Waiting::Answer, Event::Answer(value)) => answer_top(frames, top, value, Ghost(state)),
            (Waiting::JsonText, Event::Text(text)) => answer_top(frames, top, json_or_null(&text), Ghost(state)),
            (Waiting::CsvBytes, Event::Bytes(bytes)) => {
                let value = match bytes {
                    Some(b) => match load_csv_source(&b) {
                        Some(value) => value,
                        None => Value::Null,
                    },
                    None => Value::Null,
                };
                answer_top(frames, top, value, Ghost(state))
            },
            (Waiting::CanonicalOf(path), Event::Canonical(found)) => match found {
                None => answer_top(frames, top, Value::Null, Ghost(state)),
                Some(canonical) => {
                    let ghost rest = frames@;
                    proof {
                        lemma_frames_push(rest, top);
                    }
                    frames.push(top);
                    let running = find_running(&frames, canonical.as_str());
                    let top = frames.remove(last);
                    assert(frames@ =~= rest);
                    if running {
                        answer_top(frames, top, Value::Null, Ghost(state))
                    } else {
                        let wanted = path.clone();
                        (put_back(frames, top, Waiting::QueryText(path, canonical)), Action::ReadText(wanted))
                    }
                },
            },
            (Waiting::QueryText(path, canonical), Event::Text(text)) => match text {
                None => answer_top(frames, top, Value::Null, Ghost(state)),
                Some(t) => open_query(frames, top, path, canonical, t.as_str(), Ghost(state)),
            },
            (Waiting::Page(paging, load), Event::Text(text)) => take_page(frames, top, paging, load, text, Ghost(state)),
            (waiting, _) => (put_back(frames, top, waiting), Action::Unexpected),
        }
    }

    /// How far the outermost query is.
    pub fn progress(&self) -> (message: Option<StreamMessage>)
        ensures
            match message {
                Some(m) => self@.frames[0].step < self@.frames[0].steps.len() && m@ == progress_of(self@.frames[0]),
                None => self@.frames[0].step >= self@.frames[0].steps.len(),
            },
    {
        proof {
            use_type_invariant(self);
        }
        let frame = &self.frames[0];
        assert(frame_states(self.frames@)[0] == self.frames@[0]@);
        assert(frame.query@.len() == frame.query.steps@.len());
        if frame.step >= frame.query.steps.len() {
            return None;
        }
        assert(frame.ready());
        assert(frame.query@[frame.step as int] == frame.query.steps@[frame.step as int]@);
        assert(jsons(frame.results@).len() == frame.results@.len());
        assert(jsons(frame.tasks.inputs@).len() == frame.tasks.inputs@.len());
        Some(
            StreamMessage::Progress {
                substep: frame.step + 1,
                total_substeps: frame.query.steps.len(),
                substep_name: subquery_name(&frame.query.steps[frame.step]),
                completed: frame.results.len() as u128,
                total: frame.tasks.inputs.len() as u128,
            },
        )
    }

    /// How far the outermost query is while a function that it has called is at work: what the
    /// function has completed counts as a part of one task.
    pub fn function_progress(&self, name: &str, completed: usize, total: usize) -> (message: Option<StreamMessage>)
        ensures
            match message {
                Some(m) => function_progress_of(self@, name@, completed as nat, total as nat) == Some(m@),
                None => function_progress_of(self@, name@, completed as nat, total as nat) is None,
            },
    {
        proof {
            use_type_invariant(self);
        }
        let frame = &self.frames[0];
        assert(frame_states(self.frames@)[0] == self.frames@[0]@);
        assert(frame.query@.len() == frame.query.steps@.len());
        if self.frames.len() != 1 || frame.step >= frame.query.steps.len() {
            return None;
        }
        assert(frame.ready());
        assert(frame.query@[frame.step as int] == frame.query.steps@[frame.step as int]@);
        assert(jsons(frame.rows@).len() == frame.rows@.len());
        assert(jsons(frame.results@).len() == frame.results@.len());
        assert(jsons(frame.tasks.inputs@).len() == frame.tasks.inputs@.len());
        let one_by_one = match &frame.query.steps[frame.step] {
            SubQuery::MapRows(map) => map_parallelism(&map.config, frame.rows.len()).is_none(),
            _ => false,
        };
        let count: usize = frame.tasks.inputs.len();
        if !one_by_one || count == 0 || total == 0 {
            return None;
        }
        let part: usize = if completed < total {
            completed
        } else {
            total
        };
        let done: usize = frame.results.len();
        assert(done * total + part <= u128::MAX && count * total <= u128::MAX) by (nonlinear_arith)
            requires
                done <= u64::MAX,
                count <= u64::MAX,
                part <= total <= u64::MAX,
        ;
        Some(
            StreamMessage::Progress {
                substep: frame.step + 1,
                total_substeps: frame.query.steps.len(),
                substep_name: name.to_owned(),
                completed: done as u128 * total as u128 + part as u128,
                total: count as u128 * total as u128,
            },
        )
    }
}

/// How far a query is: the step it is at, and how many of the step's tasks are done.
pub open spec fn progress_of(frame: FrameState) -> Message {
    Message::Progress(
        frame.step + 1,
        frame.steps.len(),
        step_name(frame.steps[frame.step as int]),
        frame.results.len(),
        task_inputs(frame.steps[frame.step as int], frame.rows).len(),
    )
}

/// How far a query is while a function that it has called is at work: the function's name, and what
/// it has completed as a part of one task. Only a query that no other one has loaded is reported
/// on, and only while it maps its rows one by one.
pub open spec fn function_progress_of(state: RunState, name: Seq<char>, completed: nat, total: nat) -> Option<Message> {
    let frame = state.frames[0];
    if state.frames.len() == 1 && frame.step < frame.steps.len() && task_count(frame) > 0 && total > 0 {
        match frame.steps[frame.step as int] {
            Step::MapRows(config, _) => if parallelism_of(config, frame.rows.len()) is None {
                Some(
                    Message::Progress(
                        frame.step + 1,
                        frame.steps.len(),
                        name,
                        frame.results.len() * total + if completed < total {
                            completed
                        } else {
                            total
                        },
                        task_count(frame) * total,
                    ),
                )
            } else {
                None
            },
            _ => None,
        }
    } else {
        None
    }
}

/// The number of tasks of the step that a query is at.
pub open spec fn task_count(frame: FrameState) -> nat {
    task_inputs(frame.steps[frame.step as int], frame.rows).len()
}

/// While a function is at work, a query is between the tasks that were done before and one more: at
/// the former where the function has completed nothing, and at the latter where it has completed
/// everything.
pub proof fn lemma_function_progress_between(state: RunState, name: Seq<char>, completed: nat, total: nat)
    requires
        function_progress_of(state, name, completed, total) is Some,
    ensures
        ({
            let frame = state.frames[0];
            &&& function_progress_of(state, name, completed, total) matches Some(Message::Progress(step, steps, named, done, all))
            &&& step == frame.step + 1 && steps == frame.steps.len() && named == name
            &&& all == task_count(frame) * total
            &&& frame.results.len() * total <= done <= (frame.results.len() + 1) * total
            &&& completed == 0 ==> done == frame.results.len() * total
            &&& completed >= total ==> done == (frame.results.len() + 1) * total
        }),
{
    let results = state.frames[0].results.len();
    assert((results + 1) * total == results * total + total) by (nonlinear_arith);
}

/// Whether a query is where it was, or has one more result, or is at its next step after all the
/// tasks of the last one.
pub open spec fn moves_on(frame: FrameState, next: FrameState) -> bool {
    &&& next.steps == frame.steps
    &&& {
        ||| next.step == frame.step && next.rows == frame.rows && next.results == frame.results
        ||| frame.step < frame.steps.len() && next.step == frame.step && next.rows == frame.rows && frame.results.len()
            < task_count(frame) && next.results.len() == frame.results.len() + 1
        ||| frame.step < frame.steps.len() && next.step == frame.step + 1 && frame.results.len() >= task_count(frame)
            && next.results.len() == 0
    }
}

spec fn outermost_moves_on(state: RunState, next: RunState) -> bool {
    next.frames.len() > 0 && (next.awaits is Over || moves_on(state.frames[0], next.frames[0]))
}

proof fn lemma_answer_moves_on(state: RunState, answer: Json)
    requires
        state.frames.len() > 0,
    ensures
        outermost_moves_on(state, with_answer(state, answer).0),
{
}

proof fn lemma_load_moves_on(state: RunState, load: Loading)
    requires
        state.frames.len() > 0,
    ensures
        outermost_moves_on(state, loading(state, load).0),
{
    lemma_answer_moves_on(state, Json::Null);
}

proof fn lemma_page_moves_on(state: RunState, paging: Option<PagingState>, load: Loading, text: Option<Seq<char>>)
    requires
        state.frames.len() > 0,
    ensures
        outermost_moves_on(state, page_came(state, paging, load, text).0),
{
    assert forall|answer: Json| outermost_moves_on(state, (#[trigger] with_answer(state, answer)).0) by {
        lemma_answer_moves_on(state, answer);
    }
}

proof fn lemma_work_moves_on(state: RunState)
    requires
        state.frames.len() > 0,
    ensures
        outermost_moves_on(state, worked(state).0),
{
    assert forall|load: Loading| outermost_moves_on(state, (#[trigger] loading(state, load)).0) by {
        lemma_load_moves_on(state, load);
    }
    if state.frames.len() > 1 {
        let outer = RunState { frames: state.frames.drop_last(), awaits: Awaits::Nothing };
        assert(outer.frames[0] == state.frames[0]);
        assert forall|answer: Json| outermost_moves_on(outer, (#[trigger] with_answer(outer, answer)).0) by {
            lemma_answer_moves_on(outer, answer);
        }
    }
}

/// Whatever comes from the outside, a run that is not over takes its query on by one thing at most:
/// one task of the step it is at is done, or the next step begins once all of them are.
pub proof fn lemma_moves_on(state: RunState, came: Came)
    requires
        state.frames.len() > 0,
    ensures
        next_state(state, came).0.frames.len() > 0,
        next_state(state, came).0.awaits is Over || moves_on(state.frames[0], next_state(state, came).0.frames[0]),
{
    match (state.awaits, came) {
        (Awaits::Nothing, Came::Continue) => lemma_work_moves_on(state),
        (Awaits::Page(paging, load), Came::Text(text)) => lemma_page_moves_on(state, paging, load, text),
        _ => {
            assert forall|answer: Json| outermost_moves_on(state, (#[trigger] with_answer(state, answer)).0) by {
                lemma_answer_moves_on(state, answer);
            }
        },
    }
}

/// Whether a run went through states one after another, given what came from the outside.
pub open spec fn went_through(states: Seq<RunState>, came: Seq<Came>) -> bool {
    &&& states.len() == came.len() + 1
    &&& forall|i: int| 0 <= i < came.len() ==> states[i + 1] == next_state(states[i], #[trigger] came[i]).0
}

/// The progress that is seen over the states of a run: how far the outermost query is in each of
/// them, as often as it changes.
pub open spec fn progress_seen(states: Seq<RunState>) -> Seq<Message>
    decreases states.len(),
{
    if states.len() == 0 {
        Seq::empty()
    } else {
        let earlier = progress_seen(states.drop_last());
        let frame = states.last().frames[0];
        if frame.step < frame.steps.len() && (earlier.len() == 0 || earlier.last() != progress_of(frame)) {
            earlier.push(progress_of(frame))
        } else {
            earlier
        }
    }
}

/// The progress of one step, from no task done to a number of them.
pub open spec fn step_progress(steps: Seq<Step>, step: nat, done: nat, total: nat) -> Seq<Message> {
    Seq::new(
        done + 1,
        |completed: int| Message::Progress(step + 1, steps.len(), step_name(steps[step as int]), completed as nat, total),
    )
}

/// The progress of the first steps of a query in order, each from none to all of its tasks.
pub open spec fn steps_progress(steps: Seq<Step>, totals: Seq<nat>) -> Seq<Message>
    decreases totals.len(),
{
    if totals.len() == 0 {
        Seq::empty()
    } else {
        steps_progress(steps, totals.drop_last()) + step_progress(
            steps,
            (totals.len() - 1) as nat,
            totals.last(),
            totals.last(),
        )
    }
}

/// The progress of the steps before the one that a query is at, and of that one so far.
spec fn progress_so_far(frame: FrameState, totals: Seq<nat>) -> Seq<Message> {
    steps_progress(frame.steps, totals) + if frame.step < frame.steps.len() {
        step_progress(frame.steps, frame.step, frame.results.len(), task_count(frame))
    } else {
        Seq::empty()
    }
}

spec fn is_so_far(frame: FrameState, totals: Seq<nat>, seen: Seq<Message>) -> bool {
    &&& frame.step <= frame.steps.len()
    &&& frame.step < frame.steps.len() ==> frame.results.len() <= task_count(frame)
    &&& totals.len() == frame.step
    &&& seen == progress_so_far(frame, totals)
}

proof fn lemma_seen_once_more(frame: FrameState, next: FrameState, totals: Seq<nat>, seen: Seq<Message>) -> (more: Seq<nat>)
    requires
        is_so_far(frame, totals, seen),
        moves_on(frame, next),
    ensures
        is_so_far(
            next,
            more,
            if next.step < next.steps.len() && (seen.len() == 0 || seen.last() != progress_of(next)) {
                seen.push(progress_of(next))
            } else {
                seen
            },
        ),
{
    let steps = frame.steps;
    if frame.step < steps.len() {
        let now = step_progress(steps, frame.step, frame.results.len(), task_count(frame));
        assert(now.last() == progress_of(frame));
        assert(seen.last() == progress_of(frame));
        if next.step == frame.step {
            if next.results.len() == frame.results.len() + 1 {
                assert(step_progress(steps, next.step, next.results.len(), task_count(next)) =~= now.push(progress_of(next)));
                assert(seen.push(progress_of(next)) =~= progress_so_far(next, totals));
            }
            totals
        } else {
            let more = totals.push(task_count(frame));
            assert(more.drop_last() =~= totals);
            assert(steps_progress(steps, more) =~= seen);
            if next.step < steps.len() {
                let begun = step_progress(steps, next.step, 0, task_count(next));
                assert(begun =~= seq![progress_of(next)]);
                assert(seen.push(progress_of(next)) =~= progress_so_far(next, more));
            } else {
                assert(seen =~= progress_so_far(next, more));
            }
            more
        }
    } else {
        totals
    }
}

proof fn lemma_progress_so_far(frame: FrameState, states: Seq<RunState>, came: Seq<Came>) -> (totals: Seq<nat>)
    requires
        frame.step == 0,
        frame.results.len() == 0,
        went_through(states, came),
        states[0] == (RunState { frames: seq![frame], awaits: Awaits::Nothing }),
        !(states.last().awaits is Over),
    ensures
        states.last().frames.len() > 0,
        states.last().frames[0].steps == frame.steps,
        is_so_far(states.last().frames[0], totals, progress_seen(states)),
    decreases states.len(),
{
    let earlier = states.drop_last();
    if states.len() == 1 {
        let totals = Seq::<nat>::empty();
        assert(progress_seen(earlier) =~= Seq::empty());
        if frame.step < frame.steps.len() {
            assert(step_progress(frame.steps, 0, 0, task_count(frame)) =~= seq![progress_of(frame)]);
        }
        assert(progress_seen(states) =~= progress_so_far(frame, totals));
        totals
    } else {
        let last = came.len() - 1;
        let before = states[last];
        assert(states[last + 1] == next_state(before, came[last]).0);
        assert(earlier.last() == before);
        assert forall|i: int| 0 <= i < came.drop_last().len() implies earlier[i + 1] == next_state(
            earlier[i],
            #[trigger] came.drop_last()[i],
        ).0 by {
            assert(came.drop_last()[i] == came[i]);
        }
        let totals = lemma_progress_so_far(frame, earlier, came.drop_last());
        lemma_moves_on(before, came[last]);
        lemma_seen_once_more(before.frames[0], states.last().frames[0], totals, progress_seen(earlier))
    }
}

/// A run only finishes where its query is alone and at its end.
proof fn lemma_only_finished_at_end(state: RunState, came: Came)
    requires
        state.frames.len() > 0,
        next_state(state, came).1 is Finished,
    ensures
        state.frames.len() == 1,
        state.frames[0].step >= state.frames[0].steps.len(),
{
}

/// Over a run that finishes, progress goes through the steps of the query in order, and in each step
/// from no task done, one by one, up to all of them.
pub proof fn lemma_progress_in_order(
    steps: Seq<Step>,
    path: Seq<char>,
    canonical: Option<Seq<char>>,
    states: Seq<RunState>,
    came: Seq<Came>,
    last: Came,
)
    requires
        went_through(states, came),
        states[0] == (RunState { frames: seq![fresh(steps, path, canonical)], awaits: Awaits::Nothing }),
        next_state(states.last(), last).1 is Finished,
    ensures
        exists|totals: Seq<nat>|
            totals.len() == steps.len() && progress_seen(states) == #[trigger] steps_progress(steps, totals),
{
    let totals = lemma_progress_so_far(fresh(steps, path, canonical), states, came);
    let frame = states.last().frames[0];
    lemma_only_finished_at_end(states.last(), last);
    assert(progress_so_far(frame, totals) =~= steps_progress(steps, totals));
}

/// Whether no two of the queries that are being run have the same one name.
pub open spec fn distinct_queries(frames: Seq<FrameState>) -> bool {
    forall|i: int, j: int|
        0 <= i < j < frames.len() && (#[trigger] frames[i]).canonical is Some ==> frames[i].canonical != (
        #[trigger] frames[j]).canonical
}

/// Whether a run only opens a query that is not being run.
pub open spec fn opens_new(state: RunState) -> bool {
    match state.awaits {
        Awaits::QueryText(_, canonical) => !is_running(state.frames, canonical),
        _ => true,
    }
}

/// Whether a run goes on with queries that were being run already.
spec fn keeps_queries(state: RunState, next: RunState) -> bool {
    &&& 0 < next.frames.len() <= state.frames.len()
    &&& forall|i: int|
        0 <= i < next.frames.len() ==> (#[trigger] next.frames[i]).canonical == state.frames[i].canonical
}

proof fn lemma_answer_keeps_queries(state: RunState, answer: Json)
    requires
        state.frames.len() > 0,
    ensures
        keeps_queries(state, with_answer(state, answer).0),
        opens_new(with_answer(state, answer).0),
{
}

proof fn lemma_load_keeps_queries(state: RunState, load: Loading)
    requires
        state.frames.len() > 0,
    ensures
        keeps_queries(state, loading(state, load).0),
        opens_new(loading(state, load).0),
{
    lemma_answer_keeps_queries(state, Json::Null);
}

proof fn lemma_page_keeps_queries(state: RunState, paging: Option<PagingState>, load: Loading, text: Option<Seq<char>>)
    requires
        state.frames.len() > 0,
    ensures
        keeps_queries(state, page_came(state, paging, load, text).0),
        opens_new(page_came(state, paging, load, text).0),
{
    assert forall|answer: Json| keeps_queries(state, (#[trigger] with_answer(state, answer)).0) && opens_new(
        with_answer(state, answer).0,
    ) by {
        lemma_answer_keeps_queries(state, answer);
    }
}

proof fn lemma_work_keeps_queries(state: RunState)
    requires
        state.frames.len() > 0,
    ensures
        keeps_queries(state, worked(state).0),
        opens_new(worked(state).0),
{
    assert forall|load: Loading| keeps_queries(state, (#[trigger] loading(state, load)).0) && opens_new(
        loading(state, load).0,
    ) by {
        lemma_load_keeps_queries(state, load);
    }
    if state.frames.len() > 1 {
        let outer = RunState { frames: state.frames.drop_last(), awaits: Awaits::Nothing };
        assert forall|answer: Json| keeps_queries(outer, (#[trigger] with_answer(outer, answer)).0) && opens_new(
            with_answer(outer, answer).0,
        ) by {
            lemma_answer_keeps_queries(outer, answer);
        }
    }
}

proof fn lemma_kept_queries_differ(state: RunState, next: RunState)
    requires
        distinct_queries(state.frames),
        keeps_queries(state, next),
    ensures
        distinct_queries(next.frames),
{
    assert forall|i: int, j: int| 0 <= i < j < next.frames.len() && (#[trigger] next.frames[i]).canonical is Some implies next.frames[i].canonical
        != (#[trigger] next.frames[j]).canonical by {
        assert(state.frames[i].canonical != state.frames[j].canonical);
    }
}

proof fn lemma_opened_query_differs(frames: Seq<FrameState>, frame: FrameState, canonical: Seq<char>)
    requires
        distinct_queries(frames),
        frame.canonical == Some(canonical),
        !is_running(frames, canonical),
    ensures
        distinct_queries(frames.push(frame)),
{
    let more = frames.push(frame);
    assert forall|i: int, j: int| 0 <= i < j < more.len() && (#[trigger] more[i]).canonical is Some implies more[i].canonical
        != (#[trigger] more[j]).canonical by {
        assert(more[i] == frames[i]);
        if j < frames.len() {
            assert(more[j] == frames[j]);
        }
    }
}

/// A query is never run inside itself: whatever comes from the outside, no two of the queries that
/// are being run are the same one.
pub proof fn lemma_no_query_in_itself(state: RunState, came: Came)
    requires
        state.frames.len() > 0,
        distinct_queries(state.frames),
        opens_new(state),
    ensures
        distinct_queries(next_state(state, came).0.frames),
        opens_new(next_state(state, came).0),
        next_state(state, came).0.frames.len() > 0,
{
    let next = next_state(state, came).0;
    match (state.awaits, came) {
        (Awaits::Nothing, Came::Continue) => {
            lemma_work_keeps_queries(state);
            lemma_kept_queries_differ(state, next);
        },
        (Awaits::Page(paging, load), Came::Text(text)) => {
            lemma_page_keeps_queries(state, paging, load, text);
            lemma_kept_queries_differ(state, next);
        },
        (Awaits::QueryText(path, canonical), Came::Text(Some(text))) => match query_of(text) {
            None => {
                lemma_answer_keeps_queries(state, Json::Null);
                lemma_kept_queries_differ(state, next);
            },
            Some(steps) => lemma_opened_query_differs(state.frames, fresh(steps, path, Some(canonical)), canonical),
        },
        _ => {
            assert forall|answer: Json| keeps_queries(state, (#[trigger] with_answer(state, answer)).0) && opens_new(
                with_answer(state, answer).0,
            ) by {
                lemma_answer_keeps_queries(state, answer);
            }
            lemma_kept_queries_differ(state, next);
        },
    }
}

/// A query that loads itself, however many queries lie between, gets null in its place.
pub proof fn lemma_circular_reference(state: RunState, path: Seq<char>, canonical: Seq<char>)
    requires
        state.frames.len() > 0,
        state.awaits == Awaits::CanonicalOf(path),
        is_running(state.frames, canonical),
    ensures
        next_state(state, Came::Canonical(Some(canonical))) == with_answer(state, Json::Null),
{
}

/// Whether no task of a step asks for anything.
pub open spec fn asks_nothing(step: Step, rows: Seq<Json>) -> bool {
    forall|i: int| 0 <= i < task_inputs(step, rows).len() ==> (#[trigger] task_eval(step, rows, i, Seq::empty())) is Done
}

/// The results of the tasks of a step that asks for nothing.
pub open spec fn task_results(step: Step, rows: Seq<Json>) -> Seq<Json> {
    Seq::new(task_inputs(step, rows).len(), |i: int| task_eval(step, rows, i, Seq::empty())->Done_0)
}

/// What the steps of a query make of rows, one after another from a step on. None where a step asks
/// for something.
pub open spec fn steps_result(steps: Seq<Step>, from: int, rows: Seq<Json>) -> Option<Many>
    decreases steps.len() - from,
{
    if from >= steps.len() {
        Some(Many::Rows(rows))
    } else if !asks_nothing(steps[from], rows) {
        None
    } else {
        match step_rows(steps[from], rows, task_results(steps[from], rows)) {
            Many::Rows(output) => steps_result(steps, from + 1, output),
            Many::Wrong(column, value) => Some(Many::Wrong(column, value)),
        }
    }
}

/// What is wanted after a run has gone on a number of times and then once more.
pub open spec fn wanted_after(state: RunState, count: nat) -> Wanted
    decreases count,
{
    let (next, wanted) = next_state(state, Came::Continue);
    if count == 0 {
        wanted
    } else {
        wanted_after(next, (count - 1) as nat)
    }
}

/// What a run that asks for nothing ends with.
pub open spec fn end_of(outcome: Many) -> Wanted {
    match outcome {
        Many::Rows(rows) => Wanted::Finished(rows),
        Many::Wrong(column, value) => Wanted::Failed(column, value),
    }
}

proof fn lemma_goes_on(frame: FrameState, done: int) -> (count: nat)
    requires
        frame.step <= frame.steps.len(),
        frame.answers == Seq::<Json>::empty(),
        steps_result(frame.steps, frame.step as int, frame.rows) is Some,
        frame.step < frame.steps.len() ==> 0 <= done <= task_inputs(frame.steps[frame.step as int], frame.rows).len() && frame.results
            == task_results(frame.steps[frame.step as int], frame.rows).take(done),
    ensures
        wanted_after(RunState { frames: seq![frame], awaits: Awaits::Nothing }, count) == end_of(
            steps_result(frame.steps, frame.step as int, frame.rows)->0,
        ),
    decreases frame.steps.len() - frame.step, task_inputs(frame.steps[frame.step as int], frame.rows).len() - done,
{
    let state = RunState { frames: seq![frame], awaits: Awaits::Nothing };
    let (next, wanted) = next_state(state, Came::Continue);
    assert(state.frames.last() == frame);
    assert(state.frames.drop_last() =~= Seq::<FrameState>::empty());
    if frame.step == frame.steps.len() {
        0
    } else {
        let step = frame.steps[frame.step as int];
        let results = task_results(step, frame.rows);
        if done < results.len() {
            assert(task_eval(step, frame.rows, done, Seq::empty()) is Done);
            let now = FrameState { results: frame.results.push(results[done]), answers: Seq::empty(), ..frame };
            assert(results.take(done + 1) =~= results.take(done).push(results[done]));
            assert(next.frames =~= seq![now]);
            let count = lemma_goes_on(now, done + 1);
            count + 1
        } else {
            assert(results.take(done) =~= results);
            match step_rows(step, frame.rows, results) {
                Many::Rows(rows) => {
                    let now = FrameState {
                        step: frame.step + 1,
                        rows,
                        results: Seq::empty(),
                        answers: Seq::empty(),
                        ..frame
                    };
                    assert(next.frames =~= seq![now]);
                    assert(now.step < now.steps.len() ==> task_results(now.steps[now.step as int], rows).take(0) =~= Seq::<Json>::empty());
                    let count = lemma_goes_on(now, 0);
                    count + 1
                },
                Many::Wrong(_, _) => 0,
            }
        }
    }
}

/// A query whose steps ask for nothing runs to its end: it finishes with the rows that its steps
/// make one after another from no rows, or fails where one of them does.
pub proof fn lemma_steps_run_in_order(steps: Seq<Step>, path: Seq<char>, canonical: Option<Seq<char>>)
    requires
        steps_result(steps, 0, Seq::empty()) is Some,
    ensures
        exists|count: nat|
            #[trigger] wanted_after(
                RunState { frames: seq![fresh(steps, path, canonical)], awaits: Awaits::Nothing },
                count,
            ) == end_of(steps_result(steps, 0, Seq::empty())->0),
{
    let frame = fresh(steps, path, canonical);
    assert(steps.len() > 0 ==> task_results(steps[0], Seq::empty()).take(0) =~= Seq::<Json>::empty());
    let count = lemma_goes_on(frame, 0);
}

} // verus!
