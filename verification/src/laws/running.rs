//! Laws of running queries: what is asked of the outside, and where the answers go.
use vstd::prelude::*;
use crate::call::{Loading, Question};
use crate::csv_source::csv_value;
use crate::eval::Eval;
use crate::files::{has_extension, is_http, source_path};
use crate::json::json_of_text;
use crate::laws::mapping::field_in;
use crate::paging::{first_page, paging_of, PageAsked, Paged, PagingError, PagingLocation, PagingNext};
use crate::parser::query_of;
use crate::pipeline::{step_rows, task_eval, task_inputs, Many};
use crate::run::{fresh, is_running, next_state, Awaits, Came, FrameState, RunState, Wanted};
use crate::text::{ascii_lower_text, trimmed};
use crate::value::{Json, Num};

verus! {

/// Whether a run goes on with an answer: the innermost query has it behind its other answers, and all
/// else is as before.
pub open spec fn got(before: RunState, after: RunState, answer: Json) -> bool {
    let last = before.frames.len() - 1;
    &&& after.awaits is Nothing
    &&& after.frames.len() == before.frames.len()
    &&& forall|i: int| 0 <= i < last ==> #[trigger] after.frames[i] == before.frames[i]
    &&& after.frames[last] == (FrameState {
        answers: before.frames[last].answers.push(answer),
        ..before.frames[last]
    })
}

/// Where a run waits for a value, a text or the bytes of a table, the value goes to the innermost
/// query as its next answer: a text as the JSON that it holds, a table as its rows, and null where
/// there is none.
pub proof fn lemma_answers_arrive(state: RunState, value: Json, text: Option<Seq<char>>, bytes: Option<Seq<u8>>)
    requires
        state.frames.len() > 0,
    ensures
        state.awaits is Answer ==> next_state(state, Came::Answer(value)).1 is Work && got(
            state,
            next_state(state, Came::Answer(value)).0,
            value,
        ),
        state.awaits is JsonText ==> next_state(state, Came::Text(text)).1 is Work && got(
            state,
            next_state(state, Came::Text(text)).0,
            if text is Some && json_of_text(text->0) is Some {
                json_of_text(text->0)->0
            } else {
                Json::Null
            },
        ),
        state.awaits is CsvBytes ==> next_state(state, Came::Bytes(bytes)).1 is Work && got(
            state,
            next_state(state, Came::Bytes(bytes)).0,
            if bytes is Some && csv_value(bytes->0) is Some {
                csv_value(bytes->0)->0
            } else {
                Json::Null
            },
        ),
{
}

/// The query that a source names is run inside the one that loads it, from its beginning, unless it
/// is being run already or cannot be read; then null takes its place.
pub proof fn lemma_query_is_loaded(state: RunState, path: Seq<char>, canonical: Seq<char>, text: Seq<char>)
    requires
        state.frames.len() > 0,
    ensures
        state.awaits == Awaits::CanonicalOf(path) && is_running(state.frames, canonical) ==> next_state(
            state,
            Came::Canonical(Some(canonical)),
        ).1 is Work && got(state, next_state(state, Came::Canonical(Some(canonical))).0, Json::Null),
        state.awaits == Awaits::CanonicalOf(path) && !is_running(state.frames, canonical) ==> next_state(
            state,
            Came::Canonical(Some(canonical)),
        ) == (RunState { frames: state.frames, awaits: Awaits::QueryText(path, canonical) }, Wanted::ReadText(path)),
        state.awaits == Awaits::CanonicalOf(path) ==> got(state, next_state(state, Came::Canonical(None)).0, Json::Null),
        state.awaits == Awaits::QueryText(path, canonical) ==> got(state, next_state(state, Came::Text(None)).0, Json::Null),
        state.awaits == Awaits::QueryText(path, canonical) && query_of(text) is None ==> got(
            state,
            next_state(state, Came::Text(Some(text))).0,
            Json::Null,
        ),
        state.awaits == Awaits::QueryText(path, canonical) && query_of(text) is Some ==> next_state(
            state,
            Came::Text(Some(text)),
        ) == (
            RunState {
                frames: state.frames.push(fresh(query_of(text)->0, path, Some(canonical))),
                awaits: Awaits::Nothing,
            },
            Wanted::Work,
        ),
{
}

/// A query that has ended hands its rows, as an array, to the query that loaded it, as its next
/// answer; one that fails hands it null. The outermost query ends the run with its rows.
pub proof fn lemma_query_ends(state: RunState)
    requires
        state.frames.len() > 0,
        state.awaits is Nothing,
        state.frames[state.frames.len() - 1].step >= state.frames[state.frames.len() - 1].steps.len(),
    ensures
        ({
            let top = state.frames[state.frames.len() - 1];
            let (next, wanted) = next_state(state, Came::Continue);
            if state.frames.len() == 1 {
                wanted == Wanted::Finished(top.rows) && next.awaits is Over
            } else {
                wanted is Work && got(
                    RunState { frames: state.frames.drop_last(), awaits: Awaits::Nothing },
                    next,
                    Json::Array(top.rows),
                )
            }
        }),
{
}

/// A query at a step runs the step's next task with the answers that it has got: a result stands
/// behind the others and the answers are used up, and a question leaves the query as it is. After
/// the last task the next step begins with the rows that the step makes of the results.
pub proof fn lemma_step_goes_on(state: RunState)
    requires
        state.frames.len() > 0,
        state.awaits is Nothing,
        state.frames[state.frames.len() - 1].step < state.frames[state.frames.len() - 1].steps.len(),
    ensures
        ({
            let last = state.frames.len() - 1;
            let top = state.frames[last];
            let step = top.steps[top.step as int];
            let (next, wanted) = next_state(state, Came::Continue);
            if top.results.len() < task_inputs(step, top.rows).len() {
                match task_eval(step, top.rows, top.results.len() as int, top.answers) {
                    Eval::Done(result, _) => {
                        &&& wanted is Work
                        &&& next.awaits is Nothing
                        &&& next.frames == state.frames.update(
                            last,
                            FrameState { results: top.results.push(result), answers: Seq::empty(), ..top },
                        )
                    },
                    Eval::Ask(Question::Kernel(kernel, input)) => {
                        &&& wanted == Wanted::Compute(kernel, input)
                        &&& next == (RunState { frames: state.frames, awaits: Awaits::Answer })
                    },
                    Eval::Ask(Question::Secret(name)) => {
                        &&& wanted == Wanted::Secret(name)
                        &&& next == (RunState { frames: state.frames, awaits: Awaits::Answer })
                    },
                    Eval::Ask(Question::Load(load)) => load_begins(state, load, next, wanted),
                }
            } else {
                match step_rows(step, top.rows, top.results) {
                    Many::Rows(rows) => {
                        &&& wanted is Work
                        &&& next.awaits is Nothing
                        &&& next.frames == state.frames.update(
                            last,
                            FrameState {
                                step: top.step + 1,
                                rows,
                                results: Seq::empty(),
                                answers: Seq::empty(),
                                ..top
                            },
                        )
                    },
                    Many::Wrong(column, value) => if state.frames.len() == 1 {
                        wanted == Wanted::Failed(column, value) && next.awaits is Over
                    } else {
                        wanted is Work && got(
                            RunState { frames: state.frames.drop_last(), awaits: Awaits::Nothing },
                            next,
                            Json::Null,
                        )
                    },
                }
            }
        }),
{
    let last = state.frames.len() - 1;
    assert(state.frames.last() == state.frames[last]);
    assert forall|frame: FrameState| #[trigger] state.frames.drop_last().push(frame) =~= state.frames.update(last, frame) by {}
}

/// How a source begins to be loaded: over HTTP where its name says so, page by page where it is
/// paged, and else from the file in the query's directory, read by its extension. Paging that
/// cannot be understood gives null.
pub open spec fn load_begins(state: RunState, load: Loading, next: RunState, wanted: Wanted) -> bool {
    let path = source_path(state.frames[state.frames.len() - 1].path, load.source);
    if is_http(load.source) {
        match load.paging {
            None => {
                &&& wanted matches Wanted::Http(request)
                &&& request.uri == load.source && request.method == load.method && request.headers == load.headers
                &&& request.page == (PageAsked { parameter: None, body: load.body })
                &&& next == (RunState { frames: state.frames, awaits: Awaits::Page(None, load) })
            },
            Some(config) => match paging_of(config) {
                Err(_) => wanted is Work && got(state, next, Json::Null),
                Ok(paged) => {
                    &&& wanted matches Wanted::Http(request)
                    &&& request.uri == load.source && request.method == load.method && request.headers == load.headers
                    &&& request.page == first_page(paged, load.body).1
                    &&& next == (RunState {
                        frames: state.frames,
                        awaits: Awaits::Page(Some(first_page(paged, load.body).0), load),
                    })
                },
            },
        }
    } else if has_extension(path, "csv"@) {
        wanted == Wanted::ReadBytes(path) && next == (RunState { frames: state.frames, awaits: Awaits::CsvBytes })
    } else if has_extension(path, "ql"@) {
        wanted == Wanted::Canonicalize(path) && next == (RunState { frames: state.frames, awaits: Awaits::CanonicalOf(path) })
    } else {
        wanted == Wanted::ReadText(path) && next == (RunState { frames: state.frames, awaits: Awaits::JsonText })
    }
}

/// A response without paging is the answer itself. With paging the next page is asked for, from the
/// same source with the same headers, until the pages are complete; then what they were put together
/// to is the answer. What is no JSON, and too many pages, give null.
pub proof fn lemma_pages_arrive(state: RunState, text: Option<Seq<char>>)
    requires
        state.frames.len() > 0,
        state.awaits is Page,
    ensures
        ({
            let (paging, load) = (state.awaits->Page_0, state.awaits->Page_1);
            let (next, wanted) = next_state(state, Came::Text(text));
            if text is None || json_of_text(text->0) is None {
                wanted is Work && got(state, next, Json::Null)
            } else if paging is None {
                wanted is Work && got(state, next, json_of_text(text->0)->0)
            } else {
                match crate::paging::after_page(paging->0, json_of_text(text->0)->0) {
                    PagingNext::Finished(whole) => wanted is Work && got(state, next, whole),
                    PagingNext::Failed => wanted is Work && got(state, next, Json::Null),
                    PagingNext::Fetch(following, page) => {
                        &&& wanted matches Wanted::Http(request)
                        &&& request.uri == load.source && request.method == load.method && request.headers == load.headers
                        &&& request.page == page
                        &&& next == (RunState { frames: state.frames, awaits: Awaits::Page(Some(following), load) })
                    },
                }
            }
        }),
{
}

/// What was not waited for is refused and changes nothing.
pub proof fn lemma_unexpected(state: RunState, came: Came)
    requires
        state.frames.len() > 0,
        match state.awaits {
            Awaits::Nothing => !(came is Continue),
            Awaits::Answer => !(came is Answer),
            Awaits::JsonText => !(came is Text),
            Awaits::CsvBytes => !(came is Bytes),
            Awaits::CanonicalOf(_) => !(came is Canonical),
            Awaits::QueryText(_, _) => !(came is Text),
            Awaits::Page(_, _) => !(came is Text),
            Awaits::Over => true,
        },
    ensures
        next_state(state, came) == (state, Wanted::Unexpected),
{
}

/// A source is requested over HTTP exactly where it begins with `http://` or `https://`.
pub proof fn lemma_http_sources(rest: Seq<char>)
    ensures
        is_http("http://"@ + rest),
        is_http("https://"@ + rest),
        rest.len() > 0 && rest[0] != 'h' ==> !is_http(rest),
{
    assert("http://"@.is_prefix_of("http://"@ + rest)) by {
        assert(("http://"@ + rest).subrange(0, "http://"@.len() as int) =~= "http://"@);
    }
    assert("https://"@.is_prefix_of("https://"@ + rest)) by {
        assert(("https://"@ + rest).subrange(0, "https://"@.len() as int) =~= "https://"@);
    }
    reveal_strlit("http://");
    reveal_strlit("https://");
    if rest.len() > 0 && rest[0] != 'h' {
        assert("http://"@[0] == 'h' && "https://"@[0] == 'h');
        if "http://"@.is_prefix_of(rest) {
            assert(rest.subrange(0, "http://"@.len() as int)[0] == rest[0]);
        }
        if "https://"@.is_prefix_of(rest) {
            assert(rest.subrange(0, "https://"@.len() as int)[0] == rest[0]);
        }
    }
}

/// Whether a value names a place in a request or a response: in the query or the body, in letters of
/// any case, at a path that is not blank.
pub open spec fn is_place(value: Json, location: PagingLocation, path: Seq<char>) -> bool {
    let name = match location {
        PagingLocation::Query => "query"@,
        PagingLocation::Body => "body"@,
    };
    &&& value is Object
    &&& field_in(value, "location"@) is Text
    &&& ascii_lower_text(field_in(value, "location"@)->Text_0) == ascii_lower_text(name)
    &&& field_in(value, "path"@) == Json::Text(path)
    &&& trimmed(path).len() > 0
}

proof fn lemma_place(value: Json, location: PagingLocation, path: Seq<char>)
    requires
        is_place(value, location, path),
    ensures
        crate::paging::location_of(value) == Ok::<(PagingLocation, Seq<char>), PagingError>((location, path)),
{
    reveal_strlit("query");
    reveal_strlit("body");
    assert(ascii_lower_text("query"@).len() == 5 && ascii_lower_text("body"@).len() == 4);
}

/// A configuration of paging says the type, in letters of any case, and where the cursor goes and
/// comes from, or where the offset goes, what is counted and how large a page is. A page has at
/// least one entry, and a cursor comes from the body.
pub proof fn lemma_paging_config(
    config: Json,
    place: (PagingLocation, Seq<char>),
    from: (PagingLocation, Seq<char>),
    path: Seq<char>,
    size: u64,
)
    requires
        config is Object,
        field_in(config, "type"@) is Text,
        is_place(field_in(config, "in"@), place.0, place.1),
    ensures
        ascii_lower_text(field_in(config, "type"@)->Text_0) == ascii_lower_text("cursor"@) && is_place(
            field_in(config, "from"@),
            from.0,
            from.1,
        ) ==> paging_of(config) == (if from.0 == PagingLocation::Body {
            Ok::<Paged, PagingError>(Paged::Cursor(place, from))
        } else {
            Err::<Paged, PagingError>(PagingError::FromNotBody)
        }),
        ascii_lower_text(field_in(config, "type"@)->Text_0) == ascii_lower_text("offset"@) && field_in(config, "path"@)
            == Json::Text(path) && trimmed(path).len() > 0 && field_in(config, "pagesize"@) == Json::Number(Num::PosInt(size))
            ==> paging_of(config) == (if size > 0 {
            Ok::<Paged, PagingError>(Paged::Offset(place, path, size as nat))
        } else {
            Err::<Paged, PagingError>(PagingError::ZeroPageSize)
        }),
        ascii_lower_text(field_in(config, "type"@)->Text_0) != ascii_lower_text("offset"@) && ascii_lower_text(
            field_in(config, "type"@)->Text_0,
        ) != ascii_lower_text("cursor"@) ==> paging_of(config) is Err,
{
    reveal_strlit("cursor");
    reveal_strlit("offset");
    assert(ascii_lower_text("cursor"@)[0] == 'c' && ascii_lower_text("offset"@)[0] == 'o');
    lemma_place(field_in(config, "in"@), place.0, place.1);
    if is_place(field_in(config, "from"@), from.0, from.1) {
        lemma_place(field_in(config, "from"@), from.0, from.1);
    }
}

} // verus!
