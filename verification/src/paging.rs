//! Sources that come in pages: how they are configured, what the next request is, and how pages
//! are put together.
use vstd::prelude::*;
use crate::json::{display, push_items, value_to_string};
use crate::paths::{find_path, lookup, set_path, with_path};
use crate::pipeline::members_of;
use crate::text::{ascii_lower_text, has_text, lemma_texts_push, same_ignoring_case, split_on, split_text, texts, trim_text, trimmed};
use crate::value::{lemma_array_json, obj_get, obj_insert, Json, Num, Number, Object, Value};

verus! {

broadcast use lemma_array_json;

/// How many pages are fetched at most after the first, or in all where pages are found by offset.
pub const MAX_PAGES: usize = 1000;

/// Where a value is put into a request or found in a response.
#[derive(Debug, Clone, Copy, PartialEq, Eq, Structural)]
pub enum PagingLocation {
    Query,
    Body,
}

/// A place in a request or a response.
#[derive(Debug, PartialEq)]
pub struct PagingCursorLocation {
    pub location: PagingLocation,
    pub path: String,
}

/// How a source is paged.
#[derive(Debug, PartialEq)]
pub enum PagingConfig {
    Cursor { cursor_in: PagingCursorLocation, from: PagingCursorLocation },
    Offset { offset_in: PagingCursorLocation, path: String, page_size: u64 },
}

/// What is wrong with a configuration of paging.
#[derive(Debug, Clone, Copy, PartialEq, Eq, Structural)]
pub enum PagingError {
    NotAnObject,
    NoType,
    UnsupportedType,
    NoIn,
    NoFrom,
    FromNotBody,
    NoPath,
    EmptyPath,
    NoPageSize,
    ZeroPageSize,
    LocationNotAnObject,
    NoLocation,
    UnsupportedLocation,
    NoLocationPath,
    EmptyLocationPath,
}

/// What a configuration of paging is.
#[verifier::ext_equal]
pub enum Paged {
    Cursor((PagingLocation, Seq<char>), (PagingLocation, Seq<char>)),
    Offset((PagingLocation, Seq<char>), Seq<char>, nat),
}

impl View for PagingCursorLocation {
    type V = (PagingLocation, Seq<char>);

    open spec fn view(&self) -> (PagingLocation, Seq<char>) {
        (self.location, self.path@)
    }
}

impl View for PagingConfig {
    type V = Paged;

    open spec fn view(&self) -> Paged {
        match self {
            PagingConfig::Cursor { cursor_in, from } => Paged::Cursor(cursor_in@, from@),
            PagingConfig::Offset { offset_in, path, page_size } => Paged::Offset(offset_in@, path@, *page_size as nat),
        }
    }
}

/// The text member of an object.
pub open spec fn text_member(members: Seq<(Seq<char>, Json)>, key: Seq<char>) -> Option<Seq<char>> {
    match obj_get(members, key) {
        Some(Json::Text(text)) => Some(text),
        _ => None,
    }
}

/// The place that a value describes.
pub open spec fn location_of(value: Json) -> Result<(PagingLocation, Seq<char>), PagingError> {
    match value {
        Json::Object(members) => match text_member(members, "location"@) {
            None => Err(PagingError::NoLocation),
            Some(name) => {
                let query = ascii_lower_text(name) == ascii_lower_text("query"@);
                let body = ascii_lower_text(name) == ascii_lower_text("body"@);
                if !query && !body {
                    Err(PagingError::UnsupportedLocation)
                } else {
                    match text_member(members, "path"@) {
                        None => Err(PagingError::NoLocationPath),
                        Some(path) => if trimmed(path).len() == 0 {
                            Err(PagingError::EmptyLocationPath)
                        } else if query {
                            Ok((PagingLocation::Query, path))
                        } else {
                            Ok((PagingLocation::Body, path))
                        },
                    }
                }
            },
        },
        _ => Err(PagingError::LocationNotAnObject),
    }
}

/// Cursor paging as members of an object describe it.
pub open spec fn cursor_paging(members: Seq<(Seq<char>, Json)>) -> Result<Paged, PagingError> {
    match obj_get(members, "in"@) {
        None => Err(PagingError::NoIn),
        Some(to) => match location_of(to) {
            Err(error) => Err(error),
            Ok(cursor_in) => match obj_get(members, "from"@) {
                None => Err(PagingError::NoFrom),
                Some(source) => match location_of(source) {
                    Err(error) => Err(error),
                    Ok(from) => if from.0 != PagingLocation::Body {
                        Err(PagingError::FromNotBody)
                    } else {
                        Ok(Paged::Cursor(cursor_in, from))
                    },
                },
            },
        },
    }
}

/// Offset paging as members of an object describe it.
pub open spec fn offset_paging(members: Seq<(Seq<char>, Json)>) -> Result<Paged, PagingError> {
    match obj_get(members, "in"@) {
        None => Err(PagingError::NoIn),
        Some(to) => match location_of(to) {
            Err(error) => Err(error),
            Ok(offset_in) => match text_member(members, "path"@) {
                None => Err(PagingError::NoPath),
                Some(path) => if trimmed(path).len() == 0 {
                    Err(PagingError::EmptyPath)
                } else {
                    match obj_get(members, "pagesize"@) {
                        Some(Json::Number(Num::PosInt(size))) => if size == 0 {
                            Err(PagingError::ZeroPageSize)
                        } else {
                            Ok(Paged::Offset(offset_in, path, size as nat))
                        },
                        _ => Err(PagingError::NoPageSize),
                    }
                },
            },
        },
    }
}

/// The paging that a value describes.
pub open spec fn paging_of(value: Json) -> Result<Paged, PagingError> {
    match value {
        Json::Object(members) => match text_member(members, "type"@) {
            None => Err(PagingError::NoType),
            Some(name) => if ascii_lower_text(name) == ascii_lower_text("cursor"@) {
                cursor_paging(members)
            } else if ascii_lower_text(name) == ascii_lower_text("offset"@) {
                offset_paging(members)
            } else {
                Err(PagingError::UnsupportedType)
            },
        },
        _ => Err(PagingError::NotAnObject),
    }
}

fn text_of(members: &Object, key: &str) -> (text: Option<String>)
    ensures
        match text {
            Some(t) => text_member(members@, key@) == Some(t@),
            None => text_member(members@, key@) is None,
        },
{
    match members.get(key) {
        Some(Value::String(text)) => Some(text.clone()),
        _ => None,
    }
}

fn is_blank(text: &str) -> (answer: bool)
    ensures
        answer == (trimmed(text@).len() == 0),
{
    let inner = trim_text(text);
    inner.as_str().is_empty()
}

/// The place that a value describes.
pub fn parse_paging_location(value: &Value) -> (result: Result<PagingCursorLocation, PagingError>)
    ensures
        match result {
            Ok(location) => location_of(value@) == Ok::<(PagingLocation, Seq<char>), PagingError>(location@),
            Err(error) => location_of(value@) == Err::<(PagingLocation, Seq<char>), PagingError>(error),
        },
{
    match value {
        Value::Object(members) => match text_of(members, "location") {
            None => Err(PagingError::NoLocation),
            Some(name) => {
                let location = if same_ignoring_case(name.as_str(), "query") {
                    PagingLocation::Query
                } else if same_ignoring_case(name.as_str(), "body") {
                    PagingLocation::Body
                } else {
                    return Err(PagingError::UnsupportedLocation);
                };
                match text_of(members, "path") {
                    None => Err(PagingError::NoLocationPath),
                    Some(path) => if is_blank(path.as_str()) {
                        Err(PagingError::EmptyLocationPath)
                    } else {
                        Ok(PagingCursorLocation { location, path })
                    },
                }
            },
        },
        _ => Err(PagingError::LocationNotAnObject),
    }
}

fn parse_cursor(members: &Object) -> (result: Result<PagingConfig, PagingError>)
    ensures
        match result {
            Ok(config) => cursor_paging(members@) == Ok::<Paged, PagingError>(config@),
            Err(error) => cursor_paging(members@) == Err::<Paged, PagingError>(error),
        },
{
    let cursor_in = match members.get("in") {
        None => {
            return Err(PagingError::NoIn);
        },
        Some(to) => match parse_paging_location(to) {
            Err(error) => {
                return Err(error);
            },
            Ok(location) => location,
        },
    };
    let from = match members.get("from") {
        None => {
            return Err(PagingError::NoFrom);
        },
        Some(source) => match parse_paging_location(source) {
            Err(error) => {
                return Err(error);
            },
            Ok(location) => location,
        },
    };
    match from.location {
        PagingLocation::Body => Ok(PagingConfig::Cursor { cursor_in, from }),
        PagingLocation::Query => Err(PagingError::FromNotBody),
    }
}

fn parse_offset(members: &Object) -> (result: Result<PagingConfig, PagingError>)
    ensures
        match result {
            Ok(config) => offset_paging(members@) == Ok::<Paged, PagingError>(config@),
            Err(error) => offset_paging(members@) == Err::<Paged, PagingError>(error),
        },
{
    let offset_in = match members.get("in") {
        None => {
            return Err(PagingError::NoIn);
        },
        Some(to) => match parse_paging_location(to) {
            Err(error) => {
                return Err(error);
            },
            Ok(location) => location,
        },
    };
    let path = match text_of(members, "path") {
        None => {
            return Err(PagingError::NoPath);
        },
        Some(path) => path,
    };
    if is_blank(path.as_str()) {
        return Err(PagingError::EmptyPath);
    }
    match members.get("pagesize") {
        Some(Value::Number(Number::PosInt(size))) => if *size == 0 {
            Err(PagingError::ZeroPageSize)
        } else {
            Ok(PagingConfig::Offset { offset_in, path, page_size: *size })
        },
        _ => Err(PagingError::NoPageSize),
    }
}

/// The paging that a value describes.
pub fn parse_paging_config(value: &Value) -> (result: Result<PagingConfig, PagingError>)
    ensures
        match result {
            Ok(config) => paging_of(value@) == Ok::<Paged, PagingError>(config@),
            Err(error) => paging_of(value@) == Err::<Paged, PagingError>(error),
        },
{
    match value {
        Value::Object(members) => match text_of(members, "type") {
            None => Err(PagingError::NoType),
            Some(name) => if same_ignoring_case(name.as_str(), "cursor") {
                parse_cursor(members)
            } else if same_ignoring_case(name.as_str(), "offset") {
                parse_offset(members)
            } else {
                Err(PagingError::UnsupportedType)
            },
        },
        _ => Err(PagingError::NotAnObject),
    }
}

/// The value at a dotted path, every part of which is a key.
pub open spec fn found_at(value: Json, path: Seq<char>) -> Option<Json> {
    lookup(value, split_on(path, '.'))
}

/// The value at a dotted path.
pub fn value_at_path(value: &Value, path: &str) -> (found: Option<Value>)
    ensures
        match found {
            Some(v) => found_at(value@, path@) == Some(v@),
            None => found_at(value@, path@) is None,
        },
{
    let parts = split_text(path, '.');
    match find_path(value, &parts) {
        Some(found) => Some(found.copy()),
        None => None,
    }
}

/// The number of entries of the array or object at a dotted path, zero for anything else.
pub open spec fn entries_found(value: Json, path: Seq<char>) -> nat {
    match found_at(value, path) {
        Some(Json::Array(items)) => items.len(),
        Some(Json::Object(members)) => members.len(),
        _ => 0,
    }
}

/// The number of entries of the array or object at a dotted path.
pub fn entry_count_at_path(value: &Value, path: &str) -> (count: usize)
    ensures
        count == entries_found(value@, path@),
{
    match value_at_path(value, path) {
        Some(Value::Array(items)) => items.len(),
        Some(Value::Object(members)) => members.len(),
        _ => 0,
    }
}

/// A value with another set at a dotted path; what is not an object along the way becomes one.
pub open spec fn value_with(value: Json, path: Seq<char>, new: Json) -> Json {
    Json::Object(with_path(members_of(value), split_on(path, '.'), new))
}

/// Sets a value at a dotted path.
pub fn set_value_at_path(value: Value, path: &str, new: Value) -> (result: Value)
    ensures
        result@ == value_with(value@, path@, new@),
{
    let parts = split_text(path, '.');
    let mut members = match value {
        Value::Object(members) => members,
        _ => Object::new(),
    };
    set_path(&mut members, &parts, new);
    Value::Object(members)
}

/// A result with a page added: arrays are joined, objects are merged member by member, and
/// anything else is replaced.
pub open spec fn with_page(result: Json, page: Json) -> Json
    decreases page,
{
    match (result, page) {
        (Json::Array(items), Json::Array(more)) => Json::Array(items + more),
        (Json::Object(members), Json::Object(more)) => Json::Object(with_page_members(members, more)),
        _ => page,
    }
}

/// Members with the members of a page added.
pub open spec fn with_page_members(members: Seq<(Seq<char>, Json)>, more: Seq<(Seq<char>, Json)>) -> Seq<
    (Seq<char>, Json),
>
    decreases more,
{
    if more.len() == 0 {
        members
    } else {
        let earlier = with_page_members(members, more.drop_last());
        let (key, value) = more.last();
        match obj_get(earlier, key) {
            Some(existing) => obj_insert(earlier, key, with_page(existing, value)),
            None => obj_insert(earlier, key, value),
        }
    }
}

/// Adds a page to a result.
pub fn merge_page(result: Value, page: &Value) -> (merged: Value)
    ensures
        merged@ == with_page(result@, page@),
    decreases page,
{
    match (result, page) {
        (Value::Array(items), Value::Array(_)) => {
            let mut all = items;
            push_items(&mut all, page);
            Value::Array(all)
        },
        (Value::Object(members), Value::Object(more)) => Value::Object(merge_page_members(members, more)),
        _ => page.copy(),
    }
}

fn merge_page_members(members: Object, more: &Object) -> (merged: Object)
    ensures
        merged@ == with_page_members(members@, more@),
    decreases more,
{
    let ghost before = members@;
    let mut merged = members;
    let mut i: usize = 0;
    assert(more@.take(0) =~= Seq::<(Seq<char>, Json)>::empty());
    while i < more.len()
        invariant
            i <= more@.len(),
            merged@ == with_page_members(before, more@.take(i as int)),
        decreases more@.len() - i,
    {
        assert(more@.take(i + 1).drop_last() =~= more@.take(i as int));
        assert(more@.take(i + 1).last() == more@[i as int]);
        let value = more.value_at(i);
        let updated = match merged.get(more.key_at(i).as_str()) {
            Some(existing) => merge_page(existing.copy(), value),
            None => value.copy(),
        };
        merged.insert(more.key_at(i).clone(), updated);
        i = i + 1;
    }
    assert(more@.take(i as int) =~= more@);
    merged
}

/// What the request for a page carries: a query parameter, and a body.
#[derive(Debug, PartialEq)]
pub struct PageRequest {
    pub parameter: Option<(String, String)>,
    pub body: Option<Value>,
}

/// What the request for a page carries.
#[verifier::ext_equal]
pub struct PageAsked {
    pub parameter: Option<(Seq<char>, Seq<char>)>,
    pub body: Option<Json>,
}

impl View for PageRequest {
    type V = PageAsked;

    open spec fn view(&self) -> PageAsked {
        PageAsked {
            parameter: match self.parameter {
                Some((name, value)) => Some((name@, value@)),
                None => None,
            },
            body: crate::call::maybe(self.body),
        }
    }
}

/// A request with a cursor or an offset put in its place: as a query parameter, or in the body.
pub open spec fn request_with(place: (PagingLocation, Seq<char>), value: Json, body: Option<Json>) -> PageAsked {
    match place.0 {
        PagingLocation::Query => PageAsked { parameter: Some((place.1, display(value))), body },
        PagingLocation::Body => PageAsked {
            parameter: None,
            body: Some(
                value_with(
                    match body {
                        Some(body) => body,
                        None => Json::Object(Seq::empty()),
                    },
                    place.1,
                    value,
                ),
            ),
        },
    }
}

fn copy_body(body: &Option<Value>) -> (copy: Option<Value>)
    ensures
        crate::call::maybe(copy) == crate::call::maybe(*body),
{
    match body {
        Some(body) => Some(body.copy()),
        None => None,
    }
}

/// A request with a cursor or an offset put in its place.
pub fn page_request(place: &PagingCursorLocation, value: &Value, body: &Option<Value>) -> (request: PageRequest)
    ensures
        request@ == request_with(place@, value@, crate::call::maybe(*body)),
{
    match place.location {
        PagingLocation::Query => PageRequest {
            parameter: Some((place.path.clone(), value_to_string(value))),
            body: copy_body(body),
        },
        PagingLocation::Body => {
            let base = match body {
                Some(body) => body.copy(),
                None => Value::Object(Object::new()),
            };
            PageRequest { parameter: None, body: Some(set_value_at_path(base, place.path.as_str(), value.copy())) }
        },
    }
}

/// The state of a source that is fetched page by page: the pages so far, the cursors sent, how
/// many pages were asked for after the first, and the offset of the page asked for.
#[derive(Debug, PartialEq)]
pub struct Paging {
    pub config: PagingConfig,
    pub body: Option<Value>,
    pub result: Value,
    pub seen: Vec<String>,
    pub pages: usize,
    pub offset: u64,
}

/// The state of a source that is fetched page by page.
#[verifier::ext_equal]
pub struct PagingState {
    pub config: Paged,
    pub body: Option<Json>,
    pub result: Json,
    pub seen: Seq<Seq<char>>,
    pub pages: nat,
    pub offset: nat,
}

impl View for Paging {
    type V = PagingState;

    open spec fn view(&self) -> PagingState {
        PagingState {
            config: self.config@,
            body: crate::call::maybe(self.body),
            result: self.result@,
            seen: texts(self.seen@),
            pages: self.pages as nat,
            offset: self.offset as nat,
        }
    }
}

/// What comes after a page: the next request, the whole result, or a failure because there are
/// too many pages.
#[verifier::ext_equal]
pub enum PagingNext {
    Fetch(PagingState, PageAsked),
    Finished(Json),
    Failed,
}

/// What comes after a page.
#[derive(Debug, PartialEq)]
pub enum PagingStep {
    Fetch(Paging, PageRequest),
    Finished(Value),
    Failed,
}

impl View for PagingStep {
    type V = PagingNext;

    open spec fn view(&self) -> PagingNext {
        match self {
            PagingStep::Fetch(paging, request) => PagingNext::Fetch(paging@, request@),
            PagingStep::Finished(value) => PagingNext::Finished(value@),
            PagingStep::Failed => PagingNext::Failed,
        }
    }
}

/// The first request of a paged source: without a cursor, or with offset zero.
pub open spec fn first_page(config: Paged, body: Option<Json>) -> (PagingState, PageAsked) {
    let state = PagingState { config, body, result: Json::Null, seen: Seq::empty(), pages: 0, offset: 0 };
    let request = match config {
        Paged::Cursor(_, _) => PageAsked { parameter: None, body },
        Paged::Offset(place, _, _) => request_with(place, Json::Number(Num::PosInt(0)), body),
    };
    (state, request)
}

/// The first request of a paged source.
pub fn start_paging(config: PagingConfig, body: Option<Value>) -> (first: (Paging, PageRequest))
    ensures
        (first.0@, first.1@) == first_page(config@, crate::call::maybe(body)),
{
    let request = match &config {
        PagingConfig::Cursor { .. } => PageRequest { parameter: None, body: copy_body(&body) },
        PagingConfig::Offset { offset_in, .. } => page_request(offset_in, &Value::Number(Number::PosInt(0)), &body),
    };
    let seen: Vec<String> = Vec::new();
    assert(texts(seen@) =~= Seq::empty());
    (Paging { config, body, result: Value::Null, seen, pages: 0, offset: 0 }, request)
}

/// The result with the page just received: the first page itself, later ones added.
pub open spec fn result_with(state: PagingState, page: Json) -> Json {
    if state.pages == 0 {
        page
    } else {
        with_page(state.result, page)
    }
}

/// What comes after a page of a source with a cursor: the result is finished where it holds no
/// cursor, an empty one or one that was sent before. Only so many pages are fetched.
pub open spec fn after_cursor_page(
    state: PagingState,
    page: Json,
    place: (PagingLocation, Seq<char>),
    from: (PagingLocation, Seq<char>),
) -> PagingNext {
    let result = result_with(state, page);
    if state.pages >= MAX_PAGES {
        PagingNext::Failed
    } else {
        match found_at(result, from.1) {
            None => PagingNext::Finished(result),
            Some(cursor) => if display(cursor).len() == 0 || state.seen.contains(display(cursor)) {
                PagingNext::Finished(result)
            } else {
                PagingNext::Fetch(
                    PagingState { result, seen: state.seen.push(display(cursor)), pages: state.pages + 1, ..state },
                    request_with(place, cursor, state.body),
                )
            },
        }
    }
}

/// What comes after a page of a source with an offset: the result is finished with the first page
/// that is not full. Only so many pages are fetched.
pub open spec fn after_offset_page(
    state: PagingState,
    page: Json,
    place: (PagingLocation, Seq<char>),
    path: Seq<char>,
    page_size: nat,
) -> PagingNext {
    let result = result_with(state, page);
    let offset = state.offset + page_size;
    if entries_found(page, path) < page_size {
        PagingNext::Finished(result)
    } else if state.pages + 1 >= MAX_PAGES || offset > u64::MAX {
        PagingNext::Failed
    } else {
        PagingNext::Fetch(
            PagingState { result, pages: state.pages + 1, offset, ..state },
            request_with(place, Json::Number(Num::PosInt(offset as u64)), state.body),
        )
    }
}

/// What comes after a page.
pub open spec fn after_page(state: PagingState, page: Json) -> PagingNext {
    match state.config {
        Paged::Cursor(place, from) => after_cursor_page(state, page, place, from),
        Paged::Offset(place, path, page_size) => after_offset_page(state, page, place, path, page_size),
    }
}

/// Paging ends: every further request counts one page more, and the count never passes the limit.
pub proof fn lemma_paging_ends(state: PagingState, page: Json)
    requires
        state.pages <= MAX_PAGES,
    ensures
        after_page(state, page) matches PagingNext::Fetch(next, _) ==> next.pages == state.pages + 1 && next.pages <= MAX_PAGES,
{
}

/// No cursor is sent twice.
pub proof fn lemma_cursors_differ(state: PagingState, page: Json)
    requires
        state.seen.no_duplicates(),
    ensures
        after_page(state, page) matches PagingNext::Fetch(next, _) ==> next.seen.no_duplicates(),
{
    match after_page(state, page) {
        PagingNext::Fetch(next, _) => {
            match state.config {
                Paged::Cursor(_, _) => {
                    let cursor = next.seen.last();
                    assert(next.seen == state.seen.push(cursor));
                    assert forall|i: int, j: int| 0 <= i < next.seen.len() && 0 <= j < next.seen.len() && i != j implies next.seen[i]
                        != next.seen[j] by {
                        if i < state.seen.len() && j < state.seen.len() {
                            assert(state.seen[i] != state.seen[j]);
                        } else if i < state.seen.len() {
                            assert(state.seen.contains(state.seen[i]));
                        } else if j < state.seen.len() {
                            assert(state.seen.contains(state.seen[j]));
                        }
                    }
                },
                _ => {},
            }
        },
        _ => {},
    }
}

/// Takes a page in.
pub fn receive_page(paging: Paging, page: Value) -> (next: PagingStep)
    ensures
        next@ == after_page(paging@, page@),
{
    let Paging { config, body, result: so_far, seen, pages, offset } = paging;
    match config {
        PagingConfig::Cursor { cursor_in, from } => {
            if pages >= MAX_PAGES {
                return PagingStep::Failed;
            }
            let result = if pages == 0 {
                page
            } else {
                merge_page(so_far, &page)
            };
            match value_at_path(&result, from.path.as_str()) {
                None => PagingStep::Finished(result),
                Some(cursor) => {
                    let key = value_to_string(&cursor);
                    if key.as_str().is_empty() || has_text(&seen, key.as_str()) {
                        return PagingStep::Finished(result);
                    }
                    let request = page_request(&cursor_in, &cursor, &body);
                    let mut sent = seen;
                    proof {
                        lemma_texts_push(sent@, key);
                    }
                    sent.push(key);
                    PagingStep::Fetch(
                        Paging {
                            config: PagingConfig::Cursor { cursor_in, from },
                            body,
                            result,
                            seen: sent,
                            pages: pages + 1,
                            offset,
                        },
                        request,
                    )
                },
            }
        },
        PagingConfig::Offset { offset_in, path, page_size } => {
            let count: usize = entry_count_at_path(&page, path.as_str());
            let result = if pages == 0 {
                page
            } else {
                merge_page(so_far, &page)
            };
            if (count as u64) < page_size {
                return PagingStep::Finished(result);
            }
            if pages >= MAX_PAGES - 1 || offset > u64::MAX - page_size {
                return PagingStep::Failed;
            }
            let next: u64 = offset + page_size;
            let request = page_request(&offset_in, &Value::Number(Number::PosInt(next)), &body);
            PagingStep::Fetch(
                Paging {
                    config: PagingConfig::Offset { offset_in, path, page_size },
                    body,
                    result,
                    seen,
                    pages: pages + 1,
                    offset: next,
                },
                request,
            )
        },
    }
}

} // verus!
