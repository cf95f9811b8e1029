//! Laws of sources that come in pages.
use vstd::prelude::*;
use crate::json::display;
use crate::laws::lists::integer;
use crate::laws::mapping::{lemma_set_keeps_apart, part_ways};
use crate::paging::{after_page, first_page, found_at, with_page, with_page_members, PageAsked, Paged, PagingLocation, PagingNext, PagingState, MAX_PAGES};
use crate::paths::{lemma_get_after_set, lookup};
use crate::pipeline::members_of;
use crate::text::{lemma_split_nonempty, split_on};
use crate::value::{keys_ascending, lemma_get_after_insert, obj_get, Json, Num};

verus! {

/// Whether a request carries a value at a place: as the query parameter of that name, beside the
/// body as it is, or in the body at that path, which is else as it is.
pub open spec fn carries(request: PageAsked, place: (PagingLocation, Seq<char>), value: Json, body: Option<Json>) -> bool {
    match place.0 {
        PagingLocation::Query => request.parameter == Some((place.1, display(value))) && request.body == body,
        PagingLocation::Body => {
            &&& request.parameter is None
            &&& request.body matches Some(sent)
            &&& sent is Object
            &&& lookup(sent, split_on(place.1, '.')) == Some(value)
            &&& forall|other: Seq<Seq<char>>|
                part_ways(split_on(place.1, '.'), other) ==> #[trigger] lookup(sent, other) == match body {
                    Some(Json::Object(members)) => lookup(Json::Object(members), other),
                    _ => None,
                }
        },
    }
}

proof fn lemma_carries(place: (PagingLocation, Seq<char>), value: Json, body: Option<Json>)
    ensures
        carries(crate::paging::request_with(place, value, body), place, value, body),
{
    if place.0 == PagingLocation::Body {
        let path = split_on(place.1, '.');
        let base = match body {
            Some(body) => body,
            None => Json::Object(Seq::empty()),
        };
        lemma_split_nonempty(place.1, '.');
        lemma_get_after_set(members_of(base), path, value);
        let sent = crate::paging::request_with(place, value, body).body->0;
        assert forall|other: Seq<Seq<char>>| part_ways(path, other) implies #[trigger] lookup(sent, other) == match body {
            Some(Json::Object(members)) => lookup(Json::Object(members), other),
            _ => None,
        } by {
            lemma_set_keeps_apart(members_of(base), path, value, other);
        }
    }
}

/// The first request of a source with a cursor carries none; that of a source with an offset carries
/// the offset zero.
pub proof fn lemma_first_request(config: Paged, body: Option<Json>)
    ensures
        ({
            let (state, request) = first_page(config, body);
            &&& state.config == config && state.body == body && state.pages == 0 && state.offset == 0
            &&& state.seen.len() == 0
            &&& match config {
                Paged::Cursor(_, _) => request == (PageAsked { parameter: None, body }),
                Paged::Offset(place, _, _) => carries(request, place, integer(0), body),
            }
        }),
{
    match config {
        Paged::Offset(place, _, _) => lemma_carries(place, integer(0), body),
        _ => {},
    }
}

/// Merging pages: lists are put one behind the other; of two objects, a key of both has the merged
/// values and a key of one its value; of anything else the later page stays.
pub proof fn lemma_merge(a: Json, b: Json, key: Seq<char>)
    requires
        b matches Json::Object(more) ==> keys_ascending(more),
    ensures
        a is Array && b is Array ==> with_page(a, b) == Json::Array(a->Array_0 + b->Array_0),
        a is Object && b is Object ==> with_page(a, b) is Object && obj_get(with_page(a, b)->Object_0, key) == match (
            obj_get(a->Object_0, key),
            obj_get(b->Object_0, key),
        ) {
            (Some(x), Some(y)) => Some(with_page(x, y)),
            (None, Some(y)) => Some(y),
            (found, None) => found,
        },
        !(a is Array && b is Array) && !(a is Object && b is Object) ==> with_page(a, b) == b,
{
    if a is Object && b is Object {
        lemma_merged_member(a->Object_0, b->Object_0, key);
    }
}

proof fn lemma_merged_member(members: Seq<(Seq<char>, Json)>, more: Seq<(Seq<char>, Json)>, key: Seq<char>)
    requires
        keys_ascending(more),
    ensures
        obj_get(with_page_members(members, more), key) == match (obj_get(members, key), obj_get(more, key)) {
            (Some(x), Some(y)) => Some(with_page(x, y)),
            (None, Some(y)) => Some(y),
            (found, None) => found,
        },
    decreases more.len(),
{
    if more.len() > 0 {
        let rest = more.drop_last();
        let (last, value) = more.last();
        assert forall|i: int, j: int| 0 <= i < j < rest.len() implies crate::text::text_lt(
            #[trigger] rest[i].0,
            #[trigger] rest[j].0,
        ) by {
            assert(rest[i] == more[i] && rest[j] == more[j]);
        }
        lemma_merged_member(members, rest, key);
        let earlier = with_page_members(members, rest);
        let inserted = match obj_get(earlier, last) {
            Some(existing) => with_page(existing, value),
            None => value,
        };
        lemma_get_after_insert(earlier, last, inserted, key);
        assert forall|i: int| 0 <= i < rest.len() implies crate::text::text_lt(#[trigger] rest[i].0, last) by {
            assert(rest[i] == more[i]);
            assert(more[more.len() - 1].0 == last);
        }
        crate::value::lemma_insert_last(rest, last, value);
        assert(rest.push((last, value)) =~= more);
        lemma_get_after_insert(rest, last, value, key);
        if key == last {
            crate::laws::values::lemma_found_is_member(rest, key, value);
            crate::text::lemma_text_lt_total(key, key);
            assert forall|i: int| 0 <= i < rest.len() implies (#[trigger] rest[i]).0 != key by {
                assert(crate::text::text_lt(rest[i].0, last));
            }
            assert(obj_get(rest, key) is None);
        }
    }
}

/// Whether the keys of all objects within a value ascend.
pub open spec fn orderly(value: Json) -> bool
    decreases value,
{
    match value {
        Json::Object(members) => keys_ascending(members) && forall|i: int|
            0 <= i < members.len() ==> orderly((#[trigger] members[i]).1),
        Json::Array(items) => forall|i: int| 0 <= i < items.len() ==> orderly(#[trigger] items[i]),
        _ => true,
    }
}

/// The members of an orderly object are orderly.
pub proof fn lemma_orderly_member(members: Seq<(Seq<char>, Json)>, key: Seq<char>)
    requires
        orderly(Json::Object(members)),
    ensures
        obj_get(members, key) matches Some(value) ==> orderly(value),
{
    match obj_get(members, key) {
        Some(value) => {
            crate::laws::values::lemma_found_is_member(members, key, value);
            let i = choose|i: int| 0 <= i < members.len() && members[i] == (key, value);
            assert(orderly(members[i].1));
        },
        None => {},
    }
}

/// Pages that hold lists at a path are merged to one that holds the lists one behind the other
/// there. A value at a path of the later page that is neither a list nor an object is the merged
/// one's too.
pub proof fn lemma_merge_at(a: Json, b: Json, path: Seq<Seq<char>>)
    requires
        orderly(b),
    ensures
        (lookup(a, path) is Some && lookup(a, path)->0 is Array && lookup(b, path) is Some && lookup(b, path)->0 is Array)
            ==> lookup(with_page(a, b), path) == Some(
            Json::Array(lookup(a, path)->0->Array_0 + lookup(b, path)->0->Array_0),
        ),
        (lookup(b, path) is Some && !(lookup(b, path)->0 is Array) && !(lookup(b, path)->0 is Object)) ==> lookup(
            with_page(a, b),
            path,
        ) == lookup(b, path),
    decreases path.len(),
{
    if path.len() > 0 {
        if a is Object && b is Object {
            let (x, y) = (obj_get(a->Object_0, path[0]), obj_get(b->Object_0, path[0]));
            lemma_merge(a, b, path[0]);
            if x is Some && y is Some {
                lemma_orderly_member(b->Object_0, path[0]);
                lemma_merge_at(x->0, y->0, path.drop_first());
            }
        }
    }
}

/// The number in a request by offset.
pub open spec fn offset_of(n: nat) -> Json {
    Json::Number(Num::PosInt(n as u64))
}

/// In paging by offset, a page that is not full is the last one. Behind a full page the next one is
/// asked for by the offset that is greater by the page size, until there are too many.
pub proof fn lemma_next_offset(state: PagingState, page: Json)
    requires
        state.config is Offset,
    ensures
        ({
            let (place, path, size) = (state.config->Offset_0, state.config->Offset_1, state.config->Offset_2);
            let result = if state.pages == 0 {
                page
            } else {
                with_page(state.result, page)
            };
            let count = match lookup(page, split_on(path, '.')) {
                Some(Json::Array(items)) => items.len(),
                Some(Json::Object(members)) => members.len(),
                _ => 0,
            };
            match after_page(state, page) {
                PagingNext::Finished(whole) => count < size && whole == result,
                PagingNext::Failed => count >= size && (state.pages + 1 >= MAX_PAGES || state.offset + size > u64::MAX),
                PagingNext::Fetch(next, request) => {
                    &&& count >= size
                    &&& next.offset == state.offset + size
                    &&& next.pages == state.pages + 1 < MAX_PAGES
                    &&& next.result == result
                    &&& next.config == state.config && next.body == state.body
                    &&& next.offset <= u64::MAX
                    &&& carries(request, place, offset_of(state.offset + size), state.body)
                },
            }
        }),
{
    match after_page(state, page) {
        PagingNext::Fetch(next, request) => {
            lemma_carries(state.config->Offset_0, offset_of(next.offset), state.body);
        },
        _ => {},
    }
}

/// In paging by cursor, the result is finished where the pages so far hold no cursor, an empty one or
/// one that was sent before. Else the next page is asked for by that cursor, which then counts as
/// sent.
pub proof fn lemma_next_cursor(state: PagingState, page: Json)
    requires
        state.config is Cursor,
    ensures
        ({
            let (place, from) = (state.config->Cursor_0, state.config->Cursor_1);
            let result = if state.pages == 0 {
                page
            } else {
                with_page(state.result, page)
            };
            let cursor = lookup(result, split_on(from.1, '.'));
            let last = cursor is None || display(cursor->0).len() == 0 || state.seen.contains(display(cursor->0));
            match after_page(state, page) {
                PagingNext::Finished(whole) => state.pages < MAX_PAGES && last && whole == result,
                PagingNext::Failed => state.pages >= MAX_PAGES,
                PagingNext::Fetch(next, request) => {
                    &&& state.pages < MAX_PAGES && !last
                    &&& next.pages == state.pages + 1
                    &&& next.result == result
                    &&& next.config == state.config && next.body == state.body
                    &&& next.seen == state.seen.push(display(cursor->0))
                    &&& carries(request, place, cursor->0, state.body)
                },
            }
        }),
{
    let result = if state.pages == 0 {
        page
    } else {
        with_page(state.result, page)
    };
    match found_at(result, state.config->Cursor_1.1) {
        Some(cursor) => lemma_carries(state.config->Cursor_0, cursor, state.body),
        None => {},
    }
}

/// Whether a source by offset was asked for its pages one after another: each state follows from the
/// one before and the page that came.
pub open spec fn asked_in_turn(states: Seq<PagingState>, requests: Seq<PageAsked>, pages: Seq<Json>) -> bool {
    &&& states.len() == requests.len() == pages.len() + 1
    &&& forall|n: int|
        0 <= n < pages.len() ==> after_page(states[n], #[trigger] pages[n]) == PagingNext::Fetch(
            states[n + 1],
            requests[n + 1],
        )
}

/// In paging by offset, the requests, counted from zero, carry the multiples of the page size in
/// order.
pub proof fn lemma_offsets_in_order(
    config: Paged,
    body: Option<Json>,
    states: Seq<PagingState>,
    requests: Seq<PageAsked>,
    pages: Seq<Json>,
    n: int,
)
    requires
        config is Offset,
        asked_in_turn(states, requests, pages),
        (states[0], requests[0]) == first_page(config, body),
        0 <= n < states.len(),
    ensures
        states[n].offset == n * config->Offset_2,
        states[n].pages == n,
        states[n].config == config,
        states[n].body == body,
        carries(requests[n], config->Offset_0, integer(n * config->Offset_2), body),
    decreases n,
{
    let size = config->Offset_2 as int;
    lemma_first_request(config, body);
    if n > 0 {
        lemma_offsets_in_order(config, body, states, requests, pages, n - 1);
        assert(after_page(states[n - 1], pages[n - 1]) == PagingNext::Fetch(states[n], requests[n]));
        lemma_next_offset(states[n - 1], pages[n - 1]);
        assert((n - 1) * size + size == n * size) by (nonlinear_arith);
        assert(offset_of(states[n].offset) == integer(n * size));
    } else {
        assert(0 * size == 0) by (nonlinear_arith);
    }
}

/// What a source by offset comes to where its pages are served by a function of the offset that was
/// asked for, after a number of further requests at most.
pub open spec fn served(state: PagingState, page: Json, serve: spec_fn(nat) -> Json, rounds: nat) -> Option<Json>
    decreases rounds,
{
    match after_page(state, page) {
        PagingNext::Finished(whole) => Some(whole),
        PagingNext::Failed => None,
        PagingNext::Fetch(next, _) => if rounds == 0 {
            None
        } else {
            served(next, serve(next.offset), serve, (rounds - 1) as nat)
        },
    }
}

/// The page of a list of items at an offset.
pub open spec fn page_items(items: Seq<Json>, size: nat, offset: nat) -> Seq<Json> {
    if offset >= items.len() {
        Seq::empty()
    } else if offset + size < items.len() {
        items.subrange(offset as int, (offset + size) as int)
    } else {
        items.skip(offset as int)
    }
}

proof fn lemma_rest_served(
    state: PagingState,
    serve: spec_fn(nat) -> Json,
    items: Seq<Json>,
    rounds: nat,
)
    requires
        state.config is Offset,
        state.config->Offset_2 > 0,
        state.offset == state.pages * state.config->Offset_2,
        state.offset <= items.len(),
        items.len() + state.config->Offset_2 <= u64::MAX,
        items.len() < (MAX_PAGES as int) * state.config->Offset_2,
        rounds * state.config->Offset_2 + state.offset > items.len() - state.config->Offset_2,
        forall|offset: nat| orderly(#[trigger] serve(offset)) && lookup(serve(offset), split_on(state.config->Offset_1, '.'))
            == Some(Json::Array(page_items(items, state.config->Offset_2, offset))),
        state.pages > 0 ==> lookup(state.result, split_on(state.config->Offset_1, '.')) == Some(
            Json::Array(items.take(state.offset as int)),
        ),
    ensures
        served(state, serve(state.offset), serve, rounds) matches Some(whole) && lookup(
            whole,
            split_on(state.config->Offset_1, '.'),
        ) == Some(Json::Array(items)),
    decreases rounds,
{
    let size = state.config->Offset_2;
    let path = split_on(state.config->Offset_1, '.');
    let page = serve(state.offset);
    let given = page_items(items, size, state.offset);
    assert(orderly(page) && lookup(page, path) == Some(Json::Array(given)));
    lemma_next_offset(state, page);
    let result = if state.pages == 0 {
        page
    } else {
        with_page(state.result, page)
    };
    let so_far = items.take(state.offset as int) + given;
    if state.pages == 0 {
        assert(0 * size == 0) by (nonlinear_arith);
        assert(so_far =~= given);
    } else {
        lemma_merge_at(state.result, page, path);
    }
    assert(lookup(result, path) == Some(Json::Array(so_far)));
    if given.len() < size {
        assert(so_far =~= items);
    } else {
        let next = state.offset + size;
        assert(so_far =~= items.take(next as int));
        assert((state.pages + 1) * size == state.pages * size + size) by (nonlinear_arith);
        assert(state.pages + 1 < MAX_PAGES) by (nonlinear_arith)
            requires
                (state.pages + 1) * size <= items.len(),
                items.len() < (MAX_PAGES as int) * size,
                size > 0,
        ;
        match after_page(state, page) {
            PagingNext::Fetch(following, _) => {
                assert(rounds > 0) by (nonlinear_arith)
                    requires
                        rounds * size + state.offset > items.len() - size,
                        state.offset + size <= items.len(),
                        size > 0,
                ;
                assert((rounds - 1) * size + size == rounds * size) by (nonlinear_arith);
                lemma_rest_served(following, serve, items, (rounds - 1) as nat);
            },
            _ => {},
        }
    }
}

/// A source by offset is loaded whole: where every request is answered with the items from its offset
/// on, at most a page of them, the result holds all items in order, provided that they fit into the
/// pages that are fetched at most.
pub proof fn lemma_whole_source_is_loaded(config: Paged, body: Option<Json>, serve: spec_fn(nat) -> Json, items: Seq<Json>)
    requires
        config is Offset,
        config->Offset_2 > 0,
        items.len() + config->Offset_2 <= u64::MAX,
        items.len() < (MAX_PAGES as int) * config->Offset_2,
        forall|offset: nat| orderly(#[trigger] serve(offset)) && lookup(serve(offset), split_on(config->Offset_1, '.')) == Some(
            Json::Array(page_items(items, config->Offset_2, offset)),
        ),
    ensures
        served(first_page(config, body).0, serve(0), serve, MAX_PAGES as nat) matches Some(whole) && lookup(
            whole,
            split_on(config->Offset_1, '.'),
        ) == Some(Json::Array(items)),
{
    let size = config->Offset_2;
    assert(0 * size == 0) by (nonlinear_arith);
    lemma_rest_served(first_page(config, body).0, serve, items, MAX_PAGES as nat);
}

/// A thousand pages can be fetched by offset, and a thousand behind the first by cursor.
pub proof fn lemma_page_limit(state: PagingState, page: Json)
    requires
        state.pages < 999,
        state.config is Offset ==> state.offset + state.config->Offset_2 <= u64::MAX,
    ensures
        MAX_PAGES == 1000,
        !(after_page(state, page) is Failed),
{
}

} // verus!
