//! What holds of the handlers whatever the rows and the request: repeating a
//! create changes nothing and is no error, a created user reads back as it
//! was written, an update leaves every key in place, a page has the size and
//! the order that its query asks for, and one missing key fails a whole batch.
//!
//! Each law is stated over the relation that the handler in question ensures
//! between the rows before, its input, the rows after and its response.

use crate::common::{not_found_response, success_with, success_with_rows, ACCEPTED, OK};
use crate::events::{
    events_created, events_selected, events_updated, page_of, Event, EventQuery, EventsResponse,
};
use crate::model::{
    all_held, from_key, holds, keys_of, lemma_from_key_of_young_rows, lemma_insert_all_twice,
    lemma_insert_twice, lemma_lookup_after_insert, lemma_lookup_after_replace, lemma_page_bounds,
    lemma_page_is_exact, lemma_replace_all_keeps_places, lemma_replace_keeps_places, lookup,
    ordered, page_len,
};
use crate::table::Record;
use crate::users::{
    user_created, user_selected, user_updated, User, UserCreatedResponse, UserId, UserResponse,
};
use vstd::prelude::*;

verus! {

/// Creating the same user twice: the second create is no error, adds no row
/// and leaves the rows as the first create left them, with no id twice.
pub proof fn create_user_is_idempotent(
    rows: Seq<User>,
    user: User,
    once: Seq<User>,
    first: UserCreatedResponse,
    twice: Seq<User>,
    second: UserCreatedResponse,
)
    requires
        ordered(rows),
        user_created(rows, user, once, first),
        user_created(once, user, twice, second),
    ensures
        twice == once,
        ordered(twice),
        second.0 == ACCEPTED,
        success_with(second.1, None::<User>),
{
    lemma_insert_twice(rows, user);
}

/// Creating the same batch of events twice: the second create is no error,
/// adds no row and leaves the rows as the first create left them, with no
/// instant twice.
pub proof fn create_events_is_idempotent(
    rows: Seq<Event>,
    batch: Seq<Event>,
    once: Seq<Event>,
    first: EventsResponse,
    twice: Seq<Event>,
    second: EventsResponse,
)
    requires
        ordered(rows),
        events_created(rows, batch, once, first),
        events_created(once, batch, twice, second),
    ensures
        twice == once,
        ordered(twice),
        second.0 == ACCEPTED,
        success_with_rows(second.1, Seq::<Event>::empty()),
{
    lemma_insert_all_twice(rows, batch);
}

/// A user that is created and then read by its id comes back equal in every
/// field. This holds where the id was free, or was taken by that same user;
/// a create under an id that another user has is skipped, and the read then
/// answers with the user that was stored before.
pub proof fn created_user_reads_back(
    rows: Seq<User>,
    user: User,
    after: Seq<User>,
    created: UserCreatedResponse,
    read: UserResponse,
)
    requires
        ordered(rows),
        holds(rows, user.key()) ==> lookup(rows, user.key()) == Some(user),
        user_created(rows, user, after, created),
        user_selected(after, UserId(user.id), read),
    ensures
        read.0 == OK,
        success_with(read.1, user),
{
    lemma_lookup_after_insert(rows, user);
}

/// An update changes no id: the rows after it have the same ids at the same
/// places as before. An update under an id that no row has changes no row and
/// is answered with the not-found error; an update under an id that a row has
/// is read back as it was submitted.
pub proof fn update_user_keeps_ids(
    rows: Seq<User>,
    user: User,
    after: Seq<User>,
    res: UserResponse,
)
    requires
        ordered(rows),
        user_updated(rows, user, after, res),
    ensures
        keys_of(after) == keys_of(rows),
        ordered(after),
        !holds(rows, user.key()) ==> after == rows && not_found_response(res),
        holds(rows, user.key()) ==> lookup(after, user.key()) == Some(user),
{
    lemma_replace_keeps_places(rows, user);
    if holds(rows, user.key()) {
        lemma_lookup_after_replace(rows, user);
    }
}

/// A batch update changes no instant of creation either, whichever of its
/// items fail: the rows after it have the same instants at the same places as
/// before.
pub proof fn update_events_keeps_instants(
    rows: Seq<Event>,
    batch: Seq<Event>,
    after: Seq<Event>,
    res: EventsResponse,
)
    requires
        ordered(rows),
        events_updated(rows, batch, after, res),
    ensures
        keys_of(after) == keys_of(rows),
        ordered(after),
{
    lemma_replace_all_keeps_places(rows, batch);
}

/// One event that is not stored fails the whole batch update, wherever it
/// stands in the batch and whatever the other events are: the response is
/// status 400 with a single descriptor.
pub proof fn update_events_fails_on_one_missing(
    rows: Seq<Event>,
    batch: Seq<Event>,
    at: int,
    after: Seq<Event>,
    res: EventsResponse,
)
    requires
        0 <= at < batch.len(),
        !holds(rows, batch[at].key()),
        events_updated(rows, batch, after, res),
    ensures
        not_found_response(res),
        res.1 is ResponseErr,
        res.1->errors@.len() == 1,
{
    assert(!all_held(rows, batch));
}

/// The number of stored events that were created at `start` or later.
pub open spec fn count_from(rows: Seq<Event>, start: i64) -> int {
    from_key(rows, start as int).len() as int
}

/// A page of events has the size that its query asks for: of the `n` events
/// created at the lower bound or later, `min(limit, max(0, n - offset))` are
/// returned. They are stored events, none was created before the lower bound,
/// and they come in ascending order of creation.
pub proof fn selected_events_are_a_page(
    rows: Seq<Event>,
    query: EventQuery,
    now: i64,
    res: EventsResponse,
)
    requires
        ordered(rows),
        events_selected(rows, query, now, res),
    ensures
        res.0 == OK,
        res.1 is ResponseOk,
        res.1->data@.len() == page_len(
            count_from(rows, query.start_or(now)),
            query.offset_or_default() as int,
            query.limit_or_default() as int,
        ),
        ordered(res.1->data@),
        forall|i: int|
            0 <= i < res.1->data@.len() ==> {
                &&& (#[trigger] res.1->data@[i]).created_at >= query.start_or(now)
                &&& rows.contains(res.1->data@[i])
            },
{
    lemma_page_bounds(
        rows,
        query.start_or(now) as int,
        query.offset_or_default() as nat,
        query.limit_or_default() as nat,
    );
    assert(res.1->data@ == page_of(query, rows, now));
}

/// Of a collection of `n` events none of which was created before the lower
/// bound, a page holds `min(limit, max(0, n - offset))`.
pub proof fn selected_events_of_a_young_collection(
    rows: Seq<Event>,
    query: EventQuery,
    now: i64,
    res: EventsResponse,
)
    requires
        ordered(rows),
        forall|i: int| 0 <= i < rows.len() ==> rows[i].created_at >= query.start_or(now),
        events_selected(rows, query, now, res),
    ensures
        res.1 is ResponseOk,
        res.1->data@.len() == page_len(
            rows.len() as int,
            query.offset_or_default() as int,
            query.limit_or_default() as int,
        ),
{
    assert forall|i: int| 0 <= i < rows.len() implies rows[i].key() >= query.start_or(now) as int by {
        assert(rows[i].key() == rows[i].created_at as int);
    }
    lemma_from_key_of_young_rows(rows, query.start_or(now) as int);
    selected_events_are_a_page(rows, query, now, res);
}

/// A page without offset, whose limit the events from the lower bound on do
/// not exceed, holds exactly the stored events that were created at the
/// lower bound or later.
pub proof fn selected_events_are_all_from_start(
    rows: Seq<Event>,
    query: EventQuery,
    now: i64,
    res: EventsResponse,
)
    requires
        ordered(rows),
        events_selected(rows, query, now, res),
        query.offset_or_default() == 0,
        count_from(rows, query.start_or(now)) <= query.limit_or_default(),
    ensures
        res.1 is ResponseOk,
        forall|event: Event|
            res.1->data@.contains(event) <==> (rows.contains(event) && event.created_at
                >= query.start_or(now)),
{
    lemma_page_is_exact(rows, query.start_or(now) as int, query.limit_or_default() as nat);
    assert(res.1->data@ == from_key(rows, query.start_or(now) as int));
    assert forall|event: Event|
        res.1->data@.contains(event) <==> (rows.contains(event) && event.created_at
            >= query.start_or(now)) by {
        assert(event.key() == event.created_at as int);
    }
}

} // verus!
