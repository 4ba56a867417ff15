//! The `events` resource: its record, the typed values that its requests are
//! extracted into, and its four handlers, which work on batches.

use crate::common::{
    coherent, handle_result, is_not_found, not_found_response, reject, rejected_with,
    success_with_rows, Operation, Rejection, RequestBody, ResponseBody, StorageError, ACCEPTED, OK,
};
use crate::model::{
    added_by, all_held, all_keys_held, holds, inserted_all, lemma_remove_keeps_others,
    lemma_replace_keeps_keys, lookup, ordered, page, removed, removed_all, replaced, replaced_all,
    rows_of,
};
use crate::table::{Record, Table};
use vstd::prelude::*;

verus! {

/// An event. The instant of its creation identifies it.
#[derive(Debug, Clone, PartialEq, Eq)]
pub struct Event {
    /// Instant of creation, in microseconds since the Unix epoch, UTC.
    pub created_at: i64,
    pub user_id: i32,
    /// Free-form category label.
    pub kind: String,
    /// Horizontal position in feet, as the bit pattern of a binary64 number.
    pub x_ft: u64,
    /// Vertical position in feet, as the bit pattern of a binary64 number.
    pub y_ft: u64,
    /// Duration in seconds, as the bit pattern of a binary64 number.
    pub duration_s: u64,
    pub impressions: i32,
}

/// The events of one request body.
#[derive(Debug, Clone, PartialEq, Eq)]
pub struct Events(pub Vec<Event>);

/// The query parameters of a request for a page of events.
#[derive(Debug, Clone, Copy, PartialEq, Eq)]
pub struct EventQuery {
    /// Most rows to return.
    pub limit: Option<u8>,
    /// Rows to skip.
    pub offset: Option<u16>,
    /// Earliest instant of creation to return, in microseconds since the
    /// Unix epoch.
    pub start: Option<i64>,
}

/// Status and body of a response that carries events.
pub type EventsResponse = (u16, ResponseBody<Vec<Event>>);

/// Page size of a query that names none.
pub const DEFAULT_LIMIT: u8 = 32;

/// Rows skipped by a query that does not say how many.
pub const DEFAULT_OFFSET: u16 = 0;

impl Record for Event {
    open spec fn key(&self) -> int {
        self.created_at as int
    }

    fn key_of(&self) -> (k: i64) {
        self.created_at
    }

    fn duplicate(&self) -> (copy: Self) {
        Event {
            created_at: self.created_at,
            user_id: self.user_id,
            kind: self.kind.clone(),
            x_ft: self.x_ft,
            y_ft: self.y_ft,
            duration_s: self.duration_s,
            impressions: self.impressions,
        }
    }
}

/// The keys of the events, each once, in the order in which they first occur.
pub open spec fn distinct_keys(events: Seq<Event>) -> Seq<i64>
    decreases events.len(),
{
    if events.len() == 0 {
        Seq::empty()
    } else {
        let earlier = distinct_keys(events.drop_last());
        if earlier.contains(events.last().created_at) {
            earlier
        } else {
            earlier.push(events.last().created_at)
        }
    }
}

/// The place of the first failure among the outcomes, if any failed.
pub open spec fn first_failure<R>(outcomes: Seq<Result<R, StorageError>>) -> Option<int>
    decreases outcomes.len(),
{
    if outcomes.len() == 0 {
        None
    } else {
        match first_failure(outcomes.drop_last()) {
            Some(at) => Some(at),
            None => if outcomes.last() is Err {
                Some(outcomes.len() - 1)
            } else {
                None
            },
        }
    }
}

/// The values of outcomes that all succeeded.
pub open spec fn values<R>(outcomes: Seq<Result<R, StorageError>>) -> Seq<R> {
    Seq::new(outcomes.len(), |i: int| outcomes[i]->Ok_0)
}

/// Where outcomes have a first failure, it is a failure and all before it
/// are successes; where they have none, all are successes.
pub proof fn lemma_first_failure<R>(outcomes: Seq<Result<R, StorageError>>)
    ensures
        match first_failure(outcomes) {
            Some(at) => 0 <= at < outcomes.len() && outcomes[at] is Err && forall|j: int|
                0 <= j < at ==> outcomes[j] is Ok,
            None => forall|j: int| 0 <= j < outcomes.len() ==> outcomes[j] is Ok,
        },
    decreases outcomes.len(),
{
    if outcomes.len() > 0 {
        lemma_first_failure(outcomes.drop_last());
        match first_failure(outcomes) {
            Some(at) => {
                assert forall|j: int| 0 <= j < at implies outcomes[j] is Ok by {
                    assert(outcomes[j] == outcomes.drop_last()[j]);
                }
            },
            None => {
                assert forall|j: int| 0 <= j < outcomes.len() implies outcomes[j] is Ok by {
                    if j < outcomes.len() - 1 {
                        assert(outcomes[j] == outcomes.drop_last()[j]);
                    }
                }
            },
        }
    }
}

/// Gathers the outcomes of the items of a batch into one: the first failure
/// where any item failed, the values of all items where none did.
pub fn collect_results<R>(outcomes: Vec<Result<R, StorageError>>) -> (res: Result<Vec<R>, StorageError>)
    ensures
        match first_failure(outcomes@) {
            Some(at) => res is Err && outcomes@[at] == Err::<R, StorageError>(res->Err_0),
            None => res is Ok && res->Ok_0@ == values(outcomes@),
        },
{
    let mut rows: Vec<R> = Vec::new();
    let mut failure: Option<StorageError> = None;
    for outcome in it: outcomes
        invariant
            failure is None ==> first_failure(outcomes@.take(it.index() as int)) is None && rows@
                == values(outcomes@.take(it.index() as int)),
            failure matches Some(err) ==> (first_failure(outcomes@.take(it.index() as int))
                matches Some(at) && outcomes@[at] == Err::<R, StorageError>(err)),
    {
        proof {
            assert(outcomes@.take(it.index() + 1).drop_last() =~= outcomes@.take(
                it.index() as int,
            ));
        }
        match outcome {
            Ok(row) => {
                if failure.is_none() {
                    rows.push(row);
                    assert(rows@ =~= values(outcomes@.take(it.index() + 1)));
                }
            },
            Err(err) => {
                if failure.is_none() {
                    failure = Some(err);
                }
            },
        }
    }
    proof {
        assert(outcomes@.take(outcomes@.len() as int) =~= outcomes@);
    }
    match failure {
        Some(err) => Err(err),
        None => Ok(rows),
    }
}

/// The current instant, in microseconds since the Unix epoch.
///
/// Calls `Utc::now` of `chrono` and converts with `DateTime::timestamp_micros`.
/// The value is whatever the machine's clock reads, so nothing is promised of
/// it. On a machine whose clock reads a time before 1970, `Utc::now` panics.
#[verifier::external_body]
fn now() -> i64 {
    chrono::Utc::now().timestamp_micros()
}

impl Events {
    /// The events of a request body, from what the parsing step made of the
    /// body: the payload where it parsed, the error response where it did not.
    pub fn from_request(parsed: Result<RequestBody<Vec<Event>>, Rejection>) -> (res: Result<
        Events,
        EventsResponse,
    >)
        ensures
            match parsed {
                Ok(body) => res == Ok::<Events, EventsResponse>(Events(body.data)),
                Err(rejection) => res is Err && rejected_with(res->Err_0, rejection) && coherent(
                    res->Err_0,
                ),
            },
    {
        match parsed {
            Ok(body) => Ok(Events(body.data)),
            Err(rejection) => Err(reject(rejection)),
        }
    }

    /// The keys of the events, each once, in the order in which they first
    /// occur.
    pub fn keys(&self) -> (keys: Vec<i64>)
        ensures
            keys@ == distinct_keys(self.0@),
    {
        let mut keys: Vec<i64> = Vec::new();
        let n: usize = self.0.len();
        let mut i: usize = 0;
        while i < n
            invariant
                i <= n,
                n == self.0.len(),
                keys@ == distinct_keys(self.0@.take(i as int)),
            decreases n - i,
        {
            let key: i64 = self.0[i].created_at;
            let mut seen = false;
            let mut j: usize = 0;
            while j < keys.len()
                invariant
                    j <= keys.len(),
                    seen <==> keys@.take(j as int).contains(key),
                decreases keys.len() - j,
            {
                if keys[j] == key {
                    seen = true;
                }
                proof {
                    let upto = keys@.take(j + 1);
                    assert(upto.drop_last() =~= keys@.take(j as int));
                    assert(upto.last() == keys@[j as int]);
                    if keys@.take(j as int).contains(key) {
                        let w = choose|w: int| 0 <= w < j && keys@.take(j as int)[w] == key;
                        assert(upto[w] == key);
                    }
                    if upto.contains(key) && keys@[j as int] != key {
                        let w = choose|w: int| 0 <= w < upto.len() && upto[w] == key;
                        assert(keys@.take(j as int)[w] == key);
                    }
                }
                j += 1;
            }
            proof {
                assert(keys@.take(keys@.len() as int) =~= keys@);
                assert(self.0@.take(i + 1).drop_last() =~= self.0@.take(i as int));
            }
            if !seen {
                keys.push(key);
            }
            i += 1;
        }
        proof {
            assert(self.0@.take(n as int) =~= self.0@);
        }
        keys
    }
}

impl EventQuery {
    /// The page size in force: the one the query names, else the default.
    pub open spec fn spec_limit_or_default(&self) -> usize {
        match self.limit {
            Some(limit) => limit as usize,
            None => DEFAULT_LIMIT as usize,
        }
    }

    /// The number of rows to skip: the one the query names, else the default.
    pub open spec fn spec_offset_or_default(&self) -> usize {
        match self.offset {
            Some(offset) => offset as usize,
            None => DEFAULT_OFFSET as usize,
        }
    }

    /// The lower bound in force: the one the query names, else `now`.
    pub open spec fn spec_start_or(&self, now: i64) -> i64 {
        match self.start {
            Some(start) => start,
            None => now,
        }
    }

    /// The query of a request, from what the parsing step made of the query
    /// string.
    pub fn from_request_parts(parsed: Result<EventQuery, Rejection>) -> (res: Result<
        EventQuery,
        EventsResponse,
    >)
        ensures
            match parsed {
                Ok(query) => res == Ok::<EventQuery, EventsResponse>(query),
                Err(rejection) => res is Err && rejected_with(res->Err_0, rejection) && coherent(
                    res->Err_0,
                ),
            },
    {
        match parsed {
            Ok(query) => Ok(query),
            Err(rejection) => Err(reject(rejection)),
        }
    }

    /// The page size in force: the one the query names, else 32.
    #[verifier::when_used_as_spec(spec_limit_or_default)]
    pub fn limit_or_default(&self) -> (limit: usize)
        ensures
            limit == self.spec_limit_or_default(),
    {
        match self.limit {
            Some(limit) => limit as usize,
            None => DEFAULT_LIMIT as usize,
        }
    }

    /// The number of rows to skip: the one the query names, else 0.
    #[verifier::when_used_as_spec(spec_offset_or_default)]
    pub fn offset_or_default(&self) -> (offset: usize)
        ensures
            offset == self.spec_offset_or_default(),
    {
        match self.offset {
            Some(offset) => offset as usize,
            None => DEFAULT_OFFSET as usize,
        }
    }

    /// The lower bound in force at the instant `now`: the one the query
    /// names, else `now`.
    #[verifier::when_used_as_spec(spec_start_or)]
    pub fn start_or(&self, now: i64) -> (start: i64)
        ensures
            start == self.spec_start_or(now),
    {
        match self.start {
            Some(start) => start,
            None => now,
        }
    }

    /// The lower bound in force when the query is handled now: the one the
    /// query names, else the instant that the clock reads. The clock is read
    /// only where the query names no lower bound.
    pub fn start_or_now(&self) -> (start: i64)
        ensures
            self.start matches Some(named) ==> start == named,
    {
        match self.start {
            Some(start) => start,
            None => now(),
        }
    }
}

/// The rows that the query asks for when it is handled at the instant `now`:
/// those created at the lower bound in force or later, in ascending order of
/// creation, after the offset in force and up to the limit in force.
pub open spec fn page_of(query: EventQuery, rows: Seq<Event>, now: i64) -> Seq<Event> {
    page(
        rows,
        query.start_or(now) as int,
        query.offset_or_default() as nat,
        query.limit_or_default() as nat,
    )
}

/// What a create makes of the rows `before` and a batch: each event is
/// inserted in turn unless its instant is taken, and the response is a
/// success with status 202 that carries the events that were added.
pub open spec fn events_created(
    before: Seq<Event>,
    batch: Seq<Event>,
    after: Seq<Event>,
    res: EventsResponse,
) -> bool {
    &&& after == inserted_all(before, batch)
    &&& res.0 == ACCEPTED
    &&& success_with_rows(res.1, added_by(before, batch))
}

/// What a read answers to a query that is handled at the instant `now`:
/// status 200 with the page that the query asks for.
pub open spec fn events_selected(
    rows: Seq<Event>,
    query: EventQuery,
    now: i64,
    res: EventsResponse,
) -> bool {
    res.0 == OK && success_with_rows(res.1, page_of(query, rows, now))
}

/// What an update makes of the rows `before` and a batch: each event
/// replaces in turn the stored event of its instant, an event that is not
/// stored changing nothing. The response is status 202 with the events as now
/// stored where every event was stored, else the not-found error.
pub open spec fn events_updated(
    before: Seq<Event>,
    batch: Seq<Event>,
    after: Seq<Event>,
    res: EventsResponse,
) -> bool {
    &&& after == replaced_all(before, batch)
    &&& if all_held(before, batch) {
        res.0 == ACCEPTED && success_with_rows(res.1, batch)
    } else {
        not_found_response(res)
    }
}

/// What a delete makes of the rows `before` and a batch: the stored event of
/// each instant that the batch names is removed. The response is status 202
/// with the deleted events, in the order in which the batch first names their
/// instants, where an event was stored at each of them, else the not-found
/// error.
pub open spec fn events_deleted(
    before: Seq<Event>,
    batch: Seq<Event>,
    after: Seq<Event>,
    res: EventsResponse,
) -> bool {
    &&& after == removed_all(before, distinct_keys(batch))
    &&& if all_keys_held(before, distinct_keys(batch)) {
        res.0 == ACCEPTED && success_with_rows(res.1, rows_of(before, distinct_keys(batch)))
    } else {
        not_found_response(res)
    }
}

/// Creates the events of a batch. An event whose instant of creation is taken
/// is skipped without an error; the response carries the rows that were added.
pub fn create_events(store: &mut Table<Event>, events: Events) -> (res: EventsResponse)
    ensures
        events_created(old(store)@, events.0@, final(store)@, res),
        coherent(res),
{
    let ghost before = store@;
    let mut added: Vec<Event> = Vec::new();
    let n: usize = events.0.len();
    let mut i: usize = 0;
    while i < n
        invariant
            i <= n,
            n == events.0.len(),
            store@ == inserted_all(before, events.0@.take(i as int)),
            added@ == added_by(before, events.0@.take(i as int)),
        decreases n - i,
    {
        proof {
            assert(events.0@.take(i + 1).drop_last() =~= events.0@.take(i as int));
        }
        match store.insert(events.0[i].duplicate()) {
            Some(row) => {
                added.push(row);
            },
            None => {},
        }
        i += 1;
    }
    proof {
        assert(events.0@.take(n as int) =~= events.0@);
    }
    handle_result(Operation::Write, Ok(added))
}

/// Reads one page of events as of the instant `now`: those created at the
/// query's lower bound or later, in ascending order of creation, after the
/// query's offset and up to its limit. A query without a lower bound gets
/// `now`, without an offset 0, without a limit 32.
pub fn select_events_at(query: EventQuery, store: &Table<Event>, now: i64) -> (res: EventsResponse)
    ensures
        events_selected(store@, query, now, res),
        coherent(res),
{
    let found = store.select(query.start_or(now), query.offset_or_default(), query.limit_or_default());
    handle_result(Operation::Read, Ok(found))
}

/// Reads one page of events. A query without a lower bound is answered as of
/// the instant at which it is handled.
pub fn select_events(query: EventQuery, store: &Table<Event>) -> (res: EventsResponse)
    ensures
        match query.start {
            Some(start) => events_selected(store@, query, start, res),
            None => exists|now: i64| events_selected(store@, query, now, res),
        },
        coherent(res),
{
    let at: i64 = query.start_or_now();
    select_events_at(query, store, at)
}

/// Replaces, for each event of the batch in turn, every field of the stored
/// event that was created at the same instant. An event that is not stored
/// changes nothing and fails; the others are still applied. The response is
/// the error of the first failure where any event failed, else the events as
/// now stored.
pub fn update_events(store: &mut Table<Event>, events: Events) -> (res: EventsResponse)
    ensures
        events_updated(old(store)@, events.0@, final(store)@, res),
        coherent(res),
{
    let ghost before = store@;
    let mut responses: Vec<Result<Event, StorageError>> = Vec::new();
    let n: usize = events.0.len();
    let mut i: usize = 0;
    proof {
        use_type_invariant(&*store);
    }
    while i < n
        invariant
            i <= n,
            n == events.0.len(),
            ordered(before),
            ordered(store@),
            store@ == replaced_all(before, events.0@.take(i as int)),
            forall|key: int| holds(store@, key) <==> holds(before, key),
            responses@.len() == i,
            forall|j: int|
                0 <= j < i ==> match #[trigger] responses@[j] {
                    Ok(row) => holds(before, events.0@[j].key()) && row == events.0@[j],
                    Err(err) => !holds(before, events.0@[j].key()) && is_not_found(err),
                },
        decreases n - i,
    {
        proof {
            assert(events.0@.take(i + 1).drop_last() =~= events.0@.take(i as int));
            assert forall|key: int| holds(replaced(store@, events.0@[i as int]), key) <==> holds(
                before,
                key,
            ) by {
                lemma_replace_keeps_keys(store@, events.0@[i as int], key);
            }
        }
        let response = store.replace(events.0[i].duplicate());
        responses.push(response);
        i += 1;
    }
    proof {
        assert(events.0@.take(n as int) =~= events.0@);
        lemma_first_failure(responses@);
        if all_held(before, events.0@) {
            assert forall|j: int| 0 <= j < n implies responses@[j] is Ok by {
                assert(holds(before, events.0@[j].key()));
            }
            assert(values(responses@) =~= events.0@);
        } else {
            let miss = choose|miss: int|
                0 <= miss < n && !holds(before, #[trigger] events.0@[miss].key());
            assert(responses@[miss] is Err);
        }
    }
    handle_result(Operation::Write, collect_results(responses))
}

/// Deletes the stored events that were created at the instants of the events
/// of the batch, each instant once, in the order in which the batch first
/// names it. An instant at which no event is stored fails; the others are
/// still deleted. The response is the error of the first failure where any
/// instant failed, else the deleted records.
pub fn delete_events(store: &mut Table<Event>, events: Events) -> (res: EventsResponse)
    ensures
        events_deleted(old(store)@, events.0@, final(store)@, res),
        coherent(res),
{
    let ghost before = store@;
    let ids = events.keys();
    proof {
        lemma_distinct_keys(events.0@);
    }
    let mut responses: Vec<Result<Event, StorageError>> = Vec::new();
    let n: usize = ids.len();
    let mut i: usize = 0;
    proof {
        use_type_invariant(&*store);
    }
    while i < n
        invariant
            i <= n,
            n == ids.len(),
            ids@.no_duplicates(),
            ordered(before),
            ordered(store@),
            store@ == removed_all(before, ids@.take(i as int)),
            forall|j: int| i <= j < n ==> lookup(store@, #[trigger] ids@[j] as int) == lookup(before, ids@[j] as int),
            responses@.len() == i,
            forall|j: int|
                0 <= j < i ==> match #[trigger] responses@[j] {
                    Ok(row) => lookup(before, ids@[j] as int) == Some(row),
                    Err(err) => lookup(before, ids@[j] as int) is None && is_not_found(err),
                },
        decreases n - i,
    {
        proof {
            assert(ids@.take(i + 1).drop_last() =~= ids@.take(i as int));
            assert forall|j: int| i < j < n implies lookup(
                removed(store@, ids@[i as int] as int),
                #[trigger] ids@[j] as int,
            ) == lookup(before, ids@[j] as int) by {
                lemma_remove_keeps_others(store@, ids@[i as int] as int, ids@[j] as int);
            }
        }
        let response = store.remove(ids[i]);
        responses.push(response);
        i += 1;
    }
    proof {
        assert(ids@.take(n as int) =~= ids@);
        lemma_first_failure(responses@);
        if all_keys_held(before, ids@) {
            assert forall|j: int| 0 <= j < n implies responses@[j] is Ok by {
                assert(holds(before, ids@[j] as int));
            }
            assert(values(responses@) =~= rows_of(before, ids@));
        } else {
            let miss = choose|miss: int| 0 <= miss < n && !holds(before, #[trigger] ids@[miss] as int);
            assert(responses@[miss] is Err);
        }
    }
    handle_result(Operation::Write, collect_results(responses))
}

/// The distinct keys of a batch are the instants that the batch names, and
/// none of them occurs twice.
pub proof fn lemma_distinct_keys(events: Seq<Event>)
    ensures
        distinct_keys(events).no_duplicates(),
        forall|key: i64|
            distinct_keys(events).contains(key) <==> exists|i: int|
                0 <= i < events.len() && events[i].created_at == key,
    decreases events.len(),
{
    if events.len() > 0 {
        let front = events.drop_last();
        let last = events.last().created_at;
        lemma_distinct_keys(front);
        let keys = distinct_keys(events);
        let earlier = distinct_keys(front);
        assert forall|key: i64| keys.contains(key) <==> exists|i: int|
            0 <= i < events.len() && events[i].created_at == key by {
            if keys.contains(key) {
                if key == last {
                    assert(events[events.len() - 1].created_at == key);
                } else {
                    let w = choose|w: int| 0 <= w < keys.len() && keys[w] == key;
                    assert(earlier[w] == key);
                    assert(earlier.contains(key));
                    let i = choose|i: int| 0 <= i < front.len() && front[i].created_at == key;
                    assert(events[i].created_at == key);
                }
            }
            if exists|i: int| 0 <= i < events.len() && events[i].created_at == key {
                let i = choose|i: int| 0 <= i < events.len() && events[i].created_at == key;
                if i < front.len() {
                    assert(front[i].created_at == key);
                    assert(earlier.contains(key));
                    let w = choose|w: int| 0 <= w < earlier.len() && earlier[w] == key;
                    assert(keys[w] == key);
                } else if earlier.contains(key) {
                    let w = choose|w: int| 0 <= w < earlier.len() && earlier[w] == key;
                    assert(keys[w] == key);
                } else {
                    assert(keys[keys.len() - 1] == key);
                }
            }
        }
    }
}

} // verus!
