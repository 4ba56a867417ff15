//! The `users` resource: its record, the typed values that its requests are
//! extracted into, and its four handlers.

use crate::common::{
    coherent, handle_result, not_found_response, reject, rejected_with, success_with, Operation,
    Rejection, RequestBody, ResponseBody, ACCEPTED, OK,
};
use crate::model::{holds, inserted, lookup, removed, replaced};
use crate::table::{Record, Table};
use vstd::prelude::*;

verus! {

/// A user. `id` identifies it; every other field is replaced as a whole by an
/// update.
#[derive(Debug, Clone, PartialEq, Eq)]
pub struct User {
    pub id: i32,
    pub name: String,
    /// Opaque identifier that the client chose.
    pub fingerprint: String,
    /// Offset from UTC in hours.
    pub timezone_offset: Option<i32>,
    pub favorite_team: Option<String>,
    pub dark_mode: Option<bool>,
}

/// The identifier of a user, as it stands in a request path.
#[derive(Debug, Clone, Copy, PartialEq, Eq)]
pub struct UserId(pub i32);

/// Status and body of a response that carries one user.
pub type UserResponse = (u16, ResponseBody<User>);

/// Status and body of the response to a create, which carries the user that
/// was added, or none where the user was skipped.
pub type UserCreatedResponse = (u16, ResponseBody<Option<User>>);

impl Record for User {
    open spec fn key(&self) -> int {
        self.id as int
    }

    fn key_of(&self) -> (k: i64) {
        self.id as i64
    }

    fn duplicate(&self) -> (copy: Self) {
        User {
            id: self.id,
            name: self.name.clone(),
            fingerprint: self.fingerprint.clone(),
            timezone_offset: self.timezone_offset,
            favorite_team: match &self.favorite_team {
                Some(team) => Some(team.clone()),
                None => None,
            },
            dark_mode: self.dark_mode,
        }
    }
}

/// What a create makes of the rows `before` and a user: the user is inserted
/// unless its id is taken, and the response is a success with status 202 that
/// carries the user where it was added and nothing where it was skipped.
pub open spec fn user_created(
    before: Seq<User>,
    user: User,
    after: Seq<User>,
    res: UserCreatedResponse,
) -> bool {
    &&& after == inserted(before, user)
    &&& res.0 == ACCEPTED
    &&& success_with(
        res.1,
        if holds(before, user.key()) {
            None::<User>
        } else {
            Some(user)
        },
    )
}

/// What a read of the user with the given id answers: status 200 with the
/// stored user, or the not-found error.
pub open spec fn user_selected(rows: Seq<User>, user_id: UserId, res: UserResponse) -> bool {
    match lookup(rows, user_id.0 as int) {
        Some(user) => res.0 == OK && success_with(res.1, user),
        None => not_found_response(res),
    }
}

/// What an update makes of the rows `before` and a user: the row with the
/// user's id is replaced and the response is status 202 with the user as now
/// stored; where no row has that id, no row changes and the response is the
/// not-found error.
pub open spec fn user_updated(before: Seq<User>, user: User, after: Seq<User>, res: UserResponse) -> bool {
    &&& after == replaced(before, user)
    &&& if holds(before, user.key()) {
        res.0 == ACCEPTED && success_with(res.1, user)
    } else {
        not_found_response(res)
    }
}

/// What a delete makes of the rows `before` and an id: the row with that id
/// is removed and the response is status 202 with the deleted user; where no
/// row has that id, no row changes and the response is the not-found error.
pub open spec fn user_deleted(
    before: Seq<User>,
    user_id: UserId,
    after: Seq<User>,
    res: UserResponse,
) -> bool {
    &&& after == removed(before, user_id.0 as int)
    &&& match lookup(before, user_id.0 as int) {
        Some(user) => res.0 == ACCEPTED && success_with(res.1, user),
        None => not_found_response(res),
    }
}

impl User {
    /// The user of a request body, from what the parsing step made of the
    /// body: the payload where it parsed, the error response where it did not.
    pub fn from_request(parsed: Result<RequestBody<User>, Rejection>) -> (res: Result<
        User,
        UserResponse,
    >)
        ensures
            match parsed {
                Ok(body) => res == Ok::<User, UserResponse>(body.data),
                Err(rejection) => res is Err && rejected_with(res->Err_0, rejection) && coherent(
                    res->Err_0,
                ),
            },
    {
        match parsed {
            Ok(body) => Ok(body.data),
            Err(rejection) => Err(reject(rejection)),
        }
    }
}

impl UserId {
    /// The user identifier of a request path, from what the parsing step made
    /// of the path segment.
    pub fn from_request_parts(parsed: Result<i32, Rejection>) -> (res: Result<UserId, UserResponse>)
        ensures
            match parsed {
                Ok(id) => res == Ok::<UserId, UserResponse>(UserId(id)),
                Err(rejection) => res is Err && rejected_with(res->Err_0, rejection) && coherent(
                    res->Err_0,
                ),
            },
    {
        match parsed {
            Ok(id) => Ok(UserId(id)),
            Err(rejection) => Err(reject(rejection)),
        }
    }
}

/// Creates a user. A user whose id is taken is skipped without an error: the
/// response is then a success that carries no row.
pub fn create_user(store: &mut Table<User>, user: User) -> (res: UserCreatedResponse)
    ensures
        user_created(old(store)@, user, final(store)@, res),
        coherent(res),
{
    let added = store.insert(user);
    handle_result(Operation::Write, Ok(added))
}

/// Reads the user with the given id.
pub fn select_user(user_id: UserId, store: &Table<User>) -> (res: UserResponse)
    ensures
        user_selected(store@, user_id, res),
        coherent(res),
{
    handle_result(Operation::Read, store.find(user_id.0 as i64))
}

/// Replaces every field of the user that has `user`'s id. Where there is no
/// such user, no row changes and the response is the not-found error.
pub fn update_user(store: &mut Table<User>, user: User) -> (res: UserResponse)
    ensures
        user_updated(old(store)@, user, final(store)@, res),
        coherent(res),
{
    handle_result(Operation::Write, store.replace(user))
}

/// Deletes the user with the given id and returns the deleted record.
pub fn delete_user(user_id: UserId, store: &mut Table<User>) -> (res: UserResponse)
    ensures
        user_deleted(old(store)@, user_id, final(store)@, res),
        coherent(res),
{
    handle_result(Operation::Write, store.remove(user_id.0 as i64))
}

} // verus!
