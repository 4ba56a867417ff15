//! The response envelope, the error vocabulary, and the single rule that maps
//! a storage outcome to a response.

use vstd::prelude::*;

verus! {

/// Status of a successful pure read.
pub const OK: u16 = 200;

/// Status of a successful write: the change was accepted and applied.
pub const ACCEPTED: u16 = 202;

/// Status of every response that carries a validation or storage error.
pub const BAD_REQUEST: u16 = 400;

/// Status of the response to a request that matches no route.
pub const NOT_FOUND: u16 = 404;

/// One problem descriptor of an error envelope.
#[derive(Debug, Clone, PartialEq, Eq)]
pub struct ApiError {
    /// Status code as text.
    pub status: String,
    /// Human-readable message.
    pub detail: String,
}

/// Navigation metadata of a success envelope.
#[derive(Debug, Clone, PartialEq, Eq)]
pub struct Links {
    pub this: String,
    pub next: Option<String>,
}

/// Body of every response: either the payload with its links, or a list of
/// one or more problem descriptors.
#[derive(Debug, Clone, PartialEq, Eq)]
pub enum ResponseBody<T> {
    ResponseOk { data: T, links: Links },
    ResponseErr { errors: Vec<ApiError> },
}

/// Body of every request that carries a payload.
#[derive(Debug, Clone, PartialEq, Eq)]
pub struct RequestBody<T> {
    pub data: T,
}

/// A validation failure as the parsing step reports it: the status code it
/// chose and a message that says what failed to parse.
#[derive(Debug, PartialEq, Eq)]
pub struct Rejection {
    status: u16,
    body_text: String,
}

/// Where a storage failure comes from.
#[derive(Debug, Clone, Copy, PartialEq, Eq, Structural)]
pub enum StorageErrorKind {
    /// The operation targeted a key that the table does not hold.
    NotFound,
    /// A uniqueness constraint was violated.
    Conflict,
    /// Any other failure that the backend reports.
    Other,
}

/// A failure that the storage collaborator reports after an attempted
/// operation, with the backend's own message.
#[derive(Debug, Clone, PartialEq, Eq)]
pub struct StorageError {
    pub kind: StorageErrorKind,
    pub detail: String,
}

/// Whether an operation only reads the table or changes it.
#[derive(Debug, Clone, Copy, PartialEq, Eq, Structural)]
pub enum Operation {
    Read,
    Write,
}

/// The decimal digit `d` as a character, for `0 <= d <= 9`.
pub open spec fn digit(d: int) -> char {
    (('0' as u8) + d) as u8 as char
}

/// The three decimal digits of a status code between 100 and 999.
pub open spec fn code_digits(code: u16) -> Seq<char> {
    seq![digit(code as int / 100), digit((code as int / 10) % 10), digit(code as int % 10)]
}

/// The message of the storage error for a key that is not stored.
pub open spec fn not_found_text() -> Seq<char> {
    "Record not found"@
}

/// The error is the one that a table reports for a key it does not hold.
pub open spec fn is_not_found(err: StorageError) -> bool {
    err.kind == StorageErrorKind::NotFound && err.detail@ == not_found_text()
}

/// The status of a successful operation: 200 for a pure read, 202 for a write.
pub open spec fn success_status(op: Operation) -> u16 {
    match op {
        Operation::Read => OK,
        Operation::Write => ACCEPTED,
    }
}

/// Status and body agree: a success envelope goes with a status from 200 to
/// 299, an error envelope has at least one descriptor and goes with a status
/// from 400 to 499.
pub open spec fn coherent<T>(res: (u16, ResponseBody<T>)) -> bool {
    match res.1 {
        ResponseBody::ResponseOk { .. } => 200 <= res.0 < 300,
        ResponseBody::ResponseErr { errors } => 400 <= res.0 < 500 && errors@.len() >= 1,
    }
}

/// The body is a success envelope that carries `data`, with the fixed
/// navigation entry and no next page.
pub open spec fn success_with<T>(body: ResponseBody<T>, data: T) -> bool {
    &&& body matches ResponseBody::ResponseOk { data: d, links }
    &&& d == data
    &&& links.this@ == "links"@
    &&& links.next is None
}

/// The body is a success envelope whose payload holds exactly `rows`, with the
/// fixed navigation entry and no next page.
pub open spec fn success_with_rows<R>(body: ResponseBody<Vec<R>>, rows: Seq<R>) -> bool {
    &&& body matches ResponseBody::ResponseOk { data, links }
    &&& data@ == rows
    &&& links.this@ == "links"@
    &&& links.next is None
}

/// The body is an error envelope with exactly one descriptor, whose status
/// text and message are the given ones.
pub open spec fn single_error<T>(body: ResponseBody<T>, status: Seq<char>, detail: Seq<char>) -> bool {
    &&& body matches ResponseBody::ResponseErr { errors }
    &&& errors@.len() == 1
    &&& errors@[0].status@ == status
    &&& errors@[0].detail@ == detail
}

/// The response is the one that a rejected request gets: status 400 and one
/// descriptor with the parser's status code as text and its message.
pub open spec fn rejected_with<T>(res: (u16, ResponseBody<T>), rejection: Rejection) -> bool {
    res.0 == BAD_REQUEST && single_error(res.1, code_digits(rejection.code()), rejection.message())
}

/// The response is the one that an operation on a key that is not stored
/// gets: status 400 and one descriptor with the status text "400" and the
/// not-found message.
pub open spec fn not_found_response<T>(res: (u16, ResponseBody<T>)) -> bool {
    res.0 == BAD_REQUEST && single_error(res.1, "400"@, not_found_text())
}

/// Text of a status code: its three decimal digits.
///
/// Calls `StatusCode::from_u16` and `StatusCode::as_str` of the `http` crate,
/// as re-exported by `axum`. The first accepts exactly the codes from 100 to
/// 999; the second returns the slice of a table of digits that holds the
/// code's decimal numeral, without the reason phrase.
#[verifier::external_body]
fn status_text(code: u16) -> (text: String)
    requires
        100 <= code <= 999,
    ensures
        text@ == code_digits(code),
{
    match axum::http::StatusCode::from_u16(code) {
        Ok(status) => status.as_str().to_owned(),
        Err(_) => String::new(),
    }
}

impl Rejection {
    #[verifier::type_invariant]
    spec fn in_range(self) -> bool {
        100 <= self.status <= 999
    }

    /// The status code that the parsing step reported.
    pub closed spec fn code(self) -> u16 {
        self.status
    }

    /// The message of the parsing step.
    pub closed spec fn message(self) -> Seq<char> {
        self.body_text@
    }

    /// A rejection with the given status code and message; `None` where the
    /// code is no HTTP status code, that is, not between 100 and 999.
    pub fn new(status: u16, body_text: String) -> (res: Option<Rejection>)
        ensures
            res is Some <==> 100 <= status <= 999,
            res matches Some(r) ==> r.code() == status && r.message() == body_text@,
    {
        if 100 <= status && status <= 999 {
            Some(Rejection { status, body_text })
        } else {
            None
        }
    }

    /// The status code that the parsing step reported.
    pub fn status(&self) -> (code: u16)
        ensures
            code == self.code(),
            100 <= code <= 999,
    {
        proof {
            use_type_invariant(self);
        }
        self.status
    }

    /// The message of the parsing step.
    pub fn body_text(&self) -> (text: &String)
        ensures
            text@ == self.message(),
    {
        &self.body_text
    }
}

impl StorageError {
    /// The error for a key that is not stored.
    pub fn not_found() -> (err: StorageError)
        ensures
            is_not_found(err),
    {
        StorageError { kind: StorageErrorKind::NotFound, detail: "Record not found".to_owned() }
    }
}

/// Response to a request whose path matches no route: status 404 and one
/// descriptor, `{status: "404", detail: "path not found"}`.
pub fn error_routing() -> (res: (u16, ResponseBody<()>))
    ensures
        res.0 == NOT_FOUND,
        single_error(res.1, "404"@, "path not found"@),
        coherent(res),
{
    let mut errors: Vec<ApiError> = Vec::new();
    errors.push(ApiError { status: "404".to_owned(), detail: "path not found".to_owned() });
    (NOT_FOUND, ResponseBody::ResponseErr { errors })
}

/// Response to a request that the parsing step rejected: status 400 and one
/// descriptor, which carries the parser's status code as text and its message.
pub fn reject<T>(rejection: Rejection) -> (res: (u16, ResponseBody<T>))
    ensures
        rejected_with(res, rejection),
        coherent(res),
{
    let status = status_text(rejection.status());
    let mut errors: Vec<ApiError> = Vec::new();
    errors.push(ApiError { status, detail: rejection.body_text });
    (BAD_REQUEST, ResponseBody::ResponseErr { errors })
}

/// The one rule that turns a storage outcome into a response.
///
/// A value becomes a success envelope with status 200 after a read and 202
/// after a write. A storage error becomes status 400 with one descriptor,
/// whose status text is "400" and whose message is the backend's own.
pub fn handle_result<T>(op: Operation, result: Result<T, StorageError>) -> (res: (
    u16,
    ResponseBody<T>,
))
    ensures
        match result {
            Ok(data) => res.0 == success_status(op) && success_with(res.1, data),
            Err(err) => res.0 == BAD_REQUEST && single_error(res.1, "400"@, err.detail@),
        },
        coherent(res),
{
    match result {
        Ok(data) => {
            let status = match op {
                Operation::Read => OK,
                Operation::Write => ACCEPTED,
            };
            let links = Links { this: "links".to_owned(), next: None };
            (status, ResponseBody::ResponseOk { data, links })
        },
        Err(err) => {
            let mut errors: Vec<ApiError> = Vec::new();
            errors.push(ApiError { status: "400".to_owned(), detail: err.detail });
            (BAD_REQUEST, ResponseBody::ResponseErr { errors })
        },
    }
}

} // verus!
