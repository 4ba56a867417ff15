//! Request/response contract layer of a small resource-oriented HTTP API over
//! two tables, `users` and `events`.
//!
//! Every response is a status code with one of two envelope shapes; request
//! data reaches a handler only as typed values; each handler applies one
//! storage operation and maps its outcome to a response.
//!
//! - [`common`]: the envelope, the error vocabulary, and the rule that maps a
//!   storage outcome to a response.
//! - [`model`]: the rows of a table as a sequence in key order, and what each
//!   storage operation makes of them.
//! - [`table`]: a table held in memory that carries out those operations.
//! - [`users`], [`events`]: the two resources with their extractors and
//!   handlers.
//! - [`laws`]: what holds of the handlers whatever the rows and the request.

pub mod common;
pub mod events;
pub mod laws;
pub mod model;
pub mod table;
pub mod users;
