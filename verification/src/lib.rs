//! A pseudonymous voting ledger.
//!
//! The ledger records a single client's up/down opinion on a specific
//! revision of a named item ("snap"). Clients are referenced only by an
//! opaque hash, which is resolved to an internal numeric identity at
//! query and write time; the internal identity never appears on the
//! public surface. For a given (client, item, revision) triple at most
//! one vote row exists: casting again overwrites the direction of the
//! existing row instead of inserting a second one.

pub mod laws;
pub mod model;
pub mod store;

pub use store::{DbError, Vote, VoteStore};
