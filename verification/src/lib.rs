//! Service-calendar resolution for transit schedule data.
//!
//! The crate turns weekly recurrence patterns and sparse date exceptions
//! into materialized sets of active service dates, stored in a generic
//! id-indexed collection that guarantees unique identifiers.

use vstd::prelude::*;

pub mod collection;
pub mod common_format;
pub mod dates;
pub mod objects;

verus! {

/// Fatal conditions raised during calendar resolution.
#[derive(Debug, PartialEq, Eq)]
pub enum Error {
    /// Two entities with the same identifier were inserted into one collection.
    DuplicateIdentifier,
    /// A row of a source failed to decode; carries the file context.
    MalformedRecord(String),
    /// Neither the pattern source nor the exception source was present.
    MissingCalendarSource,
}

} // verus!
