//! The persistent entities of the calendar model.

use vstd::prelude::*;
use crate::collection::Id;
use crate::dates::DateSet;

verus! {

/// The kind of a date exception: it adds or removes one active date.
#[derive(Debug, Clone, Copy, PartialEq, Eq, Structural)]
pub enum ExceptionType {
    Add,
    Remove,
}

/// A service calendar: the materialized set of calendar dates on which
/// one transit service runs.
#[derive(Debug)]
pub struct Calendar {
    /// Identifier of the service, unique within a collection.
    pub id: String,
    /// The active dates, distinct and in ascending order.
    pub dates: DateSet,
}

impl Id for Calendar {
    open spec fn spec_id(&self) -> Seq<char> {
        self.id@
    }

    fn id(&self) -> (r: &String) {
        &self.id
    }
}

} // verus!
