//! What a query on a vertex set can fail with.

use crate::render::{decimal, push_decimal};
use vstd::prelude::*;
use vstd::string::*;

verus! {

/// A failed query.
#[derive(Clone, Copy, Debug, PartialEq, Eq, Structural)]
pub enum DagError {
    /// The identity map has no name for this id: the map is damaged, or the
    /// ids come from another map.
    LookupFailure { id: u64 },
}

impl DagError {
    /// The text of the message.
    pub open spec fn message_spec(self) -> Seq<char> {
        match self {
            DagError::LookupFailure { id } => "no vertex name for id "@ + decimal(id as nat),
        }
    }

    /// A message for people.
    pub fn message(&self) -> (r: String)
        ensures
            r@ == self.message_spec(),
    {
        match self {
            DagError::LookupFailure { id } => {
                let mut out = String::from_str("no vertex name for id ");
                push_decimal(&mut out, *id);
                out
            },
        }
    }
}

} // verus!
