//! Error values surfaced to callers.

use vstd::prelude::*;

verus! {

/// A malformed row in the backing file, or a non-numeric id typed by
/// the user.
#[derive(Clone, Copy, PartialEq, Eq, Structural, Debug)]
pub struct ParseError;

impl ParseError {
    /// A short description for reporting to the user.
    pub fn message(&self) -> (m: String)
        ensures
            m@ == "not a valid integer or row"@,
    {
        String::from_str("not a valid integer or row")
    }
}

} // verus!
