//! Error kinds reported by the store.

use vstd::prelude::*;

verus! {

/// What went wrong in an operation of the store.
#[derive(Debug, Clone, Copy, PartialEq, Eq, Structural)]
pub enum LsmError {
    /// A block or table failed a structural check.
    Corruption,
    /// An operation was asked for in a state or with arguments that do not allow it.
    InvariantViolated,
    /// A wrapped iterator has reported an error before.
    IteratorErrored,
}

impl LsmError {
    /// The words that describe the error.
    pub open spec fn message_spec(&self) -> Seq<char> {
        match self {
            LsmError::Corruption => "corrupted block or table"@,
            LsmError::InvariantViolated => "operation not allowed on these arguments"@,
            LsmError::IteratorErrored => "iterator has errored"@,
        }
    }

    /// A short description of the error.
    pub fn message(&self) -> (r: &'static str)
        ensures
            r@ == self.message_spec(),
    {
        match self {
            LsmError::Corruption => "corrupted block or table",
            LsmError::InvariantViolated => "operation not allowed on these arguments",
            LsmError::IteratorErrored => "iterator has errored",
        }
    }
}

} // verus!
