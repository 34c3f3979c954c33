//! Error taxonomy: planning errors (bad argument counts, incompatible
//! element types, invalid literal modifiers), execution errors (violations
//! detectable only from the data at evaluation time), and internal errors
//! (an upstream contract breach, never bad user input).

use vstd::prelude::*;

verus! {

/// One typed failure returned by an operation; no partial results.
#[derive(Debug)]
pub enum ArrayError {
    /// The arguments could never be valid for this operation.
    Plan(String),
    /// The data itself violated a run-time rule of the operation.
    Exec(String),
    /// An internal shape or offset invariant did not hold.
    Internal(String),
}

impl ArrayError {
    /// The message carried by the error, whatever its kind.
    pub fn message(&self) -> &String {
        match self {
            ArrayError::Plan(m) => m,
            ArrayError::Exec(m) => m,
            ArrayError::Internal(m) => m,
        }
    }

    pub fn is_plan(&self) -> (r: bool)
        ensures
            r == (self is Plan),
    {
        matches!(self, ArrayError::Plan(_))
    }

    pub fn is_exec(&self) -> (r: bool)
        ensures
            r == (self is Exec),
    {
        matches!(self, ArrayError::Exec(_))
    }

    pub fn is_internal(&self) -> (r: bool)
        ensures
            r == (self is Internal),
    {
        matches!(self, ArrayError::Internal(_))
    }
}

} // verus!
