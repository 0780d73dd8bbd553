//! Errors of parsing and resolution.
use vstd::prelude::*;

verus! {

/// What can go wrong when parsing constraints or resolving.
#[derive(Debug)]
pub enum ResolverError {
    /// A version literal is malformed.
    InvalidVersion { version: String, reason: String },
    /// A constraint clause is well formed but cannot be turned into a range.
    InvalidConstraint { constraint: String, reason: String },
    /// The solver proved that no assignment satisfies the requirements.
    ResolutionFailed { message: String, explanation: String },
    /// The solver failed for another reason.
    SolverError { message: String },
}

} // verus!
