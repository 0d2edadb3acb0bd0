//! Error taxonomy.
//!
//! Every failing operation reports exactly one of these kinds, so a client
//! can tell "retry with new credentials" (`Unauthenticated`) from "fix your
//! request" (`InvalidInput`) from "resource absent" (`NotFound`) from
//! "duplicate unique key" (`Conflict`).  Authentication failures are reported
//! uniformly as `Unauthenticated`, whatever the underlying cause, so that
//! errors leak no credential information.

use vstd::prelude::*;

verus! {

#[derive(Clone, Copy, PartialEq, Eq, Structural, Debug)]
pub enum ApiError {
    /// Missing, invalid, expired or revoked token, or bad login credentials.
    Unauthenticated,
    /// Malformed request body, bad field values, size or ordering violations.
    InvalidInput,
    /// Duplicate unique key on create.
    Conflict,
    /// Reference to a nonexistent user, dancer or resource.
    NotFound,
}

impl ApiError {
    /// A stable label for the error kind, for callers that log or render it.
    pub fn label(&self) -> (r: &'static str)
        ensures
            self is Unauthenticated ==> r@ == "unauthenticated"@,
            self is InvalidInput ==> r@ == "invalid input"@,
            self is Conflict ==> r@ == "conflict"@,
            self is NotFound ==> r@ == "not found"@,
    {
        match self {
            ApiError::Unauthenticated => "unauthenticated",
            ApiError::InvalidInput => "invalid input",
            ApiError::Conflict => "conflict",
            ApiError::NotFound => "not found",
        }
    }
}

} // verus!
