//! The error vocabulary of the cache.

use vstd::prelude::*;

verus! {

/// Why a cache could not do what it was asked.
#[derive(Debug, PartialEq)]
pub enum MatecitoErrors {
    /// The cache has no room left. The sharded cache never reports it: it
    /// makes room by evicting.
    CacheFull(String),
}

/// What a cache did, or why it could not.
#[derive(Debug, PartialEq)]
pub enum MatecitoResult<T> {
    Success(T),
    Failure(MatecitoErrors),
}

} // verus!
