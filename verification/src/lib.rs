//! Matecito is a concurrent in-memory cache of bounded size: an in-process
//! store for the results of expensive computations, shared between threads,
//! that keeps the keys that are asked for often.
//!
//! A [`Matecito`] is a cheap handle; its clones share one cache. Keys are
//! 64-bit integers.
//!
//! The parts, from the bottom up: [`linked_list`] keeps keys in the order of
//! their last use; [`matecito_internal`] is one shard, a bounded store that
//! evicts the key that has gone unused longest; [`bloom_filter`] estimates
//! how often a key is asked for; [`cache`] routes keys to shards and admits
//! only the keys that are asked for often.

pub mod bloom_filter;
pub mod cache;
pub mod errors;
pub mod hashing;
pub mod linked_list;
mod lock;
pub mod matecito_internal;

use crate::cache::Cache;
use crate::cache::NUM_SHARDS;
use crate::cache::PutOutcome;
use crate::cache::admits;
use crate::cache::put_finds;
use std::sync::Arc;
use vstd::prelude::*;

verus! {

/// The estimate that a key has to exceed before a `Matecito` stores a value
/// for it.
pub const PUT_THRESHOLD: usize = 1000;

/// A handle to a cache of values of type `T` under integer keys.
#[verifier::reject_recursive_types(T)]
pub struct Matecito<T>(Arc<Cache<T>>);

impl<T> Matecito<T> {
    /// A cache for `num_elements` values, spread evenly over its shards.
    pub fn new(num_elements: usize) -> (matecito: Self)
        ensures
            matecito.put_threshold() == PUT_THRESHOLD,
            matecito.shard_capacity() == num_elements / NUM_SHARDS,
    {
        Matecito(Arc::new(Cache::new(num_elements, PUT_THRESHOLD)))
    }

    /// The admission threshold of the cache behind this handle.
    pub closed spec fn put_threshold(&self) -> usize {
        self.0.put_threshold()
    }

    /// The number of keys that each shard of the cache was made to hold.
    pub closed spec fn shard_capacity(&self) -> usize {
        self.0.shard_capacity()
    }

    /// Counts an access to `key`, and stores `value` under it if the key has
    /// been asked for often enough. The outcome is what [`Cache::put`] comes
    /// to under this handle's threshold.
    pub fn put(&self, key: u64, value: T) -> (outcome: PutOutcome)
        ensures
            put_finds(self.put_threshold(), key, value, outcome),
            match outcome {
                PutOutcome::Rejected { estimate } => !admits(estimate, self.put_threshold()),
                PutOutcome::Admitted { estimate } => admits(estimate, self.put_threshold()),
                PutOutcome::AdmittedEvicting { estimate, evicted } => admits(
                    estimate,
                    self.put_threshold(),
                ) && evicted != key,
            },
            self.put_threshold() == 0 ==> !(outcome is Rejected),
            self.shard_capacity() == 0 ==> !(outcome is AdmittedEvicting),
    {
        self.0.put(key, value)
    }
}

impl<T: Clone> Matecito<T> {
    /// Counts an access to `key` and returns a copy of the value stored under
    /// it, if there is one. A cache for fewer values than it has shards keeps
    /// none.
    pub fn get(&self, key: u64) -> (value: Option<T>)
        ensures
            self.shard_capacity() == 0 ==> value is None,
    {
        self.0.get(key)
    }
}

impl<T> Clone for Matecito<T> {
    /// Another handle to the same cache.
    fn clone(&self) -> (other: Self)
        ensures
            other == *self,
    {
        Matecito(self.0.clone())
    }
}

} // verus!
