//! Mutual exclusion for the parts of the cache that threads share.
//!
//! The locks are `parking_lot` mutexes. Nothing is known of what a lock holds
//! beyond its type: between two critical sections any other thread may have
//! changed it. A type whose values are all well formed, such as
//! [`crate::bloom_filter::BloomFilter`], can therefore be used as it comes out
//! of a lock.

use parking_lot::Mutex;
use parking_lot::MutexGuard;
use vstd::prelude::*;

verus! {

/// `lock_api::Mutex`, of which `parking_lot::Mutex` is an instance. Opaque.
#[verifier::external_type_specification]
#[verifier::external_body]
#[verifier::reject_recursive_types(R)]
#[verifier::reject_recursive_types(T)]
pub struct ExMutex<R, T: ?Sized>(parking_lot::lock_api::Mutex<R, T>);

/// `parking_lot::RawMutex`, the raw lock inside `parking_lot::Mutex`. Opaque.
#[verifier::external_type_specification]
#[verifier::external_body]
pub struct ExRawMutex(parking_lot::RawMutex);

/// A held lock: the `parking_lot::MutexGuard` that `Mutex::lock` returns. The
/// lock is released when this value is dropped. The guard's own type cannot
/// be declared, being bounded by `lock_api`'s raw-mutex trait, so it is kept
/// behind this struct.
#[verifier::external_body]
#[verifier::reject_recursive_types(T)]
pub(crate) struct Held<'a, T> {
    guard: MutexGuard<'a, T>,
}

/// `Mutex::new`: an unlocked mutex that holds `value`.
#[verifier::external_body]
pub(crate) fn new_mutex<T>(value: T) -> Mutex<T> {
    Mutex::new(value)
}

/// `Mutex::lock`: blocks until the mutex is free, and takes it. A thread that
/// asks for a mutex it holds already waits forever; the callers in this crate
/// give each lock back before they take another.
#[verifier::external_body]
pub(crate) fn lock<'a, T>(mutex: &'a Mutex<T>) -> Held<'a, T> {
    Held { guard: mutex.lock() }
}

/// The guard's `deref_mut`: what the held mutex protects. Nothing is claimed
/// of the value found there.
#[verifier::external_body]
pub(crate) fn held_mut<'a, 'b, T>(held: &'a mut Held<'b, T>) -> &'a mut T {
    &mut *held.guard
}

} // verus!
