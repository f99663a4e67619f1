//! The sharded cache: a frequency sketch decides which keys are worth
//! keeping, and each key is kept in the shard that its hash selects.
//!
//! Every shard and the sketch are behind a lock of their own. An operation
//! holds at most one lock at a time, so operations on different shards meet
//! only at the sketch, and no order of taking locks can deadlock.

use crate::bloom_filter::BloomFilter;
use crate::bloom_filter::counted;
use crate::bloom_filter::estimate;
use crate::bloom_filter::halved;
use crate::bloom_filter::hits;
use crate::bloom_filter::apart;
use crate::bloom_filter::lemma_counted_is_seen;
use crate::bloom_filter::lemma_counted_once_more;
use crate::bloom_filter::lemma_estimate_counts;
use crate::bloom_filter::lemma_projections;
use crate::bloom_filter::lowered;
use crate::bloom_filter::peak;
use crate::bloom_filter::projections;
use crate::bloom_filter::raised;
use crate::bloom_filter::times;
use crate::bloom_filter::zeros;
use crate::hashing::hash_key;
use crate::hashing::key_bytes;
use crate::hashing::random_seed;
use crate::hashing::xxhash64;
use crate::lock::held_mut;
use crate::lock::lock;
use crate::lock::new_mutex;
use crate::matecito_internal::MatecitoInternal;
use crate::matecito_internal::StoreModel;
use parking_lot::Mutex;
use std::sync::Arc;
use vstd::prelude::*;

verus! {

/// The number of shards of a cache.
pub const NUM_SHARDS: usize = 256;

/// The number of counters of a cache's sketch.
pub const SKETCH_SIZE: u64 = 1000;

/// A sketch is decayed once a counter has passed this multiple of the
/// admission threshold.
pub const DECAY_FACTOR: u64 = 10;

/// What a `put` did.
#[derive(Clone, Copy, Debug, PartialEq, Eq)]
pub enum PutOutcome {
    /// The key's estimate did not exceed the threshold; nothing was stored.
    Rejected { estimate: u64 },
    /// The value went to the key's shard and no key had to leave. The shard
    /// has stored it, unless it is a shard without capacity.
    Admitted { estimate: u64 },
    /// The value was stored in the key's shard, and `evicted` left the shard
    /// for it.
    AdmittedEvicting { estimate: u64, evicted: u64 },
}

/// Whether a key with this estimate is admitted: it is if the estimate
/// exceeds the threshold.
pub open spec fn spec_admits(estimate: u64, put_threshold: usize) -> bool {
    estimate > put_threshold
}

#[verifier::when_used_as_spec(spec_admits)]
pub fn admits(estimate: u64, put_threshold: usize) -> (admitted: bool)
    ensures
        admitted == spec_admits(estimate, put_threshold),
{
    estimate > put_threshold as u64
}

/// Whether the sketch is due for a decay: it is if `max_count` exceeds
/// [`DECAY_FACTOR`] times the threshold.
pub open spec fn spec_decay_due(max_count: u64, put_threshold: usize) -> bool {
    max_count > put_threshold * DECAY_FACTOR
}

#[verifier::when_used_as_spec(spec_decay_due)]
pub fn decay_due(max_count: u64, put_threshold: usize) -> (due: bool)
    ensures
        due == spec_decay_due(max_count, put_threshold),
{
    assert(put_threshold * DECAY_FACTOR == put_threshold * 10 <= u128::MAX);
    max_count as u128 > put_threshold as u128 * DECAY_FACTOR as u128
}

/// The capacity of each shard of a cache for `max_size` values: an equal
/// share, rounded down.
pub fn shard_capacity(max_size: usize) -> (capacity: usize)
    ensures
        capacity == max_size / NUM_SHARDS,
{
    max_size / NUM_SHARDS
}

/// What an operation does first, under the lock of the sketch: it counts an
/// access to `key`, and reads the key's estimate and the sketch's largest
/// counter, in this order.
pub fn observe(sketch: &mut BloomFilter, key: u64) -> (seen: (u64, u64))
    ensures
        final(sketch).seeds() == old(sketch).seeds(),
        final(sketch).counters() == raised(
            old(sketch).counters(),
            old(sketch).indices(key_bytes(key)),
        ),
        final(sketch).max_count() == vstd::math::max(
            old(sketch).max_count() as int,
            peak(final(sketch).counters(), old(sketch).indices(key_bytes(key))) as int,
        ),
        seen.0 == estimate(final(sketch).counters(), old(sketch).indices(key_bytes(key))),
        seen.1 == final(sketch).max_count(),
{
    let bytes = vstd::bytes::u64_to_le_bytes(key);
    sketch.increment(bytes.as_slice());
    (sketch.count_present(bytes.as_slice()), sketch.max_count())
}

/// The counters after a `put` has stored its value: the key that was evicted,
/// if any, is discounted, and then the counters are halved if a decay is due.
pub open spec fn settled(
    counters: Seq<u64>,
    seeds: Seq<u64>,
    evicted: Option<u64>,
    due: bool,
) -> Seq<u64> {
    let discounted = match evicted {
        Some(key) => lowered(counters, projections(seeds, key_bytes(key), counters.len())),
        None => counters,
    };
    if due {
        halved(discounted)
    } else {
        discounted
    }
}

/// What a `put` that has stored its value does last, under the lock of the
/// sketch: it discounts the key that was evicted, if any, and decays the
/// sketch if that is due.
pub fn settle(sketch: &mut BloomFilter, evicted: Option<u64>, due: bool)
    ensures
        final(sketch).seeds() == old(sketch).seeds(),
        final(sketch).counters() == settled(
            old(sketch).counters(),
            old(sketch).seeds(),
            evicted,
            due,
        ),
        final(sketch).max_count() == if due {
            old(sketch).max_count() / 2
        } else {
            old(sketch).max_count()
        },
{
    if let Some(another_key) = evicted {
        let bytes = vstd::bytes::u64_to_le_bytes(another_key);
        sketch.decrement(bytes.as_slice());
    }
    if due {
        sketch.halve();
    }
}

/// What a `get` does under the lock of the key's shard: it looks the key up,
/// which marks a hit as the most recently used entry, and copies the value.
pub fn lookup<T: Clone>(shard: &mut MatecitoInternal<T>, key: u64) -> (value: Option<T>)
    ensures
        final(shard)@ == old(shard)@.get(key),
        match value {
            Some(copy) => old(shard)@.resident(key) && cloned(old(shard)@.entries[key], copy),
            None => !old(shard)@.resident(key),
        },
{
    match shard.get(key) {
        Some(found) => Some(found.clone()),
        None => None,
    }
}

/// What a `put` does to the sketch and to the shard of its key.
pub struct PutEffect<T> {
    pub outcome: PutOutcome,
    /// The counters of the sketch afterwards.
    pub counters: Seq<u64>,
    /// The `max_count` of the sketch afterwards.
    pub max_count: u64,
    /// The shard afterwards.
    pub shard: StoreModel<T>,
}

/// What a `put` of `value` under `key` does to a sketch and to the key's
/// shard, when nothing else touches them meanwhile. The key is counted. If
/// its estimate does not exceed the threshold, that is all. Else the shard
/// stores the value; the key that it evicts, if any, is discounted; and the
/// sketch is decayed if, after the count, `max_count` had passed
/// [`DECAY_FACTOR`] times the threshold.
pub open spec fn put_effect<T>(
    sketch: BloomFilter,
    shard: StoreModel<T>,
    put_threshold: usize,
    key: u64,
    value: T,
) -> PutEffect<T> {
    let indices = sketch.indices(key_bytes(key));
    let counters = raised(sketch.counters(), indices);
    let seen = estimate(counters, indices);
    let top = if peak(counters, indices) > sketch.max_count() {
        peak(counters, indices)
    } else {
        sketch.max_count()
    };
    if !admits(seen, put_threshold) {
        PutEffect {
            outcome: PutOutcome::Rejected { estimate: seen },
            counters,
            max_count: top,
            shard,
        }
    } else {
        let due = decay_due(top, put_threshold);
        PutEffect {
            outcome: match shard.evicted_by(key) {
                Some(evicted) => PutOutcome::AdmittedEvicting { estimate: seen, evicted },
                None => PutOutcome::Admitted { estimate: seen },
            },
            counters: settled(counters, sketch.seeds(), shard.evicted_by(key), due),
            max_count: if due {
                top / 2
            } else {
                top
            },
            shard: shard.put(key, value),
        }
    }
}

/// A `put` by a caller that has the sketch and the shard of the key to
/// itself. [`Cache::put`] goes through the same steps, but takes the sketch
/// and the shard from behind their locks for one step at a time.
pub fn put_unshared<T>(
    sketch: &mut BloomFilter,
    shard: &mut MatecitoInternal<T>,
    put_threshold: usize,
    key: u64,
    value: T,
) -> (outcome: PutOutcome)
    ensures
        final(sketch).seeds() == old(sketch).seeds(),
        outcome == put_effect(*old(sketch), old(shard)@, put_threshold, key, value).outcome,
        final(sketch).counters() == put_effect(
            *old(sketch),
            old(shard)@,
            put_threshold,
            key,
            value,
        ).counters,
        final(sketch).max_count() == put_effect(
            *old(sketch),
            old(shard)@,
            put_threshold,
            key,
            value,
        ).max_count,
        final(shard)@ == put_effect(*old(sketch), old(shard)@, put_threshold, key, value).shard,
{
    let (estimate, max_count) = observe(sketch, key);
    if !admits(estimate, put_threshold) {
        return PutOutcome::Rejected { estimate };
    }
    let evicted = shard.put(key, value);
    let due = decay_due(max_count, put_threshold);
    if evicted.is_some() || due {
        settle(sketch, evicted, due);
    }
    match evicted {
        Some(evicted) => PutOutcome::AdmittedEvicting { estimate, evicted },
        None => PutOutcome::Admitted { estimate },
    }
}

/// A `get` by a caller that has the sketch and the shard of the key to
/// itself: the key is counted, and then looked up. [`Cache::get`] goes
/// through the same steps, each under its lock.
pub fn get_unshared<T: Clone>(
    sketch: &mut BloomFilter,
    shard: &mut MatecitoInternal<T>,
    key: u64,
) -> (value: Option<T>)
    ensures
        final(sketch).seeds() == old(sketch).seeds(),
        final(sketch).counters() == raised(
            old(sketch).counters(),
            old(sketch).indices(key_bytes(key)),
        ),
        final(sketch).max_count() == vstd::math::max(
            old(sketch).max_count() as int,
            peak(final(sketch).counters(), old(sketch).indices(key_bytes(key))) as int,
        ),
        final(shard)@ == old(shard)@.get(key),
        match value {
            Some(copy) => old(shard)@.resident(key) && cloned(old(shard)@.entries[key], copy),
            None => !old(shard)@.resident(key),
        },
{
    let bytes = vstd::bytes::u64_to_le_bytes(key);
    sketch.increment(bytes.as_slice());
    lookup(shard, key)
}

/// Whether `outcome` is what a `put` of `value` under `key` comes to in a
/// cache: what [`put_effect`] gives for some sketch of [`SKETCH_SIZE`]
/// counters and some valid shard, which are the sketch and the shard that the
/// `put` finds behind their locks.
pub open spec fn put_finds<T>(
    put_threshold: usize,
    key: u64,
    value: T,
    outcome: PutOutcome,
) -> bool {
    exists|sketch: BloomFilter, shard: StoreModel<T>|
        #![trigger put_effect(sketch, shard, put_threshold, key, value)]
        {
            &&& sketch.wf()
            &&& sketch.counters().len() == SKETCH_SIZE
            &&& shard.valid()
            &&& outcome == put_effect(sketch, shard, put_threshold, key, value).outcome
        }
}

/// What a `put` in a cache comes to, whatever it finds: the estimate that it
/// reports is one at least, the key is admitted exactly if the estimate
/// exceeds the threshold, and the key that leaves is another key.
pub proof fn lemma_put_finds<T>(put_threshold: usize, key: u64, value: T, outcome: PutOutcome)
    requires
        put_finds(put_threshold, key, value, outcome),
    ensures
        match outcome {
            PutOutcome::Rejected { estimate } => 1 <= estimate && !admits(estimate, put_threshold),
            PutOutcome::Admitted { estimate } => 1 <= estimate && admits(estimate, put_threshold),
            PutOutcome::AdmittedEvicting { estimate, evicted } => 1 <= estimate && admits(
                estimate,
                put_threshold,
            ) && evicted != key,
        },
        put_threshold == 0 ==> !(outcome is Rejected),
{
    let (sketch, shard) = choose|sketch: BloomFilter, shard: StoreModel<T>|
        #![trigger put_effect(sketch, shard, put_threshold, key, value)]
        {
            &&& sketch.wf()
            &&& sketch.counters().len() == SKETCH_SIZE
            &&& shard.valid()
            &&& outcome == put_effect(sketch, shard, put_threshold, key, value).outcome
        };
    let indices = sketch.indices(key_bytes(key));
    lemma_projections(sketch.seeds(), key_bytes(key), sketch.counters().len());
    lemma_counted_is_seen(sketch.counters(), indices);
    if shard.evicted_by(key) is Some {
        shard.lemma_evicts_oldest(key, value);
    }
}

/// Sees to it that the sketch of a cache has its counters. An update that is
/// cut short leaves a sketch without counters behind; such a sketch starts
/// again from zero.
fn restore(sketch: &mut BloomFilter)
    ensures
        final(sketch).wf(),
        final(sketch).counters().len() == SKETCH_SIZE,
        old(sketch).counters().len() == SKETCH_SIZE ==> *final(sketch) == *old(sketch),
{
    if sketch.size() != SKETCH_SIZE as usize {
        *sketch = BloomFilter::new(0, SKETCH_SIZE);
    }
}

/// The shard that keeps `key` under the routing seed `seed`.
pub open spec fn shard_of(seed: u64, key: u64) -> int {
    xxhash64(seed, key_bytes(key)) as int % NUM_SHARDS as int
}

/// A handle to a cache. The shards and the sketch are shared between a
/// handle and its clones; the threshold and the routing seed are the same in
/// all of them.
#[verifier::reject_recursive_types(T)]
pub struct Cache<T> {
    shard_seed: u64,
    sharded_matecitos: Arc<Vec<Mutex<MatecitoInternal<T>>>>,
    /// What each shard was made to hold.
    shard_capacity: usize,
    bloom_filter: Arc<Mutex<BloomFilter>>,
    put_threshold: usize,
}

impl<T> Cache<T> {
    #[verifier::type_invariant]
    spec fn inv(self) -> bool {
        self.sharded_matecitos@.len() == NUM_SHARDS
    }

    pub closed spec fn spec_put_threshold(&self) -> usize {
        self.put_threshold
    }

    /// The seed of the hash that routes keys to shards.
    pub closed spec fn shard_seed(&self) -> u64 {
        self.shard_seed
    }

    /// The number of shards behind this handle.
    pub closed spec fn shard_count(&self) -> nat {
        self.sharded_matecitos@.len()
    }

    /// The number of keys that each shard was made to hold.
    pub closed spec fn shard_capacity(&self) -> usize {
        self.shard_capacity
    }

    /// A cache of [`NUM_SHARDS`] empty shards of [`shard_capacity`]`(max_size)`
    /// each, with a zeroed sketch of [`SKETCH_SIZE`] counters and a routing
    /// seed drawn at random.
    pub fn new(max_size: usize, put_threshold: usize) -> (cache: Self)
        ensures
            cache.put_threshold() == put_threshold,
            cache.shard_count() == NUM_SHARDS,
            cache.shard_capacity() == max_size / NUM_SHARDS,
    {
        let shard_seed = random_seed();
        let capacity = shard_capacity(max_size);
        let mut shards: Vec<Mutex<MatecitoInternal<T>>> = Vec::with_capacity(NUM_SHARDS);
        while shards.len() < NUM_SHARDS
            invariant
                shards@.len() <= NUM_SHARDS,
            decreases NUM_SHARDS - shards@.len(),
        {
            shards.push(new_mutex(MatecitoInternal::new(capacity)));
        }
        let bloom_filter = BloomFilter::new(max_size as u64, SKETCH_SIZE);
        Cache {
            shard_seed,
            sharded_matecitos: Arc::new(shards),
            shard_capacity: capacity,
            bloom_filter: Arc::new(new_mutex(bloom_filter)),
            put_threshold,
        }
    }

    /// The least estimate that does not yet admit a key.
    #[verifier::when_used_as_spec(spec_put_threshold)]
    pub fn put_threshold(&self) -> (threshold: usize)
        ensures
            threshold == self.put_threshold(),
    {
        self.put_threshold
    }

    /// The index of the shard that keeps `key`.
    pub fn get_shard(&self, key: u64) -> (slot: usize)
        ensures
            slot == shard_of(self.shard_seed(), key),
            slot < NUM_SHARDS,
    {
        (hash_key(self.shard_seed, key) % (NUM_SHARDS as u64)) as usize
    }

    /// Counts an access to `key`, and stores `value` under it if the key's
    /// estimate now exceeds the threshold. A key that is evicted to make room
    /// is discounted in the sketch, and the sketch is decayed if a counter
    /// has grown past [`DECAY_FACTOR`] times the threshold.
    ///
    /// These are the steps of [`put_unshared`], each under the lock of what it
    /// touches. The outcome is the one that [`put_effect`] gives for the
    /// sketch and the shard as they were found: other threads may count the
    /// key and fill or empty its shard in between. A cache with a threshold
    /// of zero turns no `put` away, and in a cache whose shards have no
    /// capacity no key is evicted, because none is kept.
    pub fn put(&self, key: u64, value: T) -> (outcome: PutOutcome)
        ensures
            put_finds(self.put_threshold(), key, value, outcome),
            match outcome {
                PutOutcome::Rejected { estimate } => !admits(estimate, self.put_threshold()),
                PutOutcome::Admitted { estimate } => admits(estimate, self.put_threshold()),
                PutOutcome::AdmittedEvicting { estimate, evicted } => admits(
                    estimate,
                    self.put_threshold(),
                ) && evicted != key,
            },
            self.put_threshold() == 0 ==> !(outcome is Rejected),
            self.shard_capacity() == 0 ==> !(outcome is AdmittedEvicting),
    {
        proof {
            use_type_invariant(self);
        }
        let ghost mut found_sketch: Option<BloomFilter> = None;
        let ghost mut found_shard: StoreModel<T> = StoreModel {
            order: Seq::empty(),
            entries: Map::empty(),
            capacity: 0,
        };
        let (estimate, max_count) = {
            let mut held = lock(&self.bloom_filter);
            let sketch = held_mut(&mut held);
            restore(sketch);
            proof {
                found_sketch = Some(*sketch);
            }
            observe(sketch, key)
        };
        let ghost found_sketch = found_sketch->0;
        let outcome = if !admits(estimate, self.put_threshold) {
            PutOutcome::Rejected { estimate }
        } else {
            let evicted = if self.shard_capacity == 0 {
                // Shards without capacity keep nothing, and are left alone.
                None
            } else {
                let slot = self.get_shard(key);
                let mut held = lock(&self.sharded_matecitos[slot]);
                let shard = held_mut(&mut held);
                proof {
                    found_shard = shard@;
                }
                shard.put(key, value)
            };
            let due = decay_due(max_count, self.put_threshold);
            if evicted.is_some() || due {
                let mut held = lock(&self.bloom_filter);
                settle(held_mut(&mut held), evicted, due);
            }
            match evicted {
                Some(evicted) => PutOutcome::AdmittedEvicting { estimate, evicted },
                None => PutOutcome::Admitted { estimate },
            }
        };
        proof {
            assert(outcome == put_effect(
                found_sketch,
                found_shard,
                self.put_threshold(),
                key,
                value,
            ).outcome);
            lemma_put_finds(self.put_threshold(), key, value, outcome);
        }
        outcome
    }
}

impl<T: Clone> Cache<T> {
    /// Counts an access to `key` and returns a copy of the value stored under
    /// it, if there is one; a hit marks the entry as the most recently used
    /// of its shard. These are the steps of [`get_unshared`], each under the
    /// lock of what it touches.
    ///
    /// What the shard holds is up to every thread that has a handle, so the
    /// value is the one found at the time. Only a cache whose shards have no
    /// capacity is sure of its answer: it keeps nothing.
    pub fn get(&self, key: u64) -> (value: Option<T>)
        ensures
            self.shard_capacity() == 0 ==> value is None,
    {
        proof {
            use_type_invariant(self);
        }
        {
            let bytes = vstd::bytes::u64_to_le_bytes(key);
            let mut held = lock(&self.bloom_filter);
            held_mut(&mut held).increment(bytes.as_slice());
        }
        if self.shard_capacity == 0 {
            return None;
        }
        let slot = self.get_shard(key);
        let mut held = lock(&self.sharded_matecitos[slot]);
        lookup(held_mut(&mut held), key)
    }
}

impl<T> Clone for Cache<T> {
    /// Another handle to the same shards and the same sketch.
    fn clone(&self) -> (other: Self)
        ensures
            other == *self,
    {
        proof {
            use_type_invariant(self);
        }
        let sharded_matecitos = self.sharded_matecitos.clone();
        let bloom_filter = self.bloom_filter.clone();
        Cache {
            shard_seed: self.shard_seed,
            sharded_matecitos,
            shard_capacity: self.shard_capacity,
            bloom_filter,
            put_threshold: self.put_threshold,
        }
    }
}

/// Admission gating. Let a sketch have started from zero and counted a run
/// of keys, each of which was either `key` or a key that shares no counter
/// with it, and let one of `key`'s counters be the target of only one of its
/// projections. Then a `put` of `key` sees, as its estimate, one more than the
/// number of times the key was counted before. So the `put` is turned away
/// and leaves the shard as it is while that number is below the threshold;
/// from then on it is admitted, and what is admitted to a valid shard with
/// room for at least one key is resident there afterwards.
pub proof fn lemma_admission_gating<T>(
    sketch: BloomFilter,
    ops: Seq<Seq<int>>,
    put_threshold: usize,
    shard: StoreModel<T>,
    key: u64,
    value: T,
)
    requires
        sketch.counters() == counted(zeros(sketch.counters().len()), ops),
        exists|j: int|
            0 <= j < sketch.indices(key_bytes(key)).len() && hits(
                sketch.indices(key_bytes(key)),
                #[trigger] sketch.indices(key_bytes(key))[j],
            ) == 1,
        forall|k: int|
            0 <= k < ops.len() ==> #[trigger] ops[k] == sketch.indices(key_bytes(key)) || apart(
                ops[k],
                sketch.indices(key_bytes(key)),
            ),
        times(ops, sketch.indices(key_bytes(key))) < u64::MAX,
        shard.valid(),
    ensures
        times(ops, sketch.indices(key_bytes(key))) < put_threshold ==> {
            &&& put_effect(sketch, shard, put_threshold, key, value).outcome
                == PutOutcome::Rejected {
                estimate: (times(ops, sketch.indices(key_bytes(key))) + 1) as u64,
            }
            &&& put_effect(sketch, shard, put_threshold, key, value).shard == shard
        },
        times(ops, sketch.indices(key_bytes(key))) >= put_threshold ==> {
            &&& !(put_effect(sketch, shard, put_threshold, key, value).outcome is Rejected)
            &&& put_effect(sketch, shard, put_threshold, key, value).shard == shard.put(key, value)
            &&& shard.capacity > 0 ==> {
                &&& shard.put(key, value).resident(key)
                &&& shard.put(key, value).entries[key] == value
            }
        },
{
    let indices = sketch.indices(key_bytes(key));
    let size = sketch.counters().len();
    let longer = ops.push(indices);
    assert(size > 0);
    assert forall|j: int| 0 <= j < indices.len() implies 0 <= #[trigger] indices[j] < size by {
        let hash = xxhash64(sketch.seeds()[j], key_bytes(key)) as int;
        assert(indices[j] == hash % size as int);
        vstd::arithmetic::div_mod::lemma_mod_bound(hash, size as int);
    }
    lemma_counted_once_more(zeros(size), ops, indices, indices);
    assert forall|k: int| 0 <= k < longer.len() implies #[trigger] longer[k] == indices || apart(
        longer[k],
        indices,
    ) by {
        if k < ops.len() {
            assert(longer[k] == ops[k]);
        }
    }
    lemma_estimate_counts(size, longer, indices);
    shard.lemma_put(key, value);
}

} // verus!
