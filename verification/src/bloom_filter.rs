//! A counting frequency sketch.
//!
//! The sketch is an array of saturating counters. Each key is projected onto
//! one counter per seed; counting a key raises all of its counters, and the
//! estimate for a key is the smallest of them. Other keys that share a
//! counter can only make an estimate larger, never smaller.

use crate::hashing::hash_bytes;
use crate::hashing::xxhash64;
use vstd::prelude::*;

verus! {

/// The number of projections of a sketch made by [`BloomFilter::new`].
pub const NUM_HASH_FUNCTIONS: usize = 7;

/// How many entries of `indices` are `i`.
pub open spec fn hits(indices: Seq<int>, i: int) -> nat
    decreases indices.len(),
{
    if indices.len() == 0 {
        0
    } else {
        hits(indices.drop_last(), i) + if indices.last() == i {
            1nat
        } else {
            0nat
        }
    }
}

/// The counters after a key with the projections `indices` has been counted
/// once: each counter rises by the number of projections that land on it, as
/// far as its range goes.
pub open spec fn raised(counters: Seq<u64>, indices: Seq<int>) -> Seq<u64> {
    Seq::new(
        counters.len(),
        |i: int|
            if counters[i] + hits(indices, i) <= u64::MAX {
                (counters[i] + hits(indices, i)) as u64
            } else {
                u64::MAX
            },
    )
}

/// The counters after a key with the projections `indices` has been
/// discounted once: each counter falls by the number of projections that land
/// on it, but not below zero.
pub open spec fn lowered(counters: Seq<u64>, indices: Seq<int>) -> Seq<u64> {
    Seq::new(
        counters.len(),
        |i: int|
            if counters[i] >= hits(indices, i) {
                (counters[i] - hits(indices, i)) as u64
            } else {
                0
            },
    )
}

/// The counters after a decay: each is halved, rounding down.
pub open spec fn halved(counters: Seq<u64>) -> Seq<u64> {
    Seq::new(counters.len(), |i: int| counters[i] / 2)
}

/// The smallest of the counters that `indices` name; zero if there is none.
pub open spec fn estimate(counters: Seq<u64>, indices: Seq<int>) -> u64
    decreases indices.len(),
{
    if indices.len() == 0 {
        0
    } else if indices.len() == 1 {
        counters[indices[0]]
    } else {
        let rest = estimate(counters, indices.drop_last());
        if counters[indices.last()] < rest {
            counters[indices.last()]
        } else {
            rest
        }
    }
}

/// The largest of the counters that `indices` name; zero if there is none.
pub open spec fn peak(counters: Seq<u64>, indices: Seq<int>) -> u64
    decreases indices.len(),
{
    if indices.len() == 0 {
        0
    } else {
        let rest = peak(counters, indices.drop_last());
        if counters[indices.last()] > rest {
            counters[indices.last()]
        } else {
            rest
        }
    }
}

/// The counters that the seeds project `key` onto, in a sketch of `size`
/// counters: for each seed, the key's hash under it modulo `size`. A sketch
/// without counters projects onto nothing.
pub open spec fn projections(seeds: Seq<u64>, key: Seq<u8>, size: nat) -> Seq<int> {
    if size == 0 {
        Seq::empty()
    } else {
        Seq::new(seeds.len(), |j: int| xxhash64(seeds[j], key) as int % size as int)
    }
}

/// The seeds of a sketch: one for each projection, counting from zero.
pub open spec fn standard_seeds() -> Seq<u64> {
    Seq::new(NUM_HASH_FUNCTIONS as nat, |j: int| j as u64)
}

/// The counters of a sketch of `size` counters in which nothing has been
/// counted yet.
pub open spec fn zeros(size: nat) -> Seq<u64> {
    Seq::new(size, |i: int| 0u64)
}

/// The counters after the keys with the projections `ops[0]`, `ops[1]`, ...
/// have been counted once each, in this order.
pub open spec fn counted(counters: Seq<u64>, ops: Seq<Seq<int>>) -> Seq<u64>
    decreases ops.len(),
{
    if ops.len() == 0 {
        counters
    } else {
        raised(counted(counters, ops.drop_last()), ops.last())
    }
}

/// How many of `ops` are `indices`.
pub open spec fn times(ops: Seq<Seq<int>>, indices: Seq<int>) -> nat
    decreases ops.len(),
{
    if ops.len() == 0 {
        0
    } else {
        times(ops.drop_last(), indices) + if ops.last() == indices {
            1nat
        } else {
            0nat
        }
    }
}

/// The two keys share no counter.
pub open spec fn apart(a: Seq<int>, b: Seq<int>) -> bool {
    forall|i: int, j: int| 0 <= i < a.len() && 0 <= j < b.len() ==> a[i] != b[j]
}

/// A counter after `rounds` decays.
pub open spec fn decayed(count: u64, rounds: nat) -> u64
    decreases rounds,
{
    if rounds == 0 {
        count
    } else {
        decayed(count / 2, (rounds - 1) as nat)
    }
}

/// A sketch of how often keys have been counted. Keys are byte strings.
pub struct BloomFilter {
    /// One seed for each projection.
    seeds: Vec<u64>,
    counters: Vec<u64>,
    max_count: u64,
}

impl BloomFilter {
    /// The seeds of the projections.
    pub closed spec fn seeds(&self) -> Seq<u64> {
        self.seeds@
    }

    pub closed spec fn counters(&self) -> Seq<u64> {
        self.counters@
    }

    pub closed spec fn spec_max_count(&self) -> u64 {
        self.max_count
    }

    /// The counters that `key` is projected onto, one for each seed.
    pub open spec fn indices(&self, key: Seq<u8>) -> Seq<int> {
        projections(self.seeds(), key, self.counters().len())
    }

    /// The seeds are the standard ones, and `max_count` bounds every counter.
    /// This holds of every sketch.
    pub open spec fn wf(&self) -> bool {
        &&& self.seeds() == standard_seeds()
        &&& forall|i: int|
            0 <= i < self.counters().len() ==> self.counters()[i] <= self.max_count()
    }

    #[verifier::type_invariant]
    spec fn inv(self) -> bool {
        self.wf()
    }

    /// A sketch of `array_size` counters, all zero, with
    /// [`NUM_HASH_FUNCTIONS`] projections seeded `0, 1, 2, ...`. The number of
    /// projections does not depend on `expected_elements`.
    pub fn new(expected_elements: u64, array_size: u64) -> (sketch: Self)
        requires
            array_size <= usize::MAX,
        ensures
            sketch.wf(),
            sketch.seeds() == standard_seeds(),
            sketch.counters() == Seq::new(array_size as nat, |i: int| 0u64),
            sketch.max_count() == 0,
    {
        let functions = Self::optimal_hash_functions(expected_elements, array_size);
        let mut seeds: Vec<u64> = Vec::new();
        let mut seed: u64 = 0;
        while seeds.len() < functions
            invariant
                functions == NUM_HASH_FUNCTIONS,
                seed == seeds@.len() <= functions,
                seeds@ == Seq::new(seeds@.len(), |j: int| j as u64),
            decreases functions - seeds@.len(),
        {
            seeds.push(seed);
            seed = seed + 1;
        }
        let mut counters: Vec<u64> = Vec::new();
        let mut filled: u64 = 0;
        while filled < array_size
            invariant
                filled == counters@.len() <= array_size,
                counters@ == Seq::new(counters@.len(), |i: int| 0u64),
            decreases array_size - filled,
        {
            counters.push(0);
            filled = filled + 1;
        }
        BloomFilter { seeds, counters, max_count: 0 }
    }

    fn optimal_hash_functions(_expected_elements: u64, _array_size: u64) -> (functions: usize)
        ensures
            functions == NUM_HASH_FUNCTIONS,
    {
        NUM_HASH_FUNCTIONS
    }

    /// The number of counters.
    pub fn size(&self) -> (size: usize)
        ensures
            self.wf(),
            size == self.counters().len(),
    {
        proof {
            use_type_invariant(self);
        }
        self.counters.len()
    }

    /// The largest value that a counter has reached, as far as the sketch has
    /// kept track: a decay halves it with the counters, a decrement leaves it.
    #[verifier::when_used_as_spec(spec_max_count)]
    pub fn max_count(&self) -> (count: u64)
        ensures
            count == self.max_count(),
    {
        self.max_count
    }

    /// The counters that `key` is projected onto.
    pub fn get_indices(&self, key: &[u8]) -> (indices: Vec<usize>)
        ensures
            indices@.len() == self.indices(key@).len(),
            forall|j: int|
                0 <= j < indices@.len() ==> (#[trigger] indices@[j]) == self.indices(key@)[j]
                    && indices@[j] < self.counters().len(),
    {
        let size = self.counters.len();
        let mut indices: Vec<usize> = Vec::new();
        if size == 0 {
            return indices;
        }
        let mut j: usize = 0;
        while j < self.seeds.len()
            invariant
                size == self.counters@.len(),
                size > 0,
                j <= self.seeds@.len(),
                indices@.len() == j,
                forall|k: int|
                    0 <= k < j ==> (#[trigger] indices@[k]) == self.indices(key@)[k] && indices@[k]
                        < size,
            decreases self.seeds@.len() - j,
        {
            let hash = hash_bytes(self.seeds[j], key);
            let index = (hash % (size as u64)) as usize;
            indices.push(index);
            j = j + 1;
        }
        indices
    }

    /// The estimate of how often `key` has been counted: the smallest of its
    /// counters.
    pub fn count_present(&self, key: &[u8]) -> (count: u64)
        ensures
            count == estimate(self.counters(), self.indices(key@)),
    {
        let indices = self.get_indices(key);
        let ghost projected = self.indices(key@);
        if indices.len() == 0 {
            return 0;
        }
        let mut least = self.counters[indices[0]];
        let mut j: usize = 1;
        assert(projected.take(1).len() == 1 && projected.take(1)[0] == projected[0]);
        while j < indices.len()
            invariant
                1 <= j <= indices@.len(),
                projected == self.indices(key@),
                indices@.len() == projected.len(),
                forall|k: int|
                    0 <= k < indices@.len() ==> (#[trigger] indices@[k]) == projected[k]
                        && indices@[k] < self.counters@.len(),
                least == estimate(self.counters@, projected.take(j as int)),
            decreases indices@.len() - j,
        {
            let counter = self.counters[indices[j]];
            proof {
                let longer = projected.take(j + 1);
                assert(longer.drop_last() =~= projected.take(j as int));
                assert(longer.last() == projected[j as int]);
            }
            if counter < least {
                least = counter;
            }
            j = j + 1;
        }
        assert(projected.take(j as int) =~= projected);
        least
    }

    /// Counts `key` once: raises each counter that it is projected onto, once
    /// for each projection that lands there, and records the largest value
    /// that any of them has reached.
    pub fn increment(&mut self, key: &[u8])
        ensures
            final(self).wf(),
            final(self).seeds() == old(self).seeds(),
            final(self).counters() == raised(old(self).counters(), old(self).indices(key@)),
            final(self).max_count() == vstd::math::max(
                old(self).max_count() as int,
                peak(final(self).counters(), old(self).indices(key@)) as int,
            ),
    {
        proof {
            use_type_invariant(&*self);
        }
        let indices = self.get_indices(key);
        let ghost projected = self.indices(key@);
        let ghost before = self.counters@;
        let ghost old_max = self.max_count;
        assert forall|i: int| 0 <= i < before.len() implies before[i] <= old_max by {
            assert(self.counters()[i] <= self.max_count());
        }
        // The counters leave `self` while they change: `self` has to meet its
        // invariant after every single step.
        let mut counters: Vec<u64> = Vec::new();
        std::mem::swap(&mut self.counters, &mut counters);
        let mut max_count = self.max_count;
        let mut j: usize = 0;
        assert(counters@ =~= raised(before, projected.take(0)));
        while j < indices.len()
            invariant
                j <= indices@.len(),
                indices@.len() == projected.len(),
                counters@.len() == before.len(),
                forall|k: int|
                    0 <= k < indices@.len() ==> (#[trigger] indices@[k]) == projected[k]
                        && indices@[k] < before.len(),
                counters@ == raised(before, projected.take(j as int)),
                forall|i: int| 0 <= i < before.len() ==> counters@[i] <= max_count,
                max_count == vstd::math::max(
                    old_max as int,
                    peak(counters@, projected.take(j as int)) as int,
                ),
            decreases indices@.len() - j,
        {
            let index = indices[j];
            let counter = counters[index];
            let next = if counter < u64::MAX {
                counter + 1
            } else {
                counter
            };
            let ghost earlier = counters@;
            if next > max_count {
                max_count = next;
            }
            counters[index] = next;
            proof {
                let shorter = projected.take(j as int);
                let longer = projected.take(j + 1);
                assert(longer.drop_last() =~= shorter);
                assert(longer.last() == index);
                assert(counters@ =~= raised(before, longer));
                assert forall|k: int| 0 <= k < shorter.len() implies 0 <= #[trigger] shorter[k]
                    < earlier.len() by {
                    assert(indices@[k] == projected[k]);
                }
                lemma_peak_after_rise(earlier, shorter, index as int, next);
            }
            j = j + 1;
        }
        assert(projected.take(j as int) =~= projected);
        self.max_count = max_count;
        std::mem::swap(&mut self.counters, &mut counters);
    }

    /// Discounts `key` once: lowers each counter that it is projected onto,
    /// once for each projection that lands there, stopping at zero.
    pub fn decrement(&mut self, key: &[u8])
        ensures
            final(self).wf(),
            final(self).seeds() == old(self).seeds(),
            final(self).counters() == lowered(old(self).counters(), old(self).indices(key@)),
            final(self).max_count() == old(self).max_count(),
    {
        proof {
            use_type_invariant(&*self);
        }
        let indices = self.get_indices(key);
        let ghost projected = self.indices(key@);
        let ghost before = self.counters@;
        let ghost max_count = self.max_count;
        assert forall|i: int| 0 <= i < before.len() implies before[i] <= max_count by {
            assert(self.counters()[i] <= self.max_count());
        }
        let mut counters: Vec<u64> = Vec::new();
        std::mem::swap(&mut self.counters, &mut counters);
        let mut j: usize = 0;
        assert(counters@ =~= lowered(before, projected.take(0)));
        while j < indices.len()
            invariant
                j <= indices@.len(),
                indices@.len() == projected.len(),
                counters@.len() == before.len(),
                forall|k: int|
                    0 <= k < indices@.len() ==> (#[trigger] indices@[k]) == projected[k]
                        && indices@[k] < before.len(),
                counters@ == lowered(before, projected.take(j as int)),
                forall|i: int| 0 <= i < before.len() ==> counters@[i] <= max_count,
            decreases indices@.len() - j,
        {
            let index = indices[j];
            let counter = counters[index];
            let next = if counter > 0 {
                counter - 1
            } else {
                counter
            };
            counters[index] = next;
            proof {
                let longer = projected.take(j + 1);
                assert(longer.drop_last() =~= projected.take(j as int));
                assert(longer.last() == index);
                assert(counters@ =~= lowered(before, longer));
            }
            j = j + 1;
        }
        assert(projected.take(j as int) =~= projected);
        std::mem::swap(&mut self.counters, &mut counters);
    }

    /// Decays the sketch: halves every counter, rounding down, and
    /// `max_count` with them.
    pub fn halve(&mut self)
        ensures
            final(self).wf(),
            final(self).seeds() == old(self).seeds(),
            final(self).counters() == halved(old(self).counters()),
            final(self).max_count() == old(self).max_count() / 2,
    {
        proof {
            use_type_invariant(&*self);
        }
        let ghost before = self.counters@;
        let ghost old_max = self.max_count;
        assert forall|k: int| 0 <= k < before.len() implies before[k] <= old_max by {
            assert(self.counters()[k] <= self.max_count());
        }
        let mut counters: Vec<u64> = Vec::new();
        std::mem::swap(&mut self.counters, &mut counters);
        let mut i: usize = 0;
        while i < counters.len()
            invariant
                i <= before.len(),
                counters@.len() == before.len(),
                forall|k: int| 0 <= k < before.len() ==> before[k] <= old_max,
                forall|k: int| 0 <= k < i ==> counters@[k] == before[k] / 2,
                forall|k: int| i <= k < before.len() ==> counters@[k] == before[k],
            decreases before.len() - i,
        {
            let counter = counters[i];
            counters[i] = counter / 2;
            i = i + 1;
        }
        assert(counters@ =~= halved(before));
        self.max_count = self.max_count / 2;
        std::mem::swap(&mut self.counters, &mut counters);
    }
}

/// Raising one counter to `value` raises the peak over `indices` to no more
/// than the larger of the old peak and `value`, and, where the counter is one
/// that `indices` name, to exactly that.
proof fn lemma_peak_after_rise(counters: Seq<u64>, indices: Seq<int>, at: int, value: u64)
    requires
        0 <= at < counters.len(),
        counters[at] <= value,
        forall|k: int| 0 <= k < indices.len() ==> 0 <= #[trigger] indices[k] < counters.len(),
    ensures
        peak(counters, indices) <= peak(counters.update(at, value), indices),
        peak(counters.update(at, value), indices) <= vstd::math::max(
            peak(counters, indices) as int,
            value as int,
        ),
        hits(indices, at) > 0 ==> peak(counters.update(at, value), indices) == vstd::math::max(
            peak(counters, indices) as int,
            value as int,
        ),
    decreases indices.len(),
{
    if indices.len() > 0 {
        lemma_peak_after_rise(counters, indices.drop_last(), at, value);
    }
}

/// Counting one more key: the counters rise once more, and the key is one
/// more of its kind.
pub proof fn lemma_counted_once_more(
    counters: Seq<u64>,
    ops: Seq<Seq<int>>,
    op: Seq<int>,
    indices: Seq<int>,
)
    ensures
        counted(counters, ops.push(op)) == raised(counted(counters, ops), op),
        times(ops.push(op), indices) == times(ops, indices) + if op == indices {
            1nat
        } else {
            0nat
        },
{
    assert(ops.push(op).drop_last() =~= ops);
    assert(ops.push(op).last() == op);
}

/// `hits` counts an index that occurs, and nothing else.
proof fn lemma_hits(indices: Seq<int>, i: int)
    ensures
        indices.contains(i) ==> hits(indices, i) >= 1,
        !indices.contains(i) ==> hits(indices, i) == 0,
    decreases indices.len(),
{
    if indices.len() > 0 {
        let shorter = indices.drop_last();
        lemma_hits(shorter, i);
        if indices.contains(i) {
            let j = choose|j: int| 0 <= j < indices.len() && indices[j] == i;
            if j < shorter.len() {
                assert(shorter[j] == i);
            }
        }
        if shorter.contains(i) {
            let j = choose|j: int| 0 <= j < shorter.len() && shorter[j] == i;
            assert(indices[j] == i);
        }
        if indices.last() == i {
            assert(indices[indices.len() - 1] == i);
        }
    }
}

/// A key that has just been counted has an estimate of one at least.
pub proof fn lemma_counted_is_seen(counters: Seq<u64>, indices: Seq<int>)
    requires
        indices.len() > 0,
        forall|j: int| 0 <= j < indices.len() ==> 0 <= #[trigger] indices[j] < counters.len(),
    ensures
        estimate(raised(counters, indices), indices) >= 1,
{
    let after = raised(counters, indices);
    lemma_estimate_is_least(after, indices);
    let least = choose|j: int|
        0 <= j < indices.len() && estimate(after, indices) == after[#[trigger] indices[j]];
    lemma_hits(indices, indices[least]);
}

/// The projections of a sketch with counters name counters of the sketch, one
/// for each seed.
pub proof fn lemma_projections(seeds: Seq<u64>, key: Seq<u8>, size: nat)
    requires
        size > 0,
    ensures
        projections(seeds, key, size).len() == seeds.len(),
        forall|j: int|
            0 <= j < seeds.len() ==> 0 <= #[trigger] projections(seeds, key, size)[j] < size,
{
    assert forall|j: int| 0 <= j < seeds.len() implies 0 <= #[trigger] projections(
        seeds,
        key,
        size,
    )[j] < size by {
        vstd::arithmetic::div_mod::lemma_mod_bound(xxhash64(seeds[j], key) as int, size as int);
    }
}

/// The estimate is the least of the counters that the projections name: it
/// is one of them, and none of them is smaller.
pub proof fn lemma_estimate_is_least(counters: Seq<u64>, indices: Seq<int>)
    requires
        indices.len() > 0,
    ensures
        forall|j: int|
            0 <= j < indices.len() ==> estimate(counters, indices) <= counters[#[trigger] indices[j]],
        exists|j: int|
            0 <= j < indices.len() && estimate(counters, indices) == counters[#[trigger] indices[j]],
    decreases indices.len(),
{
    if indices.len() == 1 {
        assert(estimate(counters, indices) == counters[indices[0]]);
    } else {
        let shorter = indices.drop_last();
        lemma_estimate_is_least(counters, shorter);
        let least = estimate(counters, indices);
        assert forall|j: int| 0 <= j < indices.len() implies least <= counters[#[trigger] indices[j]] by {
            if j < shorter.len() {
                assert(shorter[j] == indices[j]);
            }
        }
        let w = choose|j: int|
            0 <= j < shorter.len() && estimate(counters, shorter) == counters[#[trigger] shorter[j]];
        assert(shorter[w] == indices[w]);
        if least == estimate(counters, shorter) {
            assert(least == counters[indices[w]]);
        } else {
            assert(least == counters[indices[indices.len() - 1]]);
        }
    }
}

/// What the counters of one key hold after a run of increments in which no
/// other key shares a counter with it: each holds at least the number of
/// times the key was counted, and one that the key is projected onto once
/// holds exactly that.
proof fn lemma_counted(size: nat, ops: Seq<Seq<int>>, indices: Seq<int>)
    requires
        forall|j: int| 0 <= j < indices.len() ==> 0 <= #[trigger] indices[j] < size,
        forall|k: int| 0 <= k < ops.len() ==> #[trigger] ops[k] == indices || apart(ops[k], indices),
        times(ops, indices) <= u64::MAX,
    ensures
        counted(zeros(size), ops).len() == size,
        forall|j: int|
            0 <= j < indices.len() ==> counted(zeros(size), ops)[#[trigger] indices[j]] >= times(
                ops,
                indices,
            ),
        forall|j: int|
            0 <= j < indices.len() && hits(indices, indices[j]) == 1 ==> counted(
                zeros(size),
                ops,
            )[#[trigger] indices[j]] == times(ops, indices),
    decreases ops.len(),
{
    if ops.len() > 0 {
        let earlier = ops.drop_last();
        let op = ops.last();
        assert forall|k: int| 0 <= k < earlier.len() implies #[trigger] earlier[k] == indices
            || apart(earlier[k], indices) by {
            assert(earlier[k] == ops[k]);
        }
        lemma_counted(size, earlier, indices);
        let before = counted(zeros(size), earlier);
        let after = counted(zeros(size), ops);
        assert(ops[ops.len() - 1] == op);
        assert forall|j: int| 0 <= j < indices.len() implies after[#[trigger] indices[j]] >= times(
            ops,
            indices,
        ) && (hits(indices, indices[j]) == 1 ==> after[indices[j]] == times(ops, indices)) by {
            let i = indices[j];
            lemma_hits(op, i);
            if op == indices {
                assert(op.contains(i));
            } else {
                if op.contains(i) {
                    let a = choose|a: int| 0 <= a < op.len() && op[a] == i;
                    assert(op[a] != indices[j]);
                }
            }
        }
    }
}

/// The estimate is exact where no counter is shared. Let a sketch start from
/// zero and count a run of keys, each of which is either the key with the
/// projections `indices` or a key that shares no counter with it, and let one
/// of that key's counters be the target of only one of its projections. Then
/// the estimate for the key is the number of times it was counted.
///
/// Without the last condition an estimate can exceed the count by the key's
/// own doing: a key whose projections all land on one counter raises it
/// several times with each increment.
pub proof fn lemma_estimate_counts(size: nat, ops: Seq<Seq<int>>, indices: Seq<int>)
    requires
        forall|j: int| 0 <= j < indices.len() ==> 0 <= #[trigger] indices[j] < size,
        exists|j: int| 0 <= j < indices.len() && hits(indices, #[trigger] indices[j]) == 1,
        forall|k: int| 0 <= k < ops.len() ==> #[trigger] ops[k] == indices || apart(ops[k], indices),
        times(ops, indices) <= u64::MAX,
    ensures
        estimate(counted(zeros(size), ops), indices) == times(ops, indices),
{
    let counters = counted(zeros(size), ops);
    lemma_counted(size, ops, indices);
    lemma_estimate_is_least(counters, indices);
    let once = choose|j: int| 0 <= j < indices.len() && hits(indices, #[trigger] indices[j]) == 1;
    assert(counters[indices[once]] == times(ops, indices));
}

/// The decay law: one decay halves a counter, rounding down; sixty-four
/// decays or more bring any counter to zero; and zero stays zero.
pub proof fn lemma_decay(count: u64, rounds: nat)
    ensures
        decayed(count, 1) == count / 2,
        decayed(count, rounds + 1) <= decayed(count, rounds),
        decayed(0, rounds) == 0,
        rounds >= 64 ==> decayed(count, rounds) == 0,
{
    assert(decayed(count, 1) == decayed(count / 2, 0));
    lemma_decay_falls(count, rounds);
    vstd::arithmetic::power2::lemma2_to64();
    lemma_decay_bound(0, 0, rounds);
    if rounds >= 64 {
        vstd::arithmetic::power2::lemma2_to64_rest();
        lemma_decay_bound(count, 64, rounds);
    }
}

proof fn lemma_decay_falls(count: u64, rounds: nat)
    ensures
        decayed(count, rounds + 1) <= decayed(count, rounds),
        decayed(count, rounds) <= count,
    decreases rounds,
{
    if rounds > 0 {
        lemma_decay_falls(count / 2, (rounds - 1) as nat);
    } else {
        assert(decayed(count, 1) == decayed(count / 2, 0));
    }
}

proof fn lemma_decay_bound(count: u64, bits: nat, rounds: nat)
    requires
        count < vstd::arithmetic::power2::pow2(bits),
        rounds >= bits,
    ensures
        decayed(count, rounds) == 0,
    decreases rounds,
{
    vstd::arithmetic::power2::lemma2_to64();
    if rounds > 0 {
        if bits == 0 {
            lemma_decay_bound(count / 2, 0, (rounds - 1) as nat);
        } else {
            vstd::arithmetic::power2::lemma_pow2_unfold(bits);
            lemma_decay_bound(count / 2, (bits - 1) as nat, (rounds - 1) as nat);
        }
    }
}

} // verus!
