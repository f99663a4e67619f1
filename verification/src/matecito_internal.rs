//! One shard of the cache: a bounded key/value store that evicts the key
//! that has gone unused longest.
//!
//! The values live in a hash map; the order in which the keys were last used
//! lives in a [`DoublyLinkedList`] of keys, and the map keeps for each key the
//! handle of its list node, so that using a key moves its node to the back
//! without a search.

use crate::linked_list::DoublyLinkedList;
use crate::linked_list::Handle;
use std::collections::HashMap;
use vstd::prelude::*;

verus! {

/// What a shard holds, as a mathematical value.
pub struct StoreModel<T> {
    /// The resident keys; the key that has gone unused longest comes first.
    pub order: Seq<u64>,
    /// The value stored under each resident key.
    pub entries: Map<u64, T>,
    /// How many keys the shard may hold.
    pub capacity: nat,
}

impl<T> StoreModel<T> {
    /// Every resident key occurs once in the order, nothing else does, and
    /// the capacity is kept.
    pub open spec fn valid(self) -> bool {
        &&& self.order.no_duplicates()
        &&& forall|k: u64| self.entries.contains_key(k) <==> self.order.contains(k)
        &&& self.order.len() <= self.capacity
    }

    pub open spec fn resident(self, key: u64) -> bool {
        self.entries.contains_key(key)
    }

    pub open spec fn is_full(self) -> bool {
        self.order.len() == self.capacity
    }

    /// The order after the resident key `key` has been used: it has moved to
    /// the back, the other keys keep their order.
    pub open spec fn refreshed(self, key: u64) -> Seq<u64> {
        self.order.remove(self.order.index_of(key)).push(key)
    }

    /// The key that a `put` of `key` evicts: the first of the order, if the
    /// shard is full and `key` is not resident; none otherwise.
    pub open spec fn evicted_by(self, key: u64) -> Option<u64> {
        if self.capacity > 0 && !self.resident(key) && self.is_full() {
            Some(self.order[0])
        } else {
            None
        }
    }

    /// The shard after a `put`. A shard without capacity stores nothing. A
    /// resident key gets the new value and moves to the back. A new key is
    /// appended at the back, after the first key of the order has been evicted
    /// if the shard was full.
    pub open spec fn put(self, key: u64, value: T) -> Self {
        if self.capacity == 0 {
            self
        } else if self.resident(key) {
            StoreModel {
                order: self.refreshed(key),
                entries: self.entries.insert(key, value),
                capacity: self.capacity,
            }
        } else if self.is_full() {
            StoreModel {
                order: self.order.drop_first().push(key),
                entries: self.entries.remove(self.order[0]).insert(key, value),
                capacity: self.capacity,
            }
        } else {
            StoreModel {
                order: self.order.push(key),
                entries: self.entries.insert(key, value),
                capacity: self.capacity,
            }
        }
    }

    /// The shard after a `get`: a resident key moves to the back, and nothing
    /// else changes.
    pub open spec fn get(self, key: u64) -> Self {
        if self.resident(key) {
            StoreModel { order: self.refreshed(key), entries: self.entries, capacity: self.capacity }
        } else {
            self
        }
    }
}

/// One use of a shard.
pub enum Access<T> {
    Put(u64, T),
    Get(u64),
}

impl<T> StoreModel<T> {
    /// The shard after one use.
    pub open spec fn after(self, access: Access<T>) -> Self {
        match access {
            Access::Put(key, value) => self.put(key, value),
            Access::Get(key) => self.get(key),
        }
    }

    /// The shard after a sequence of uses.
    pub open spec fn after_all(self, accesses: Seq<Access<T>>) -> Self
        decreases accesses.len(),
    {
        if accesses.len() == 0 {
            self
        } else {
            self.after_all(accesses.drop_last()).after(accesses.last())
        }
    }

    /// Where the resident key `key` stands in the order.
    pub proof fn lemma_place(self, key: u64) -> (p: int)
        requires
            self.valid(),
            self.resident(key),
        ensures
            0 <= p < self.order.len(),
            self.order[p] == key,
            self.order.index_of(key) == p,
    {
        assert(self.order.contains(key));
        self.order.index_of(key)
    }

    /// Using a resident key moves it to the back of the order and keeps the
    /// other keys, in their order.
    pub proof fn lemma_refreshed(self, key: u64)
        requires
            self.valid(),
            self.resident(key),
        ensures
            self.refreshed(key).len() == self.order.len(),
            self.refreshed(key).last() == key,
            self.refreshed(key).no_duplicates(),
            forall|k: u64| self.refreshed(key).contains(k) <==> self.order.contains(k),
            forall|i: int|
                0 <= i < self.order.len() - 1 ==> #[trigger] self.refreshed(key)[i] == if i
                    < self.order.index_of(key) {
                    self.order[i]
                } else {
                    self.order[i + 1]
                },
    {
        let p = self.lemma_place(key);
        let n = self.order.len() as int;
        let fresh = self.refreshed(key);
        assert forall|i: int| 0 <= i < n - 1 implies #[trigger] fresh[i] == if i < p {
            self.order[i]
        } else {
            self.order[i + 1]
        } by {}
        assert(fresh[n - 1] == key);
        assert forall|k: u64| fresh.contains(k) <==> self.order.contains(k) by {
            if fresh.contains(k) {
                let i = choose|i: int| 0 <= i < fresh.len() && fresh[i] == k;
                if i == n - 1 {
                    assert(self.order[p] == k);
                } else if i < p {
                    assert(self.order[i] == k);
                } else {
                    assert(self.order[i + 1] == k);
                }
            }
            if self.order.contains(k) {
                let i = choose|i: int| 0 <= i < n && self.order[i] == k;
                if i == p {
                    assert(fresh[n - 1] == k);
                } else if i < p {
                    assert(fresh[i] == k);
                } else {
                    assert(fresh[i - 1] == k);
                }
            }
        }
    }

    /// A `put` keeps the shard valid, and with it the capacity bound. What it
    /// stores is resident afterwards, as the most recently used key, unless
    /// the shard has no capacity at all.
    pub proof fn lemma_put(self, key: u64, value: T)
        requires
            self.valid(),
        ensures
            self.put(key, value).valid(),
            self.put(key, value).capacity == self.capacity,
            self.capacity > 0 ==> {
                &&& self.put(key, value).resident(key)
                &&& self.put(key, value).entries[key] == value
                &&& self.put(key, value).order.last() == key
            },
    {
        let next = self.put(key, value);
        if self.capacity == 0 {
        } else if self.resident(key) {
            self.lemma_refreshed(key);
            assert forall|k: u64| next.entries.contains_key(k) <==> next.order.contains(k) by {
                assert(self.entries.contains_key(k) <==> self.order.contains(k));
                assert(self.refreshed(key).contains(k) <==> self.order.contains(k));
            }
        } else if self.is_full() {
            let rest = self.order.drop_first();
            assert(!self.order.contains(key));
            assert forall|i: int| 0 <= i < rest.len() implies rest[i] == self.order[i + 1] by {}
            assert(next.order.no_duplicates());
            assert(next.order[next.order.len() - 1] == key);
            assert forall|k: u64| next.entries.contains_key(k) <==> next.order.contains(k) by {
                assert(self.entries.contains_key(k) <==> self.order.contains(k));
                if next.order.contains(k) {
                    let i = choose|i: int| 0 <= i < next.order.len() && next.order[i] == k;
                    if i < rest.len() {
                        assert(self.order[i + 1] == k);
                        assert(self.order.contains(k));
                    }
                }
                if next.entries.contains_key(k) && k != key {
                    assert(self.order.contains(k));
                    let i = choose|i: int| 0 <= i < self.order.len() && self.order[i] == k;
                    assert(next.order[i - 1] == k);
                }
            }
        } else {
            assert(!self.order.contains(key));
            assert(next.order.no_duplicates());
            assert(next.order[next.order.len() - 1] == key);
            assert forall|k: u64| next.entries.contains_key(k) <==> next.order.contains(k) by {
                assert(self.entries.contains_key(k) <==> self.order.contains(k));
                if next.order.contains(k) {
                    let i = choose|i: int| 0 <= i < next.order.len() && next.order[i] == k;
                    if i < self.order.len() {
                        assert(self.order[i] == k);
                        assert(self.order.contains(k));
                    }
                }
                if next.entries.contains_key(k) && k != key {
                    assert(self.order.contains(k));
                    let i = choose|i: int| 0 <= i < self.order.len() && self.order[i] == k;
                    assert(next.order[i] == k);
                }
            }
        }
    }

    /// A `get` keeps the shard valid and its values; a hit makes the key the
    /// most recently used.
    pub proof fn lemma_get(self, key: u64)
        requires
            self.valid(),
        ensures
            self.get(key).valid(),
            self.get(key).entries == self.entries,
            self.get(key).capacity == self.capacity,
            self.resident(key) ==> self.get(key).order.last() == key,
    {
        if self.resident(key) {
            self.lemma_refreshed(key);
            let next = self.get(key);
            assert forall|k: u64| next.entries.contains_key(k) <==> next.order.contains(k) by {
                assert(self.entries.contains_key(k) <==> self.order.contains(k));
                assert(self.refreshed(key).contains(k) <==> self.order.contains(k));
            }
        }
    }

    /// The capacity bound: whatever is put into a valid shard or looked up in
    /// it, and in whatever order, the shard stays valid, so that it never
    /// holds more keys than its capacity.
    pub proof fn lemma_capacity_bound(self, accesses: Seq<Access<T>>)
        requires
            self.valid(),
        ensures
            self.after_all(accesses).valid(),
            self.after_all(accesses).capacity == self.capacity,
            self.after_all(accesses).order.len() <= self.capacity,
        decreases accesses.len(),
    {
        if accesses.len() > 0 {
            let earlier = self.after_all(accesses.drop_last());
            self.lemma_capacity_bound(accesses.drop_last());
            match accesses.last() {
                Access::Put(key, value) => earlier.lemma_put(key, value),
                Access::Get(key) => earlier.lemma_get(key),
            }
        }
    }

    /// A `put` that finds the shard full evicts the key that has gone unused
    /// longest, and no other: every other resident key stays, with its value.
    pub proof fn lemma_evicts_oldest(self, key: u64, value: T)
        requires
            self.valid(),
            self.capacity > 0,
            self.is_full(),
            !self.resident(key),
        ensures
            self.evicted_by(key) == Some(self.order[0]),
            self.order[0] != key,
            !self.put(key, value).resident(self.order[0]),
            forall|k: u64|
                self.resident(k) && k != self.order[0] ==> self.put(key, value).resident(k)
                    && self.put(key, value).entries[k] == self.entries[k],
            forall|i: int|
                0 < i < self.order.len() ==> self.put(key, value).order[i - 1] == self.order[i],
    {
        assert(self.order.contains(self.order[0]));
    }

    /// A resident key leaves the shard by eviction only: after a `put` it is
    /// still resident unless it is the key that the `put` evicted, and a `get`
    /// removes nothing.
    pub proof fn lemma_keeps_residents(self, key: u64, value: T, resident: u64)
        requires
            self.valid(),
            self.resident(resident),
        ensures
            self.put(key, value).resident(resident) || self.evicted_by(key) == Some(resident),
            self.get(key).resident(resident),
    {
    }

    /// A hit protects the key: the next `put` of anything evicts another key,
    /// if there is another, and the key stays resident.
    pub proof fn lemma_touch_protects(self, key: u64, other: u64, value: T)
        requires
            self.valid(),
            self.resident(key),
            self.order.len() >= 2,
        ensures
            self.get(key).order.last() == key,
            self.get(key).evicted_by(other) != Some(key),
            self.get(key).put(other, value).resident(key),
    {
        self.lemma_refreshed(key);
        self.lemma_get(key);
        let touched = self.get(key);
        assert(touched.order[0] != key) by {
            assert(touched.order[touched.order.len() - 1] == key);
        }
        touched.lemma_put(other, value);
        if other != key && touched.capacity > 0 && !touched.resident(other) && touched.is_full() {
            touched.lemma_evicts_oldest(other, value);
        }
    }
}

/// The two halves of a shard, which change together.
struct Resident<T> {
    m: HashMap<u64, (T, Handle)>,
    dll: DoublyLinkedList<u64>,
}

impl<T> Resident<T> {
    /// The key at position `i` of the list is in the map, with the handle of
    /// that list node.
    spec fn indexed_at(m: Map<u64, (T, Handle)>, dll: DoublyLinkedList<u64>, i: int) -> bool {
        &&& m.contains_key(dll@[i])
        &&& m[dll@[i]].1 == dll.handles()[i]
    }

    /// Map and list hold the same keys, each key once, and the map knows the
    /// list node of each.
    spec fn consistent(m: Map<u64, (T, Handle)>, dll: DoublyLinkedList<u64>) -> bool {
        &&& dll.wf()
        &&& dll@.no_duplicates()
        &&& forall|i: int| 0 <= i < dll@.len() ==> Self::indexed_at(m, dll, i)
        &&& forall|k: u64| #[trigger] m.contains_key(k) ==> dll@.contains(k)
    }

    spec fn wf(&self) -> bool {
        Self::consistent(self.m@, self.dll)
    }

    /// The resident keys; the key that has gone unused longest comes first.
    spec fn order(&self) -> Seq<u64> {
        self.dll@
    }

    /// The value stored under each resident key.
    spec fn entries(&self) -> Map<u64, T> {
        Map::new(|k: u64| self.m@.contains_key(k), |k: u64| self.m@[k].0)
    }

    spec fn model(&self, capacity: nat) -> StoreModel<T> {
        StoreModel { order: self.order(), entries: self.entries(), capacity }
    }

    proof fn lemma_valid(&self, capacity: nat)
        requires
            self.wf(),
            self.order().len() <= capacity,
        ensures
            self.model(capacity).valid(),
    {
        assert forall|k: u64| self.entries().contains_key(k) <==> self.order().contains(k) by {
            if self.order().contains(k) {
                let i = choose|i: int| 0 <= i < self.dll@.len() && self.dll@[i] == k;
                assert(Self::indexed_at(self.m@, self.dll, i));
            }
        }
    }

    /// Map and list still agree when the node at position `p` has left the
    /// list and its key the map.
    proof fn lemma_unlisted(
        m: Map<u64, (T, Handle)>,
        before: DoublyLinkedList<u64>,
        after: DoublyLinkedList<u64>,
        p: int,
    )
        requires
            Self::consistent(m, before),
            0 <= p < before@.len(),
            after.wf(),
            after@ == before@.remove(p),
            after.handles() == before.handles().remove(p),
        ensures
            Self::consistent(m.remove(before@[p]), after),
            !after@.contains(before@[p]),
    {
        let key = before@[p];
        let rest = m.remove(key);
        before.lemma_handles();
        lemma_remove_keeps_distinct(before@, p);
        assert forall|i: int| 0 <= i < after@.len() implies Self::indexed_at(rest, after, i) by {
            if i < p {
                assert(Self::indexed_at(m, before, i));
            } else {
                assert(Self::indexed_at(m, before, i + 1));
            }
        }
        assert forall|k: u64| #[trigger] rest.contains_key(k) implies after@.contains(k) by {
            assert(m.contains_key(k));
            let q = choose|q: int| 0 <= q < before@.len() && before@[q] == k;
            if q < p {
                assert(after@[q] == k);
            } else {
                assert(after@[q - 1] == k);
            }
        }
    }

    /// Map and list still agree when a key that was in neither has been
    /// appended to the list and entered in the map with the handle of its node.
    proof fn lemma_listed(
        m: Map<u64, (T, Handle)>,
        before: DoublyLinkedList<u64>,
        after: DoublyLinkedList<u64>,
        key: u64,
        value: T,
        node: Handle,
    )
        requires
            Self::consistent(m, before),
            !before@.contains(key),
            after.wf(),
            after@ == before@.push(key),
            after.handles() == before.handles().push(node),
        ensures
            Self::consistent(m.insert(key, (value, node)), after),
    {
        let more = m.insert(key, (value, node));
        let n = before@.len() as int;
        before.lemma_handles();
        assert forall|i: int| 0 <= i < after@.len() implies Self::indexed_at(more, after, i) by {
            if i < n {
                assert(Self::indexed_at(m, before, i));
            }
        }
        assert forall|k: u64| #[trigger] more.contains_key(k) implies after@.contains(k) by {
            if k == key {
                assert(after@[n] == key);
            } else {
                assert(m.contains_key(k));
                let q = choose|q: int| 0 <= q < n && before@[q] == k;
                assert(after@[q] == k);
            }
        }
    }

    /// A key of the map stands in the list, at the position of its handle.
    proof fn lemma_position(m: Map<u64, (T, Handle)>, dll: DoublyLinkedList<u64>, key: u64) -> (p: int)
        requires
            Self::consistent(m, dll),
            m.contains_key(key),
        ensures
            0 <= p < dll@.len(),
            dll@[p] == key,
            dll@.index_of(key) == p,
            dll.handles().contains(m[key].1),
            dll.handles().index_of(m[key].1) == p,
    {
        dll.lemma_handles();
        let p = choose|p: int| 0 <= p < dll@.len() && dll@[p] == key;
        assert(Self::indexed_at(m, dll, p));
        assert(dll.handles()[p] == m[key].1);
        p
    }

    fn new() -> (resident: Self)
        ensures
            resident.wf(),
            resident.order() == Seq::<u64>::empty(),
            resident.entries() == Map::<u64, T>::empty(),
    {
        let resident = Resident { m: HashMap::new(), dll: DoublyLinkedList::new() };
        assert(resident.entries() =~= Map::<u64, T>::empty());
        resident
    }

    fn put(&mut self, key: u64, value: T, max_size: usize) -> (evicted: Option<u64>)
        requires
            old(self).wf(),
            old(self).order().len() <= max_size,
        ensures
            final(self).wf(),
            final(self).order().len() <= max_size,
            final(self).model(max_size as nat) == old(self).model(max_size as nat).put(key, value),
            evicted == old(self).model(max_size as nat).evicted_by(key),
    {
        if max_size == 0 {
            return None;
        }
        let ghost pre = *self;
        let mut evicted = None;
        match self.m.remove(&key) {
            Some(entry) => {
                proof {
                    let p = Self::lemma_position(pre.m@, pre.dll, key);
                }
                self.dll.delete(entry.1);
                proof {
                    Self::lemma_unlisted(pre.m@, pre.dll, self.dll, pre.dll@.index_of(key));
                }
            },
            None => {
                assert(self.m@ =~= pre.m@);
                assert(!pre.entries().contains_key(key));
                if max_size == self.dll.num_elements() {
                    evicted = self.evict_node();
                }
                proof {
                    assert(!self.entries().contains_key(key));
                    if self.dll@.contains(key) {
                        let i = choose|i: int| 0 <= i < self.dll@.len() && self.dll@[i] == key;
                        assert(Self::indexed_at(self.m@, self.dll, i));
                    }
                }
            },
        }
        let ghost mid = *self;
        let node = self.dll.push_back(key);
        self.m.insert(key, (value, node));
        proof {
            Self::lemma_listed(mid.m@, mid.dll, self.dll, key, value, node);
            assert(self.entries() =~= pre.model(max_size as nat).put(key, value).entries);
        }
        evicted
    }

    /// Moves `key` to the back of the order, if it is resident, and says
    /// whether it is.
    fn touch(&mut self, key: u64) -> (resident: bool)
        requires
            old(self).wf(),
        ensures
            final(self).wf(),
            final(self).order().len() == old(self).order().len(),
            resident == old(self).entries().contains_key(key),
            forall|capacity: nat| #[trigger]
                final(self).model(capacity) == old(self).model(capacity).get(key),
    {
        let ghost pre = *self;
        match self.m.remove(&key) {
            None => {
                assert(self.m@ =~= pre.m@);
                false
            },
            Some(entry) => {
                proof {
                    let p = Self::lemma_position(pre.m@, pre.dll, key);
                }
                self.dll.delete(entry.1);
                let ghost mid = *self;
                let node = self.dll.push_back(key);
                proof {
                    Self::lemma_unlisted(pre.m@, pre.dll, mid.dll, pre.dll@.index_of(key));
                    Self::lemma_listed(mid.m@, mid.dll, self.dll, key, entry.0, node);
                }
                self.m.insert(key, (entry.0, node));
                assert(self.entries() =~= pre.entries());
                true
            },
        }
    }

    fn peek(&self, key: u64) -> (value: Option<&T>)
        ensures
            match value {
                Some(found) => self.entries().contains_key(key) && *found == self.entries()[key],
                None => !self.entries().contains_key(key),
            },
    {
        match self.m.get(&key) {
            Some(entry) => Some(&entry.0),
            None => None,
        }
    }

    /// Removes the key that has gone unused longest, and returns it.
    fn evict_node(&mut self) -> (evicted: Option<u64>)
        requires
            old(self).wf(),
        ensures
            final(self).wf(),
            old(self).order().len() == 0 ==> evicted is None && final(self).order() == old(
                self,
            ).order() && final(self).entries() == old(self).entries(),
            old(self).order().len() > 0 ==> {
                &&& evicted == Some(old(self).order()[0])
                &&& final(self).order() == old(self).order().drop_first()
                &&& final(self).entries() == old(self).entries().remove(old(self).order()[0])
            },
    {
        let ghost pre = *self;
        match self.dll.pop_front() {
            None => None,
            Some(key) => {
                self.m.remove(&key);
                proof {
                    pre.dll.lemma_handles();
                    assert(pre.dll@.remove(0) =~= pre.dll@.drop_first());
                    assert(pre.dll.handles().remove(0) =~= pre.dll.handles().drop_first());
                    Self::lemma_unlisted(pre.m@, pre.dll, self.dll, 0);
                    assert(self.entries() =~= pre.entries().remove(key));
                }
                Some(key)
            },
        }
    }
}

/// A bounded store of values of type `T` under integer keys, which is
/// [`StoreModel::valid`] at all times.
pub struct MatecitoInternal<T> {
    resident: Resident<T>,
    max_size: usize,
}

impl<T> View for MatecitoInternal<T> {
    type V = StoreModel<T>;

    closed spec fn view(&self) -> StoreModel<T> {
        self.resident.model(self.max_size as nat)
    }
}

impl<T> MatecitoInternal<T> {
    /// Map and list agree, and the capacity is kept.
    #[verifier::type_invariant]
    spec fn inv(self) -> bool {
        &&& self.resident.wf()
        &&& self.resident.order().len() <= self.max_size
    }

    /// An empty shard that may hold `max_size` keys.
    pub fn new(max_size: usize) -> (store: Self)
        ensures
            store@.valid(),
            store@.order == Seq::<u64>::empty(),
            store@.entries == Map::<u64, T>::empty(),
            store@.capacity == max_size,
    {
        MatecitoInternal { resident: Resident::new(), max_size }
    }

    /// Stores `value` under `key` as the most recently used entry and returns
    /// the key that had to leave for it, if any.
    pub fn put(&mut self, key: u64, value: T) -> (evicted: Option<u64>)
        ensures
            old(self)@.valid(),
            final(self)@.valid(),
            final(self)@ == old(self)@.put(key, value),
            evicted == old(self)@.evicted_by(key),
            evicted != Some(key),
    {
        proof {
            use_type_invariant(&*self);
            self.resident.lemma_valid(self.max_size as nat);
            self@.lemma_put(key, value);
            if self@.evicted_by(key) is Some {
                self@.lemma_evicts_oldest(key, value);
            }
        }
        // The two halves leave `self` while they change: `self` has to meet
        // its invariant after every single step.
        let mut resident = Resident::new();
        std::mem::swap(&mut self.resident, &mut resident);
        let evicted = resident.put(key, value, self.max_size);
        std::mem::swap(&mut self.resident, &mut resident);
        evicted
    }

    /// Looks `key` up. A hit marks the entry as the most recently used.
    pub fn get(&mut self, key: u64) -> (value: Option<&T>)
        ensures
            old(self)@.valid(),
            final(self)@.valid(),
            final(self)@ == old(self)@.get(key),
            match value {
                Some(found) => old(self)@.resident(key) && *found == old(self)@.entries[key],
                None => !old(self)@.resident(key),
            },
    {
        proof {
            use_type_invariant(&*self);
            self.resident.lemma_valid(self.max_size as nat);
            self@.lemma_get(key);
        }
        let ghost before = self@;
        let mut resident = Resident::new();
        std::mem::swap(&mut self.resident, &mut resident);
        resident.touch(key);
        assert(resident.model(self.max_size as nat) == before.get(key));
        std::mem::swap(&mut self.resident, &mut resident);
        self.resident.peek(key)
    }

    pub fn is_full(&self) -> (full: bool)
        ensures
            self@.valid(),
            full == self@.is_full(),
    {
        proof {
            use_type_invariant(self);
            self.resident.lemma_valid(self.max_size as nat);
        }
        self.max_size == self.resident.dll.num_elements()
    }
}

/// Taking one entry out of a sequence without repetitions leaves one without
/// repetitions, in which the entry no longer occurs.
proof fn lemma_remove_keeps_distinct(s: Seq<u64>, p: int)
    requires
        s.no_duplicates(),
        0 <= p < s.len(),
    ensures
        s.remove(p).no_duplicates(),
        !s.remove(p).contains(s[p]),
{
    let t = s.remove(p);
    assert forall|i: int| 0 <= i < t.len() implies t[i] == (if i < p {
        s[i]
    } else {
        s[i + 1]
    }) by {}
}

} // verus!
