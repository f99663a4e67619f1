//! A doubly linked list that keeps its nodes in a slot arena.
//!
//! Nodes are named by [`Handle`]s: a slot index together with the generation
//! the slot had when the node was created. Removing a node advances the
//! generation of its slot, so a handle that outlives its node is recognised
//! and refused instead of reaching whatever occupies the slot later.
//!
//! The front of the list is the element that was pushed longest ago; the back
//! is the one pushed last.

use vstd::prelude::*;

verus! {

/// Names one node of the [`DoublyLinkedList`] that handed it out. A handle
/// stays valid until the node it names is removed, and is never valid again
/// after that.
#[derive(Clone, Copy, Debug, PartialEq, Eq)]
pub struct Handle {
    index: usize,
    generation: u64,
}

struct Slot<T> {
    elem: Option<T>,
    /// How often a node has been removed from this slot.
    generation: u64,
    /// The neighbour towards the front.
    prev: Option<usize>,
    /// The neighbour towards the back.
    next: Option<usize>,
}

/// A list of elements in the order in which they were appended. Every
/// operation expects a list of which [`DoublyLinkedList::wf`] holds and leaves
/// one; [`DoublyLinkedList::new`] makes one.
pub struct DoublyLinkedList<T> {
    slots: Vec<Slot<T>>,
    /// Vacant slots that may be occupied again.
    free: Vec<usize>,
    head: Option<usize>,
    tail: Option<usize>,
    elements: usize,
    /// The occupied slots, front to back.
    order: Ghost<Seq<usize>>,
}

impl<T> View for DoublyLinkedList<T> {
    type V = Seq<T>;

    /// The elements, front to back.
    closed spec fn view(&self) -> Seq<T> {
        Seq::new(self.order@.len(), |i: int| self.slots@[self.order@[i] as int].elem->0)
    }
}

impl<T> DoublyLinkedList<T> {
    spec fn before(order: Seq<usize>, i: int) -> Option<usize> {
        if i == 0 {
            None
        } else {
            Some(order[i - 1])
        }
    }

    spec fn after(order: Seq<usize>, i: int) -> Option<usize> {
        if i + 1 == order.len() {
            None
        } else {
            Some(order[i + 1])
        }
    }

    /// The slot at position `i` of the chain holds an element and points at
    /// its two neighbours in the chain.
    spec fn linked_at(&self, i: int) -> bool {
        let s = self.order@[i] as int;
        &&& s < self.slots@.len()
        &&& self.slots@[s].elem is Some
        &&& self.slots@[s].generation < u64::MAX
        &&& self.slots@[s].prev == Self::before(self.order@, i)
        &&& self.slots@[s].next == Self::after(self.order@, i)
    }

    /// The `j`-th entry of the free list is an empty slot whose generation
    /// can still advance.
    spec fn vacant_at(&self, j: int) -> bool {
        let s = self.free@[j] as int;
        &&& s < self.slots@.len()
        &&& self.slots@[s].elem is None
        &&& self.slots@[s].generation < u64::MAX
    }

    /// The representation invariant: the links of the occupied slots spell
    /// out one chain from `head` to `tail`, every occupied slot is on it, and
    /// the free list holds distinct empty slots.
    pub closed spec fn wf(&self) -> bool {
        &&& self.elements == self.order@.len()
        &&& self.order@.len() + self.free@.len() <= self.slots@.len()
        &&& self.order@.no_duplicates()
        &&& self.free@.no_duplicates()
        &&& forall|i: int| 0 <= i < self.order@.len() ==> self.linked_at(i)
        &&& forall|j: int| 0 <= j < self.free@.len() ==> self.vacant_at(j)
        &&& forall|s: usize|
            s < self.slots@.len() && (#[trigger] self.slots@[s as int]).elem is Some
                ==> self.order@.contains(s)
        &&& self.head == if self.order@.len() == 0 {
            None
        } else {
            Some(self.order@[0])
        }
        &&& self.tail == if self.order@.len() == 0 {
            None
        } else {
            Some(self.order@[self.order@.len() - 1])
        }
    }

    /// The handles of the elements, front to back: `handles()[i]` names the
    /// element `self@[i]`.
    pub closed spec fn handles(&self) -> Seq<Handle> {
        Seq::new(
            self.order@.len(),
            |i: int|
                Handle {
                    index: self.order@[i],
                    generation: self.slots@[self.order@[i] as int].generation,
                },
        )
    }

    /// Whether `handle` has been handed out by this list, be its node still
    /// in the list or not.
    pub closed spec fn was_issued(&self, handle: Handle) -> bool {
        &&& handle.index < self.slots@.len()
        &&& {
            let slot = self.slots@[handle.index as int];
            ||| handle.generation < slot.generation
            ||| handle.generation == slot.generation && slot.elem is Some
        }
    }

    /// Each element has exactly one handle, and every handle in the list has
    /// been issued.
    pub proof fn lemma_handles(&self)
        requires
            self.wf(),
        ensures
            self.handles().len() == self@.len(),
            self.handles().no_duplicates(),
            forall|i: int|
                0 <= i < self.handles().len() ==> self.was_issued(#[trigger] self.handles()[i]),
    {
        assert forall|i: int| 0 <= i < self.handles().len() implies self.was_issued(
            #[trigger] self.handles()[i],
        ) by {
            assert(self.linked_at(i));
        }
    }

    /// An empty list.
    pub fn new() -> (list: Self)
        ensures
            list.wf(),
            list@ == Seq::<T>::empty(),
            list.handles() == Seq::<Handle>::empty(),
            forall|h: Handle| !list.was_issued(h),
    {
        DoublyLinkedList {
            slots: Vec::new(),
            free: Vec::new(),
            head: None,
            tail: None,
            elements: 0,
            order: Ghost(Seq::empty()),
        }
    }

    /// Appends `elem` at the back and returns the handle of its node, which no
    /// node of this list has had before.
    pub fn push_back(&mut self, elem: T) -> (handle: Handle)
        requires
            old(self).wf(),
        ensures
            final(self).wf(),
            final(self)@ == old(self)@.push(elem),
            final(self).handles() == old(self).handles().push(handle),
            !old(self).was_issued(handle),
            forall|h: Handle| final(self).was_issued(h) <==> old(self).was_issued(h) || h == handle,
    {
        let ghost pre = *self;
        let old_tail = self.tail;
        let index: usize;
        let generation: u64;
        match self.free.pop() {
            Some(vacant) => {
                assert(pre.vacant_at(pre.free@.len() - 1));
                index = vacant;
                generation = self.slots[index].generation;
                self.slots[index].elem = Some(elem);
                self.slots[index].prev = old_tail;
                self.slots[index].next = None;
            },
            None => {
                index = self.slots.len();
                generation = 0;
                let slot = Slot { elem: Some(elem), generation: 0, prev: old_tail, next: None };
                self.slots.push(slot);
            },
        }
        proof {
            assert forall|i: int| 0 <= i < pre.order@.len() implies pre.order@[i] != index by {
                assert(pre.linked_at(i));
            }
            if pre.order@.len() > 0 {
                assert(pre.linked_at(pre.order@.len() - 1));
            }
        }
        match old_tail {
            Some(last) => {
                self.slots[last].next = Some(index);
            },
            None => {
                self.head = Some(index);
            },
        }
        self.tail = Some(index);
        assert(pre.order@.len() < self.slots@.len() == self.slots.len());
        self.elements = self.elements + 1;
        self.order = Ghost(pre.order@.push(index));
        let handle = Handle { index, generation };
        proof {
            let n = pre.order@.len() as int;
            assert forall|i: int| 0 <= i < self.order@.len() implies self.linked_at(i) by {
                if i < n {
                    assert(pre.linked_at(i));
                }
            }
            assert forall|j: int| 0 <= j < self.free@.len() implies self.vacant_at(j) by {
                assert(pre.vacant_at(j));
            }
            assert forall|s: usize|
                s < self.slots@.len() && (#[trigger] self.slots@[s as int]).elem is Some
                    implies self.order@.contains(s) by {
                if s == index {
                    assert(self.order@[n] == index);
                } else {
                    assert(pre.slots@[s as int].elem is Some);
                    let p = choose|p: int| 0 <= p < n && pre.order@[p] == s;
                    assert(self.order@[p] == s);
                }
            }
            assert(self@ =~= pre@.push(elem)) by {
                assert forall|i: int| 0 <= i < n implies self@[i] == pre@[i] by {
                    assert(pre.linked_at(i));
                }
            }
            assert(self.handles() =~= pre.handles().push(handle)) by {
                assert forall|i: int| 0 <= i < n implies self.handles()[i] == pre.handles()[i] by {
                    assert(pre.linked_at(i));
                }
            }
            assert forall|h: Handle|
                self.was_issued(h) <==> pre.was_issued(h) || h == handle by {
                if h.index < pre.slots@.len() && h.index != index {
                    assert(self.slots@[h.index as int].generation == pre.slots@[h.index as int].generation);
                    assert(self.slots@[h.index as int].elem is Some == pre.slots@[h.index as int].elem is Some);
                }
            }
        }
        handle
    }

    /// Removes the node that `handle` names and returns its element. A handle
    /// whose node is no longer in the list removes nothing.
    pub fn delete(&mut self, handle: Handle) -> (removed: Option<T>)
        requires
            old(self).wf(),
        ensures
            final(self).wf(),
            old(self).handles().contains(handle) ==> {
                let p = old(self).handles().index_of(handle);
                &&& removed == Some(old(self)@[p])
                &&& final(self)@ == old(self)@.remove(p)
                &&& final(self).handles() == old(self).handles().remove(p)
            },
            !old(self).handles().contains(handle) ==> {
                &&& removed is None
                &&& final(self)@ == old(self)@
                &&& final(self).handles() == old(self).handles()
            },
            forall|h: Handle| final(self).was_issued(h) == old(self).was_issued(h),
    {
        let ghost pre = *self;
        let index = handle.index;
        if index >= self.slots.len() || self.slots[index].elem.is_none()
            || self.slots[index].generation != handle.generation {
            proof {
                assert forall|i: int| 0 <= i < pre.handles().len() implies pre.handles()[i]
                    != handle by {
                    assert(pre.linked_at(i));
                }
            }
            return None;
        }
        let ghost p = choose|p: int| 0 <= p < pre.order@.len() && pre.order@[p] == index;
        proof {
            assert(pre.order@.contains(index));
            pre.lemma_handles();
            assert(pre.handles()[p] == handle);
            assert(pre.handles().index_of(handle) == p);
            assert(pre.linked_at(p));
            if p > 0 {
                assert(pre.linked_at(p - 1));
            }
            if p + 1 < pre.order@.len() {
                assert(pre.linked_at(p + 1));
            }
        }
        let prev = self.slots[index].prev;
        let next = self.slots[index].next;
        match next {
            Some(successor) => {
                self.slots[successor].prev = prev;
            },
            None => {
                self.tail = prev;
            },
        }
        match prev {
            Some(predecessor) => {
                self.slots[predecessor].next = next;
            },
            None => {
                self.head = next;
            },
        }
        let removed = self.slots[index].elem.take();
        let generation = self.slots[index].generation + 1;
        self.slots[index].generation = generation;
        // A slot that has run out of generations is never occupied again: a
        // node in it would answer to a handle that was handed out before.
        if generation < u64::MAX {
            self.free.push(index);
        }
        self.elements = self.elements - 1;
        self.order = Ghost(pre.order@.remove(p));
        proof {
            assert forall|s: usize| s < pre.slots@.len() implies Self::unlinked_slot(
                pre,
                *self,
                p,
                s,
            ) by {}
            Self::lemma_unlinked(pre, *self, p);
        }
        removed
    }

    /// How slot `s` changes when the node at position `p` of the chain leaves
    /// it: that node's slot is emptied and its generation advances; its two
    /// neighbours are joined; every other slot stays as it is.
    spec fn unlinked_slot(pre: Self, post: Self, p: int, s: usize) -> bool {
        let gone = pre.order@[p];
        let old_slot = pre.slots@[s as int];
        let new_slot = post.slots@[s as int];
        if s == gone {
            &&& new_slot.elem is None
            &&& new_slot.generation == old_slot.generation + 1
        } else {
            &&& new_slot.elem == old_slot.elem
            &&& new_slot.generation == old_slot.generation
            &&& new_slot.prev == if Self::after(pre.order@, p) == Some(s) {
                Self::before(pre.order@, p)
            } else {
                old_slot.prev
            }
            &&& new_slot.next == if Self::before(pre.order@, p) == Some(s) {
                Self::after(pre.order@, p)
            } else {
                old_slot.next
            }
        }
    }

    proof fn lemma_unlinked(pre: Self, post: Self, p: int)
        requires
            pre.wf(),
            0 <= p < pre.order@.len(),
            post.order@ == pre.order@.remove(p),
            post.elements == pre.elements - 1,
            post.slots@.len() == pre.slots@.len(),
            post.head == if p == 0 {
                Self::after(pre.order@, p)
            } else {
                pre.head
            },
            post.tail == if p + 1 == pre.order@.len() {
                Self::before(pre.order@, p)
            } else {
                pre.tail
            },
            post.free@ == if pre.slots@[pre.order@[p] as int].generation + 1 < u64::MAX {
                pre.free@.push(pre.order@[p])
            } else {
                pre.free@
            },
            forall|s: usize| s < pre.slots@.len() ==> Self::unlinked_slot(pre, post, p, s),
        ensures
            post.wf(),
            post@ == pre@.remove(p),
            post.handles() == pre.handles().remove(p),
            forall|h: Handle| post.was_issued(h) == pre.was_issued(h),
    {
        let n = pre.order@.len() as int;
        let gone = pre.order@[p];
        assert(pre.linked_at(p));
        assert forall|i: int| 0 <= i < n - 1 implies post.order@[i] == (if i < p {
            pre.order@[i]
        } else {
            pre.order@[i + 1]
        }) by {}
        assert forall|i: int| 0 <= i < n - 1 implies post.order@[i] != gone by {}
        assert(post.order@.no_duplicates());
        assert forall|i: int| 0 <= i < post.order@.len() implies post.linked_at(i) by {
            let k = if i < p {
                i
            } else {
                i + 1
            };
            assert(pre.linked_at(k));
            assert(Self::unlinked_slot(pre, post, p, pre.order@[k]));
        }
        assert forall|j: int| 0 <= j < pre.free@.len() implies pre.free@[j] != gone by {
            assert(pre.vacant_at(j));
        }
        assert(post.free@.no_duplicates());
        assert forall|j: int| 0 <= j < post.free@.len() implies post.vacant_at(j) by {
            if j < pre.free@.len() {
                assert(pre.vacant_at(j));
            }
            assert(Self::unlinked_slot(pre, post, p, post.free@[j]));
        }
        assert forall|s: usize|
            s < post.slots@.len() && (#[trigger] post.slots@[s as int]).elem is Some
                implies post.order@.contains(s) by {
            assert(Self::unlinked_slot(pre, post, p, s));
            assert(pre.slots@[s as int].elem is Some);
            let q = choose|q: int| 0 <= q < n && pre.order@[q] == s;
            if q < p {
                assert(post.order@[q] == s);
            } else {
                assert(post.order@[q - 1] == s);
            }
        }
        assert(post@ =~= pre@.remove(p)) by {
            assert forall|i: int| 0 <= i < n - 1 implies post@[i] == pre@.remove(p)[i] by {
                let k = if i < p {
                    i
                } else {
                    i + 1
                };
                assert(pre.linked_at(k));
                assert(Self::unlinked_slot(pre, post, p, pre.order@[k]));
            }
        }
        assert(post.handles() =~= pre.handles().remove(p)) by {
            assert forall|i: int| 0 <= i < n - 1 implies post.handles()[i] == pre.handles().remove(p)[i] by {
                let k = if i < p {
                    i
                } else {
                    i + 1
                };
                assert(pre.linked_at(k));
                assert(Self::unlinked_slot(pre, post, p, pre.order@[k]));
            }
        }
        assert forall|h: Handle| post.was_issued(h) == pre.was_issued(h) by {
            if h.index < pre.slots@.len() {
                assert(Self::unlinked_slot(pre, post, p, h.index));
            }
        }
    }

    /// Removes the element at the front and returns it; `None` if the list is
    /// empty.
    pub fn pop_front(&mut self) -> (removed: Option<T>)
        requires
            old(self).wf(),
        ensures
            final(self).wf(),
            old(self)@.len() == 0 ==> {
                &&& removed is None
                &&& final(self)@ == old(self)@
                &&& final(self).handles() == old(self).handles()
            },
            old(self)@.len() > 0 ==> {
                &&& removed == Some(old(self)@[0])
                &&& final(self)@ == old(self)@.drop_first()
                &&& final(self).handles() == old(self).handles().drop_first()
            },
            forall|h: Handle| final(self).was_issued(h) == old(self).was_issued(h),
    {
        match self.peek_front() {
            None => None,
            Some(front) => {
                proof {
                    self.lemma_handles();
                    assert(self.handles()[0] == front);
                    assert(self.handles().index_of(front) == 0);
                    assert(self@.remove(0) =~= self@.drop_first());
                    assert(self.handles().remove(0) =~= self.handles().drop_first());
                }
                self.delete(front)
            },
        }
    }

    /// Removes the element at the back and returns it; `None` if the list is
    /// empty.
    pub fn pop_back(&mut self) -> (removed: Option<T>)
        requires
            old(self).wf(),
        ensures
            final(self).wf(),
            old(self)@.len() == 0 ==> {
                &&& removed is None
                &&& final(self)@ == old(self)@
                &&& final(self).handles() == old(self).handles()
            },
            old(self)@.len() > 0 ==> {
                &&& removed == Some(old(self)@.last())
                &&& final(self)@ == old(self)@.drop_last()
                &&& final(self).handles() == old(self).handles().drop_last()
            },
            forall|h: Handle| final(self).was_issued(h) == old(self).was_issued(h),
    {
        match self.tail {
            None => None,
            Some(index) => {
                let ghost last = self.order@.len() - 1;
                assert(self.linked_at(last));
                let back = Handle { index, generation: self.slots[index].generation };
                proof {
                    self.lemma_handles();
                    assert(self.handles()[last] == back);
                    assert(self.handles().index_of(back) == last);
                    assert(self@.remove(last) =~= self@.drop_last());
                    assert(self.handles().remove(last) =~= self.handles().drop_last());
                }
                self.delete(back)
            },
        }
    }

    /// The handle of the element at the front; `None` if the list is empty.
    pub fn peek_front(&self) -> (front: Option<Handle>)
        requires
            self.wf(),
        ensures
            front == if self@.len() == 0 {
                None
            } else {
                Some(self.handles()[0])
            },
    {
        match self.head {
            None => None,
            Some(index) => {
                assert(self.linked_at(0));
                Some(Handle { index, generation: self.slots[index].generation })
            },
        }
    }

    pub fn is_empty(&self) -> (empty: bool)
        requires
            self.wf(),
        ensures
            empty == (self@.len() == 0),
    {
        self.elements == 0
    }

    pub fn num_elements(&self) -> (count: usize)
        requires
            self.wf(),
        ensures
            count == self@.len(),
    {
        self.elements
    }
}

} // verus!
