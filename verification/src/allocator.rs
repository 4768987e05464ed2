//! A generational slab: values live in numbered slots, and every handle carries
//! the generation of the slot it was issued for, so that a handle kept after its
//! value was removed is recognised as stale instead of reaching a later tenant.

use std::collections::VecDeque;
use vstd::prelude::*;

verus! {

/// The largest number of slots a slab ever holds; every slot index fits a `u32`.
pub const MAX_CAPACITY: usize = 0x8000_0000;

/// The number of slots the first growth of an empty slab allocates.
pub const INITIAL_CAPACITY: usize = 4;

/// A handle to a value in a [`Slab`]: a slot index and the generation of that slot.
#[derive(Debug, PartialEq, Eq, PartialOrd, Clone, Copy, Hash, Structural)]
pub struct NodeId {
    idx: u32,
    ver: u32,
}

impl NodeId {
    /// The slot this handle points at.
    pub closed spec fn index(self) -> u32 {
        self.idx
    }

    /// The generation of the slot at the time the handle was issued.
    pub closed spec fn generation(self) -> u32 {
        self.ver
    }

    /// Two handles with the same slot and generation are the same handle.
    pub proof fn lemma_raw_parts_decide(a: NodeId, b: NodeId)
        requires
            a.index() == b.index(),
            a.generation() == b.generation(),
        ensures
            a == b,
    {
    }

    /// The handle to slot `idx` in generation `ver`.
    pub fn from_raw(idx: u32, ver: u32) -> (id: Self)
        ensures
            id.index() == idx,
            id.generation() == ver,
    {
        NodeId { idx, ver }
    }

    /// The slot and the generation of the handle.
    pub fn into_raw(self) -> (raw: (u32, u32))
        ensures
            raw.0 == self.index(),
            raw.1 == self.generation(),
    {
        (self.idx, self.ver)
    }
}

/// One slot. An even generation means the slot is occupied, an odd one that it
/// is free; a slot starts free at generation 1.
struct Slot<V> {
    value: Option<V>,
    version: u32,
}

/// A pool of values addressed by [`NodeId`].
pub struct Slab<V> {
    slots: Vec<Slot<V>>,
    taken: usize,
    free: VecDeque<u32>,
    /// How many slots have used up their generations and are never handed out again.
    retired: Ghost<nat>,
}

/// Whether `n` is a power of two.
pub open spec fn is_power_of_two(n: nat) -> bool {
    exists|e: nat| n == vstd::arithmetic::power2::pow2(e)
}

/// The capacity a slab of capacity `cap` grows to when it runs out of free slots.
pub open spec fn grown(cap: nat) -> nat {
    if cap == 0 {
        INITIAL_CAPACITY as nat
    } else if 2 * cap <= MAX_CAPACITY {
        2 * cap
    } else {
        MAX_CAPACITY as nat
    }
}

impl<V> View for Slab<V> {
    type V = Map<NodeId, V>;

    /// The live handles and the value each one reaches.
    closed spec fn view(&self) -> Map<NodeId, V> {
        Map::new(|k: NodeId| self.holds(k), |k: NodeId| self.slots[k.idx as int].value.unwrap())
    }
}

impl<V> Slab<V> {
    spec fn holds(&self, k: NodeId) -> bool {
        &&& (k.idx as int) < self.slots.len()
        &&& self.slots[k.idx as int].version == k.ver
        &&& k.ver % 2 == 0
    }

    /// The invariant of the slab.
    pub closed spec fn wf(&self) -> bool {
        &&& self.slots.len() <= MAX_CAPACITY
        &&& forall|i: int|
            0 <= i < self.slots.len() ==> (#[trigger] self.slots[i]).value.is_some() == (
            self.slots[i].version % 2 == 0)
        &&& forall|j: int|
            0 <= j < self.free@.len() ==> {
                &&& (#[trigger] self.free@[j] as int) < self.slots.len()
                &&& self.slots[self.free@[j] as int].version % 2 == 1
                &&& self.slots[self.free@[j] as int].version < u32::MAX
            }
        &&& forall|j: int, k: int|
            0 <= j < k < self.free@.len() ==> self.free@[j] != self.free@[k]
        &&& self@.dom().finite()
        &&& self.taken == self@.dom().len()
        &&& self.taken + self.free@.len() + self.retired@ == self.slots.len()
    }

    /// The number of slots, free ones included.
    pub closed spec fn spec_capacity(&self) -> nat {
        self.slots.len() as nat
    }

    /// The number of live values.
    pub closed spec fn spec_len(&self) -> nat {
        self.taken as nat
    }

    /// The free slots, in the order in which they will be handed out.
    pub closed spec fn free_list(&self) -> Seq<u32> {
        self.free@
    }

    /// How many more values the slab can take.
    pub open spec fn spare(&self) -> nat {
        (self.free_list().len() + MAX_CAPACITY - self.spec_capacity()) as nat
    }

    /// A handle is spent when its slot has moved on to a later generation: the
    /// value it was issued for is gone and the handle will never be live again.
    pub closed spec fn spent(&self, k: NodeId) -> bool {
        &&& (k.idx as int) < self.slots.len()
        &&& k.ver < self.slots[k.idx as int].version
    }

    /// What every operation guarantees of the state it leaves: the slab never
    /// shrinks and no spent handle is revived.
    pub open spec fn evolves_to(&self, next: &Self) -> bool {
        &&& self.spec_capacity() <= next.spec_capacity()
        &&& forall|k: NodeId| #[trigger] self.spent(k) ==> next.spent(k)
    }

    /// In a well-formed slab the number of live values is the size of the view,
    /// and the capacity is within its limit.
    pub proof fn lemma_len_is_cardinality(&self)
        requires
            self.wf(),
        ensures
            self@.dom().finite(),
            self.spec_len() == self@.dom().len(),
            self.spec_len() + self.free_list().len() <= self.spec_capacity() <= MAX_CAPACITY,
    {
    }

    /// A spent handle reaches nothing.
    pub proof fn lemma_spent_is_absent(&self, k: NodeId)
        requires
            self.spent(k),
        ensures
            !self@.contains_key(k),
    {
    }

    /// A live handle names a slot of the slab and has an even generation.
    pub proof fn lemma_live_handle(&self, k: NodeId)
        requires
            self@.contains_key(k),
        ensures
            (k.index() as nat) < self.spec_capacity(),
            k.generation() % 2 == 0,
            !self.spent(k),
    {
    }

    /// At most one live handle points at any slot.
    pub proof fn lemma_one_handle_per_slot(&self, a: NodeId, b: NodeId)
        requires
            self@.contains_key(a),
            self@.contains_key(b),
            a.index() == b.index(),
        ensures
            a == b,
    {
    }

    /// A handle that was spent at some time reaches nothing at any later time,
    /// whatever was inserted and removed in between: in a history of states
    /// of which each evolves to the next, a handle that is spent in the first
    /// state is spent, and therefore absent, in all of them.
    pub proof fn lemma_spent_for_good(history: Seq<Slab<V>>, k: NodeId, at: int)
        requires
            history.len() > 0,
            forall|i: int|
                0 <= i < history.len() - 1 ==> (#[trigger] history[i]).evolves_to(&history[i + 1]),
            history[0].spent(k),
            0 <= at < history.len(),
        ensures
            history[at].spent(k),
            !history[at]@.contains_key(k),
        decreases at,
    {
        if at > 0 {
            Self::lemma_spent_for_good(history, k, at - 1);
            assert(history[at - 1].evolves_to(&history[at - 1 + 1]));
        }
    }

    /// Whether `next` is this slab after the live handle `k` was removed.
    pub open spec fn removal_of(&self, next: &Self, k: NodeId) -> bool {
        &&& self@.contains_key(k)
        &&& next@ == self@.remove(k)
        &&& next.spent(k)
        &&& self.evolves_to(next)
    }

    /// Whether `next` is this slab after `value` was inserted and was given
    /// the handle `k`.
    pub open spec fn insertion_of(&self, next: &Self, k: NodeId, value: V) -> bool {
        &&& !self@.contains_key(k)
        &&& !self.spent(k)
        &&& next@ == self@.insert(k, value)
        &&& self.evolves_to(next)
    }

    /// The round trip of a handle. In a history of states of which each
    /// evolves to the next, which begins with the removal of `gone` and ends
    /// with an insertion that was given the handle `fresh`: `gone` reaches
    /// nothing in any state after its removal, `fresh` reaches the inserted
    /// value, the two handles differ, and where `fresh` names the slot that
    /// `gone` named, it has a later generation.
    pub proof fn lemma_round_trip(history: Seq<Slab<V>>, gone: NodeId, fresh: NodeId, value: V)
        requires
            history.len() >= 3,
            forall|i: int|
                0 <= i < history.len() - 1 ==> (#[trigger] history[i]).evolves_to(&history[i + 1]),
            history[0].removal_of(&history[1], gone),
            history[history.len() - 2].insertion_of(&history[history.len() - 1], fresh, value),
        ensures
            forall|at: int| 1 <= at < history.len() ==> !(#[trigger] history[at])@.contains_key(gone),
            history.last()@.contains_key(fresh),
            history.last()@[fresh] == value,
            fresh != gone,
            fresh.index() == gone.index() ==> fresh.generation() > gone.generation(),
    {
        let later = history.skip(1);
        assert forall|i: int| 0 <= i < later.len() - 1 implies (#[trigger] later[i]).evolves_to(
            &later[i + 1],
        ) by {
            assert(history[i + 1].evolves_to(&history[i + 1 + 1]));
        }
        assert forall|at: int| 1 <= at < history.len() implies !(#[trigger] history[at])@.contains_key(
            gone,
        ) by {
            Self::lemma_spent_for_good(later, gone, at - 1);
        }
        Self::lemma_spent_for_good(later, gone, history.len() - 3);
        assert(later[history.len() - 3] == history[history.len() - 2]);
    }

    /// An empty slab without any slot.
    pub fn new() -> (s: Self)
        ensures
            s.wf(),
            s@ == Map::<NodeId, V>::empty(),
            s.spec_capacity() == 0,
            s.spec_len() == 0,
            s.free_list() == Seq::<u32>::empty(),
    {
        let s = Slab { slots: Vec::new(), taken: 0, free: VecDeque::new(), retired: Ghost(0) };
        assert(s@ =~= Map::<NodeId, V>::empty());
        s
    }

    /// A slab with `cap` free slots allocated in advance.
    pub fn with_capacity(cap: usize) -> (s: Self)
        requires
            is_power_of_two(cap as nat),
            cap <= MAX_CAPACITY,
        ensures
            s.wf(),
            s@ == Map::<NodeId, V>::empty(),
            s.spec_capacity() == cap,
            s.spec_len() == 0,
            s.free_list() == Seq::new(cap as nat, |i: int| i as u32),
    {
        let mut s = Slab { slots: Vec::new(), taken: 0, free: VecDeque::new(), retired: Ghost(0) };
        assert(s@ =~= Map::<NodeId, V>::empty());
        s.extend_to(cap);
        assert(s.free@ =~= Seq::new(cap as nat, |i: int| i as u32));
        s
    }

    /// Appends free slots until the slab has `cap` of them.
    fn extend_to(&mut self, cap: usize)
        requires
            old(self).wf(),
            old(self).slots.len() <= cap <= MAX_CAPACITY,
        ensures
            final(self).wf(),
            final(self)@ == old(self)@,
            final(self).slots.len() == cap,
            final(self).taken == old(self).taken,
            final(self).free@ == old(self).free@ + Seq::new(
                (cap - old(self).slots.len()) as nat,
                |i: int| (old(self).slots.len() + i) as u32,
            ),
            forall|i: int|
                0 <= i < old(self).slots.len() ==> final(self).slots[i] == old(self).slots[i],
            old(self).evolves_to(final(self)),
    {
        let ghost before = *self;
        let start: usize = self.slots.len();
        let mut i: usize = start;
        while i < cap
            invariant
                start <= i <= cap <= MAX_CAPACITY,
                start == before.slots.len(),
                before.wf(),
                self.wf(),
                self.slots.len() == i,
                self@ == before@,
                self.taken == before.taken,
                self.free@ == before.free@ + Seq::new(
                    (i - start) as nat,
                    |j: int| (start + j) as u32,
                ),
                forall|j: int| 0 <= j < start ==> self.slots[j] == before.slots[j],
            decreases cap - i,
        {
            let ghost prev = *self;
            self.slots.push(Slot { value: None, version: 1 });
            self.free.push_back(i as u32);
            proof {
                assert(self@ =~= prev@);
                assert(self.free@ =~= before.free@ + Seq::new(
                    (i + 1 - start) as nat,
                    |j: int| (start + j) as u32,
                ));
                assert forall|j: int, k: int| 0 <= j < k < self.free@.len() implies self.free@[j]
                    != self.free@[k] by {
                    if k == self.free@.len() - 1 {
                        assert((prev.free@[j] as int) < prev.slots.len());
                    }
                }
            }
            i = i + 1;
        }
    }

    /// The number of live values.
    pub fn len(&self) -> (n: usize)
        ensures
            n == self.spec_len(),
    {
        self.taken
    }

    /// The number of slots, free ones included.
    pub fn capacity(&self) -> (n: usize)
        ensures
            n == self.spec_capacity(),
    {
        self.slots.len()
    }

    /// Whether the slab has reached its limit: no slot is free and it cannot grow.
    pub fn is_full(&self) -> (b: bool)
        requires
            self.wf(),
        ensures
            b == (self.spare() == 0),
    {
        self.free.len() == 0 && self.slots.len() >= MAX_CAPACITY
    }

    /// How many more values the slab can take.
    pub fn room(&self) -> (n: usize)
        requires
            self.wf(),
        ensures
            n == self.spare(),
    {
        self.free.len() + (MAX_CAPACITY - self.slots.len())
    }

    /// Stores `value` and returns the handle that reaches it. The slot freed
    /// longest ago is used again; where none is free the slab grows first.
    pub fn insert(&mut self, value: V) -> (key: NodeId)
        requires
            old(self).wf(),
            old(self).spare() > 0,
        ensures
            final(self).wf(),
            !old(self)@.contains_key(key),
            !old(self).spent(key),
            final(self)@ == old(self)@.insert(key, value),
            final(self).spec_len() == old(self).spec_len() + 1,
            final(self).spare() == old(self).spare() - 1,
            old(self).evolves_to(final(self)),
            old(self).insertion_of(final(self), key, value),
            old(self).free_list().len() > 0 ==> {
                &&& key.index() == old(self).free_list()[0]
                &&& final(self).free_list() == old(self).free_list().skip(1)
                &&& final(self).spec_capacity() == old(self).spec_capacity()
            },
            old(self).free_list().len() == 0 ==> {
                &&& key.index() == old(self).spec_capacity()
                &&& final(self).spec_capacity() == grown(old(self).spec_capacity())
                &&& final(self).free_list() == Seq::new(
                    (final(self).spec_capacity() - old(self).spec_capacity() - 1) as nat,
                    |i: int| (old(self).spec_capacity() + 1 + i) as u32,
                )
            },
    {
        let ghost before = *self;
        if self.free.len() == 0 {
            let cap: usize = self.slots.len();
            let target: usize = if cap == 0 {
                INITIAL_CAPACITY
            } else if cap <= MAX_CAPACITY / 2 {
                cap * 2
            } else {
                MAX_CAPACITY
            };
            self.extend_to(target);
        }
        let ghost mid = *self;
        let popped = self.free.pop_front();
        let offset: u32 = popped.unwrap();
        let i: usize = offset as usize;
        assert(mid.free@[0] == offset);
        let version: u32 = self.slots[i].version + 1;
        self.slots[i].value = Some(value);
        self.slots[i].version = version;
        self.taken = self.taken + 1;
        let key = NodeId { idx: offset, ver: version };
        proof {
            assert(!mid.holds(key));
            assert(self@ =~= mid@.insert(key, value));
            assert forall|j: int| 0 <= j < self.free@.len() implies {
                &&& (#[trigger] self.free@[j] as int) < self.slots.len()
                &&& self.slots[self.free@[j] as int].version % 2 == 1
                &&& self.slots[self.free@[j] as int].version < u32::MAX
            } by {
                assert(self.free@[j] == mid.free@[j + 1]);
            }
            assert forall|j: int, k: int| 0 <= j < k < self.free@.len() implies self.free@[j]
                != self.free@[k] by {
                assert(self.free@[j] == mid.free@[j + 1]);
                assert(self.free@[k] == mid.free@[k + 1]);
            }
            if before.free@.len() == 0 {
                assert(self.free@ =~= Seq::new(
                    (self.slots.len() - before.slots.len() - 1) as nat,
                    |i: int| (before.slots.len() + 1 + i) as u32,
                ));
            } else {
                assert(self.free@ =~= before.free@.skip(1));
            }
        }
        key
    }

    /// The value that `key` reaches, if `key` is live.
    pub fn get(&self, key: NodeId) -> (r: Option<&V>)
        requires
            self.wf(),
        ensures
            match r {
                Some(v) => self@.contains_key(key) && *v == self@[key],
                None => !self@.contains_key(key),
            },
    {
        let i: usize = key.idx as usize;
        if i >= self.slots.len() {
            return None;
        }
        if self.slots[i].version % 2 != 0 || self.slots[i].version != key.ver {
            return None;
        }
        self.slots[i].value.as_ref()
    }

    /// Whether `key` is live.
    pub fn contains(&self, key: NodeId) -> (b: bool)
        requires
            self.wf(),
        ensures
            b == self@.contains_key(key),
    {
        let i: usize = key.idx as usize;
        i < self.slots.len() && self.slots[i].version % 2 == 0 && self.slots[i].version == key.ver
    }

    /// Replaces the value that `key` reaches. Without effect where `key` is not live.
    pub fn set(&mut self, key: NodeId, value: V) -> (done: bool)
        requires
            old(self).wf(),
        ensures
            final(self).wf(),
            done == old(self)@.contains_key(key),
            final(self)@ == if done {
                old(self)@.insert(key, value)
            } else {
                old(self)@
            },
            final(self).same_slots_as(old(self)),
    {
        let i: usize = key.idx as usize;
        if i >= self.slots.len() {
            return false;
        }
        if self.slots[i].version % 2 != 0 || self.slots[i].version != key.ver {
            return false;
        }
        let ghost before = *self;
        self.slots[i].value = Some(value);
        proof {
            assert(self@ =~= before@.insert(key, value));
            assert(self@.dom() =~= before@.dom());
        }
        true
    }

    /// Two slabs that differ at most in the values stored: same capacity, same
    /// live handles, same free list, same spent handles.
    pub closed spec fn same_slots_as(&self, other: &Self) -> bool {
        &&& self.slots.len() == other.slots.len()
        &&& self.taken == other.taken
        &&& self.free@ == other.free@
        &&& self.retired@ == other.retired@
        &&& forall|i: int|
            0 <= i < self.slots.len() ==> (#[trigger] self.slots[i]).version
                == other.slots[i].version
    }

    /// What `same_slots_as` means for the public view of a slab.
    pub proof fn lemma_same_slots(&self, other: &Self)
        requires
            self.same_slots_as(other),
        ensures
            self@.dom() == other@.dom(),
            self.spec_len() == other.spec_len(),
            self.spec_capacity() == other.spec_capacity(),
            self.free_list() == other.free_list(),
            self.spare() == other.spare(),
            other.evolves_to(self),
            self.evolves_to(other),
            forall|k: NodeId| self.spent(k) == other.spent(k),
    {
        assert(self@.dom() =~= other@.dom());
    }

    /// Removes the value that `key` reaches and returns it. The handle is spent
    /// from then on. Without effect where `key` is not live.
    pub fn remove(&mut self, key: NodeId) -> (r: Option<V>)
        requires
            old(self).wf(),
        ensures
            final(self).wf(),
            old(self).evolves_to(final(self)),
            final(self).spec_capacity() == old(self).spec_capacity(),
            final(self).spare() >= old(self).spare(),
            match r {
                Some(v) => {
                    &&& old(self)@.contains_key(key)
                    &&& v == old(self)@[key]
                    &&& final(self)@ == old(self)@.remove(key)
                    &&& final(self).spent(key)
                    &&& old(self).removal_of(final(self), key)
                    &&& final(self).spec_len() == old(self).spec_len() - 1
                    &&& final(self).free_list() == if key.generation() + 1 < u32::MAX {
                        old(self).free_list().push(key.index())
                    } else {
                        old(self).free_list()
                    }
                },
                None => {
                    &&& !old(self)@.contains_key(key)
                    &&& final(self)@ == old(self)@
                    &&& final(self).spec_len() == old(self).spec_len()
                    &&& final(self).free_list() == old(self).free_list()
                },
            },
    {
        let i: usize = key.idx as usize;
        if i >= self.slots.len() {
            return None;
        }
        if self.slots[i].version % 2 != 0 || self.slots[i].version != key.ver {
            return None;
        }
        Some(self.vacate(key))
    }

    /// Takes the value out of the slot of the live handle `key` and frees the slot.
    fn vacate(&mut self, key: NodeId) -> (v: V)
        requires
            old(self).wf(),
            old(self).holds(key),
        ensures
            final(self).wf(),
            old(self).evolves_to(final(self)),
            final(self).slots.len() == old(self).slots.len(),
            final(self).spare() >= old(self).spare(),
            v == old(self)@[key],
            final(self)@ == old(self)@.remove(key),
            final(self).spent(key),
            final(self).taken == old(self).taken - 1,
            final(self).free@ == if key.ver + 1 < u32::MAX {
                old(self).free@.push(key.idx)
            } else {
                old(self).free@
            },
            forall|j: int|
                0 <= j < old(self).slots.len() && j != key.idx ==> final(self).slots[j] == old(
                    self,
                ).slots[j],
    {
        let i: usize = key.idx as usize;
        let ghost before = *self;
        proof {
            assert(before@.dom().contains(key));
            assert forall|j: int| 0 <= j < before.free@.len() implies before.free@[j] != key.idx by {
                assert(before.slots[before.free@[j] as int].version % 2 == 1);
            }
        }
        let value = self.slots[i].value.take();
        let version: u32 = self.slots[i].version + 1;
        self.slots[i].version = version;
        if version < u32::MAX {
            self.free.push_back(key.idx);
        } else {
            proof {
                self.retired@ = self.retired@ + 1;
            }
        }
        self.taken = self.taken - 1;
        proof {
            assert(self@ =~= before@.remove(key));
        }
        value.unwrap()
    }

    /// The value that `key` reaches, for changing it in place, if `key` is live.
    pub fn get_mut(&mut self, key: NodeId) -> (r: Option<&mut V>)
        requires
            old(self).wf(),
        ensures
            final(self).wf(),
            final(self).same_slots_as(old(self)),
            match r {
                Some(v) => {
                    &&& old(self)@.contains_key(key)
                    &&& *v == old(self)@[key]
                    &&& final(self)@ == old(self)@.insert(key, *final(v))
                },
                None => !old(self)@.contains_key(key) && final(self)@ == old(self)@,
            },
    {
        let i: usize = key.idx as usize;
        if i >= self.slots.len() {
            return None;
        }
        if self.slots[i].version % 2 != 0 || self.slots[i].version != key.ver {
            return None;
        }
        let ghost before = *self;
        let r = self.slots[i].value.as_mut();
        proof {
            assert(after_borrow(self)@ =~= before@.insert(key, *final(r.unwrap())));
            assert(after_borrow(self)@.dom() =~= before@.dom());
        }
        r
    }

    /// The live handle that points at slot `i`, if the slot is taken.
    pub closed spec fn live_at(&self, i: nat) -> Option<NodeId> {
        if i < self.slots.len() && self.slots[i as int].version % 2 == 0 {
            Some(NodeId { idx: i as u32, ver: self.slots[i as int].version })
        } else {
            None
        }
    }

    /// The live handle at a slot is the one live handle that points at it.
    pub proof fn lemma_live_at(&self, i: nat, k: NodeId)
        requires
            i <= u32::MAX,
        ensures
            self.live_at(i) == Some(k) <==> (self@.contains_key(k) && k.index() == i),
    {
    }

    /// The slots among the first `n` that are taken here and free in `next`,
    /// and can be used again, in rising order.
    pub open spec fn freed_upto(&self, next: &Self, n: nat) -> Seq<u32>
        decreases n,
    {
        if n == 0 {
            Seq::empty()
        } else {
            let rest = self.freed_upto(next, (n - 1) as nat);
            match self.live_at((n - 1) as nat) {
                Some(k) => if !next@.contains_key(k) && k.generation() + 1 < u32::MAX {
                    rest.push((n - 1) as u32)
                } else {
                    rest
                },
                None => rest,
            }
        }
    }

    /// Which slots count as freed among the first `n` depends only on which
    /// of their handles are live afterwards.
    proof fn lemma_freed_upto_frame(&self, a: &Self, b: &Self, n: nat)
        requires
            forall|k: NodeId| (k.idx as nat) < n ==> a@.contains_key(k) == b@.contains_key(k),
        ensures
            self.freed_upto(a, n) == self.freed_upto(b, n),
        decreases n,
    {
        if n > 0 {
            self.lemma_freed_upto_frame(a, b, (n - 1) as nat);
        }
    }

    /// Keeps the live values for which `f` answers `true` and removes the
    /// others. The slots of the removed values are freed in rising order.
    pub fn retain<F>(&mut self, f: F) where F: Fn(NodeId, &V) -> bool
        requires
            old(self).wf(),
            forall|k: NodeId, v: &V| #[trigger] f.requires((k, v)),
        ensures
            final(self).wf(),
            old(self).evolves_to(final(self)),
            final(self).spec_capacity() == old(self).spec_capacity(),
            final(self).spare() >= old(self).spare(),
            final(self)@.submap_of(old(self)@),
            final(self).free_list() == old(self).free_list() + old(self).freed_upto(
                final(self),
                old(self).spec_capacity(),
            ),
            forall|k: NodeId|
                #[trigger] old(self)@.contains_key(k) ==> if final(self)@.contains_key(k) {
                    f.ensures((k, &old(self)@[k]), true)
                } else {
                    f.ensures((k, &old(self)@[k]), false) && final(self).spent(k)
                },
    {
        let ghost before = *self;
        let cap: usize = self.slots.len();
        let mut i: usize = 0;
        assert(before.free@ + before.freed_upto(&before, 0) =~= before.free@);
        while i < cap
            invariant
                i <= cap,
                cap == before.slots.len(),
                cap == self.slots.len(),
                before.wf(),
                self.wf(),
                before.evolves_to(self),
                self.spare() >= before.spare(),
                forall|k: NodeId, v: &V| #[trigger] f.requires((k, v)),
                self@.submap_of(before@),
                self.free@ == before.free@ + before.freed_upto(self, i as nat),
                forall|j: int| i <= j < cap ==> self.slots[j] == before.slots[j],
                forall|k: NodeId|
                    #[trigger] before@.contains_key(k) && (k.idx as int) < i ==> if self@.contains_key(k) {
                        f.ensures((k, &before@[k]), true)
                    } else {
                        f.ensures((k, &before@[k]), false) && self.spent(k)
                    },
                forall|k: NodeId|
                    #[trigger] before@.contains_key(k) && (k.idx as int) >= i ==> self@.contains_key(k),
            decreases cap - i,
        {
            let ghost prev = *self;
            let key = NodeId { idx: i as u32, ver: self.slots[i].version };
            let occupied: bool = self.slots[i].version % 2 == 0;
            let keep = match self.slots[i].value.as_ref() {
                Some(v) => f(key, v),
                None => true,
            };
            proof {
                if occupied {
                    assert(prev.holds(key));
                    assert(before.holds(key));
                    assert(prev@.contains_key(key));
                    assert(prev@[key] == before@[key]);
                    assert(f.ensures((key, &before@[key]), keep));
                }
            }
            if occupied && !keep {
                let _ = self.vacate(key);
            }
            proof {
                assert forall|k: NodeId| (k.idx as nat) < i implies prev@.contains_key(k)
                    == self@.contains_key(k) by {
                    if prev@.contains_key(k) {
                        assert(k != key);
                    }
                }
                before.lemma_freed_upto_frame(&prev, self, i as nat);
                if occupied {
                    assert(before.live_at(i as nat) == Some(key));
                } else {
                    assert(before.live_at(i as nat) is None);
                }
                assert(self.free@ =~= before.free@ + before.freed_upto(self, (i + 1) as nat));
                assert forall|k: NodeId|
                    #[trigger] before@.contains_key(k) && (k.idx as int) >= i + 1 implies self@.contains_key(
                    k,
                ) by {
                    assert(prev@.contains_key(k));
                    assert(k != key);
                }
                assert forall|k: NodeId|
                    #[trigger] before@.contains_key(k) && (k.idx as int) < i + 1 implies if self@.contains_key(
                    k,
                ) {
                    f.ensures((k, &before@[k]), true)
                } else {
                    f.ensures((k, &before@[k]), false) && self.spent(k)
                } by {
                    if k.idx as int == i {
                        assert(before.holds(k));
                        assert(k == key);
                        assert(occupied);
                        if keep {
                            assert(self@.contains_key(k));
                            assert(f.ensures((k, &before@[k]), true));
                        } else {
                            assert(f.ensures((k, &before@[k]), false));
                            assert(self.spent(k));
                            assert(!self@.contains_key(k));
                        }
                    } else {
                        if prev@.contains_key(k) {
                            assert(k != key);
                            assert(self@.contains_key(k));
                            assert(f.ensures((k, &before@[k]), true));
                        } else {
                            assert(f.ensures((k, &before@[k]), false));
                            assert(prev.spent(k));
                            assert(self.spent(k));
                            assert(!self@.contains_key(k));
                        }
                    }
                }
            }
            i = i + 1;
        }
    }
}

} // verus!
