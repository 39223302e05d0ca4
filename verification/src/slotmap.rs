//! The slot map with explicit free stacks: handles name a slot and a
//! generation, slots name the address of a value, and freed slots and
//! addresses wait on two stacks, last freed first reused.

use vstd::prelude::*;
use crate::table::{Key, bump, next_generation};

verus! {

/// The indirection record behind a handle.
#[derive(Debug)]
pub struct Slot {
    pub generation: usize,
    pub address: usize,
}

/// A capability to attempt a lookup. It owns nothing.
#[derive(Debug, Clone, Copy)]
pub struct Handle {
    generation: usize,
    slot: usize,
}

impl View for Handle {
    type V = Key;

    closed spec fn view(&self) -> Key {
        Key { generation: self.generation, slot: self.slot }
    }
}

/// The map as a mathematical value: its four stores. The top of a stack is
/// its last element.
pub struct Stacks<T> {
    pub data: Seq<T>,
    pub slots: Seq<Slot>,
    pub free_data: Seq<usize>,
    pub free_slots: Seq<usize>,
}

impl<T> Stacks<T> {
    pub open spec fn empty() -> Self {
        Stacks { data: Seq::empty(), slots: Seq::empty(), free_data: Seq::empty(), free_slots: Seq::empty() }
    }

    /// Every address and index that the map holds is in range.
    pub open spec fn wf(self) -> bool {
        &&& self.data.len() <= usize::MAX
        &&& self.slots.len() <= usize::MAX
        &&& forall|s: int| 0 <= s < self.slots.len() ==> (#[trigger] self.slots[s]).address < self.data.len()
        &&& forall|i: int| 0 <= i < self.free_data.len() ==> (#[trigger] self.free_data[i]) < self.data.len()
        &&& forall|i: int| 0 <= i < self.free_slots.len() ==> (#[trigger] self.free_slots[i]) < self.slots.len()
    }

    /// Whether slot `s` exists and is not waiting for reuse.
    pub open spec fn live_slot(self, s: int) -> bool {
        0 <= s < self.slots.len() && !self.free_slots.contains(s as usize)
    }

    /// Whether `k` resolves to a slot that is not waiting for reuse, as every
    /// handle does from its insertion to its removal.
    pub open spec fn live(self, k: Key) -> bool {
        self.resolves(k) && self.live_slot(k.slot as int)
    }

    /// Nothing waits twice on a free stack, and the live slots name
    /// addresses of their own that are not waiting for reuse. This holds as
    /// long as only live handles are removed.
    pub open spec fn tidy(self) -> bool {
        &&& self.free_data.no_duplicates()
        &&& self.free_slots.no_duplicates()
        &&& forall|s: int| #[trigger] self.live_slot(s) ==> !self.free_data.contains(self.slots[s].address)
        &&& forall|s: int, t: int| #[trigger] self.live_slot(s) && #[trigger] self.live_slot(t) && s != t
                ==> self.slots[s].address != self.slots[t].address
    }

    /// Whether the slot of `k` exists and is at the generation of `k`.
    pub open spec fn resolves(self, k: Key) -> bool {
        k.slot < self.slots.len() && self.slots[k.slot as int].generation == k.generation
    }

    /// The value that `k` resolves to.
    pub open spec fn lookup(self, k: Key) -> Option<T> {
        if self.resolves(k) {
            Some(self.data[self.slots[k.slot as int].address as int])
        } else {
            None
        }
    }

    /// The address at which the next insertion stores its value.
    pub open spec fn next_address(self) -> usize {
        if self.free_data.len() > 0 {
            self.free_data.last()
        } else {
            self.data.len() as usize
        }
    }

    /// The key that the next insertion hands out.
    pub open spec fn insert_key(self) -> Key {
        if self.free_slots.len() > 0 {
            Key {
                generation: bump(self.slots[self.free_slots.last() as int].generation),
                slot: self.free_slots.last(),
            }
        } else {
            Key { generation: 1, slot: self.slots.len() as usize }
        }
    }

    /// The map after storing `v` at the next address.
    pub open spec fn store(self, v: T) -> Self {
        if self.free_data.len() > 0 {
            Stacks { data: self.data.update(self.free_data.last() as int, v), free_data: self.free_data.drop_last(), ..self }
        } else {
            Stacks { data: self.data.push(v), ..self }
        }
    }

    /// The map after binding address `a` to the next key.
    pub open spec fn bind(self, a: usize) -> Self {
        let k = self.insert_key();
        let slot = Slot { generation: k.generation, address: a };
        if self.free_slots.len() > 0 {
            Stacks { slots: self.slots.update(k.slot as int, slot), free_slots: self.free_slots.drop_last(), ..self }
        } else {
            Stacks { slots: self.slots.push(slot), ..self }
        }
    }

    /// The map after inserting `v`.
    pub open spec fn insert(self, v: T) -> Self {
        self.store(v).bind(self.next_address())
    }

    /// The map after removing `k`: unchanged unless `k` resolves. Otherwise
    /// the slot moves one generation on, and slot and address go on top of
    /// the free stacks.
    pub open spec fn remove(self, k: Key) -> Self {
        if self.resolves(k) {
            let old = self.slots[k.slot as int];
            Stacks {
                slots: self.slots.update(k.slot as int, Slot { generation: bump(old.generation), address: old.address }),
                free_data: self.free_data.push(old.address),
                free_slots: self.free_slots.push(k.slot),
                ..self
            }
        } else {
            self
        }
    }

    /// The value behind `k` replaced by `v`.
    pub open spec fn set(self, k: Key, v: T) -> Self {
        if self.resolves(k) {
            Stacks { data: self.data.update(self.slots[k.slot as int].address as int, v), ..self }
        } else {
            self
        }
    }

    /// A value is found under the key that its insertion returned.
    pub proof fn lemma_insert_then_lookup(self, v: T)
        requires
            self.wf(),
            self.free_data.len() == 0 ==> self.data.len() < usize::MAX,
            self.free_slots.len() == 0 ==> self.slots.len() < usize::MAX,
        ensures
            self.insert(v).wf(),
            self.insert(v).lookup(self.insert_key()) == Some(v),
    {
    }

    /// Removing a key a second time changes nothing, and the key resolves
    /// to nothing after the first removal.
    pub proof fn lemma_remove_twice(self, k: Key)
        ensures
            self.remove(k).lookup(k) is None,
            self.remove(k).remove(k) == self.remove(k),
    {
    }

    /// A removed key stays absent when the next insertion reuses its slot
    /// and its address.
    pub proof fn lemma_stale_after_reuse(self, k: Key, v: T)
        requires
            self.wf(),
            self.resolves(k),
        ensures
            self.remove(k).insert_key().slot == k.slot,
            self.remove(k).next_address() == self.slots[k.slot as int].address,
            self.remove(k).insert(v).lookup(k) is None,
            self.remove(k).insert(v).lookup(self.remove(k).insert_key()) == Some(v),
    {
        let r = self.remove(k);
        assert(r.free_slots.last() == k.slot);
        assert(r.free_data.last() == self.slots[k.slot as int].address);
        let g = self.slots[k.slot as int].generation;
        assert(bump(bump(g)) != g);
    }

    /// An insertion that appends storage moves no value: a key whose slot
    /// is not the one reused resolves after it as before.
    pub proof fn lemma_growth_keeps(self, v: T, k: Key)
        requires
            self.wf(),
            self.free_data.len() == 0,
            self.resolves(k),
            self.free_slots.len() > 0 ==> k.slot != self.free_slots.last(),
        ensures
            self.insert(v).lookup(k) == self.lookup(k),
    {
    }

    /// In a tidy map an insertion keeps every live key live and at its
    /// value, whether storage grows or is reused, and the map stays tidy.
    pub proof fn lemma_insert_keeps_live(self, v: T, k: Key)
        requires
            self.wf(),
            self.tidy(),
            self.free_data.len() == 0 ==> self.data.len() < usize::MAX,
            self.free_slots.len() == 0 ==> self.slots.len() < usize::MAX,
            self.live(k),
        ensures
            self.insert(v).tidy(),
            self.insert(v).live(self.insert_key()),
            self.insert(v).live(k),
            self.insert(v).lookup(k) == self.lookup(k),
            k != self.insert_key(),
    {
        self.lemma_insert_tidy(v);
        let a = self.next_address();
        let key = self.insert_key();
        let after = self.insert(v);
        if self.free_slots.len() > 0 {
            assert(self.free_slots[self.free_slots.len() - 1] == key.slot);
        }
        assert(k.slot != key.slot);
        assert(self.live_slot(k.slot as int));
        if self.free_data.len() > 0 {
            assert(self.free_data[self.free_data.len() - 1] == a);
        }
        assert(self.slots[k.slot as int].address != a);
        if after.free_slots.contains(k.slot) {
            let i = choose|i: int| 0 <= i < after.free_slots.len() && after.free_slots[i] == k.slot;
            assert(self.free_slots[i] == k.slot);
        }
    }

    /// An insertion into a tidy map leaves a tidy map.
    pub proof fn lemma_insert_tidy(self, v: T)
        requires
            self.wf(),
            self.tidy(),
            self.free_data.len() == 0 ==> self.data.len() < usize::MAX,
            self.free_slots.len() == 0 ==> self.slots.len() < usize::MAX,
        ensures
            self.insert(v).tidy(),
            self.insert(v).live(self.insert_key()),
    {
        let a = self.next_address();
        let key = self.insert_key();
        let after = self.insert(v);
        let reuse_data = self.free_data.len() > 0;
        let reuse_slot = self.free_slots.len() > 0;
        if reuse_data {
            assert(self.free_data[self.free_data.len() - 1] == a);
        }
        if reuse_slot {
            assert(self.free_slots[self.free_slots.len() - 1] == key.slot);
        }
        assert forall|i: int| 0 <= i < after.free_data.len() implies after.free_data[i] == self.free_data[i] by {}
        assert forall|i: int| 0 <= i < after.free_slots.len() implies after.free_slots[i] == self.free_slots[i] by {}
        assert(!after.free_data.contains(a)) by {
            if after.free_data.contains(a) {
                let i = choose|i: int| 0 <= i < after.free_data.len() && after.free_data[i] == a;
                assert(self.free_data[i] == a);
            }
        }
        assert(!after.free_slots.contains(key.slot)) by {
            if after.free_slots.contains(key.slot) {
                let i = choose|i: int| 0 <= i < after.free_slots.len() && after.free_slots[i] == key.slot;
                assert(self.free_slots[i] == key.slot);
            }
        }
        assert forall|x: int| #[trigger] after.live_slot(x) && x != key.slot implies self.live_slot(x)
            && after.slots[x] == self.slots[x] && self.slots[x].address != a by {
            if self.free_slots.contains(x as usize) {
                let i = choose|i: int| 0 <= i < self.free_slots.len() && self.free_slots[i] == x as usize;
                assert(i < after.free_slots.len());
                assert(after.free_slots[i] == x as usize);
            }
            assert(self.live_slot(x));
            assert(self.slots[x].address < self.data.len());
            if reuse_data {
                assert(self.free_data.contains(a));
            }
        }
        assert forall|x: int| #[trigger] after.live_slot(x) implies !after.free_data.contains(after.slots[x].address) by {
            if x != key.slot && after.free_data.contains(after.slots[x].address) {
                let i = choose|i: int| 0 <= i < after.free_data.len() && after.free_data[i] == after.slots[x].address;
                assert(self.free_data[i] == self.slots[x].address);
            }
        }
    }

    /// Removing a live key from a tidy map leaves a tidy map in which every
    /// other live key is live and at its value.
    pub proof fn lemma_remove_keeps_live(self, k: Key, j: Key)
        requires
            self.wf(),
            self.tidy(),
            self.live(k),
            self.live(j),
            j != k,
        ensures
            self.remove(k).tidy(),
            !self.remove(k).live(k),
            self.remove(k).live(j),
            self.remove(k).lookup(j) == self.lookup(j),
    {
        self.lemma_remove_tidy(k);
        let after = self.remove(k);
        assert(after.free_slots[after.free_slots.len() - 1] == k.slot);
        if after.free_slots.contains(j.slot) {
            let i = choose|i: int| 0 <= i < after.free_slots.len() && after.free_slots[i] == j.slot;
            if i < self.free_slots.len() {
                assert(self.free_slots[i] == j.slot);
            }
        }
    }

    /// Removing a live key from a tidy map leaves a tidy map.
    pub proof fn lemma_remove_tidy(self, k: Key)
        requires
            self.wf(),
            self.tidy(),
            self.live(k),
        ensures
            self.remove(k).tidy(),
    {
        let after = self.remove(k);
        let a = self.slots[k.slot as int].address;
        assert(self.live_slot(k.slot as int));
        assert forall|x: int, y: int| 0 <= x < after.free_data.len() && 0 <= y < after.free_data.len() && x != y
            implies after.free_data[x] != after.free_data[y] by {
            if x < self.free_data.len() {
                assert(after.free_data[x] == self.free_data[x]);
            }
            if y < self.free_data.len() {
                assert(after.free_data[y] == self.free_data[y]);
            }
        }
        assert forall|x: int, y: int| 0 <= x < after.free_slots.len() && 0 <= y < after.free_slots.len() && x != y
            implies after.free_slots[x] != after.free_slots[y] by {
            if x < self.free_slots.len() {
                assert(after.free_slots[x] == self.free_slots[x]);
            }
            if y < self.free_slots.len() {
                assert(after.free_slots[y] == self.free_slots[y]);
            }
        }
        assert(after.free_slots[after.free_slots.len() - 1] == k.slot);
        assert forall|x: int| #[trigger] after.live_slot(x) implies self.live_slot(x) && x != k.slot
            && after.slots[x] == self.slots[x] by {
            if self.free_slots.contains(x as usize) {
                let i = choose|i: int| 0 <= i < self.free_slots.len() && self.free_slots[i] == x as usize;
                assert(after.free_slots[i] == x as usize);
            }
        }
        assert forall|x: int| #[trigger] after.live_slot(x) implies !after.free_data.contains(after.slots[x].address) by {
            if after.free_data.contains(after.slots[x].address) {
                let i = choose|i: int| 0 <= i < after.free_data.len() && after.free_data[i] == after.slots[x].address;
                if i < self.free_data.len() {
                    assert(self.free_data[i] == self.slots[x].address);
                }
            }
        }
    }

    /// An insertion leaves every key alone whose slot and address it does not reuse.
    pub proof fn lemma_insert_keeps(self, v: T, k: Key)
        requires
            self.wf(),
            self.resolves(k),
            self.free_slots.len() > 0 ==> k.slot != self.free_slots.last(),
            self.free_data.len() > 0 ==> self.slots[k.slot as int].address != self.free_data.last(),
        ensures
            self.insert(v).lookup(k) == self.lookup(k),
    {
    }
}

#[derive(Debug)]
pub struct HandleMap<T> {
    data: Vec<T>,
    slots: Vec<Slot>,
    free_data: Vec<usize>,
    free_slots: Vec<usize>,
}

impl<T> View for HandleMap<T> {
    type V = Stacks<T>;

    closed spec fn view(&self) -> Stacks<T> {
        Stacks { data: self.data@, slots: self.slots@, free_data: self.free_data@, free_slots: self.free_slots@ }
    }
}

impl<T> HandleMap<T> {
    pub open spec fn wf(&self) -> bool {
        self@.wf()
    }

    pub fn new() -> (m: HandleMap<T>)
        ensures
            m.wf(),
            m@.tidy(),
            m@ == Stacks::<T>::empty(),
    {
        HandleMap { data: Vec::new(), slots: Vec::new(), free_data: Vec::new(), free_slots: Vec::new() }
    }

    /// Stores `t` at the address on top of the free-address stack, or at a
    /// new one, and binds it to the slot on top of the free-slot stack, one
    /// generation on, or to a new slot at generation 1.
    pub fn insert(&mut self, t: T) -> (h: Handle)
        requires
            old(self).wf(),
        ensures
            final(self).wf(),
            h@ == old(self)@.insert_key(),
            final(self)@ == old(self)@.insert(t),
            old(self)@.tidy() ==> final(self)@.tidy() && final(self)@.live(h@),
    {
        let ghost before = *self;
        proof {
            if before@.free_data.len() > 0 {
                assert(before@.free_data[before@.free_data.len() - 1] < before@.data.len());
            }
            if before@.free_slots.len() > 0 {
                assert(before@.free_slots[before@.free_slots.len() - 1] < before@.slots.len());
            }
        }
        let addr: usize = match self.free_data.pop() {
            Some(a) => {
                assert(a == before.free_data@[before.free_data@.len() - 1]);
                self.data.set(a, t);
                a
            },
            None => {
                self.data.push(t);
                self.data.len() - 1
            },
        };
        assert(self@ == before@.store(t));
        let h = if let Some(i) = self.free_slots.pop() {
            assert(i == before.free_slots@[before.free_slots@.len() - 1]);
            let current_gen: usize = next_generation(self.slots[i].generation);
            self.slots.set(i, Slot { generation: current_gen, address: addr });
            Handle { generation: current_gen, slot: i }
        } else {
            self.slots.push(Slot { generation: 1, address: addr });
            Handle { generation: 1, slot: self.slots.len() - 1 }
        };
        proof {
            if before@.tidy() {
                before@.lemma_insert_tidy(t);
            }
        }
        h
    }

    /// Invalidates `h`: the slot moves one generation on, and slot and
    /// address go on top of the free stacks. A handle that does not resolve
    /// changes nothing.
    pub fn remove(&mut self, h: Handle)
        requires
            old(self).wf(),
        ensures
            final(self).wf(),
            final(self)@ == old(self)@.remove(h@),
            !old(self)@.resolves(h@) ==> *final(self) == *old(self),
            old(self)@.tidy() && old(self)@.live(h@) ==> final(self)@.tidy(),
    {
        if h.slot >= self.slots.len() {
            return;
        }
        let generation: usize = self.slots[h.slot].generation;
        if h.generation != generation {
            return;
        }
        let address: usize = self.slots[h.slot].address;
        let ghost before = *self;
        self.free_data.push(address);
        self.slots.set(h.slot, Slot { generation: next_generation(generation), address });
        self.free_slots.push(h.slot);
        proof {
            if before@.tidy() && before@.live(h@) {
                before@.lemma_remove_tidy(h@);
            }
            assert(before@.slots[h.slot as int].address < before@.data.len());
            assert forall|s: int| 0 <= s < self@.slots.len() implies (#[trigger] self@.slots[s]).address
                < self@.data.len() by {
                assert(before@.slots[s].address < before@.data.len());
            }
            assert forall|i: int| 0 <= i < self@.free_data.len() implies (#[trigger] self@.free_data[i])
                < self@.data.len() by {
                if i < before@.free_data.len() {
                    assert(self@.free_data[i] == before@.free_data[i]);
                }
            }
            assert forall|i: int| 0 <= i < self@.free_slots.len() implies (#[trigger] self@.free_slots[i])
                < self@.slots.len() by {
                if i < before@.free_slots.len() {
                    assert(self@.free_slots[i] == before@.free_slots[i]);
                }
            }
        }
    }

    pub fn get(&self, h: Handle) -> (r: Option<&T>)
        requires
            self.wf(),
        ensures
            match r {
                Some(v) => self@.lookup(h@) == Some(*v),
                None => self@.lookup(h@) is None,
            },
    {
        if h.slot >= self.slots.len() {
            return None;
        }
        let generation: usize = self.slots[h.slot].generation;
        if h.generation != generation {
            return None;
        }
        let address: usize = self.slots[h.slot].address;
        Some(&self.data[address])
    }

    /// A mutable borrow of the value behind `h`. What the caller writes
    /// through it replaces that value and nothing else.
    pub fn get_mut(&mut self, h: Handle) -> (r: Option<&mut T>)
        requires
            old(self).wf(),
        ensures
            match r {
                Some(v) => old(self)@.lookup(h@) == Some(*v) && final(self)@ == old(self)@.set(h@, *final(v))
                    && final(self).wf(),
                None => old(self)@.lookup(h@) is None && *final(self) == *old(self),
            },
    {
        if h.slot >= self.slots.len() {
            return None;
        }
        let generation: usize = self.slots[h.slot].generation;
        if h.generation != generation {
            return None;
        }
        let address: usize = self.slots[h.slot].address;
        Some(&mut self.data[address])
    }
}

} // verus!
