//! The slot map with threaded free lists: handles name a slot and a
//! generation, slots name the address of a value, and both stores recycle
//! their free cells through chains threaded through the cells themselves.

use vstd::prelude::*;
use crate::entry::{Entry, Pool, threaded, data_links_of, data_cells_of, lemma_linked_model, lemma_linked_pop, lemma_linked_push, lemma_linked_extend};
use crate::table::{Key, Slot, Table, slot_links_of, slot_cells_of, generations_of, next_generation};

verus! {

/// A capability to attempt a lookup. It owns nothing.
#[derive(Clone, Copy, Debug)]
pub struct Handle {
    generation: usize,
    slot: usize,
}

impl View for Handle {
    type V = Key;

    closed spec fn view(&self) -> Key {
        Key { generation: self.generation, slot: self.slot }
    }
}

pub struct HandleMap2<T> {
    data: Vec<Entry<T>>,
    slots: Vec<Slot>,
    free_data_head: Option<usize>,
    free_slot_head: Option<usize>,
    free_data: Ghost<Seq<usize>>,
    free_slots: Ghost<Seq<usize>>,
}

impl<T> View for HandleMap2<T> {
    type V = Table<T>;

    closed spec fn view(&self) -> Table<T> {
        Table {
            slots: Pool { cells: slot_cells_of(self.slots@), free: self.free_slots@ },
            generations: generations_of(self.slots@),
            data: Pool { cells: data_cells_of(self.data@), free: self.free_data@ },
        }
    }
}

impl<T> HandleMap2<T> {
    pub closed spec fn data_links(&self) -> Seq<Option<Option<usize>>> {
        data_links_of(self.data@)
    }

    pub closed spec fn slot_links(&self) -> Seq<Option<Option<usize>>> {
        slot_links_of(self.slots@)
    }

    pub closed spec fn data_head(&self) -> Option<usize> {
        self.free_data_head
    }

    pub closed spec fn slot_head(&self) -> Option<usize> {
        self.free_slot_head
    }

    /// Both free lists are acyclic chains over exactly the free cells, and
    /// every taken slot names a taken address of its own.
    pub open spec fn wf(&self) -> bool {
        &&& self.chained()
        &&& self@.sound()
    }

    /// Both free lists are acyclic chains over exactly the free cells.
    pub open spec fn chained(&self) -> bool {
        &&& threaded(self.data_links(), self.data_head(), self@.data)
        &&& threaded(self.slot_links(), self.slot_head(), self@.slots)
    }

    /// A well-formed map has a well-formed model.
    pub proof fn lemma_model_wf(&self)
        requires
            self.chained(),
        ensures
            self@.data.wf(),
            self@.slots.wf(),
    {
        lemma_linked_model(self.data_links(), self.data_head(), self@.data);
        lemma_linked_model(self.slot_links(), self.slot_head(), self@.slots);
    }

    pub fn new() -> (m: HandleMap2<T>)
        ensures
            m.wf(),
            m@ == Table::<T>::empty(),
    {
        let m = HandleMap2 {
            data: Vec::new(),
            slots: Vec::new(),
            free_data_head: None,
            free_slot_head: None,
            free_data: Ghost(Seq::empty()),
            free_slots: Ghost(Seq::empty()),
        };
        assert(m@.slots.cells =~= Seq::empty());
        assert(m@.data.cells =~= Seq::empty());
        assert(m@.generations =~= Seq::empty());
        m
    }

    /// Stores `t` at the most recently freed address, or at a new one, and
    /// binds it to the most recently freed slot, or to a new one.
    pub fn insert(&mut self, t: T) -> (h: Handle)
        requires
            old(self).wf(),
        ensures
            final(self).wf(),
            h@ == old(self)@.next_key(1),
            final(self)@ == old(self)@.insert(t, 1, 1),
    {
        let ghost before = *self;
        proof {
            before.lemma_model_wf();
        }
        if let Some(addr) = self.free_data_head {
            proof {
                lemma_linked_pop(before.data_links(), before.free_data_head, before.free_data@,
                    before.data_links().update(addr as int, None));
                before@.lemma_insert_data(t, 1);
            }
            let next: Option<usize> = match &self.data[addr] {
                Entry::Free { next } => *next,
                // not reached: the head of the chain is a free cell
                Entry::Taken { .. } => None,
            };
            self.free_data_head = next;
            self.data.set(addr, Entry::Taken { value: t });
            self.free_data = Ghost(self.free_data@.drop_first());
            proof {
                assert(self.data_links() =~= before.data_links().update(addr as int, None));
                assert(self@.data.cells =~= before@.data.insert(t, 1).cells);
                assert(self@ == (Table { data: before@.data.insert(t, 1), ..before@ }));
            }
            self.get_handle(addr)
        } else {
            self.data.push(Entry::Taken { value: t });
            let addr: usize = self.data.len() - 1;
            proof {
                lemma_linked_extend(before.data_links(), before.free_data_head, before.free_data@, self.data_links());
                before@.lemma_insert_data(t, 1);
                assert(self@.data.cells =~= before@.data.insert(t, 1).cells);
                assert(self@.data.free =~= before@.data.insert(t, 1).free);
                assert(self@ == (Table { data: before@.data.insert(t, 1), ..before@ }));
            }
            self.get_handle(addr)
        }
    }

    /// Frees the slot and the storage behind `h` and hands the value back.
    /// A handle that does not resolve changes nothing.
    pub fn remove(&mut self, h: Handle) -> (r: Option<T>)
        requires
            old(self).wf(),
        ensures
            final(self).wf(),
            r == old(self)@.lookup(h@),
            final(self)@ == old(self)@.remove(h@),
            r is None ==> *final(self) == *old(self),
    {
        if !self.is_handle_valid(h) {
            return None;
        }
        let addr: usize = match &self.slots[h.slot].address {
            Entry::Free { .. } => {
                return None;
            },
            Entry::Taken { value } => *value,
        };
        let ghost before = *self;
        proof {
            assert(before@.slots.cells[h.slot as int] == Some(addr));
            assert(before@.data.get(addr) is Some);
            before@.lemma_remove_keeps(h@);
        }
        self.slots.set(h.slot, Slot { generation: h.generation, address: Entry::Free { next: self.free_slot_head } });
        self.free_slot_head = Some(h.slot);
        self.free_slots = Ghost(seq![h.slot] + self.free_slots@);
        let mut entry: Entry<T> = Entry::Free { next: self.free_data_head };
        std::mem::swap(&mut self.data[addr], &mut entry);
        self.free_data_head = Some(addr);
        self.free_data = Ghost(seq![addr] + self.free_data@);
        proof {
            lemma_linked_push(before.slot_links(), before.free_slot_head, before.free_slots@, self.slot_links(), h.slot);
            lemma_linked_push(before.data_links(), before.free_data_head, before.free_data@, self.data_links(), addr);
            assert(self@.slots.cells =~= before@.slots.cells.update(h.slot as int, None));
            assert(self@.data.cells =~= before@.data.cells.update(addr as int, None));
            assert(self@.generations =~= before@.generations);
            assert(self@ == before@.remove(h@));
        }
        match entry {
            Entry::Taken { value } => Some(value),
            // not reached: the cell was taken
            Entry::Free { .. } => None,
        }
    }

    /// Binds `addr` to the most recently freed slot, one generation on, or to
    /// a new slot at generation 1.
    fn get_handle(&mut self, addr: usize) -> (h: Handle)
        requires
            old(self).chained(),
            old(self)@.sound(),
            old(self)@.data.get(addr) is Some,
            old(self)@.unbound(addr),
        ensures
            final(self).wf(),
            h@ == old(self)@.next_key(1),
            final(self)@ == old(self)@.bind(addr, 1),
    {
        let ghost before = *self;
        proof {
            before.lemma_model_wf();
        }
        if let Some(n) = self.free_slot_head {
            proof {
                lemma_linked_pop(before.slot_links(), before.free_slot_head, before.free_slots@,
                    before.slot_links().update(n as int, None));
                before@.lemma_bind(addr, 1);
            }
            let gen: usize = self.slots[n].generation;
            let next: Option<usize> = match &self.slots[n].address {
                Entry::Free { next } => *next,
                // not reached: the head of the chain is a free cell
                Entry::Taken { .. } => None,
            };
            self.free_slot_head = next;
            let g: usize = next_generation(gen);
            self.slots.set(n, Slot { generation: g, address: Entry::Taken { value: addr } });
            self.free_slots = Ghost(self.free_slots@.drop_first());
            proof {
                assert(self.slot_links() =~= before.slot_links().update(n as int, None));
                assert(self@.slots.cells =~= before@.bind(addr, 1).slots.cells);
                assert(self@.generations =~= before@.bind(addr, 1).generations);
                assert(self@ == before@.bind(addr, 1));
            }
            Handle { generation: g, slot: n }
        } else {
            self.slots.push(Slot { generation: 1, address: Entry::Taken { value: addr } });
            let n: usize = self.slots.len() - 1;
            proof {
                before@.lemma_bind(addr, 1);
                lemma_linked_extend(before.slot_links(), before.free_slot_head, before.free_slots@, self.slot_links());
                assert(self@.slots.cells =~= before@.bind(addr, 1).slots.cells);
                assert(self@.slots.free =~= before@.bind(addr, 1).slots.free);
                assert(self@.generations =~= before@.bind(addr, 1).generations);
                assert(self@ == before@.bind(addr, 1));
            }
            Handle { generation: 1, slot: n }
        }
    }

    pub fn get(&self, h: Handle) -> (r: Option<&T>)
        requires
            self.wf(),
        ensures
            match r {
                Some(v) => self@.lookup(h@) == Some(*v),
                None => self@.lookup(h@) is None,
            },
    {
        if !self.is_handle_valid(h) {
            return None;
        }
        let addr: usize = match &self.slots[h.slot].address {
            Entry::Free { .. } => {
                return None;
            },
            Entry::Taken { value } => *value,
        };
        assert(self@.slots.cells[h.slot as int] == Some(addr));
        assert(self@.data.get(addr) is Some);
        match &self.data[addr] {
            Entry::Free { .. } => None,
            Entry::Taken { value } => Some(value),
        }
    }

    /// A mutable borrow of the value behind `h`. What the caller writes
    /// through it replaces that value and nothing else.
    pub fn get_mut(&mut self, h: Handle) -> (r: Option<&mut T>)
        requires
            old(self).wf(),
        ensures
            match r {
                Some(v) => old(self)@.lookup(h@) == Some(*v) && final(self)@ == old(self)@.set(h@, *final(v))
                    && final(self).wf(),
                None => old(self)@.lookup(h@) is None && *final(self) == *old(self),
            },
    {
        if !self.is_handle_valid(h) {
            return None;
        }
        let addr: usize = match &self.slots[h.slot].address {
            Entry::Free { .. } => {
                return None;
            },
            Entry::Taken { value } => *value,
        };
        assert(self@.slots.cells[h.slot as int] == Some(addr));
        assert(self@.data.get(addr) is Some);
        let ghost before = *self;
        proof {
            assert forall|after: Self, v: T| #![trigger after@, before@.set(h@, v)]
                before.overwritten(after, addr, v) implies after.wf() && after@ == before@.set(h@, v) by {
                before.lemma_overwrite(after, h, addr, v);
            }
        }
        match &mut self.data[addr] {
            Entry::Free { .. } => None,
            Entry::Taken { value } => {
                Some(value)
            },
        }
    }

    /// `after` is this map with the value at `addr` replaced by `v`.
    spec fn overwritten(&self, after: Self, addr: usize, v: T) -> bool {
        &&& after.data@ == self.data@.update(addr as int, Entry::Taken { value: v })
        &&& after.slots == self.slots
        &&& after.free_data_head == self.free_data_head
        &&& after.free_slot_head == self.free_slot_head
        &&& after.free_data == self.free_data
        &&& after.free_slots == self.free_slots
    }

    /// Overwriting the value behind a handle keeps the map well formed.
    proof fn lemma_overwrite(&self, after: Self, h: Handle, addr: usize, v: T)
        requires
            self.wf(),
            self@.address(h@) == Some(addr),
            addr < self.data@.len(),
            self.data@[addr as int] is Taken,
            self.overwritten(after, addr, v),
        ensures
            after.wf(),
            after@ == self@.set(h@, v),
    {
        assert(after.data_links() =~= self.data_links());
        assert(after@.data.cells =~= self@.data.cells.update(addr as int, Some(v)));
        assert(after@ == self@.set(h@, v));
    }

    /// The number of value cells, free and taken.
    pub fn data_capacity(&self) -> (n: usize)
        ensures
            n == self@.data.capacity(),
    {
        self.data.len()
    }

    /// The number of slots, free and taken.
    pub fn slot_capacity(&self) -> (n: usize)
        ensures
            n == self@.slots.capacity(),
    {
        self.slots.len()
    }

    /// The address that the next insertion reuses, if a value cell is free.
    pub fn next_address(&self) -> (r: Option<usize>)
        requires
            self.wf(),
        ensures
            r == (if self@.data.free.len() > 0 { Some(self@.data.free[0]) } else { None }),
    {
        self.free_data_head
    }

    /// The slot that the next insertion reuses, if a slot is free.
    pub fn next_slot(&self) -> (r: Option<usize>)
        requires
            self.wf(),
        ensures
            r == (if self@.slots.free.len() > 0 { Some(self@.slots.free[0]) } else { None }),
    {
        self.free_slot_head
    }

    /// The value stored at address `a`, whatever slot names it.
    pub fn value_at(&self, a: usize) -> (r: Option<&T>)
        ensures
            match r {
                Some(v) => self@.data.get(a) == Some(*v),
                None => self@.data.get(a) is None,
            },
    {
        if a >= self.data.len() {
            return None;
        }
        match &self.data[a] {
            Entry::Taken { value } => Some(value),
            Entry::Free { .. } => None,
        }
    }

    /// The generation of slot `i` and the address it names, if it is taken.
    pub fn slot_at(&self, i: usize) -> (r: Option<(usize, Option<usize>)>)
        ensures
            r == (if i < self@.slots.capacity() {
                Some((self@.generations[i as int], self@.slots.cells[i as int]))
            } else {
                None
            }),
    {
        if i >= self.slots.len() {
            return None;
        }
        let address: Option<usize> = match &self.slots[i].address {
            Entry::Taken { value } => Some(*value),
            Entry::Free { .. } => None,
        };
        Some((self.slots[i].generation, address))
    }

    /// Whether the slot of `h` exists and is at the generation of `h`.
    pub fn is_handle_valid(&self, h: Handle) -> (r: bool)
        ensures
            r == (h@.slot < self@.generations.len() && self@.generations[h@.slot as int] == h@.generation),
            r ==> h@.slot < self@.slots.cells.len(),
    {
        h.slot < self.slots.len() && self.slots[h.slot].generation == h.generation
    }
}

} // verus!
