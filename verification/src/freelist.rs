//! The direct-index pool: values live at plain indices, freed indices are
//! recycled through a free list threaded through the storage itself.
//!
//! Indices are never invalidated: an index kept across a removal and a later
//! insertion may resolve to the newer value.

use vstd::prelude::*;
use crate::entry::{Entry, Pool, threaded, data_links_of, data_cells_of, lemma_linked_model, lemma_linked_pop, lemma_linked_push, lemma_linked_grow, lemma_linked_room};

verus! {

pub const DEFAULT_CAPACITY: usize = 16;

pub struct FreeList<T> {
    memory: Vec<Entry<T>>,
    head: Option<usize>,
    len: usize,
    free: Ghost<Seq<usize>>,
}

impl<T> View for FreeList<T> {
    type V = Pool<T>;

    closed spec fn view(&self) -> Pool<T> {
        Pool { cells: data_cells_of(self.memory@), free: self.free@ }
    }
}

impl<T> FreeList<T> {
    /// The free/taken links of the storage cells.
    pub closed spec fn links(&self) -> Seq<Option<Option<usize>>> {
        data_links_of(self.memory@)
    }

    /// The head of the free list.
    pub closed spec fn head_link(&self) -> Option<usize> {
        self.head
    }

    /// The live-element counter.
    pub closed spec fn counter(&self) -> usize {
        self.len
    }

    /// The free list is one acyclic chain from the head over every free
    /// cell, and the counter is the number of taken cells.
    pub open spec fn wf(&self) -> bool {
        &&& threaded(self.links(), self.head_link(), self@)
        &&& self.counter() == self@.live()
    }

    /// A well-formed pool has a well-formed model.
    pub proof fn lemma_model_wf(&self)
        requires
            self.wf(),
        ensures
            self@.wf(),
    {
        lemma_linked_model(self.links(), self.head_link(), self@);
    }

    pub fn new() -> (fl: FreeList<T>)
        ensures
            fl.wf(),
            fl@ == Pool::<T>::empty().grow(DEFAULT_CAPACITY as nat),
    {
        FreeList::with_capacity(DEFAULT_CAPACITY)
    }

    /// A pool of `n` free cells, which the first `n` insertions take in
    /// ascending order without growing.
    pub fn with_capacity(n: usize) -> (fl: FreeList<T>)
        ensures
            fl.wf(),
            fl@ == Pool::<T>::empty().grow(n as nat),
    {
        let mut fl = FreeList { memory: Vec::new(), head: None, len: 0, free: Ghost(Seq::empty()) };
        assert(fl@.cells =~= Seq::empty());
        assert(fl.wf());
        fl.grow(n);
        fl
    }

    /// The number of cells, free and taken.
    pub fn capacity(&self) -> (n: usize)
        ensures
            n == self@.capacity(),
    {
        self.memory.len()
    }

    /// The number of stored values.
    pub fn len(&self) -> (n: usize)
        requires
            self.wf(),
        ensures
            n == self@.live(),
    {
        self.len
    }

    /// The index that the next insertion reuses, if a cell is free.
    pub fn next_free(&self) -> (r: Option<usize>)
        requires
            self.wf(),
        ensures
            r == (if self@.free.len() > 0 { Some(self@.free[0]) } else { None }),
    {
        self.head
    }

    /// Stores `t` in the first free cell; a full pool first doubles (an empty
    /// one gains one cell).
    pub fn insert(&mut self, t: T) -> (i: usize)
        requires
            old(self).wf(),
            old(self)@.free.len() == 0 ==> old(self)@.capacity() + old(self)@.doubling() <= usize::MAX,
        ensures
            final(self).wf(),
            i == old(self)@.next_index(old(self)@.doubling()),
            final(self)@ == old(self)@.insert(t, old(self)@.doubling()),
    {
        match self.try_insert(t) {
            Ok(i) => i,
            Err(t) => self.grow_and_insert(t),
        }
    }

    pub fn get(&self, i: usize) -> (r: Option<&T>)
        ensures
            match r {
                Some(v) => self@.get(i) == Some(*v),
                None => self@.get(i) is None,
            },
    {
        if i >= self.memory.len() {
            return None;
        }
        match &self.memory[i] {
            Entry::Taken { value } => Some(value),
            Entry::Free { .. } => None,
        }
    }

    /// Takes the value at `i` out and puts the cell at the head of the free
    /// list. An index that is free or out of range changes nothing.
    pub fn remove(&mut self, i: usize) -> (r: Option<T>)
        requires
            old(self).wf(),
        ensures
            final(self).wf(),
            r == old(self)@.get(i),
            final(self)@ == old(self)@.release(i),
            r is None ==> *final(self) == *old(self),
    {
        if i >= self.memory.len() {
            return None;
        }
        let taken: bool = match &self.memory[i] {
            Entry::Taken { .. } => true,
            Entry::Free { .. } => false,
        };
        if !taken {
            return None;
        }
        let ghost before = *self;
        proof {
            lemma_linked_room(self.links(), self.head, self.free@, i);
        }
        let mut entry: Entry<T> = Entry::Free { next: self.head };
        std::mem::swap(&mut self.memory[i], &mut entry);
        self.head = Some(i);
        self.len = self.len - 1;
        self.free = Ghost(seq![i] + self.free@);
        proof {
            before.lemma_model_wf();
            lemma_linked_push(before.links(), before.head, before.free@, self.links(), i);
            assert(self@.cells =~= before@.cells.update(i as int, None));
        }
        match entry {
            Entry::Taken { value } => Some(value),
            // not reached: the cell was taken
            Entry::Free { .. } => None,
        }
    }

    /// Appends `n` free cells, chained in ascending order in front of the
    /// free list. No existing cell moves.
    pub fn grow(&mut self, n: usize)
        requires
            old(self).wf(),
            old(self)@.capacity() + n <= usize::MAX,
        ensures
            final(self).wf(),
            final(self)@ == old(self)@.grow(n as nat),
    {
        let ghost before = *self;
        if n == 0 {
            assert(self@.cells =~= before@.grow(0).cells);
            assert(self@.free =~= before@.grow(0).free);
            return;
        }
        let old_len: usize = self.memory.len();
        let new_len: usize = old_len + n;
        let old_head = self.head;
        self.memory.reserve(n);
        let mut i: usize = old_len;
        while i < new_len
            invariant
                old_len <= i <= new_len,
                new_len == old_len + n,
                old_len == before.memory@.len(),
                self.memory@.len() == i,
                self.head == before.head,
                old_head == before.head,
                self.len == before.len,
                self.free == before.free,
                forall|j: int| 0 <= j < old_len ==> self.memory@[j] == before.memory@[j],
                forall|j: int| old_len <= j < i ==> self.memory@[j] == (Entry::<T>::Free {
                    next: if j == new_len - 1 { old_head } else { Some((j + 1) as usize) },
                }),
            decreases new_len - i,
        {
            if i == new_len - 1 {
                self.memory.push(Entry::Free { next: old_head });
            } else {
                self.memory.push(Entry::Free { next: Some(i + 1) });
            }
            i = i + 1;
        }
        self.head = Some(old_len);
        self.free = Ghost(Seq::new(n as nat, |k: int| (old_len + k) as usize) + self.free@);
        proof {
            lemma_linked_grow(before.links(), before.head, before.free@, self.links(), n as nat);
            assert(self@.cells =~= before@.grow(n as nat).cells);
        }
    }

    /// Stores `t` in the first free cell, or hands it back if none is free.
    pub fn try_insert(&mut self, t: T) -> (r: Result<usize, T>)
        requires
            old(self).wf(),
        ensures
            final(self).wf(),
            old(self)@.free.len() > 0 ==> r == Ok::<usize, T>(old(self)@.free[0])
                && final(self)@ == old(self)@.take(t),
            old(self)@.free.len() == 0 ==> r == Err::<usize, T>(t) && *final(self) == *old(self),
    {
        let ghost before = *self;
        if let Some(i) = self.head {
            proof {
                before.lemma_model_wf();
                lemma_linked_pop(before.links(), before.head, before.free@, before.links().update(i as int, None));
            }
            assert(self.memory.len() == self.memory@.len());
            let next: Option<usize> = match &self.memory[i] {
                Entry::Free { next } => *next,
                // not reached: the head of the chain is a free cell
                Entry::Taken { .. } => None,
            };
            self.head = next;
            self.len = self.len + 1;
            self.memory.set(i, Entry::Taken { value: t });
            self.free = Ghost(self.free@.drop_first());
            proof {
                assert(self.links() =~= before.links().update(i as int, None));
                assert(self@.cells =~= before@.cells.update(i as int, Some(t)));
            }
            Ok(i)
        } else {
            Err(t)
        }
    }

    /// Doubles a full pool and stores `t` in the first new cell.
    pub fn grow_and_insert(&mut self, t: T) -> (i: usize)
        requires
            old(self).wf(),
            old(self)@.free.len() == 0,
            old(self)@.capacity() + old(self)@.doubling() <= usize::MAX,
        ensures
            final(self).wf(),
            i == old(self)@.capacity(),
            final(self)@ == old(self)@.grow(old(self)@.doubling()).take(t),
    {
        let len: usize = self.memory.len();
        let n: usize = if len == 0 { 1 } else { len };
        self.grow(n);
        match self.try_insert(t) {
            Ok(i) => i,
            // not reached: the new cells are free
            Err(_) => len,
        }
    }
}

} // verus!
