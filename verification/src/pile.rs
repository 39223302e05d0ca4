//! The shared-cell arena: a slot-indirected pool whose values are shared,
//! dynamically borrow-checked cells. A cell handed out by `get` stays usable
//! by its holder after the arena has freed the pointer it was found under.

use std::cell::RefCell;
use std::rc::Rc;
use vstd::prelude::*;
use crate::entry::{Entry, Pool, threaded, data_links_of, data_cells_of, lemma_linked_model, lemma_linked_pop, lemma_linked_push, lemma_linked_grow, lemma_linked_room};
use crate::table::{Key, Slot, Table, slot_links_of, slot_cells_of, generations_of, next_generation};

verus! {

pub enum Colour {
    White,
    Black,
}

pub trait Collectable {
    fn mark(&mut self, col: Colour);

    fn get_colour(self);
}

/// The starting size of a pile, unless stated otherwise.
pub const DEFAULT_CAPACITY: usize = 8;

/// `std::cell::RefCell`, carried through as an opaque value: nothing is
/// stated of what a cell holds.
#[verifier::external_type_specification]
#[verifier::external_body]
#[verifier::reject_recursive_types(T)]
pub struct ExRefCell<T: ?Sized>(RefCell<T>);

pub type PileReference<T> = Rc<RefCell<T>>;

/// `RefCell::new`: a new cell around `t`. Nothing is claimed of the result.
#[verifier::external_body]
fn fresh_cell(t: u8) -> (c: RefCell<u8>) {
    RefCell::new(t)
}

/// `Rc::clone`: another owner of the allocation behind `c`. The result is the
/// very cell that `c` points to, not a copy of it.
#[verifier::external_body]
fn share(c: &Rc<RefCell<u8>>) -> (r: Rc<RefCell<u8>>)
    ensures
        r == *c,
{
    Rc::clone(c)
}

/// A capability to attempt a lookup in a pile. It owns nothing.
#[derive(Debug, Copy, Clone)]
pub struct Pointer {
    generation: usize,
    handle: usize,
}

impl View for Pointer {
    type V = Key;

    closed spec fn view(&self) -> Key {
        Key { generation: self.generation, slot: self.handle }
    }
}

pub struct Pile {
    memory: Vec<Entry<PileReference<u8>>>,
    handles: Vec<Slot>,
    free_head: Option<usize>,
    handle_head: Option<usize>,
    allocated: usize,
    free_memory: Ghost<Seq<usize>>,
    free_handles: Ghost<Seq<usize>>,
}

impl View for Pile {
    type V = Table<PileReference<u8>>;

    closed spec fn view(&self) -> Table<PileReference<u8>> {
        Table {
            slots: Pool { cells: slot_cells_of(self.handles@), free: self.free_handles@ },
            generations: generations_of(self.handles@),
            data: Pool { cells: data_cells_of(self.memory@), free: self.free_memory@ },
        }
    }
}

impl Pile {
    pub closed spec fn memory_links(&self) -> Seq<Option<Option<usize>>> {
        data_links_of(self.memory@)
    }

    pub closed spec fn handle_links(&self) -> Seq<Option<Option<usize>>> {
        slot_links_of(self.handles@)
    }

    pub closed spec fn memory_head(&self) -> Option<usize> {
        self.free_head
    }

    pub closed spec fn handle_list_head(&self) -> Option<usize> {
        self.handle_head
    }

    /// The counter of allocated cells.
    pub closed spec fn counter(&self) -> usize {
        self.allocated
    }

    /// Both free lists are acyclic chains over exactly the free cells.
    pub open spec fn chained(&self) -> bool {
        &&& threaded(self.memory_links(), self.memory_head(), self@.data)
        &&& threaded(self.handle_links(), self.handle_list_head(), self@.slots)
    }

    /// The chains hold, every used handle names an allocated cell of its
    /// own, and the counter is the number of allocated cells.
    pub open spec fn wf(&self) -> bool {
        &&& self.chained()
        &&& self@.sound()
        &&& self.counter() == self@.data.live()
    }

    /// A well-formed pile has a well-formed model.
    pub proof fn lemma_model_wf(&self)
        requires
            self.chained(),
        ensures
            self@.data.wf(),
            self@.slots.wf(),
    {
        lemma_linked_model(self.memory_links(), self.memory_head(), self@.data);
        lemma_linked_model(self.handle_links(), self.handle_list_head(), self@.slots);
    }

    pub fn new() -> (pile: Pile)
        ensures
            pile.wf(),
            pile@ == Table::<PileReference<u8>>::empty().reserve(DEFAULT_CAPACITY as nat).reserve_slots(
                DEFAULT_CAPACITY as nat,
            ),
    {
        Pile::with_capacity(DEFAULT_CAPACITY)
    }

    /// A pile with `n` free cells and `n` free handles: the first `n`
    /// allocations take them in ascending order without growing.
    pub fn with_capacity(n: usize) -> (pile: Pile)
        ensures
            pile.wf(),
            pile@ == Table::<PileReference<u8>>::empty().reserve(n as nat).reserve_slots(n as nat),
    {
        let mut pile = Pile {
            memory: Vec::new(),
            handles: Vec::new(),
            free_head: None,
            handle_head: None,
            allocated: 0,
            free_memory: Ghost(Seq::empty()),
            free_handles: Ghost(Seq::empty()),
        };
        assert(pile@.slots.cells =~= Seq::empty());
        assert(pile@.data.cells =~= Seq::empty());
        assert(pile@.generations =~= Seq::empty());
        pile.reserve(n);
        pile.reserve_handles(n);
        pile
    }

    /// Wraps `t` in a new shared cell and stores the cell. A full store
    /// doubles first (an empty one gains one cell), and so does a full
    /// handle store.
    pub fn allocate(&mut self, t: u8) -> (p: Pointer)
        requires
            old(self).wf(),
            old(self)@.data.free.len() == 0 ==> old(self)@.data.capacity() + old(self)@.data.doubling() <= usize::MAX,
            old(self)@.slots.free.len() == 0 ==> old(self)@.slots.capacity() + old(self)@.slots.doubling()
                <= usize::MAX,
        ensures
            final(self).wf(),
            p@ == old(self)@.next_key(old(self)@.slots.doubling()),
            exists|c: PileReference<u8>|
                final(self)@ == old(self)@.insert(c, old(self)@.data.doubling(), old(self)@.slots.doubling()),
    {
        let cell = Rc::new(fresh_cell(t));
        self.allocate_cell(cell)
    }

    /// Stores the shared cell `cell` and hands out the pointer to it.
    pub fn allocate_cell(&mut self, cell: PileReference<u8>) -> (p: Pointer)
        requires
            old(self).wf(),
            old(self)@.data.free.len() == 0 ==> old(self)@.data.capacity() + old(self)@.data.doubling() <= usize::MAX,
            old(self)@.slots.free.len() == 0 ==> old(self)@.slots.capacity() + old(self)@.slots.doubling()
                <= usize::MAX,
        ensures
            final(self).wf(),
            p@ == old(self)@.next_key(old(self)@.slots.doubling()),
            final(self)@ == old(self)@.insert(cell, old(self)@.data.doubling(), old(self)@.slots.doubling()),
    {
        match self.try_alloc(cell) {
            Ok(ptr) => ptr,
            Err(u) => self.grow_and_alloc(u),
        }
    }

    /// Frees the cell and the handle behind `p`. Cells already handed out by
    /// `get` stay with their holders. A pointer that does not resolve
    /// changes nothing.
    pub fn free(&mut self, p: Pointer)
        requires
            old(self).wf(),
        ensures
            final(self).wf(),
            final(self)@ == old(self)@.remove(p@),
            old(self)@.lookup(p@) is None ==> *final(self) == *old(self),
    {
        if !self.is_pointer_valid(p) {
            return;
        }
        let address: usize = match &self.handles[p.handle].address {
            Entry::Free { .. } => {
                return;
            },
            Entry::Taken { value } => *value,
        };
        let ghost before = *self;
        proof {
            assert(before@.slots.cells[p.handle as int] == Some(address));
            assert(before@.data.get(address) is Some);
            before@.lemma_remove_keeps(p@);
            lemma_linked_room(self.memory_links(), self.free_head, self.free_memory@, address);
        }
        self.handles.set(p.handle, Slot { generation: p.generation, address: Entry::Free { next: self.handle_head } });
        self.handle_head = Some(p.handle);
        self.free_handles = Ghost(seq![p.handle] + self.free_handles@);
        self.memory.set(address, Entry::Free { next: self.free_head });
        self.free_head = Some(address);
        self.free_memory = Ghost(seq![address] + self.free_memory@);
        self.allocated = self.allocated - 1;
        proof {
            lemma_linked_push(before.handle_links(), before.handle_head, before.free_handles@, self.handle_links(), p.handle);
            lemma_linked_push(before.memory_links(), before.free_head, before.free_memory@, self.memory_links(), address);
            assert(self@.slots.cells =~= before@.slots.cells.update(p.handle as int, None));
            assert(self@.data.cells =~= before@.data.cells.update(address as int, None));
            assert(self@.generations =~= before@.generations);
            assert(self@ == before@.remove(p@));
        }
    }

    /// Another owner of the cell behind `p`, if `p` resolves.
    pub fn get(&self, p: Pointer) -> (r: Option<PileReference<u8>>)
        requires
            self.wf(),
        ensures
            r == self@.lookup(p@),
    {
        if !self.is_pointer_valid(p) {
            return None;
        }
        let address: usize = match &self.handles[p.handle].address {
            Entry::Free { .. } => {
                return None;
            },
            Entry::Taken { value } => *value,
        };
        assert(self@.slots.cells[p.handle as int] == Some(address));
        assert(self@.data.get(address) is Some);
        match &self.memory[address] {
            Entry::Taken { value } => Some(share(value)),
            Entry::Free { .. } => None,
        }
    }

    /// The number of allocated cells.
    pub fn allocated(&self) -> (n: usize)
        requires
            self.wf(),
        ensures
            n == self@.data.live(),
    {
        self.allocated
    }

    /// The number of cells, free and allocated.
    pub fn capacity(&self) -> (n: usize)
        ensures
            n == self@.data.capacity(),
    {
        self.memory.len()
    }

    /// Whether the handle of `p` exists and is at the generation of `p`.
    pub fn is_pointer_valid(&self, p: Pointer) -> (r: bool)
        ensures
            r == (p@.slot < self@.generations.len() && self@.generations[p@.slot as int] == p@.generation),
            r ==> p@.slot < self@.slots.cells.len(),
    {
        p.handle < self.handles.len() && self.handles[p.handle].generation == p.generation
    }

    /// Appends `n` free cells, chained in ascending order in front of the
    /// free list. No existing cell moves.
    pub fn reserve(&mut self, n: usize)
        requires
            old(self).chained(),
            old(self)@.data.capacity() + n <= usize::MAX,
        ensures
            final(self).chained(),
            final(self).counter() == old(self).counter(),
            final(self)@ == old(self)@.reserve(n as nat),
            old(self).wf() ==> final(self).wf(),
    {
        let ghost before = *self;
        proof {
            if before.wf() {
                before@.lemma_reserve_keeps(n as nat, Key { generation: 0, slot: 0 });
            }
        }
        if n == 0 {
            assert(self@.data.cells =~= before@.reserve(0).data.cells);
            assert(self@.data.free =~= before@.reserve(0).data.free);
            return;
        }
        let old_size: usize = self.memory.len();
        let new_size: usize = old_size + n;
        let old_head = self.free_head;
        self.memory.reserve(n);
        let mut i: usize = old_size;
        while i < new_size
            invariant
                old_size <= i <= new_size,
                new_size == old_size + n,
                old_size == before.memory@.len(),
                self.memory@.len() == i,
                old_head == before.free_head,
                self.free_head == before.free_head,
                self.handle_head == before.handle_head,
                self.handles == before.handles,
                self.allocated == before.allocated,
                self.free_memory == before.free_memory,
                self.free_handles == before.free_handles,
                forall|j: int| 0 <= j < old_size ==> self.memory@[j] == before.memory@[j],
                forall|j: int| old_size <= j < i ==> self.memory@[j] == (Entry::<PileReference<u8>>::Free {
                    next: if j == new_size - 1 { old_head } else { Some((j + 1) as usize) },
                }),
            decreases new_size - i,
        {
            if i == new_size - 1 {
                self.memory.push(Entry::Free { next: old_head });
            } else {
                self.memory.push(Entry::Free { next: Some(i + 1) });
            }
            i = i + 1;
        }
        self.free_head = Some(old_size);
        self.free_memory = Ghost(Seq::new(n as nat, |k: int| (old_size + k) as usize) + self.free_memory@);
        proof {
            lemma_linked_grow(before.memory_links(), before.free_head, before.free_memory@, self.memory_links(), n as nat);
            assert(self@.data.cells =~= before@.reserve(n as nat).data.cells);
        }
    }

    /// Stores `cell` in the first free cell and binds a handle to it, or
    /// hands it back if no cell is free.
    fn try_alloc(&mut self, cell: PileReference<u8>) -> (r: Result<Pointer, PileReference<u8>>)
        requires
            old(self).wf(),
            old(self)@.slots.free.len() == 0 ==> old(self)@.slots.capacity() + old(self)@.slots.doubling()
                <= usize::MAX,
        ensures
            final(self).wf(),
            old(self)@.data.free.len() == 0 ==> r == Err::<Pointer, PileReference<u8>>(cell) && *final(self) == *old(
                self,
            ),
            old(self)@.data.free.len() > 0 ==> r is Ok && r.unwrap()@ == old(self)@.next_key(
                old(self)@.slots.doubling(),
            ) && final(self)@ == old(self)@.insert(cell, 1, old(self)@.slots.doubling()),
    {
        let ghost before = *self;
        match self.free_head {
            None => Err(cell),
            Some(i) => {
                proof {
                    before.lemma_model_wf();
                    lemma_linked_pop(before.memory_links(), before.free_head, before.free_memory@,
                        before.memory_links().update(i as int, None));
                    before@.lemma_insert_data(cell, 1);
                }
                assert(self.memory.len() == self.memory@.len());
                let next: Option<usize> = match &self.memory[i] {
                    Entry::Free { next } => *next,
                    // not reached: the head of the chain is a free cell
                    Entry::Taken { .. } => None,
                };
                self.free_head = next;
                self.allocated = self.allocated + 1;
                self.memory.set(i, Entry::Taken { value: cell });
                self.free_memory = Ghost(self.free_memory@.drop_first());
                proof {
                    assert(self.memory_links() =~= before.memory_links().update(i as int, None));
                    assert(self@.data.cells =~= before@.data.insert(cell, 1).cells);
                    assert(self@ == (Table { data: before@.data.insert(cell, 1), ..before@ }));
                }
                Ok(self.get_handle(i))
            },
        }
    }

    /// Doubles a full store and stores `cell` in the first new cell.
    fn grow_and_alloc(&mut self, cell: PileReference<u8>) -> (p: Pointer)
        requires
            old(self).wf(),
            old(self)@.data.free.len() == 0,
            old(self)@.data.capacity() + old(self)@.data.doubling() <= usize::MAX,
            old(self)@.slots.free.len() == 0 ==> old(self)@.slots.capacity() + old(self)@.slots.doubling()
                <= usize::MAX,
        ensures
            final(self).wf(),
            p@ == old(self)@.next_key(old(self)@.slots.doubling()),
            final(self)@ == old(self)@.insert(cell, old(self)@.data.doubling(), old(self)@.slots.doubling()),
    {
        let ghost before = *self;
        let len: usize = self.memory.len();
        let n: usize = if len == 0 { 1 } else { len };
        self.reserve(n);
        match self.try_alloc(cell) {
            Ok(p) => p,
            // not reached: the new cells are free
            Err(_) => Pointer { generation: 0, handle: 0 },
        }
    }

    /// Binds `address` to the first free handle; a full handle store doubles first.
    fn get_handle(&mut self, address: usize) -> (p: Pointer)
        requires
            old(self).chained(),
            old(self)@.sound(),
            old(self).counter() == old(self)@.data.live(),
            old(self)@.data.get(address) is Some,
            old(self)@.unbound(address),
            old(self)@.slots.free.len() == 0 ==> old(self)@.slots.capacity() + old(self)@.slots.doubling()
                <= usize::MAX,
        ensures
            final(self).wf(),
            p@ == old(self)@.next_key(old(self)@.slots.doubling()),
            final(self)@ == old(self)@.bind(address, old(self)@.slots.doubling()),
    {
        match self.try_get_handle(address) {
            Ok(h) => h,
            Err(u) => self.grow_and_get_handle(u),
        }
    }

    /// Binds `address` to the first free handle, one generation on, or
    /// hands it back if no handle is free.
    fn try_get_handle(&mut self, address: usize) -> (r: Result<Pointer, usize>)
        requires
            old(self).chained(),
            old(self)@.sound(),
            old(self).counter() == old(self)@.data.live(),
            old(self)@.data.get(address) is Some,
            old(self)@.unbound(address),
        ensures
            old(self)@.slots.free.len() == 0 ==> r == Err::<Pointer, usize>(address) && *final(self) == *old(self),
            old(self)@.slots.free.len() > 0 ==> r is Ok && final(self).wf() && r.unwrap()@ == old(self)@.next_key(1)
                && final(self)@ == old(self)@.bind(address, 1),
    {
        let ghost before = *self;
        match self.handle_head {
            None => Err(address),
            Some(i) => {
                proof {
                    before.lemma_model_wf();
                    lemma_linked_pop(before.handle_links(), before.handle_head, before.free_handles@,
                        before.handle_links().update(i as int, None));
                    before@.lemma_bind(address, 1);
                }
                let gen: usize = self.handles[i].generation;
                let next: Option<usize> = match &self.handles[i].address {
                    Entry::Free { next } => *next,
                    // not reached: the head of the chain is a free cell
                    Entry::Taken { .. } => None,
                };
                self.handle_head = next;
                let g: usize = next_generation(gen);
                self.handles.set(i, Slot { generation: g, address: Entry::Taken { value: address } });
                self.free_handles = Ghost(self.free_handles@.drop_first());
                proof {
                    assert(self.handle_links() =~= before.handle_links().update(i as int, None));
                    assert(self@.slots.cells =~= before@.bind(address, 1).slots.cells);
                    assert(self@.generations =~= before@.bind(address, 1).generations);
                    assert(self@ == before@.bind(address, 1));
                }
                Ok(Pointer { generation: g, handle: i })
            },
        }
    }

    /// Doubles a full handle store and binds `address` to the first new handle.
    fn grow_and_get_handle(&mut self, address: usize) -> (p: Pointer)
        requires
            old(self).chained(),
            old(self)@.sound(),
            old(self).counter() == old(self)@.data.live(),
            old(self)@.data.get(address) is Some,
            old(self)@.unbound(address),
            old(self)@.slots.free.len() == 0,
            old(self)@.slots.capacity() + old(self)@.slots.doubling() <= usize::MAX,
        ensures
            final(self).wf(),
            p@ == old(self)@.next_key(old(self)@.slots.doubling()),
            final(self)@ == old(self)@.bind(address, old(self)@.slots.doubling()),
    {
        let len: usize = self.handles.len();
        let n: usize = if len == 0 { 1 } else { len };
        self.reserve_handles(n);
        match self.try_get_handle(address) {
            Ok(p) => p,
            // not reached: the new cells are free
            Err(_) => Pointer { generation: 0, handle: 0 },
        }
    }

    /// Appends `n` free handles at generation 0, chained in ascending order
    /// in front of the handle free list.
    fn reserve_handles(&mut self, n: usize)
        requires
            old(self).chained(),
            old(self)@.slots.capacity() + n <= usize::MAX,
        ensures
            final(self).chained(),
            final(self).counter() == old(self).counter(),
            final(self)@ == old(self)@.reserve_slots(n as nat),
            old(self).wf() ==> final(self).wf(),
    {
        let ghost before = *self;
        proof {
            if before.wf() {
                before@.lemma_reserve_keeps(n as nat, Key { generation: 0, slot: 0 });
            }
        }
        if n == 0 {
            assert(self@.slots.cells =~= before@.reserve_slots(0).slots.cells);
            assert(self@.slots.free =~= before@.reserve_slots(0).slots.free);
            assert(self@.generations =~= before@.reserve_slots(0).generations);
            return;
        }
        let old_size: usize = self.handles.len();
        let new_size: usize = old_size + n;
        let old_head = self.handle_head;
        self.handles.reserve(n);
        let mut i: usize = old_size;
        while i < new_size
            invariant
                old_size <= i <= new_size,
                new_size == old_size + n,
                old_size == before.handles@.len(),
                self.handles@.len() == i,
                old_head == before.handle_head,
                self.handle_head == before.handle_head,
                self.free_head == before.free_head,
                self.memory == before.memory,
                self.allocated == before.allocated,
                self.free_memory == before.free_memory,
                self.free_handles == before.free_handles,
                forall|j: int| 0 <= j < old_size ==> self.handles@[j] == before.handles@[j],
                forall|j: int| old_size <= j < i ==> self.handles@[j] == (Slot {
                    generation: 0,
                    address: Entry::Free { next: if j == new_size - 1 { old_head } else { Some((j + 1) as usize) } },
                }),
            decreases new_size - i,
        {
            if i == new_size - 1 {
                self.handles.push(Slot { generation: 0, address: Entry::Free { next: old_head } });
            } else {
                self.handles.push(Slot { generation: 0, address: Entry::Free { next: Some(i + 1) } });
            }
            i = i + 1;
        }
        self.handle_head = Some(old_size);
        self.free_handles = Ghost(Seq::new(n as nat, |k: int| (old_size + k) as usize) + self.free_handles@);
        proof {
            lemma_linked_grow(before.handle_links(), before.handle_head, before.free_handles@, self.handle_links(), n as nat);
            assert(self@.slots.cells =~= before@.reserve_slots(n as nat).slots.cells);
            assert(self@.generations =~= before@.reserve_slots(n as nat).generations);
        }
    }
}

} // verus!
