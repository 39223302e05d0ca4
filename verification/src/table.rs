//! The mathematical model of a slot-indirected pool: a pool of values, a pool
//! of slots that name the values' addresses, and a generation per slot.

use vstd::prelude::*;
use crate::entry::{Entry, Pool};

verus! {

/// What a handle is made of: a slot and the generation it was issued at.
pub struct Key {
    pub generation: usize,
    pub slot: usize,
}

/// The indirection record behind a handle.
#[derive(Debug)]
pub struct Slot {
    pub generation: usize,
    pub address: Entry<usize>,
}

/// The free/taken links of a slot store.
pub open spec fn slot_links_of(slots: Seq<Slot>) -> Seq<Option<Option<usize>>> {
    Seq::new(slots.len(), |i: int| slots[i].address.link())
}

/// The addresses held by a slot store.
pub open spec fn slot_cells_of(slots: Seq<Slot>) -> Seq<Option<usize>> {
    Seq::new(slots.len(), |i: int| slots[i].address.content())
}

/// The generations of a slot store.
pub open spec fn generations_of(slots: Seq<Slot>) -> Seq<usize> {
    Seq::new(slots.len(), |i: int| slots[i].generation)
}

/// The generation after `g`; it wraps at the largest value.
pub open spec fn bump(g: usize) -> usize {
    if g == usize::MAX {
        0
    } else {
        (g + 1) as usize
    }
}

/// The generation after `g`.
pub fn next_generation(g: usize) -> (r: usize)
    ensures
        r == bump(g),
        r != g,
{
    if g == usize::MAX {
        0
    } else {
        g + 1
    }
}

pub struct Table<T> {
    /// Slot storage: a taken slot holds the address of its value.
    pub slots: Pool<usize>,
    /// The generation of each slot; a slot never used is at 0.
    pub generations: Seq<usize>,
    /// Value storage.
    pub data: Pool<T>,
}

impl<T> Table<T> {
    pub open spec fn empty() -> Self {
        Table { slots: Pool::empty(), generations: Seq::empty(), data: Pool::empty() }
    }

    /// Every taken slot names a taken address, and no two name the same one.
    pub open spec fn sound(self) -> bool {
        &&& self.generations.len() == self.slots.cells.len()
        &&& forall|s: int| 0 <= s < self.slots.cells.len() && (#[trigger] self.slots.cells[s]) is Some
                ==> self.data.get(self.slots.cells[s].unwrap()) is Some
        &&& forall|s: int, t: int| 0 <= s < self.slots.cells.len() && 0 <= t < self.slots.cells.len() && s != t
                && (#[trigger] self.slots.cells[s]) is Some ==> self.slots.cells[s] != #[trigger] self.slots.cells[t]
    }

    pub open spec fn wf(self) -> bool {
        &&& self.slots.wf()
        &&& self.data.wf()
        &&& self.sound()
    }

    /// No slot names address `a`.
    pub open spec fn unbound(self, a: usize) -> bool {
        forall|s: int| 0 <= s < self.slots.cells.len() ==> #[trigger] self.slots.cells[s] != Some(a)
    }

    /// The address that `k` resolves to: absent when the slot is out of
    /// range, free, or at another generation.
    pub open spec fn address(self, k: Key) -> Option<usize> {
        if k.slot < self.slots.cells.len() && k.slot < self.generations.len()
            && self.generations[k.slot as int] == k.generation {
            self.slots.cells[k.slot as int]
        } else {
            None
        }
    }

    /// The value that `k` resolves to.
    pub open spec fn lookup(self, k: Key) -> Option<T> {
        match self.address(k) {
            Some(a) => self.data.get(a),
            None => None,
        }
    }

    /// `n` more free value cells.
    pub open spec fn reserve(self, n: nat) -> Self {
        Table { data: self.data.grow(n), ..self }
    }

    /// `n` more free slots, at generation 0.
    pub open spec fn reserve_slots(self, n: nat) -> Self {
        Table {
            slots: self.slots.grow(n),
            generations: self.generations + Seq::new(n, |k: int| 0usize),
            ..self
        }
    }

    /// The slot side made ready for one insertion, by `n` more slots if none is free.
    pub open spec fn ready_slots(self, n: nat) -> Self {
        if self.slots.free.len() > 0 {
            self
        } else {
            self.reserve_slots(n)
        }
    }

    /// The key under which the next bound address is handed out.
    pub open spec fn next_key(self, n: nat) -> Key {
        let t = self.ready_slots(n);
        Key { generation: bump(t.generations[t.slots.free[0] as int]), slot: t.slots.free[0] }
    }

    /// The first free slot taken for address `a`, one generation on.
    pub open spec fn bind(self, a: usize, n: nat) -> Self {
        let t = self.ready_slots(n);
        let s = t.slots.free[0];
        Table { slots: t.slots.take(a), generations: t.generations.update(s as int, bump(t.generations[s as int])), ..t }
    }

    /// The table after inserting `v` under `next_key(sn)`: the value side
    /// grows by `dn` if it is full, the slot side by `sn`.
    pub open spec fn insert(self, v: T, dn: nat, sn: nat) -> Self {
        Table { data: self.data.insert(v, dn), ..self }.bind(self.data.next_index(dn), sn)
    }

    /// The table after removing `k`: unchanged unless `k` resolves.
    pub open spec fn remove(self, k: Key) -> Self {
        match self.address(k) {
            Some(a) => Table { slots: self.slots.release(k.slot), data: self.data.release(a), ..self },
            None => self,
        }
    }

    /// The value behind `k` replaced by `v`.
    pub open spec fn set(self, k: Key, v: T) -> Self {
        match self.address(k) {
            Some(a) => Table { data: Pool { cells: self.data.cells.update(a as int, Some(v)), ..self.data }, ..self },
            None => self,
        }
    }

    /// A value is found under the key that its insertion returned.
    pub proof fn lemma_insert_then_lookup(self, v: T, dn: nat, sn: nat)
        requires
            self.wf(),
            dn > 0,
            sn > 0,
            self.data.free.len() == 0 ==> self.data.capacity() + dn <= usize::MAX,
            self.slots.free.len() == 0 ==> self.slots.capacity() + sn <= usize::MAX,
        ensures
            self.lookup(self.next_key(sn)) is None,
            self.insert(v, dn, sn).lookup(self.next_key(sn)) == Some(v),
    {
        self.lemma_insert_steps(v, dn, sn);
    }

    /// The value side of an insertion leaves a sound table in which no slot
    /// names the new address yet.
    pub proof fn lemma_insert_data(self, v: T, dn: nat)
        requires
            self.wf(),
            dn > 0,
            self.data.free.len() == 0 ==> self.data.capacity() + dn <= usize::MAX,
        ensures
            (Table { data: self.data.insert(v, dn), ..self }).sound(),
            (Table { data: self.data.insert(v, dn), ..self }).unbound(self.data.next_index(dn)),
            (Table { data: self.data.insert(v, dn), ..self }).data.get(self.data.next_index(dn)) == Some(v),
    {
        let a = self.data.next_index(dn);
        let mid = Table { data: self.data.insert(v, dn), ..self };
        self.data.lemma_insert_then_get(v, dn);
        assert forall|s: int| 0 <= s < mid.slots.cells.len() && (#[trigger] mid.slots.cells[s]) is Some
            implies mid.data.get(mid.slots.cells[s].unwrap()) is Some && mid.slots.cells[s] != Some(a) by {
            self.data.lemma_insert_keeps(v, dn, self.slots.cells[s].unwrap());
        }
    }

    /// An insertion keeps the table sound, binds the key it hands out, which
    /// resolved to nothing before, and changes what no other key resolves to:
    /// present keys keep their values, absent keys stay absent.
    pub proof fn lemma_insert_steps(self, v: T, dn: nat, sn: nat)
        requires
            self.wf(),
            dn > 0,
            sn > 0,
            self.data.free.len() == 0 ==> self.data.capacity() + dn <= usize::MAX,
            self.slots.free.len() == 0 ==> self.slots.capacity() + sn <= usize::MAX,
        ensures
            self.insert(v, dn, sn).sound(),
            self.insert(v, dn, sn).address(self.next_key(sn)) == Some(self.data.next_index(dn)),
            self.address(self.next_key(sn)) is None,
            forall|k: Key| k != self.next_key(sn) ==> self.insert(v, dn, sn).lookup(k) == self.lookup(k),
    {
        let a = self.data.next_index(dn);
        let mid = Table { data: self.data.insert(v, dn), ..self };
        self.lemma_insert_data(v, dn);
        mid.lemma_bind(a, sn);
        assert forall|k: Key| k != self.next_key(sn) implies self.insert(v, dn, sn).lookup(k) == self.lookup(k) by {
            assert(mid.address(k) == self.address(k));
            if self.address(k) is Some {
                let b = self.address(k).unwrap();
                assert(self.slots.cells[k.slot as int] == Some(b));
                self.data.lemma_insert_keeps(v, dn, b);
            }
        }
    }

    /// Binding an address that no slot names keeps the table sound. The key
    /// handed out resolved to nothing and now resolves to that address; every
    /// other key resolves as before.
    pub proof fn lemma_bind(self, a: usize, n: nat)
        requires
            self.slots.wf(),
            self.sound(),
            n > 0,
            self.slots.free.len() == 0 ==> self.slots.capacity() + n <= usize::MAX,
            self.data.get(a) is Some,
            self.unbound(a),
        ensures
            self.bind(a, n).sound(),
            self.bind(a, n).address(self.next_key(n)) == Some(a),
            self.address(self.next_key(n)) is None,
            forall|k: Key| k != self.next_key(n) ==> self.bind(a, n).address(k) == self.address(k),
    {
        let t = self.ready_slots(n);
        let s = t.slots.free[0];
        if self.slots.free.len() > 0 {
            assert(self.slots.is_free_cell(self.slots.free[0] as int));
        } else {
            assert(self.slots.grow(n).free[0] == self.slots.cells.len());
        }
        assert(t.slots.cells[s as int] is None);
        let b = self.bind(a, n);
        assert forall|x: int| 0 <= x < b.slots.cells.len() && (#[trigger] b.slots.cells[x]) is Some
            implies b.data.get(b.slots.cells[x].unwrap()) is Some by {
            if x != s {
                assert(b.slots.cells[x] == self.slots.cells[x]);
            }
        }
        assert forall|x: int, y: int| 0 <= x < b.slots.cells.len() && 0 <= y < b.slots.cells.len() && x != y
            && (#[trigger] b.slots.cells[x]) is Some implies b.slots.cells[x] != #[trigger] b.slots.cells[y] by {
            if x != s && x < self.slots.cells.len() {
                assert(b.slots.cells[x] == self.slots.cells[x]);
            }
            if y != s && y < self.slots.cells.len() {
                assert(b.slots.cells[y] == self.slots.cells[y]);
            }
        }
        assert forall|k: Key| k != self.next_key(n) implies b.address(k) == self.address(k) by {
            if k.slot != s && k.slot < b.slots.cells.len() {
                assert(b.slots.cells[k.slot as int] == t.slots.cells[k.slot as int]);
                if k.slot >= self.slots.cells.len() {
                    assert(t.slots.is_free_cell(k.slot as int));
                }
            }
        }
    }

    /// Growth of either store moves nothing: every key resolves after it as before.
    pub proof fn lemma_reserve_keeps(self, n: nat, k: Key)
        requires
            self.sound(),
        ensures
            self.reserve(n).lookup(k) == self.lookup(k),
            self.reserve_slots(n).lookup(k) == self.lookup(k),
            self.reserve(n).sound(),
            self.reserve_slots(n).sound(),
    {
        let d = self.reserve(n);
        let s = self.reserve_slots(n);
        assert forall|x: int| 0 <= x < d.slots.cells.len() && (#[trigger] d.slots.cells[x]) is Some
            implies d.data.get(d.slots.cells[x].unwrap()) is Some by {
            assert(self.data.get(self.slots.cells[x].unwrap()) is Some);
        }
        assert forall|x: int| 0 <= x < s.slots.cells.len() && (#[trigger] s.slots.cells[x]) is Some
            implies s.data.get(s.slots.cells[x].unwrap()) is Some by {
            assert(x < self.slots.cells.len());
            assert(s.slots.cells[x] == self.slots.cells[x]);
        }
        assert forall|x: int, y: int| 0 <= x < s.slots.cells.len() && 0 <= y < s.slots.cells.len() && x != y
            && (#[trigger] s.slots.cells[x]) is Some implies s.slots.cells[x] != #[trigger] s.slots.cells[y] by {
            assert(x < self.slots.cells.len());
            assert(s.slots.cells[x] == self.slots.cells[x]);
            if y < self.slots.cells.len() {
                assert(s.slots.cells[y] == self.slots.cells[y]);
            }
        }
        if self.address(k) is Some {
            assert(self.data.get(self.address(k).unwrap()) is Some);
        }
    }

    /// Removing a key a second time finds nothing and changes nothing.
    pub proof fn lemma_remove_twice(self, k: Key)
        ensures
            self.remove(k).lookup(k) is None,
            self.remove(k).remove(k) == self.remove(k),
    {
    }

    /// Removal of one key keeps the table sound and changes what no other key resolves to.
    pub proof fn lemma_remove_keeps(self, k: Key)
        requires
            self.sound(),
        ensures
            self.remove(k).sound(),
            forall|j: Key| j != k ==> self.remove(k).lookup(j) == self.lookup(j),
    {
        let r = self.remove(k);
        if self.address(k) is Some {
            let a = self.address(k).unwrap();
            assert(self.slots.cells[k.slot as int] == Some(a));
            assert forall|s: int| 0 <= s < r.slots.cells.len() && (#[trigger] r.slots.cells[s]) is Some
                implies r.data.get(r.slots.cells[s].unwrap()) is Some by {
                assert(s != k.slot);
                assert(r.slots.cells[s] == self.slots.cells[s]);
                assert(self.slots.cells[s] != self.slots.cells[k.slot as int]);
            }
            assert forall|s: int, t: int| 0 <= s < r.slots.cells.len() && 0 <= t < r.slots.cells.len() && s != t
                && (#[trigger] r.slots.cells[s]) is Some implies r.slots.cells[s] != #[trigger] r.slots.cells[t] by {
                assert(r.slots.cells[s] == self.slots.cells[s]);
                if t != k.slot {
                    assert(r.slots.cells[t] == self.slots.cells[t]);
                }
            }
            assert forall|j: Key| j != k implies r.lookup(j) == self.lookup(j) by {
                if j.slot != k.slot && self.address(j) is Some {
                    assert(self.slots.cells[j.slot as int] != self.slots.cells[k.slot as int]);
                }
            }
        }
    }

    /// A key that was removed stays absent when its slot and its storage are
    /// reused by the next insertion.
    pub proof fn lemma_stale_after_reuse(self, k: Key, v: T, dn: nat, sn: nat)
        requires
            self.wf(),
            self.lookup(k) is Some,
        ensures
            self.remove(k).next_key(sn).slot == k.slot,
            self.remove(k).data.next_index(dn) == self.address(k).unwrap(),
            self.remove(k).next_key(sn) != k,
            self.remove(k).insert(v, dn, sn).lookup(k) is None,
            self.remove(k).insert(v, dn, sn).lookup(self.remove(k).next_key(sn)) == Some(v),
    {
        let r = self.remove(k);
        let a = self.address(k).unwrap();
        assert(r.slots.free[0] == k.slot);
        assert(r.data.free[0] == a);
        assert(bump(k.generation) != k.generation);
    }
}

} // verus!
