//! The storage cell shared by the pools, the mathematical model of a pool
//! of such cells, and the shape of a free list threaded through them.

use vstd::prelude::*;

verus! {

/// One storage cell: free and linked to the next free cell, or taken by a value.
#[derive(Debug)]
pub enum Entry<T> {
    Free { next: Option<usize> },
    Taken { value: T },
}

impl<T> Entry<T> {
    /// `Some(next)` for a free cell, `None` for a taken one.
    pub open spec fn link(self) -> Option<Option<usize>> {
        match self {
            Entry::Free { next } => Some(next),
            Entry::Taken { .. } => None,
        }
    }

    /// The stored value, if the cell is taken.
    pub open spec fn content(self) -> Option<T> {
        match self {
            Entry::Free { .. } => None,
            Entry::Taken { value } => Some(value),
        }
    }
}

/// The free/taken links of a value store.
pub open spec fn data_links_of<T>(data: Seq<Entry<T>>) -> Seq<Option<Option<usize>>> {
    Seq::new(data.len(), |i: int| data[i].link())
}

/// The values held by a value store.
pub open spec fn data_cells_of<T>(data: Seq<Entry<T>>) -> Seq<Option<T>> {
    Seq::new(data.len(), |i: int| data[i].content())
}

/// A pool as a mathematical value: what each cell holds, and the free cells
/// in the order in which insertions will reuse them.
pub struct Pool<T> {
    pub cells: Seq<Option<T>>,
    pub free: Seq<usize>,
}

impl<T> Pool<T> {
    pub open spec fn empty() -> Self {
        Pool { cells: Seq::empty(), free: Seq::empty() }
    }

    pub open spec fn capacity(self) -> nat {
        self.cells.len()
    }

    /// The number of taken cells.
    pub open spec fn live(self) -> int {
        self.cells.len() - self.free.len()
    }

    /// The free sequence lists every empty cell exactly once, and nothing else.
    pub open spec fn wf(self) -> bool {
        &&& self.free.no_duplicates()
        &&& forall|k: int| 0 <= k < self.free.len() ==> self.is_free_cell(#[trigger] self.free[k] as int)
        &&& forall|i: int| #[trigger] self.is_free_cell(i) ==> self.free.contains(i as usize)
    }

    pub open spec fn is_free_cell(self, i: int) -> bool {
        0 <= i < self.cells.len() && self.cells[i] is None
    }

    /// What index `i` resolves to: absent when out of range or free.
    pub open spec fn get(self, i: usize) -> Option<T> {
        if i < self.cells.len() {
            self.cells[i as int]
        } else {
            None
        }
    }

    /// `n` new empty cells appended, reused in ascending order before the old free cells.
    pub open spec fn grow(self, n: nat) -> Self {
        Pool {
            cells: self.cells + Seq::new(n, |k: int| None::<T>),
            free: Seq::new(n, |k: int| (self.cells.len() + k) as usize) + self.free,
        }
    }

    /// The first free cell taken by `v`.
    pub open spec fn take(self, v: T) -> Self
        recommends
            self.free.len() > 0,
    {
        Pool { cells: self.cells.update(self.free[0] as int, Some(v)), free: self.free.drop_first() }
    }

    /// How many cells a full pool gains when it doubles.
    pub open spec fn doubling(self) -> nat {
        if self.cells.len() == 0 {
            1
        } else {
            self.cells.len()
        }
    }

    /// The pool made ready for one insertion, by `n` more cells if none is free.
    pub open spec fn ready(self, n: nat) -> Self {
        if self.free.len() > 0 {
            self
        } else {
            self.grow(n)
        }
    }

    /// The index that an insertion returns when a full pool grows by `n`.
    pub open spec fn next_index(self, n: nat) -> usize
        recommends
            n > 0,
    {
        self.ready(n).free[0]
    }

    /// The pool after inserting `v`, growing by `n` cells if none is free.
    pub open spec fn insert(self, v: T, n: nat) -> Self
        recommends
            n > 0,
    {
        self.ready(n).take(v)
    }

    /// The pool after removing index `i`: unchanged unless `i` holds a value.
    pub open spec fn release(self, i: usize) -> Self {
        if self.get(i) is Some {
            Pool { cells: self.cells.update(i as int, None), free: seq![i] + self.free }
        } else {
            self
        }
    }
}

/// The free list as it is threaded through storage. `links[i]` is `Some(next)`
/// for a free cell and `None` for a taken one. Walking from `head` along the
/// `next` fields visits exactly the cells of `free`, in that order, each of
/// them once, covers every free cell, and ends at the absent link.
pub open spec fn linked(links: Seq<Option<Option<usize>>>, head: Option<usize>, free: Seq<usize>) -> bool {
    &&& links.len() <= usize::MAX
    &&& head == if free.len() == 0 { None } else { Some(free[0]) }
    &&& free.no_duplicates()
    &&& forall|k: int| 0 <= k < free.len() ==> (#[trigger] free[k]) < links.len()
    &&& forall|k: int| 0 <= k < free.len() ==> #[trigger] links[free[k] as int] == Some(
            if k + 1 < free.len() { Some(free[k + 1]) } else { None::<usize> })
    &&& forall|i: int| 0 <= i < links.len() && (#[trigger] links[i]) is Some ==> free.contains(i as usize)
}

/// A walk along the chain meets every free cell at exactly one step, and
/// the last step carries the absent link.
pub proof fn lemma_chain_walk(links: Seq<Option<Option<usize>>>, head: Option<usize>, free: Seq<usize>, i: int)
    requires
        linked(links, head, free),
        0 <= i < links.len(),
    ensures
        links[i] is Some <==> exists|k: int| 0 <= k < free.len() && free[k] == i,
        forall|k: int, m: int| 0 <= k < free.len() && 0 <= m < free.len() && free[k] == i && free[m] == i ==> k == m,
        free.len() > 0 ==> head == Some(free[0]) && links[free.last() as int] == Some(None::<usize>),
        free.len() == 0 ==> head is None,
{
    if links[i] is Some {
        assert(free.contains(i as usize));
    }
    if exists|k: int| 0 <= k < free.len() && free[k] == i {
        let k = choose|k: int| 0 <= k < free.len() && free[k] == i;
        assert(links[free[k] as int] is Some);
    }
    if free.len() > 0 {
        assert(links[free[free.len() - 1] as int] == Some(None::<usize>));
    }
}

/// `links` and `head` thread the free cells of `pool`, in the pool's order of reuse.
pub open spec fn threaded<T>(links: Seq<Option<Option<usize>>>, head: Option<usize>, pool: Pool<T>) -> bool {
    &&& linked(links, head, pool.free)
    &&& links.len() == pool.cells.len()
    &&& forall|i: int| 0 <= i < pool.cells.len() ==> (#[trigger] pool.cells[i] is None <==> links[i] is Some)
}

/// Distinct indices below `n` are at most `n` many.
pub proof fn lemma_distinct_bound(free: Seq<usize>, n: nat)
    requires
        free.no_duplicates(),
        forall|k: int| 0 <= k < free.len() ==> (#[trigger] free[k]) < n,
    ensures
        free.len() <= n,
    decreases n,
{
    if n == 0 {
        if free.len() > 0 {
            assert(free[0] < n);
        }
    } else if exists|k: int| 0 <= k < free.len() && free[k] == n - 1 {
        let k = choose|k: int| 0 <= k < free.len() && free[k] == n - 1;
        let rest = free.remove(k);
        assert forall|a: int| 0 <= a < rest.len() implies (#[trigger] rest[a]) < n - 1 by {
            if a < k {
                assert(rest[a] == free[a]);
            } else {
                assert(rest[a] == free[a + 1]);
            }
        }
        assert forall|a: int, b: int| 0 <= a < rest.len() && 0 <= b < rest.len() && a != b implies rest[a] != rest[b] by {
            assert(rest[a] == free[if a < k { a } else { a + 1 }]);
            assert(rest[b] == free[if b < k { b } else { b + 1 }]);
        }
        lemma_distinct_bound(rest, (n - 1) as nat);
    } else {
        assert forall|a: int| 0 <= a < free.len() implies (#[trigger] free[a]) < n - 1 by {
            assert(free[a] != n - 1);
        }
        lemma_distinct_bound(free, (n - 1) as nat);
    }
}

/// A chain that misses a cell is shorter than the storage.
pub proof fn lemma_linked_room(links: Seq<Option<Option<usize>>>, head: Option<usize>, free: Seq<usize>, i: usize)
    requires
        linked(links, head, free),
        i < links.len(),
        links[i as int] is None,
    ensures
        free.len() < links.len(),
{
    let more = free.push(i);
    assert forall|a: int, b: int| 0 <= a < more.len() && 0 <= b < more.len() && a != b implies more[a] != more[b] by {
        if a < free.len() {
            assert(more[a] == free[a]);
            assert(links[free[a] as int] is Some);
        }
        if b < free.len() {
            assert(more[b] == free[b]);
            assert(links[free[b] as int] is Some);
        }
    }
    assert forall|k: int| 0 <= k < more.len() implies (#[trigger] more[k]) < links.len() by {
        if k < free.len() {
            assert(more[k] == free[k]);
        }
    }
    lemma_distinct_bound(more, links.len());
}

/// Taking the head cell leaves the rest of the chain as the free list.
pub proof fn lemma_linked_pop(
    links: Seq<Option<Option<usize>>>,
    head: Option<usize>,
    free: Seq<usize>,
    after: Seq<Option<Option<usize>>>,
)
    requires
        linked(links, head, free),
        head is Some,
        after.len() == links.len(),
        forall|j: int| 0 <= j < links.len() && j != head.unwrap() ==> after[j] == links[j],
        head.unwrap() < links.len() ==> after[head.unwrap() as int] is None,
    ensures
        free.len() > 0,
        head.unwrap() == free[0],
        head.unwrap() < links.len(),
        links[head.unwrap() as int] is Some,
        linked(after, links[head.unwrap() as int].unwrap(), free.drop_first()),
{
    let i = head.unwrap();
    let rest = free.drop_first();
    assert(free[0] == i);
    assert(links[free[0] as int] is Some);
    assert forall|k: int| 0 <= k < rest.len() implies (#[trigger] rest[k]) < after.len() by {
        assert(rest[k] == free[k + 1]);
    }
    assert forall|k: int| 0 <= k < rest.len() implies #[trigger] after[rest[k] as int] == Some(
        if k + 1 < rest.len() { Some(rest[k + 1]) } else { None::<usize> }) by {
        assert(rest[k] == free[k + 1]);
        assert(free[k + 1] != free[0]);
        assert(after[rest[k] as int] == links[free[k + 1] as int]);
    }
    assert forall|j: int| 0 <= j < after.len() && (#[trigger] after[j]) is Some implies rest.contains(j as usize) by {
        assert(after[j] == links[j]);
        assert(links[j] is Some);
        let k = choose|k: int| 0 <= k < free.len() && free[k] == j as usize;
        assert(k != 0);
        assert(rest[k - 1] == j as usize);
    }
}

/// Freeing a taken cell onto the head keeps the chain, with that cell first.
pub proof fn lemma_linked_push(
    links: Seq<Option<Option<usize>>>,
    head: Option<usize>,
    free: Seq<usize>,
    after: Seq<Option<Option<usize>>>,
    i: usize,
)
    requires
        linked(links, head, free),
        i < links.len(),
        links[i as int] is None,
        after.len() == links.len(),
        forall|j: int| 0 <= j < links.len() && j != i ==> after[j] == links[j],
        after[i as int] == Some(head),
    ensures
        !free.contains(i),
        linked(after, Some(i), seq![i] + free),
{
    let grown = seq![i] + free;
    if free.contains(i) {
        let k = choose|k: int| 0 <= k < free.len() && free[k] == i;
        assert(links[free[k] as int] is Some);
    }
    assert(!free.contains(i));
    assert forall|k: int| 0 <= k < grown.len() implies (#[trigger] grown[k]) < after.len() by {
        if k > 0 {
            assert(grown[k] == free[k - 1]);
        }
    }
    assert forall|k: int| 0 <= k < grown.len() implies #[trigger] after[grown[k] as int] == Some(
        if k + 1 < grown.len() { Some(grown[k + 1]) } else { None::<usize> }) by {
        if k > 0 {
            assert(grown[k] == free[k - 1]);
            assert(free[k - 1] != i);
            assert(after[grown[k] as int] == links[free[k - 1] as int]);
            if k + 1 < grown.len() {
                assert(grown[k + 1] == free[k]);
            }
        } else if free.len() > 0 {
            assert(grown[1] == free[0]);
        }
    }
    assert forall|j: int| 0 <= j < after.len() && (#[trigger] after[j]) is Some implies grown.contains(j as usize) by {
        if j == i {
            assert(grown[0] == i);
        } else {
            let k = choose|k: int| 0 <= k < free.len() && free[k] == j as usize;
            assert(grown[k + 1] == j as usize);
        }
    }
    assert forall|a: int, b: int| 0 <= a < grown.len() && 0 <= b < grown.len() && a != b implies grown[a] != grown[b] by {
        if a > 0 {
            assert(grown[a] == free[a - 1]);
        }
        if b > 0 {
            assert(grown[b] == free[b - 1]);
        }
    }
}

/// Appending `n` fresh cells, each linked to the one after it and the last to
/// the old head, puts them in front of the chain in ascending order.
pub proof fn lemma_linked_grow(
    links: Seq<Option<Option<usize>>>,
    head: Option<usize>,
    free: Seq<usize>,
    after: Seq<Option<Option<usize>>>,
    n: nat,
)
    requires
        linked(links, head, free),
        n > 0,
        links.len() + n <= usize::MAX,
        after.len() == links.len() + n,
        forall|j: int| 0 <= j < links.len() ==> after[j] == links[j],
        forall|j: int| links.len() <= j < after.len() ==> after[j] == Some(
            if j == after.len() - 1 { head } else { Some((j + 1) as usize) }),
    ensures
        linked(after, Some(links.len() as usize), Seq::new(n, |k: int| (links.len() + k) as usize) + free),
{
    let base = links.len() as int;
    let fresh = Seq::new(n, |k: int| (links.len() + k) as usize);
    let grown = fresh + free;
    assert(grown[0] == fresh[0]);
    assert forall|k: int| 0 <= k < grown.len() implies (#[trigger] grown[k]) < after.len() by {
        if k < n {
            assert(grown[k] == (base + k) as usize);
        } else {
            assert(grown[k] == free[k - n]);
        }
    }
    assert forall|k: int| 0 <= k < grown.len() implies #[trigger] after[grown[k] as int] == Some(
        if k + 1 < grown.len() { Some(grown[k + 1]) } else { None::<usize> }) by {
        if k < n {
            assert(grown[k] == (base + k) as usize);
            if k + 1 < n {
                assert(grown[k + 1] == fresh[k + 1]);
            } else if free.len() > 0 {
                assert(grown[k + 1] == free[0]);
            }
        } else {
            assert(grown[k] == free[k - n]);
            assert(after[grown[k] as int] == links[free[k - n] as int]);
            if k + 1 < grown.len() {
                assert(grown[k + 1] == free[k + 1 - n]);
            }
        }
    }
    assert forall|j: int| 0 <= j < after.len() && (#[trigger] after[j]) is Some implies grown.contains(j as usize) by {
        if j >= base {
            assert(grown[j - base] == j as usize);
        } else {
            let k = choose|k: int| 0 <= k < free.len() && free[k] == j as usize;
            assert(grown[k + n] == j as usize);
        }
    }
    assert forall|a: int, b: int| 0 <= a < grown.len() && 0 <= b < grown.len() && a != b implies grown[a] != grown[b] by {
        if a >= n {
            assert(grown[a] == free[a - n]);
        } else {
            assert(grown[a] == (base + a) as usize);
        }
        if b >= n {
            assert(grown[b] == free[b - n]);
        } else {
            assert(grown[b] == (base + b) as usize);
        }
    }
}

/// Appending taken cells leaves the chain as it is.
pub proof fn lemma_linked_extend(
    links: Seq<Option<Option<usize>>>,
    head: Option<usize>,
    free: Seq<usize>,
    after: Seq<Option<Option<usize>>>,
)
    requires
        linked(links, head, free),
        links.len() <= after.len() <= usize::MAX,
        forall|j: int| 0 <= j < links.len() ==> after[j] == links[j],
        forall|j: int| links.len() <= j < after.len() ==> after[j] is None,
    ensures
        linked(after, head, free),
{
    assert forall|k: int| 0 <= k < free.len() implies #[trigger] after[free[k] as int] == Some(
        if k + 1 < free.len() { Some(free[k + 1]) } else { None::<usize> }) by {
        assert(after[free[k] as int] == links[free[k] as int]);
    }
    assert forall|i: int| 0 <= i < after.len() && (#[trigger] after[i]) is Some implies free.contains(i as usize) by {
        assert(after[i] == links[i]);
    }
}

/// A threaded chain over the storage of a pool makes the pool's model well formed.
pub proof fn lemma_linked_model<T>(links: Seq<Option<Option<usize>>>, head: Option<usize>, pool: Pool<T>)
    requires
        threaded(links, head, pool),
    ensures
        pool.wf(),
{
    assert forall|i: int| #[trigger] pool.is_free_cell(i) implies pool.free.contains(i as usize) by {
        assert(pool.cells[i] is None);
        assert(links[i] is Some);
    }
    assert forall|k: int| 0 <= k < pool.free.len() implies pool.is_free_cell(#[trigger] pool.free[k] as int) by {
        assert(links[pool.free[k] as int] is Some);
        assert(pool.cells[pool.free[k] as int] is None);
    }
}

impl<T> Pool<T> {
    /// A value is found at the index that its insertion returned.
    pub proof fn lemma_insert_then_get(self, v: T, n: nat)
        requires
            self.wf(),
            n > 0,
            self.free.len() == 0 ==> self.capacity() + n <= usize::MAX,
        ensures
            self.insert(v, n).get(self.next_index(n)) == Some(v),
            self.get(self.next_index(n)) is None,
    {
        if self.free.len() > 0 {
            assert(self.is_free_cell(self.free[0] as int));
        } else {
            assert(self.grow(n).free[0] == self.cells.len());
        }
    }

    /// Removing an index a second time finds nothing and changes nothing.
    pub proof fn lemma_release_twice(self, i: usize)
        ensures
            self.release(i).get(i) is None,
            self.release(i).release(i) == self.release(i),
    {
    }

    /// Growth moves no value: every index resolves after it as before.
    pub proof fn lemma_grow_keeps(self, n: nat, i: usize)
        ensures
            self.get(i) is Some ==> self.grow(n).get(i) == self.get(i),
    {
    }

    /// An insertion, growing or not, leaves every stored value where it was.
    pub proof fn lemma_insert_keeps(self, v: T, n: nat, i: usize)
        requires
            self.wf(),
            n > 0,
            self.free.len() == 0 ==> self.capacity() + n <= usize::MAX,
            self.get(i) is Some,
        ensures
            i != self.next_index(n),
            self.insert(v, n).get(i) == self.get(i),
    {
        if self.free.len() > 0 {
            assert(self.is_free_cell(self.free[0] as int));
        } else {
            assert(self.grow(n).free[0] == self.cells.len());
        }
    }

    /// A removal followed by an insertion reuses the removed index.
    pub proof fn lemma_reuse_is_lifo(self, i: usize, v: T, n: nat)
        requires
            self.get(i) is Some,
        ensures
            self.release(i).next_index(n) == i,
            self.release(i).insert(v, n).get(i) == Some(v),
    {
        let r = self.release(i);
        assert(r.free[0] == i);
    }
}

} // verus!
