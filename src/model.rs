use vstd::prelude::*;

use crate::slot::Slot;

verus! {

/// The values held by the occupied cells of `slots`, in order.
pub open spec fn occupied_values<T>(slots: Seq<Slot<T>>) -> Seq<T>
    decreases slots.len(),
{
    if slots.len() == 0 {
        Seq::empty()
    } else {
        let rest = occupied_values(slots.drop_last());
        match slots.last() {
            Slot::Occupied(v) => rest.push(v),
            Slot::Empty(_) => rest,
        }
    }
}

/// The indices of the occupied cells of `slots`, in ascending order.
pub open spec fn occupied_indices<T>(slots: Seq<Slot<T>>) -> Seq<int>
    decreases slots.len(),
{
    if slots.len() == 0 {
        Seq::empty()
    } else {
        let rest = occupied_indices(slots.drop_last());
        if slots.last() is Occupied {
            rest.push(slots.len() - 1)
        } else {
            rest
        }
    }
}

/// The abstract state of a `SlotList`: its cells in index order, and its free
/// chain, the indices of the empty cells in the order in which inserts reuse
/// them.
pub struct SlotListModel<T> {
    pub slots: Seq<Slot<T>>,
    pub chain: Seq<usize>,
}

impl<T> SlotListModel<T> {
    /// The link that the chain member at position `k` holds: the next member,
    /// or `None` at the tail.
    pub open spec fn link_after(self, k: int) -> Option<usize> {
        if k + 1 < self.chain.len() {
            Some(self.chain[k + 1])
        } else {
            None
        }
    }

    /// The chain is made of distinct indices of empty cells, each linking to the
    /// next member; every empty cell is on it; and once a cell exists a spare
    /// one is always on it.
    pub open spec fn wf(self) -> bool {
        &&& self.chain.no_duplicates()
        &&& forall|k: int| 0 <= k < self.chain.len() ==> #[trigger] self.chain[k] < self.slots.len()
        &&& forall|k: int|
            0 <= k < self.chain.len() ==> self.slots[#[trigger] self.chain[k] as int]
                == Slot::<T>::Empty(self.link_after(k))
        &&& forall|i: int|
            0 <= i < self.slots.len() && #[trigger] self.slots[i] is Empty ==> self.chain.contains(
                i as usize,
            )
        &&& self.slots.len() > 0 ==> self.chain.len() > 0
        &&& self.slots.len() <= usize::MAX
    }

    /// Head of the free chain.
    pub open spec fn first_empty(self) -> Option<usize> {
        if self.chain.len() > 0 {
            Some(self.chain[0])
        } else {
            None
        }
    }

    /// Tail of the free chain.
    pub open spec fn last_empty(self) -> Option<usize> {
        if self.chain.len() > 0 {
            Some(self.chain.last())
        } else {
            None
        }
    }

    /// The value at index `i`, if `i` is in range and its cell is occupied.
    pub open spec fn value_at(self, i: int) -> Option<T> {
        if 0 <= i < self.slots.len() {
            self.slots[i].value()
        } else {
            None
        }
    }

    /// The values of the occupied cells, in ascending index order.
    pub open spec fn live_values(self) -> Seq<T> {
        occupied_values(self.slots)
    }

    /// The index that the next insert fills: the chain head, or the first of
    /// two fresh cells while there are none.
    pub open spec fn next_index(self) -> usize {
        if self.chain.len() > 0 {
            self.chain[0]
        } else {
            self.slots.len() as usize
        }
    }

    /// The state once the next index has left the chain and a spare cell is
    /// staged: two cells are appended while there are none, one when the chain
    /// head was the last member.
    pub open spec fn claimed(self) -> Self {
        if self.chain.len() == 0 {
            SlotListModel {
                slots: self.slots.push(Slot::Empty(None)).push(Slot::Empty(None)),
                chain: seq![(self.slots.len() + 1) as usize],
            }
        } else if self.chain.len() == 1 {
            SlotListModel {
                slots: self.slots.push(Slot::Empty(None)),
                chain: seq![self.slots.len() as usize],
            }
        } else {
            SlotListModel { slots: self.slots, chain: self.chain.drop_first() }
        }
    }

    /// The state after inserting `v`: the claimed cell holds it.
    pub open spec fn inserted(self, v: T) -> Self {
        SlotListModel {
            slots: self.claimed().slots.update(self.next_index() as int, Slot::Occupied(v)),
            chain: self.claimed().chain,
        }
    }

    /// The state after removing index `i`: an occupied cell becomes the new
    /// tail of the chain; anything else is left as it is.
    pub open spec fn removed(self, i: int) -> Self {
        if self.value_at(i) is Some {
            let cleared = self.slots.update(i, Slot::Empty(None));
            SlotListModel {
                slots: if self.chain.len() > 0 {
                    cleared.update(self.chain.last() as int, Slot::Empty(Some(i as usize)))
                } else {
                    cleared
                },
                chain: self.chain.push(i as usize),
            }
        } else {
            self
        }
    }

    /// The state after putting `v` at index `i`: an occupied cell is
    /// overwritten; the chain head is claimed as an insert would; any other
    /// chain member is unlinked, its predecessor taking over its link.
    pub open spec fn replaced(self, i: int, v: T) -> Self {
        if self.slots[i] is Occupied {
            SlotListModel { slots: self.slots.update(i, Slot::Occupied(v)), chain: self.chain }
        } else if self.chain.len() > 0 && self.chain[0] == i {
            self.inserted(v)
        } else {
            self.unlinked(self.chain.index_of(i as usize), v)
        }
    }

    /// The state after the chain member at position `k` is filled with `v`,
    /// its predecessor taking over its link.
    pub open spec fn unlinked(self, k: int, v: T) -> Self {
        SlotListModel {
            slots: self.slots.update(self.chain[k] as int, Slot::Occupied(v)).update(
                self.chain[k - 1] as int,
                Slot::Empty(self.link_after(k)),
            ),
            chain: self.chain.remove(k),
        }
    }

    proof fn lemma_inserted_wf_bootstrap(self, v: T)
        requires
            self.wf(),
            self.claimed().slots.len() <= usize::MAX,
            self.chain.len() == 0,
        ensures
            self.inserted(v).wf(),
    {
        let n = self.inserted(v);
        assert(self.slots.len() == 0);
        assert(n.slots =~= seq![Slot::Occupied(v), Slot::Empty(None)]);
        assert(n.chain =~= seq![1usize]);
        assert forall|i: int| 0 <= i < n.slots.len() && #[trigger] n.slots[i] is Empty implies n.chain.contains(
            i as usize,
        ) by {
            assert(i == 1);
            assert(n.chain[0] == i as usize);
        }
    }

    proof fn lemma_inserted_wf_last_spare(self, v: T)
        requires
            self.wf(),
            self.claimed().slots.len() <= usize::MAX,
            self.chain.len() == 1,
        ensures
            self.inserted(v).wf(),
    {
        let n = self.inserted(v);
        let h = self.chain[0];
        let len = self.slots.len();
        assert(self.slots[h as int] is Empty);
        assert(n.slots =~= self.slots.update(h as int, Slot::Occupied(v)).push(Slot::Empty(None)));
        assert(n.chain =~= seq![len as usize]);
        assert forall|i: int| 0 <= i < n.slots.len() && #[trigger] n.slots[i] is Empty implies n.chain.contains(
            i as usize,
        ) by {
            if i < len {
                assert(i != h);
                assert(self.slots[i] is Empty);
                assert(self.chain.contains(i as usize));
                let k = choose|k: int| 0 <= k < self.chain.len() && self.chain[k] == i as usize;
                assert(k == 0);
                assert(false);
            }
            assert(n.chain[0] == i as usize);
        }
    }

    #[verifier::rlimit(60)]
    #[verifier::spinoff_prover]
    proof fn lemma_inserted_wf_pop(self, v: T)
        requires
            self.wf(),
            self.chain.len() > 1,
        ensures
            self.inserted(v).wf(),
    {
        let n = self.inserted(v);
        let h = self.chain[0];
        assert(self.slots[h as int] is Empty);
        assert(n.slots =~= self.slots.update(h as int, Slot::Occupied(v)));
        assert(n.chain =~= self.chain.drop_first());
        assert forall|k: int| 0 <= k < n.chain.len() implies n.slots[#[trigger] n.chain[k] as int]
            == Slot::<T>::Empty(n.link_after(k)) by {
            assert(n.chain[k] == self.chain[k + 1]);
            assert(self.chain[k + 1] != self.chain[0]);
            assert(self.slots[self.chain[k + 1] as int] == Slot::<T>::Empty(self.link_after(k + 1)));
        }
        assert forall|i: int| 0 <= i < n.slots.len() && #[trigger] n.slots[i] is Empty implies n.chain.contains(
            i as usize,
        ) by {
            assert(i != h);
            assert(self.slots[i] is Empty);
            assert(self.chain.contains(i as usize));
            let k = choose|k: int| 0 <= k < self.chain.len() && self.chain[k] == i as usize;
            assert(k != 0);
            assert(n.chain[k - 1] == i as usize);
        }
        assert forall|a: int, b: int|
            0 <= a < n.chain.len() && 0 <= b < n.chain.len() && a != b implies n.chain[a]
            != n.chain[b] by {
            assert(n.chain[a] == self.chain[a + 1]);
            assert(n.chain[b] == self.chain[b + 1]);
        }
    }

    /// Inserting keeps the state well formed while the cells fit in memory,
    /// fills a cell that held no value, and never drops a cell.
    pub proof fn lemma_inserted_wf(self, v: T)
        requires
            self.wf(),
            self.claimed().slots.len() <= usize::MAX,
        ensures
            self.inserted(v).wf(),
            self.claimed().slots.len() >= self.slots.len(),
            self.next_index() < self.claimed().slots.len(),
            self.value_at(self.next_index() as int) is None,
    {
        if self.chain.len() == 0 {
            self.lemma_inserted_wf_bootstrap(v);
        } else if self.chain.len() == 1 {
            self.lemma_inserted_wf_last_spare(v);
        } else {
            self.lemma_inserted_wf_pop(v);
        }
        if self.chain.len() > 0 {
            assert(self.slots[self.chain[0] as int] is Empty);
        }
    }

    /// Removing keeps the state well formed and the number of cells.
    #[verifier::rlimit(60)]
    #[verifier::spinoff_prover]
    pub proof fn lemma_removed_wf(self, i: int)
        requires
            self.wf(),
        ensures
            self.removed(i).wf(),
            self.removed(i).slots.len() == self.slots.len(),
    {
        if self.value_at(i) is Some {
            let n = self.removed(i);
            let len = self.chain.len() as int;
            assert(!self.chain.contains(i as usize)) by {
                if self.chain.contains(i as usize) {
                    let k = choose|k: int| 0 <= k < self.chain.len() && self.chain[k] == i as usize;
                    assert(self.slots[self.chain[k] as int] is Empty);
                }
            }
            assert(len > 0);
            let t = self.chain[len - 1];
            assert(self.slots[t as int] is Empty);
            assert forall|k: int| 0 <= k < n.chain.len() implies n.slots[#[trigger] n.chain[k] as int]
                == Slot::<T>::Empty(n.link_after(k)) by {
                if k < len {
                    assert(n.chain[k] == self.chain[k]);
                    assert(self.chain[k] != i as usize);
                    if k < len - 1 {
                        assert(self.chain[k] != t);
                        assert(self.slots[self.chain[k] as int] == Slot::<T>::Empty(self.link_after(k)));
                    }
                }
            }
            assert forall|j: int| 0 <= j < n.slots.len() && #[trigger] n.slots[j] is Empty implies n.chain.contains(
                j as usize,
            ) by {
                if j == i {
                    assert(n.chain[len] == i as usize);
                } else {
                    assert(self.slots[j] is Empty);
                    assert(self.chain.contains(j as usize));
                    let k = choose|k: int| 0 <= k < self.chain.len() && self.chain[k] == j as usize;
                    assert(n.chain[k] == j as usize);
                }
            }
            assert forall|a: int, b: int|
                0 <= a < n.chain.len() && 0 <= b < n.chain.len() && a != b implies n.chain[a]
                != n.chain[b] by {
                if a < len && b == len {
                    assert(self.chain[a] != i as usize);
                }
                if b < len && a == len {
                    assert(self.chain[b] != i as usize);
                }
            }
        }
    }

    proof fn lemma_unlinked_links(self, k: int, v: T)
        requires
            self.wf(),
            0 < k < self.chain.len(),
        ensures
            forall|j: int|
                0 <= j < self.unlinked(k, v).chain.len() ==> self.unlinked(k, v).slots[#[trigger] self.unlinked(
                    k,
                    v,
                ).chain[j] as int] == Slot::<T>::Empty(self.unlinked(k, v).link_after(j)),
    {
        let n = self.unlinked(k, v);
        let len = self.chain.len() as int;
        let i = self.chain[k];
        let p = self.chain[k - 1];
        assert forall|j: int| 0 <= j < n.chain.len() implies n.slots[#[trigger] n.chain[j] as int]
            == Slot::<T>::Empty(n.link_after(j)) by {
            if j < k - 1 {
                assert(n.chain[j] == self.chain[j]);
                assert(self.chain[j] != p && self.chain[j] != i);
                assert(self.slots[self.chain[j] as int] == Slot::<T>::Empty(self.link_after(j)));
                assert(n.chain[j + 1] == self.chain[j + 1]);
            } else if j == k - 1 {
                assert(n.chain[j] == p);
                if k + 1 < len {
                    assert(n.chain[k] == self.chain[k + 1]);
                }
            } else {
                assert(n.chain[j] == self.chain[j + 1]);
                assert(self.chain[j + 1] != p && self.chain[j + 1] != i);
                assert(self.slots[self.chain[j + 1] as int] == Slot::<T>::Empty(self.link_after(j + 1)));
                if j + 1 < n.chain.len() {
                    assert(n.chain[j + 1] == self.chain[j + 2]);
                }
            }
        }
    }

    /// Unlinking a chain member other than the head keeps the state well
    /// formed and the number of cells.
    pub proof fn lemma_unlinked_wf(self, k: int, v: T)
        requires
            self.wf(),
            0 < k < self.chain.len(),
        ensures
            self.unlinked(k, v).wf(),
            self.unlinked(k, v).slots.len() == self.slots.len(),
    {
        self.lemma_unlinked_links(k, v);
        let n = self.unlinked(k, v);
        let i = self.chain[k];
        let p = self.chain[k - 1];
        assert forall|m: int| 0 <= m < n.slots.len() && #[trigger] n.slots[m] is Empty implies n.chain.contains(
            m as usize,
        ) by {
            assert(m != i);
            if m == p {
                assert(n.chain[k - 1] == m as usize);
            } else {
                assert(self.slots[m] is Empty);
                assert(self.chain.contains(m as usize));
                let q = choose|q: int| 0 <= q < self.chain.len() && self.chain[q] == m as usize;
                assert(q != k);
                if q < k {
                    assert(n.chain[q] == m as usize);
                } else {
                    assert(n.chain[q - 1] == m as usize);
                }
            }
        }
        assert forall|a: int, b: int|
            0 <= a < n.chain.len() && 0 <= b < n.chain.len() && a != b implies n.chain[a]
            != n.chain[b] by {
            let a2 = if a < k { a } else { a + 1 };
            let b2 = if b < k { b } else { b + 1 };
            assert(n.chain[a] == self.chain[a2]);
            assert(n.chain[b] == self.chain[b2]);
        }
        assert forall|j: int| 0 <= j < n.chain.len() implies #[trigger] n.chain[j] < n.slots.len() by {
            let j2 = if j < k { j } else { j + 1 };
            assert(n.chain[j] == self.chain[j2]);
        }
    }

    /// Replacing keeps the state well formed while the cells fit in memory, and
    /// never drops a cell.
    pub proof fn lemma_replaced_wf(self, i: int, v: T)
        requires
            self.wf(),
            0 <= i < self.slots.len(),
            self.first_empty() == Some(i as usize) ==> self.claimed().slots.len() <= usize::MAX,
        ensures
            self.replaced(i, v).wf(),
            self.replaced(i, v).slots.len() >= self.slots.len(),
    {
        if self.slots[i] is Occupied {
            let n = self.replaced(i, v);
            assert forall|k: int| 0 <= k < n.chain.len() implies n.slots[#[trigger] n.chain[k] as int]
                == Slot::<T>::Empty(n.link_after(k)) by {
                assert(self.slots[self.chain[k] as int] is Empty);
            }
            assert forall|m: int| 0 <= m < n.slots.len() && #[trigger] n.slots[m] is Empty implies n.chain.contains(
                m as usize,
            ) by {
                assert(self.slots[m] is Empty);
            }
        } else if self.chain.len() > 0 && self.chain[0] == i {
            self.lemma_inserted_wf(v);
        } else {
            assert(self.chain.contains(i as usize));
            self.lemma_unlinked_wf(self.chain.index_of(i as usize), v);
        }
    }

    /// The state after inserting each value of `vs`, in order.
    pub open spec fn inserted_all(self, vs: Seq<T>) -> Self
        decreases vs.len(),
    {
        if vs.len() == 0 {
            self
        } else {
            self.inserted_all(vs.drop_last()).inserted(vs.last())
        }
    }

    /// The indices that inserting each value of `vs`, in order, returns.
    pub open spec fn insert_indices(self, vs: Seq<T>) -> Seq<usize>
        decreases vs.len(),
    {
        if vs.len() == 0 {
            Seq::empty()
        } else {
            self.insert_indices(vs.drop_last()).push(self.inserted_all(vs.drop_last()).next_index())
        }
    }

    /// Inserting touches no cell but the one it fills: every other value stays
    /// where it was.
    pub proof fn lemma_inserted_keeps(self, v: T, j: int)
        requires
            self.wf(),
            j != self.next_index(),
        ensures
            self.inserted(v).value_at(j) == self.value_at(j),
            self.inserted(v).value_at(self.next_index() as int) == Some(v),
    {
        if self.chain.len() > 0 {
            assert(self.chain[0] < self.slots.len());
        }
    }
}

} // verus!
