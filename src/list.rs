use vstd::prelude::*;

use crate::model::{occupied_values, SlotListModel};
use crate::slot::Slot;

verus! {

/// Relies on `Vec::capacity`: the number of elements the vector can hold
/// without reallocating, which is never below its length.
#[verifier::external_body]
fn vec_capacity<T>(v: &Vec<T>) -> (r: usize)
    ensures
        r >= v.len(),
{
    v.capacity()
}

/// A vector-like container whose cells each hold a value or take part in a
/// chain of empty cells. An insert reuses the head of that chain before it
/// appends storage, so the index of an element never changes and removing an
/// element wastes no space.
pub struct SlotList<T> {
    first_empty_slot: Option<usize>,
    last_empty_slot: Option<usize>,
    slots: Vec<Slot<T>>,
    chain: Ghost<Seq<usize>>,
}

impl<T> View for SlotList<T> {
    type V = SlotListModel<T>;

    closed spec fn view(&self) -> SlotListModel<T> {
        SlotListModel { slots: self.slots@, chain: self.chain@ }
    }
}

impl<T> SlotList<T> {
    /// The model is well formed and the two chain pointers name its head and
    /// its tail.
    pub closed spec fn well_formed(&self) -> bool {
        &&& self@.wf()
        &&& self.first_empty_slot == self@.first_empty()
        &&& self.last_empty_slot == self@.last_empty()
    }

    /// A well-formed list has a well-formed model.
    pub proof fn lemma_view_wf(&self)
        requires
            self.well_formed(),
        ensures
            self@.wf(),
    {
    }

    /// An empty list, with no storage reserved.
    pub fn new() -> (r: SlotList<T>)
        ensures
            r.well_formed(),
            r@.slots.len() == 0,
            r@.chain.len() == 0,
    {
        SlotList {
            first_empty_slot: None,
            last_empty_slot: None,
            slots: Vec::new(),
            chain: Ghost(Seq::empty()),
        }
    }

    /// An empty list with storage reserved for `capacity` cells.
    pub fn with_capacity(capacity: usize) -> (r: SlotList<T>)
        ensures
            r.well_formed(),
            r@.slots.len() == 0,
            r@.chain.len() == 0,
    {
        SlotList {
            first_empty_slot: None,
            last_empty_slot: None,
            slots: Vec::with_capacity(capacity),
            chain: Ghost(Seq::empty()),
        }
    }

    /// The number of cells the storage can hold without growing.
    pub fn capacity(&self) -> (r: usize)
        ensures
            r >= self@.slots.len(),
    {
        vec_capacity(&self.slots)
    }

    /// Takes the next index off the free chain and makes sure a spare empty
    /// cell stays on it, appending cells when the chain would run dry. The
    /// returned cell is left empty for the caller to fill.
    fn find_empty_slot(&mut self) -> (r: usize)
        requires
            old(self).well_formed(),
        ensures
            r == old(self)@.next_index(),
            final(self)@ == old(self)@.claimed(),
            final(self).first_empty_slot == old(self)@.claimed().first_empty(),
            final(self).last_empty_slot == old(self)@.claimed().last_empty(),
            r < final(self)@.slots.len(),
    {
        let ghost m = self@;
        let mut index = self.slots.len();
        if let Some(first_index) = self.first_empty_slot {
            index = first_index;
            let next_first = match &self.slots[first_index] {
                Slot::Occupied(_) => {
                    proof {
                        assert(false);
                    }
                    None
                },
                Slot::Empty(next) => *next,
            };
            proof {
                assert(m.slots[m.chain[0] as int] == Slot::<T>::Empty(m.link_after(0)));
            }
            self.first_empty_slot = next_first;
            self.chain = Ghost(self.chain@.drop_first());
        }
        if self.first_empty_slot.is_none() {
            let mut last_entry = self.slots.len();
            self.slots.push(Slot::Empty(None));
            if last_entry == 0 {
                self.slots.push(Slot::Empty(None));
                last_entry = 1;
            }
            self.first_empty_slot = Some(last_entry);
            self.last_empty_slot = Some(last_entry);
            self.chain = Ghost(Seq::empty().push(last_entry));
        }
        proof {
            assert(self@.slots =~= m.claimed().slots);
            assert(self@.chain =~= m.claimed().chain);
            if m.chain.len() > 1 {
                assert(self@.chain.last() == m.chain.last());
            }
        }
        index
    }

    /// Puts `item` in the cell at the head of the free chain, appending storage
    /// only when no other empty cell is left, and returns its index.
    pub fn insert(&mut self, item: T) -> (r: usize)
        requires
            old(self).well_formed(),
        ensures
            final(self).well_formed(),
            r == old(self)@.next_index(),
            final(self)@ == old(self)@.inserted(item),
    {
        let index = self.find_empty_slot();
        self.slots.set(index, Slot::Occupied(item));
        proof {
            assert(self.slots@.len() == self.slots.len());
            let m = old(self)@;
            assert(self@ == m.inserted(item));
            m.lemma_inserted_wf(item);
        }
        index
    }

    /// The value at `index`, or `None` when `index` is out of range or its cell
    /// is empty.
    pub fn get(&self, index: usize) -> (r: Option<&T>)
        ensures
            r is Some <==> self@.value_at(index as int) is Some,
            r matches Some(v) ==> self@.value_at(index as int) == Some(*v),
    {
        if index >= self.slots.len() {
            return None;
        }
        match &self.slots[index] {
            Slot::Occupied(item) => Some(item),
            Slot::Empty(_) => None,
        }
    }

    /// Mutable access to the value at `index`, or `None` when `index` is out of
    /// range or its cell is empty.
    pub fn get_mut(&mut self, index: usize) -> (r: Option<&mut T>)
        requires
            old(self).well_formed(),
        ensures
            r is Some <==> old(self)@.value_at(index as int) is Some,
            r matches Some(v) ==> old(self)@.value_at(index as int) == Some(*v) && final(self)@
                == (SlotListModel {
                slots: old(self)@.slots.update(index as int, Slot::Occupied(*final(v))),
                chain: old(self)@.chain,
            }),
            r is None ==> final(self)@ == old(self)@,
            final(self).well_formed(),
    {
        if index >= self.slots.len() || !self.slots[index].is_occupied() {
            return None;
        }
        self.slots[index].as_mut()
    }

    /// Takes the value out of the cell at `index`, which becomes the new tail of
    /// the free chain, and returns it. Gives `None` when `index` is out of range
    /// or its cell is already empty; such a cell is left untouched, link
    /// included, since clearing its link would cut off the chain behind it.
    pub fn remove(&mut self, index: usize) -> (r: Option<T>)
        requires
            old(self).well_formed(),
        ensures
            final(self).well_formed(),
            r == old(self)@.value_at(index as int),
            final(self)@ == old(self)@.removed(index as int),
    {
        if index >= self.slots.len() || !self.slots[index].is_occupied() {
            return None;
        }
        let ghost m = self@;
        let prev = self.slots[index].take();
        if let Some(last_slot_index) = self.last_empty_slot {
            proof {
                let t = m.chain.len() - 1;
                assert(m.slots[m.chain[t] as int] == Slot::<T>::Empty(m.link_after(t)));
            }
            self.slots[last_slot_index].set_next_empty(index);
        }
        self.last_empty_slot = Some(index);
        self.chain = Ghost(self.chain@.push(index));
        proof {
            assert(self@.slots =~= m.removed(index as int).slots);
            assert(self@ == m.removed(index as int));
            m.lemma_removed_wf(index as int);
        }
        prev.occupied()
    }

    /// Puts `item` at `index` and returns the value that was there, if any.
    /// When the cell was empty it leaves the free chain: the chain head is
    /// claimed as an insert would claim it, and any other member is unlinked
    /// by rewriting the link of its predecessor, found by walking the chain.
    pub fn replace(&mut self, index: usize, item: T) -> (r: Option<T>)
        requires
            old(self).well_formed(),
            index < old(self)@.slots.len(),
        ensures
            final(self).well_formed(),
            r == old(self)@.value_at(index as int),
            final(self)@ == old(self)@.replaced(index as int, item),
    {
        let ghost m = self@;
        let is_head = match self.first_empty_slot {
            Some(first_index) => first_index == index,
            None => false,
        };
        if is_head {
            let claimed = self.find_empty_slot();
            self.slots.set(claimed, Slot::Occupied(item));
            proof {
                assert(self.slots@.len() == self.slots.len());
                assert(m.slots[m.chain[0] as int] == Slot::<T>::Empty(m.link_after(0)));
                m.lemma_inserted_wf(item);
            }
            return None;
        }
        let prev = self.slots[index].replace(item);
        if let Slot::Empty(next) = &prev {
            let ghost k = m.chain.index_of(index);
            proof {
                assert(m.chain.contains(index));
                m.lemma_unlinked_wf(k, item);
                assert(m.slots[m.chain[k] as int] == Slot::<T>::Empty(m.link_after(k)));
            }
            let mut current: usize = match self.first_empty_slot {
                Some(first_index) => first_index,
                None => {
                    proof {
                        assert(false);
                    }
                    0
                },
            };
            let ghost mut j: int = 0;
            loop
                invariant_except_break
                    self.chain@ == m.chain,
                    self.first_empty_slot == m.first_empty(),
                    self.last_empty_slot == m.last_empty(),
                    self.slots@ == m.slots.update(index as int, Slot::Occupied(item)),
                invariant
                    m.wf(),
                    0 < k < m.chain.len(),
                    m.chain[k] == index,
                    *next == m.link_after(k),
                    0 <= j < k,
                    current == m.chain[j],
                ensures
                    self@ == m.replaced(index as int, item),
                    self.first_empty_slot == m.replaced(index as int, item).first_empty(),
                    self.last_empty_slot == m.replaced(index as int, item).last_empty(),
                decreases k - j,
            {
                proof {
                    assert(m.slots[m.chain[j] as int] == Slot::<T>::Empty(m.link_after(j)));
                    assert(m.chain[j] != index);
                }
                let link = match &self.slots[current] {
                    Slot::Empty(link) => *link,
                    Slot::Occupied(_) => {
                        proof {
                            assert(false);
                        }
                        None
                    },
                };
                let following: usize = match link {
                    Some(following) => following,
                    None => {
                        proof {
                            assert(false);
                        }
                        0
                    },
                };
                if following == index {
                    proof {
                        assert(j + 1 == k);
                    }
                    self.slots.set(current, Slot::Empty(*next));
                    let was_last = match self.last_empty_slot {
                        Some(last_index) => last_index == index,
                        None => false,
                    };
                    if was_last {
                        self.last_empty_slot = Some(current);
                    }
                    self.chain = Ghost(m.chain.remove(k));
                    proof {
                        let n = m.replaced(index as int, item);
                        assert(self@.slots =~= n.slots);
                        assert(self@.chain =~= n.chain);
                        assert(m.link_after(k) == *next);
                        if k + 1 < m.chain.len() {
                            assert(n.chain.last() == m.chain.last());
                            assert(m.chain.last() != index) by {
                                assert(m.chain[m.chain.len() - 1] == m.chain.last());
                            }
                        }
                    }
                    break;
                }
                proof {
                    assert(j + 1 != k);
                }
                current = following;
                proof {
                    j = j + 1;
                }
            }
        } else {
            proof {
                m.lemma_replaced_wf(index as int, item);
                assert(self@.slots =~= m.replaced(index as int, item).slots);
            }
        }
        prev.occupied()
    }

    /// References to the values of the occupied cells, in ascending index
    /// order. Each call walks the current cells afresh.
    pub fn iter(&self) -> (r: Vec<&T>)
        ensures
            r@.len() == self@.live_values().len(),
            forall|k: int| 0 <= k < r@.len() ==> *r@[k] == self@.live_values()[k],
    {
        let mut out: Vec<&T> = Vec::new();
        let mut i: usize = 0;
        while i < self.slots.len()
            invariant
                i <= self.slots@.len(),
                out@.len() == occupied_values(self.slots@.take(i as int)).len(),
                forall|k: int|
                    0 <= k < out@.len() ==> *out@[k] == occupied_values(self.slots@.take(i as int))[k],
            decreases self.slots@.len() - i,
        {
            let ghost before = self.slots@.take(i as int);
            let ghost after = self.slots@.take(i + 1);
            proof {
                assert(after.drop_last() =~= before);
                assert(after.last() == self.slots@[i as int]);
            }
            if let Some(value) = self.slots[i].as_option_of_ref() {
                out.push(value);
                proof {
                    assert(occupied_values(after) == occupied_values(before).push(*value));
                }
            } else {
                proof {
                    assert(occupied_values(after) == occupied_values(before));
                }
            }
            i += 1;
        }
        proof {
            assert(self.slots@.take(i as int) =~= self.slots@);
        }
        out
    }

    /// Head of the free chain: the index that the next insert fills.
    pub fn get_first_empty_slot(&self) -> (r: Option<usize>)
        requires
            self.well_formed(),
        ensures
            r == self@.first_empty(),
    {
        self.first_empty_slot
    }

    /// Tail of the free chain: the index that a removed cell gets linked after.
    pub fn get_last_empty_slot(&self) -> (r: Option<usize>)
        requires
            self.well_formed(),
        ensures
            r == self@.last_empty(),
    {
        self.last_empty_slot
    }

    /// All cells as they are stored, in index order: formatting them with `{:?}`
    /// renders the list, values and empty markers alike.
    pub fn raw_slots(&self) -> (r: &[Slot<T>])
        ensures
            r@ == self@.slots,
    {
        self.slots.as_slice()
    }

    /// The cell at `index` as it is stored, or `None` when out of range.
    pub fn get_raw_slot(&self, index: usize) -> (r: Option<&Slot<T>>)
        ensures
            r is Some <==> index < self@.slots.len(),
            r matches Some(s) ==> *s == self@.slots[index as int],
    {
        if index < self.slots.len() {
            Some(&self.slots[index])
        } else {
            None
        }
    }
}

impl<T: Clone> Clone for SlotList<T> {
    /// A deep copy: the same chain and links, a clone of each value.
    fn clone(&self) -> (r: SlotList<T>)
        ensures
            self.well_formed() ==> r.well_formed(),
            r@.chain == self@.chain,
            r@.slots.len() == self@.slots.len(),
            forall|j: int| 0 <= j < self@.slots.len() ==> #[trigger] r@.slots[j].is_clone_of(self@.slots[j]),
    {
        let mut slots: Vec<Slot<T>> = Vec::with_capacity(self.slots.len());
        let mut i: usize = 0;
        while i < self.slots.len()
            invariant
                i <= self.slots@.len(),
                slots@.len() == i,
                forall|j: int| 0 <= j < i ==> #[trigger] slots@[j].is_clone_of(self.slots@[j]),
            decreases self.slots@.len() - i,
        {
            slots.push(self.slots[i].clone());
            i += 1;
        }
        let r = SlotList {
            first_empty_slot: self.first_empty_slot,
            last_empty_slot: self.last_empty_slot,
            slots,
            chain: self.chain,
        };
        proof {
            if self.well_formed() {
                let m = self@;
                let n = r@;
                assert forall|k: int| 0 <= k < n.chain.len() implies n.slots[#[trigger] n.chain[k] as int]
                    == Slot::<T>::Empty(n.link_after(k)) by {
                    assert(m.slots[m.chain[k] as int] == Slot::<T>::Empty(m.link_after(k)));
                    assert(n.slots[m.chain[k] as int].is_clone_of(m.slots[m.chain[k] as int]));
                }
                assert forall|j: int| 0 <= j < n.slots.len() && #[trigger] n.slots[j] is Empty implies n.chain.contains(
                    j as usize,
                ) by {
                    assert(n.slots[j].is_clone_of(m.slots[j]));
                }
            }
        }
        r
    }
}

} // verus!
