use vstd::prelude::*;

use crate::model::{occupied_indices, occupied_values, SlotListModel};
use crate::slot::Slot;

verus! {

/// A run of inserts with no removal in between hands out distinct indices,
/// each of which then gets back exactly the value inserted under it; none of
/// them held a value before the run, and every value held before stays put.
pub proof fn lemma_index_stability<T>(m: SlotListModel<T>, vs: Seq<T>)
    requires
        m.wf(),
        m.slots.len() + 2 * vs.len() <= usize::MAX,
    ensures
        m.inserted_all(vs).wf(),
        m.inserted_all(vs).slots.len() <= m.slots.len() + 2 * vs.len(),
        m.insert_indices(vs).len() == vs.len(),
        m.insert_indices(vs).no_duplicates(),
        forall|k: int|
            0 <= k < vs.len() ==> m.inserted_all(vs).value_at(#[trigger] m.insert_indices(vs)[k] as int)
                == Some(vs[k]),
        forall|k: int| 0 <= k < vs.len() ==> m.value_at(#[trigger] m.insert_indices(vs)[k] as int) is None,
        forall|j: int| #[trigger] m.value_at(j) is Some ==> m.inserted_all(vs).value_at(j) == m.value_at(j),
    decreases vs.len(),
{
    if vs.len() > 0 {
        let p = vs.drop_last();
        let v = vs.last();
        lemma_index_stability(m, p);
        let np = m.inserted_all(p);
        let ip = m.insert_indices(p);
        let h = np.next_index();
        let n = m.inserted_all(vs);
        let idx = m.insert_indices(vs);
        assert(n == np.inserted(v));
        assert(idx == ip.push(h));
        np.lemma_inserted_wf(v);
        assert forall|j: int| j != h implies n.value_at(j) == np.value_at(j) by {
            np.lemma_inserted_keeps(v, j);
        }
        np.lemma_inserted_keeps(v, (h + 1) as int);
        assert forall|k: int| 0 <= k < ip.len() implies ip[k] != h by {
            assert(np.value_at(ip[k] as int) == Some(p[k]));
        }
        assert forall|k: int| 0 <= k < vs.len() implies n.value_at(#[trigger] idx[k] as int) == Some(vs[k]) by {
            if k < p.len() {
                assert(idx[k] == ip[k]);
                assert(np.value_at(ip[k] as int) == Some(p[k]));
            } else {
                assert(idx[k] == h);
            }
        }
        assert forall|k: int| 0 <= k < vs.len() implies m.value_at(#[trigger] idx[k] as int) is None by {
            if k < p.len() {
                assert(idx[k] == ip[k]);
            } else {
                assert(idx[k] == h);
                if m.value_at(h as int) is Some {
                    assert(np.value_at(h as int) == m.value_at(h as int));
                }
            }
        }
        assert forall|a: int, b: int| 0 <= a < idx.len() && 0 <= b < idx.len() && a != b implies idx[a]
            != idx[b] by {
            if a < p.len() && b < p.len() {
                assert(ip[a] != ip[b]);
            }
        }
        assert forall|j: int| #[trigger] m.value_at(j) is Some implies n.value_at(j) == m.value_at(j) by {
            assert(np.value_at(j) == m.value_at(j));
        }
    }
}

/// Inserts take the free chain from its head, in order; while a spare cell
/// remains behind the ones they take, they append no storage.
pub proof fn lemma_inserts_follow_chain<T>(m: SlotListModel<T>, vs: Seq<T>)
    requires
        m.wf(),
        vs.len() <= m.chain.len(),
    ensures
        m.insert_indices(vs) == m.chain.take(vs.len() as int),
        vs.len() < m.chain.len() ==> m.inserted_all(vs).slots.len() == m.slots.len(),
        vs.len() < m.chain.len() ==> m.inserted_all(vs).chain == m.chain.skip(vs.len() as int),
        vs.len() < m.chain.len() ==> m.inserted_all(vs).wf(),
    decreases vs.len(),
{
    if vs.len() == 0 {
        assert(m.chain.take(0) =~= Seq::<usize>::empty());
        assert(m.chain.skip(0) =~= m.chain);
    } else {
        let p = vs.drop_last();
        let v = vs.last();
        lemma_inserts_follow_chain(m, p);
        let np = m.inserted_all(p);
        assert(np.chain == m.chain.skip(p.len() as int));
        assert(np.next_index() == m.chain[p.len() as int]);
        assert(m.insert_indices(vs) =~= m.chain.take(vs.len() as int));
        if vs.len() < m.chain.len() {
            assert(np.chain.len() > 1);
            assert(np.claimed().slots.len() <= usize::MAX);
            np.lemma_inserted_wf(v);
            assert(m.inserted_all(vs).chain =~= m.chain.skip(vs.len() as int));
        }
    }
}

/// A removed index goes to the tail of the free chain: inserts reuse every
/// cell that was free before it, then it, and only the insert that takes it
/// appends storage.
pub proof fn lemma_reuse<T>(m: SlotListModel<T>, i: int, vs: Seq<T>)
    requires
        m.wf(),
        m.value_at(i) is Some,
        vs.len() == m.chain.len() + 1,
    ensures
        m.removed(i).insert_indices(vs) == m.chain.push(i as usize),
        m.removed(i).inserted_all(vs.drop_last()).slots.len() == m.slots.len(),
{
    let r = m.removed(i);
    m.lemma_removed_wf(i);
    lemma_inserts_follow_chain(r, vs);
    lemma_inserts_follow_chain(r, vs.drop_last());
    assert(r.chain == m.chain.push(i as usize));
    assert(r.chain.take(vs.len() as int) =~= r.chain);
}

/// Removing what was just inserted gives the value back and leaves its index
/// without a value.
pub proof fn lemma_round_trip<T>(m: SlotListModel<T>, v: T)
    requires
        m.wf(),
        m.claimed().slots.len() <= usize::MAX,
    ensures
        m.inserted(v).value_at(m.next_index() as int) == Some(v),
        m.inserted(v).removed(m.next_index() as int).value_at(m.next_index() as int) is None,
{
    m.lemma_inserted_wf(v);
    m.lemma_inserted_keeps(v, (m.next_index() + 1) as int);
}

/// What iteration yields is exactly the values of the occupied cells, one for
/// each, in ascending index order: an empty cell, removed or never filled,
/// gives nothing.
pub proof fn lemma_iteration<T>(slots: Seq<Slot<T>>)
    ensures
        occupied_indices(slots).len() == occupied_values(slots).len(),
        forall|k: int|
            0 <= k < occupied_indices(slots).len() ==> 0 <= #[trigger] occupied_indices(slots)[k] < slots.len()
                && slots[occupied_indices(slots)[k]] == Slot::Occupied(occupied_values(slots)[k]),
        forall|a: int, b: int|
            0 <= a < b < occupied_indices(slots).len() ==> occupied_indices(slots)[a]
                < occupied_indices(slots)[b],
        forall|j: int|
            0 <= j < slots.len() && #[trigger] slots[j] is Occupied ==> occupied_indices(slots).contains(j),
    decreases slots.len(),
{
    if slots.len() > 0 {
        let rest = slots.drop_last();
        lemma_iteration(rest);
        let ir = occupied_indices(rest);
        let idx = occupied_indices(slots);
        let last = slots.len() - 1;
        assert forall|k: int| 0 <= k < ir.len() implies #[trigger] ir[k] < last by {}
        assert forall|k: int| 0 <= k < idx.len() implies 0 <= #[trigger] idx[k] < slots.len() && slots[idx[k]]
            == Slot::Occupied(occupied_values(slots)[k]) by {
            if k < ir.len() {
                assert(idx[k] == ir[k]);
                assert(slots[ir[k]] == rest[ir[k]]);
            }
        }
        assert forall|j: int| 0 <= j < slots.len() && #[trigger] slots[j] is Occupied implies idx.contains(j) by {
            if j < last {
                assert(rest[j] == slots[j]);
                assert(ir.contains(j));
                let k = choose|k: int| 0 <= k < ir.len() && ir[k] == j;
                assert(idx[k] == j);
            } else {
                assert(idx[idx.len() - 1] == j);
            }
        }
    }
}

} // verus!
