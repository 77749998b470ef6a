use slotlist::{Slot, SlotList};

#[test]
fn inserts_without_removal_get_distinct_indices() {
    let mut list: SlotList<u64> = SlotList::new();
    let mut indices = Vec::new();
    for v in 0..20u64 {
        indices.push(list.insert(v * 7));
    }
    for (k, &i) in indices.iter().enumerate() {
        assert_eq!(list.get(i), Some(&(k as u64 * 7)));
        for &j in &indices[k + 1..] {
            assert_ne!(i, j);
        }
    }
}

#[test]
fn removed_indices_are_reused_oldest_first() {
    let mut list: SlotList<u32> = SlotList::new();
    for v in 0..5u32 {
        list.insert(v);
    }
    // Cells 0..5 hold values, 5 is the spare.
    assert_eq!(list.get_first_empty_slot(), Some(5));
    list.remove(3);
    list.remove(1);
    assert_eq!(list.insert(100), 5);
    assert_eq!(list.insert(101), 3);
    assert_eq!(list.insert(102), 1);
    assert_eq!(list.insert(103), 6);
    assert_eq!(list.get_raw_slot(8).is_none(), true);
}

#[test]
fn capacity_never_decreases() {
    let mut list: SlotList<u32> = SlotList::new();
    let mut last = list.capacity();
    for v in 0..50u32 {
        let i = list.insert(v);
        assert!(list.capacity() >= last);
        last = list.capacity();
        if v % 3 == 0 {
            list.remove(i);
            assert!(list.capacity() >= last);
            last = list.capacity();
        }
        list.replace(0, v);
        assert!(list.capacity() >= last);
        last = list.capacity();
    }
}

#[test]
fn with_capacity_reserves_storage() {
    let list: SlotList<u32> = SlotList::with_capacity(16);
    assert!(list.capacity() >= 16);
    assert_eq!(list.get_first_empty_slot(), None);
    assert_eq!(list.get_last_empty_slot(), None);
}

#[test]
fn iteration_skips_removed_values_in_index_order() {
    let mut list: SlotList<u32> = SlotList::new();
    for v in [10, 20, 30, 40] {
        list.insert(v);
    }
    list.remove(2);
    list.remove(0);
    let seen: Vec<u32> = list.iter().into_iter().copied().collect();
    assert_eq!(seen, vec![20, 40]);
    let again: Vec<u32> = list.iter().into_iter().copied().collect();
    assert_eq!(again, vec![20, 40]);
}

#[test]
fn iteration_of_empty_list_yields_nothing() {
    let list: SlotList<u32> = SlotList::new();
    assert!(list.iter().is_empty());
}

#[test]
fn remove_of_inserted_value_round_trips() {
    let mut list: SlotList<&str> = SlotList::new();
    list.insert("a");
    let i = list.insert("b");
    assert_eq!(list.remove(i), Some("b"));
    assert_eq!(list.get(i), None);
}

#[test]
fn remove_out_of_range_gives_none() {
    let mut list: SlotList<u32> = SlotList::new();
    assert_eq!(list.remove(0), None);
    list.insert(1);
    assert_eq!(list.remove(7), None);
    assert_eq!(list.get(0), Some(&1));
}

#[test]
fn removing_an_empty_cell_keeps_the_chain() {
    let mut list: SlotList<u32> = SlotList::new();
    for v in 0..4u32 {
        list.insert(v);
    }
    list.remove(1);
    list.remove(2);
    // Chain: 4 -> 1 -> 2. Removing 1 again changes nothing.
    assert_eq!(list.remove(1), None);
    assert!(matches!(list.get_raw_slot(1), Some(Slot::Empty(Some(2)))));
    assert_eq!(list.insert(10), 4);
    assert_eq!(list.insert(11), 1);
    assert_eq!(list.insert(12), 2);
    assert_eq!(list.insert(13), 5);
}

#[test]
fn replacing_the_chain_head_claims_it() {
    let mut list: SlotList<u32> = SlotList::new();
    list.insert(1);
    list.insert(2);
    list.remove(0);
    // Chain: 2 -> 0.
    assert_eq!(list.replace(2, 9), None);
    assert_eq!(list.get(2), Some(&9));
    assert_eq!(list.get_first_empty_slot(), Some(0));
    assert_eq!(list.get_last_empty_slot(), Some(0));
    // Chain: 0 alone; claiming it stages a fresh spare at 3.
    assert_eq!(list.replace(0, 8), None);
    assert_eq!(list.get_first_empty_slot(), Some(3));
    assert_eq!(list.get_last_empty_slot(), Some(3));
    assert_eq!(list.insert(7), 3);
    assert_eq!(list.insert(6), 4);
}

#[test]
fn replacing_a_middle_member_unlinks_it() {
    let mut list: SlotList<u32> = SlotList::new();
    for v in 0..3u32 {
        list.insert(v);
    }
    list.remove(0);
    list.remove(1);
    // Chain: 3 -> 0 -> 1.
    assert_eq!(list.replace(0, 50), None);
    assert!(matches!(list.get_raw_slot(3), Some(Slot::Empty(Some(1)))));
    assert_eq!(list.get_last_empty_slot(), Some(1));
    assert_eq!(list.insert(60), 3);
    assert_eq!(list.insert(61), 1);
}

#[test]
fn get_mut_changes_the_value_in_place() {
    let mut list: SlotList<u32> = SlotList::new();
    let i = list.insert(3);
    if let Some(v) = list.get_mut(i) {
        *v += 4;
    }
    assert_eq!(list.get(i), Some(&7));
    assert!(list.get_mut(1).is_none());
    assert!(list.get_mut(9).is_none());
}

#[test]
fn bootstrap_appends_two_cells() {
    let mut list: SlotList<u32> = SlotList::new();
    assert!(list.get_raw_slot(0).is_none());
    assert_eq!(list.insert(1), 0);
    assert!(matches!(list.get_raw_slot(1), Some(Slot::Empty(None))));
    assert!(list.get_raw_slot(2).is_none());
}

#[test]
fn slot_operations() {
    let mut s: Slot<u32> = Slot::default();
    assert!(!s.is_occupied());
    assert!(s.as_option_of_ref().is_none());
    s.set_next_empty(4);
    assert!(matches!(s, Slot::Empty(Some(4))));
    let prev = s.replace(9);
    assert!(matches!(prev, Slot::Empty(Some(4))));
    assert!(s.is_occupied());
    assert_eq!(s.as_option_of_ref(), Some(&9));
    if let Some(v) = s.as_mut() {
        *v = 10;
    }
    let taken = s.take();
    assert_eq!(taken.occupied(), Some(10));
    assert!(matches!(s, Slot::Empty(None)));
    assert_eq!(s.occupied(), None);
}

#[test]
fn raw_slots_render_values_and_empty_markers() {
    let mut list: SlotList<u32> = SlotList::new();
    list.insert(5);
    list.insert(6);
    list.remove(0);
    assert_eq!(
        format!("{:?}", list.raw_slots()),
        "[Empty(None), Occupied(6), Empty(Some(0))]"
    );
}

#[test]
fn clone_copies_values_and_chain() {
    let mut list: SlotList<String> = SlotList::new();
    list.insert("x".to_string());
    list.insert("y".to_string());
    list.remove(0);
    let mut copy = list.clone();
    assert_eq!(copy.get(1), Some(&"y".to_string()));
    assert_eq!(copy.get_first_empty_slot(), list.get_first_empty_slot());
    assert_eq!(copy.get_last_empty_slot(), list.get_last_empty_slot());
    assert_eq!(copy.insert("z".to_string()), 2);
    assert_eq!(list.get(2), None);
}
