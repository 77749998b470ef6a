use slotlist::{Slot, SlotList};

#[test]
fn initialization() {
    let mut list: SlotList<u32> = SlotList::new();
    assert_eq!(list.insert(5), 0);
}

#[test]
fn inserting_items() {
    let mut list: SlotList<u32> = SlotList::with_capacity(3);
    assert_eq!(list.get(1), None);
    assert_eq!(list.insert(20), 0);
    assert_eq!(list.insert(30), 1);
    assert_eq!(list.insert(40), 2);
    assert_eq!(list.get(0), Some(&20));
    assert_eq!(list.get(1), Some(&30));
    assert_eq!(list.get(2), Some(&40));
    assert_eq!(list.get(3), None);
}

#[test]
fn grow_to_fit() {
    let mut list: SlotList<u32> = SlotList::new();
    assert_eq!(list.get(1), None);
    assert_eq!(list.insert(20), 0);
    assert_eq!(list.insert(30), 1);
    assert_eq!(list.insert(40), 2);
    assert_eq!(list.get(0), Some(&20));
    assert_eq!(list.get(1), Some(&30));
    assert_eq!(list.get(2), Some(&40));
    assert_eq!(list.get(3), None);
}

#[test]
fn removing_items() {
    let mut list: SlotList<u32> = SlotList::new();
    list.insert(55);
    list.insert(40);
    list.insert(60);
    assert_eq!(list.remove(1), Some(40));
    assert_eq!(list.get(1), None);
}

#[test]
fn replacing_emptied_items() {
    let mut list: SlotList<u32> = SlotList::new();
    list.insert(11);
    list.insert(22);
    list.insert(33);
    list.remove(0);
    list.remove(1);
    // The spare cell at the end of the list is the chain head.
    assert_eq!(list.insert(44), 3);
    // A new spare sits at 4, behind the freed cells 0 and 1.
    assert_eq!(list.insert(55), 0);
    assert_eq!(list.insert(66), 1);
    assert_eq!(list.insert(77), 4);
}

#[test]
fn replacing_empty_slot() {
    let mut list: SlotList<u32> = SlotList::new();
    list.insert(0);
    assert_eq!(list.get_first_empty_slot(), Some(1));
    assert_eq!(list.get_last_empty_slot(), Some(1));
    list.remove(0);
    assert_eq!(list.get_first_empty_slot(), Some(1));
    assert_eq!(list.get_last_empty_slot(), Some(0));
    // Replacing the tail of the chain relinks the chain and its pointers.
    assert_eq!(list.replace(0, 5), None);
    assert_eq!(list.get_first_empty_slot(), Some(1));
    assert_eq!(list.get_last_empty_slot(), Some(1));
    if let Slot::Empty(next) = list.get_raw_slot(1).unwrap() {
        assert!(next.is_none());
    } else {
        panic!("First slot was not empty");
    }
}

#[test]
fn replacing_existing_entries() {
    let mut list: SlotList<u32> = SlotList::new();
    list.insert(1);
    list.insert(3);
    list.insert(5);
    list.remove(1);
    assert_eq!(list.replace(0, 10), Some(1));
    assert_eq!(list.replace(1, 12), None);
}

#[test]
fn iterator() {
    let mut list: SlotList<u32> = SlotList::new();
    list.insert(1);
    list.insert(2);
    list.insert(1);
    list.insert(3);
    list.insert(1);

    list.remove(1);
    list.remove(3);
    let mut count = 0;
    for x in list.iter() {
        count += 1;
        assert_eq!(*x, 1);
    }
    assert_eq!(count, 3);
}

#[test]
fn maintain_size() {
    let mut list: SlotList<u32> = SlotList::with_capacity(4);
    for _ in 0..100 {
        let index = list.insert(10);
        list.remove(index);
    }
    assert_eq!(list.capacity(), 4);
}
