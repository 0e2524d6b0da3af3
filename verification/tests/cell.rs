use scc::block::EntryBlock;
use scc::cell::{Cell, SlotHandle, ARRAY_SIZE, LINK_SIZE};

fn filled(n: u64) -> Cell<u64, u64> {
    let mut cell = Cell::new();
    for key in 0..n {
        cell.insert(key, key as u16, key * 10);
    }
    cell
}

#[test]
fn block_put_search_take() {
    let mut block: EntryBlock<u64, u64> = EntryBlock::new(4);
    assert_eq!(block.num_slots(), 4);
    assert!(block.is_empty());
    assert_eq!(block.first_free(), Some(0));
    block.put(0, 7, 100, 1);
    block.put(2, 7, 200, 2);
    assert_eq!(block.num_entries(), 2);
    assert_eq!(block.first_free(), Some(1));
    assert_eq!(block.search(&200, 7), Some(2));
    assert_eq!(block.search(&200, 8), None);
    assert_eq!(block.search(&300, 7), None);
    assert_eq!(block.next_occupied(1), Some(2));
    assert_eq!(block.next_occupied(3), None);
    assert_eq!(block.get(2), (&200, &2));
    assert_eq!(block.replace_value(2, 5), 2);
    assert_eq!(block.take(2), (200, 5));
    assert_eq!(block.num_entries(), 1);
    block.put(1, 0, 1, 1);
    block.put(2, 0, 2, 2);
    block.put(3, 0, 3, 3);
    assert!(block.is_full());
    assert_eq!(block.first_free(), None);
}

#[test]
fn cell_fills_primary_slots_first() {
    let cell = filled(ARRAY_SIZE as u64);
    assert!(cell.full());
    assert!(!cell.empty());
    assert_eq!(cell.size(), (16, 0));
    for key in 0..16u64 {
        let found = cell.search(&key, key as u16).unwrap();
        assert!(found.link.is_none());
        assert_eq!(found.index, key as usize);
        assert_eq!(cell.get(found), (&key, &(key * 10)));
    }
}

#[test]
fn cell_overflows_into_links_of_four() {
    let cell = filled(16 + 9);
    assert_eq!(cell.size(), (16, 9));
    let in_first_link = cell.search(&16, 16).unwrap();
    assert_eq!(in_first_link.link, Some(0));
    assert_eq!(in_first_link.index, 0);
    let fourth = cell.search(&19, 19).unwrap();
    assert_eq!((fourth.link, fourth.index), (Some(0), 3));
    let fifth = cell.search(&20, 20).unwrap();
    assert_eq!((fifth.link, fifth.index), (Some(1), 0));
    let ninth = cell.search(&24, 24).unwrap();
    assert_eq!((ninth.link, ninth.index), (Some(2), 0));
    assert_eq!(LINK_SIZE, 4);
}

#[test]
fn cell_search_compares_tags() {
    let cell = filled(20);
    assert!(cell.search(&3, 3).is_some());
    assert!(cell.search(&3, 4).is_none());
    assert!(cell.search(&18, 18).is_some());
    assert!(cell.search(&18, 0).is_none());
    assert!(cell.search(&99, 99).is_none());
}

#[test]
fn cell_traversal_goes_from_primary_to_the_head_of_the_chain() {
    let cell = filled(16 + 6);
    let mut keys = Vec::new();
    let mut at = cell.first();
    while let Some(handle) = at {
        keys.push(*cell.get(handle).0);
        at = cell.next(handle);
    }
    let mut expected: Vec<u64> = (0..16).collect();
    expected.extend([20, 21, 16, 17, 18, 19]);
    assert_eq!(keys, expected);
}

#[test]
fn cell_insert_uses_the_first_link_with_room_from_the_head() {
    let mut cell = filled(16 + 8);
    let handle = cell.search(&17, 17).unwrap();
    assert_eq!(cell.remove(handle), (17, 170));
    let placed = cell.insert(100, 1, 1);
    assert_eq!((placed.link, placed.index), (Some(0), 1));
    let handle = cell.search(&22, 22).unwrap();
    cell.remove(handle);
    let handle = cell.search(&100, 1).unwrap();
    cell.remove(handle);
    let placed = cell.insert(101, 1, 1);
    assert_eq!((placed.link, placed.index), (Some(1), 2));
}

#[test]
fn cell_remove_unlinks_an_empty_link() {
    let mut cell = filled(16 + 8);
    for key in 16..20u64 {
        let handle = cell.search(&key, key as u16).unwrap();
        assert_eq!(handle.link, Some(0));
        assert_eq!(cell.remove(handle), (key, key * 10));
    }
    assert_eq!(cell.size(), (16, 4));
    let moved = cell.search(&20, 20).unwrap();
    assert_eq!((moved.link, moved.index), (Some(0), 0));
    for key in 20..24u64 {
        let handle = cell.search(&key, key as u16).unwrap();
        cell.remove(handle);
    }
    assert_eq!(cell.size(), (16, 0));
    let placed = cell.insert(50, 5, 5);
    assert_eq!((placed.link, placed.index), (Some(0), 0));
}

#[test]
fn cell_remove_keeps_the_handles_of_later_slots() {
    let mut cell = filled(16 + 5);
    let head = cell.search(&20, 20).unwrap();
    assert_eq!(head.link, Some(1));
    let following = cell.next(head).unwrap();
    assert_eq!(cell.get(following), (&16, &160));
    cell.remove(head);
    assert_eq!(cell.get(following), (&16, &160));
    assert_eq!(cell.next(SlotHandle { link: None, index: 15 }), Some(following));
}

#[test]
fn cell_primary_slot_is_reused() {
    let mut cell = filled(16 + 1);
    let handle = cell.search(&5, 5).unwrap();
    cell.remove(handle);
    assert!(!cell.full());
    let placed = cell.insert(99, 9, 9);
    assert_eq!((placed.link, placed.index), (None, 5));
    assert!(cell.full());
}

#[test]
fn cell_replace_value_hands_the_earlier_value_back() {
    let mut cell = filled(18);
    let handle = cell.search(&17, 17).unwrap();
    assert_eq!(cell.replace_value(handle, 7), 170);
    assert_eq!(cell.get(handle), (&17, &7));
    let handle = cell.search(&2, 2).unwrap();
    assert_eq!(cell.replace_value(handle, 8), 20);
    assert_eq!(cell.get(handle), (&2, &8));
}

#[test]
fn cell_kill_marks_an_empty_cell() {
    let mut cell = filled(3);
    assert!(!cell.killed());
    while let Some(handle) = cell.first() {
        cell.remove(handle);
    }
    assert!(cell.empty());
    cell.kill();
    assert!(cell.killed());
    assert!(cell.empty());
    assert_eq!(cell.size(), (0, 0));
}
