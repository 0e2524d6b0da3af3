use scc::metadata::{Metadata, KILLED, LOCK, OVERFLOW_LEN_MAX, WAITING};

#[test]
fn metadata_of_a_new_cell_is_zero() {
    let metadata = Metadata::new();
    assert_eq!(metadata.word, 0);
    assert!(!metadata.locked());
    assert!(!metadata.killed());
    assert!(!metadata.waiting());
    assert_eq!(metadata.num_entries(), 0);
    assert_eq!(metadata.num_linked_entries(), 0);
}

#[test]
fn try_lock_sets_the_lock_bit_once() {
    let locked = Metadata::new().try_lock().unwrap();
    assert_eq!(locked.word, LOCK);
    assert!(locked.locked());
    assert!(locked.try_lock().is_none());
    let busy = Metadata { word: 0x0000_0585 };
    assert!(busy.try_lock().is_none());
    let free = Metadata { word: 0x0000_0584 };
    assert_eq!(free.try_lock(), Some(Metadata { word: 0x0000_0585 }));
}

#[test]
fn unlock_clears_lock_and_waiting_and_tells_to_wake() {
    let locked = Metadata::new().try_lock().unwrap();
    assert_eq!(locked.unlock(), (Metadata::new(), false));
    let waited = locked.set_waiting();
    assert_eq!(waited.word, LOCK | WAITING);
    assert!(waited.waiting());
    assert_eq!(waited.unlock(), (Metadata::new(), true));
    let full = Metadata { word: 0xffff_ffff };
    assert_eq!(full.unlock(), (Metadata { word: 0xffff_fffa }, true));
}

#[test]
fn kill_sets_the_mark_only() {
    let killed = Metadata::new().kill();
    assert_eq!(killed.word, KILLED);
    assert!(killed.killed());
    assert!(!killed.locked());
    let killed = Metadata { word: 0x0001_2381 }.kill();
    assert_eq!(killed.word, 0x0001_2383);
}

#[test]
fn counts_sit_in_their_bits() {
    let metadata = Metadata::new().with_occupancy(16).with_overflow_len(5);
    assert_eq!(metadata.word, (16 << 3) | (5 << 8));
    assert_eq!(metadata.num_entries(), 16);
    assert_eq!(metadata.num_linked_entries(), 5);
    let metadata = metadata.with_occupancy(3);
    assert_eq!(metadata.word, (3 << 3) | (5 << 8));
    let metadata = metadata.kill().with_overflow_len(0).with_occupancy(0);
    assert_eq!(metadata.word, KILLED);
    let metadata = Metadata { word: 7 }.with_occupancy(31).with_overflow_len(1);
    assert_eq!(metadata.word, 7 | (31 << 3) | (1 << 8));
}

#[test]
fn overflow_len_stays_at_the_largest_number() {
    let limit = OVERFLOW_LEN_MAX as usize;
    assert_eq!(Metadata::new().with_overflow_len(limit - 1).num_linked_entries(), limit - 1);
    assert_eq!(Metadata::new().with_overflow_len(limit).num_linked_entries(), limit);
    assert_eq!(Metadata::new().with_overflow_len(limit + 1).num_linked_entries(), limit);
    assert_eq!(Metadata::new().with_overflow_len(usize::MAX).num_linked_entries(), limit);
    assert_eq!(Metadata::new().with_overflow_len(usize::MAX).word, 0xffff_ff00);
}
