use scc::capacity::cell_index;
use scc::hash::mix;
use scc::{HashMap, Statistics};
use std::collections::hash_map::RandomState;
use std::collections::BTreeSet;
use std::hash::BuildHasher;
use std::sync::atomic::AtomicUsize;
use std::sync::atomic::Ordering::Relaxed;
use std::sync::Arc;

fn identity(key: &u64) -> u64 {
    *key
}

/// The first `n` keys that an array of two to the power of `lb_cells` cells files in the
/// cell `cell`, under the hasher `identity`.
fn keys_of_cell(cell: usize, lb_cells: u32, n: usize) -> Vec<u64> {
    assert!(cell < 1 << lb_cells);
    let mut keys = Vec::new();
    let mut key = 0u64;
    while keys.len() < n {
        if cell_index(mix(key), lb_cells) == cell {
            keys.push(key);
        }
        key += 1;
    }
    keys
}

fn result_peek<H: Fn(&u64) -> u64>(hashmap: &mut HashMap<u64, u32, H>) -> u32 {
    let accessor = hashmap.get(1).unwrap();
    *accessor.peek(hashmap).1
}

#[test]
fn scanner_get_changes_values_in_place() {
    let mut hashmap: HashMap<u64, u64, _> = HashMap::new(identity, None);
    for key in 0..500u64 {
        assert!(hashmap.insert(key, key).is_ok());
    }
    let mut scanner = hashmap.iter();
    let mut scanned = 0;
    while scanner.next(&mut hashmap) {
        let (key, value) = scanner.get(&mut hashmap);
        assert_eq!(*key, *value);
        *value += 1;
        scanned += 1;
    }
    assert_eq!(scanned, 500);
    for key in 0..500u64 {
        assert_eq!(hashmap.read(key, |_, value| *value), Some(key + 1));
    }
}

#[test]
fn new_yields_the_default_capacity() {
    let state = RandomState::new();
    let mut hashmap: HashMap<u64, u32, _> = HashMap::new(move |key: &u64| state.hash_one(key), None);
    assert_eq!(hashmap.capacity(), 256);
    let mut hashmap: HashMap<u64, u32, _> = HashMap::new(identity, Some(10));
    assert_eq!(hashmap.capacity(), 256);
    let mut hashmap: HashMap<u64, u32, _> = HashMap::new(identity, Some(256));
    assert_eq!(hashmap.capacity(), 256);
}

#[test]
fn new_rounds_the_capacity_up() {
    let mut hashmap: HashMap<u64, u32, _> = HashMap::new(identity, Some(1000));
    assert_eq!(hashmap.capacity(), 1024);
    let mut hashmap: HashMap<u64, u32, _> = HashMap::new(identity, Some(257));
    assert_eq!(hashmap.capacity(), 512);
    let mut hashmap: HashMap<u64, u32, _> = HashMap::new(identity, Some(1_000_000));
    assert_eq!(hashmap.capacity(), 1_048_576);
}

#[test]
fn insert_rejects_a_key_that_is_there() {
    let state = RandomState::new();
    let mut hashmap: HashMap<u64, u32, _> = HashMap::new(move |key: &u64| state.hash_one(key), None);
    let result = hashmap.insert(1, 0);
    assert!(result.is_ok());
    if let Ok(result) = result {
        assert_eq!(result.get(&mut hashmap), (&1, &mut 0));
    }
    let result = hashmap.insert(1, 1);
    assert!(result.is_err());
    if let Err((result, value)) = result {
        assert_eq!(result.get(&mut hashmap), (&1, &mut 0));
        assert_eq!(value, 1);
    }
    assert_eq!(hashmap.get(1).unwrap().get(&mut hashmap), (&1, &mut 0));
}

#[test]
fn upsert_overwrites() {
    let mut hashmap: HashMap<u64, u32, _> = HashMap::new(identity, None);
    let result = hashmap.insert(1, 0);
    if let Ok(result) = result {
        assert_eq!(result.peek(&hashmap), (&1, &0));
    }
    let result = hashmap.upsert(1, 1);
    assert_eq!(result.peek(&hashmap), (&1, &1));
    assert_eq!(hashmap.get(1).unwrap().peek(&hashmap), (&1, &1));
    let result = hashmap.upsert(2, 5);
    assert_eq!(result.peek(&hashmap), (&2, &5));
}

#[test]
fn upsert_twice_keeps_the_second_value() {
    let mut hashmap: HashMap<u64, u32, _> = HashMap::new(identity, None);
    hashmap.upsert(7, 1);
    hashmap.upsert(7, 2);
    assert_eq!(hashmap.get(7).unwrap().peek(&hashmap), (&7, &2));
    assert_eq!(hashmap.statistics().num_entries(), 1);
}

#[test]
fn get_finds_nothing_in_an_empty_map() {
    let mut hashmap: HashMap<u64, u32, _> = HashMap::new(identity, None);
    assert!(hashmap.get(1).is_none());
    assert!(hashmap.insert(1, 0).is_ok());
    assert_eq!(hashmap.get(1).unwrap().peek(&hashmap), (&1, &0));
    assert!(hashmap.get(2).is_none());
}

#[test]
fn remove_says_whether_there_was_an_entry() {
    let mut hashmap: HashMap<u64, u32, _> = HashMap::new(identity, None);
    assert!(!hashmap.remove(1));
    assert!(hashmap.insert(1, 0).is_ok());
    assert!(hashmap.remove(1));
    assert!(hashmap.get(1).is_none());
    assert!(!hashmap.remove(1));
}

#[test]
fn read_calls_the_function_on_the_entry() {
    let mut hashmap: HashMap<u64, u32, _> = HashMap::new(identity, None);
    assert!(hashmap.insert(1, 0).is_ok());
    assert_eq!(hashmap.read(1, |_key, value| *value), Some(0));
    assert_eq!(hashmap.read(1, |key, value| *key + *value as u64 + 10), Some(11));
    assert_eq!(hashmap.read(2, |_key, value| *value), None);
}

#[test]
fn retain_counts_kept_and_removed() {
    let mut hashmap: HashMap<u64, u32, _> = HashMap::new(identity, None);
    assert!(hashmap.insert(1, 0).is_ok());
    assert!(hashmap.insert(2, 0).is_ok());
    let result = hashmap.retain(|key, value| *key == 1 && *value == 0);
    assert_eq!(result, (1, 1));
    assert_eq!(hashmap.get(1).unwrap().peek(&hashmap), (&1, &0));
    assert!(hashmap.get(2).is_none());
}

#[test]
fn retain_all_and_retain_none() {
    let mut hashmap: HashMap<u64, u64, _> = HashMap::new(identity, None);
    for key in 0..1000u64 {
        assert!(hashmap.insert(key, key).is_ok());
    }
    while hashmap.statistics().capacity() != hashmap.statistics().effective_capacity() {
        hashmap.capacity();
    }
    let capacity = hashmap.capacity();
    assert_eq!(hashmap.retain(|_, _| true), (1000, 0));
    assert_eq!(hashmap.capacity(), capacity);
    assert_eq!(hashmap.statistics().num_entries(), 1000);
    for key in 0..1000u64 {
        assert_eq!(hashmap.read(key, |_, value| *value), Some(key));
    }
    assert_eq!(hashmap.retain(|_, _| false), (0, 1000));
    for key in 0..1000u64 {
        assert!(hashmap.get(key).is_none());
    }
    assert_eq!(hashmap.statistics().num_entries(), 0);
}

#[test]
fn clear_returns_the_number_of_entries() {
    let mut hashmap: HashMap<u64, u32, _> = HashMap::new(identity, None);
    assert!(hashmap.insert(1, 0).is_ok());
    assert!(hashmap.insert(2, 0).is_ok());
    assert_eq!(hashmap.clear(), 2);
    assert!(hashmap.get(1).is_none());
    assert!(hashmap.get(2).is_none());
    assert_eq!(hashmap.clear(), 0);
}

#[test]
fn clear_releases_the_overflow_links() {
    let mut hashmap: HashMap<u64, u64, _> = HashMap::new(identity, None);
    for key in keys_of_cell(2, 4, 40) {
        assert!(hashmap.insert(key, key).is_ok());
    }
    let statistics = hashmap.statistics();
    assert!(statistics.num_linked_entries() > 0);
    assert!(statistics.num_cells_having_link() > 0);
    hashmap.clear();
    let statistics = hashmap.statistics();
    assert_eq!(statistics.num_entries(), 0);
    assert_eq!(statistics.num_linked_entries(), 0);
    assert_eq!(statistics.num_cells_having_link(), 0);
    assert_eq!(statistics.max_link_length(), 0);
}

#[test]
fn len_scales_the_sample() {
    let mut hashmap: HashMap<u64, u32, _> = HashMap::new(identity, None);
    assert!(hashmap.insert(1, 0).is_ok());
    assert_eq!(hashmap.len(|capacity| capacity), 1);
    let result = hashmap.len(|capacity| capacity / 2);
    assert!(result == 0 || result == 2);
}

#[test]
fn len_counts_the_first_cells_and_multiplies() {
    let mut hashmap: HashMap<u64, u64, _> = HashMap::new(identity, None);
    for key in keys_of_cell(0, 4, 3) {
        assert!(hashmap.insert(key, 0).is_ok());
    }
    for key in keys_of_cell(1, 4, 5) {
        assert!(hashmap.insert(key, 0).is_ok());
    }
    for key in keys_of_cell(9, 4, 2) {
        assert!(hashmap.insert(key, 0).is_ok());
    }
    assert_eq!(hashmap.len(|_| 0), 3 * 16);
    assert_eq!(hashmap.len(|_| 16), 3 * 16);
    assert_eq!(hashmap.len(|_| 17), (3 + 5) * 8);
    assert_eq!(hashmap.len(|_| 32), (3 + 5) * 8);
    assert_eq!(hashmap.len(|_| 64), (3 + 5) * 4);
    assert_eq!(hashmap.len(|capacity| capacity), 10);
    assert_eq!(hashmap.len(|_| usize::MAX), 10);
}

#[test]
fn statistics_of_an_empty_map() {
    let hashmap: HashMap<u64, u32, _> = HashMap::new(identity, None);
    let statistics = hashmap.statistics();
    assert_eq!(statistics.capacity(), 256);
    assert_eq!(statistics.effective_capacity(), 256);
    assert_eq!(statistics.num_cells(), 16);
    assert_eq!(statistics.num_empty_cells(), 16);
    assert_eq!(statistics.max_consecutive_empty_cells(), 16);
    assert_eq!(statistics.num_entries(), 0);
}

#[test]
fn one_insert_into_a_fresh_map_keeps_the_capacity() {
    let mut hashmap: HashMap<u64, u32, _> = HashMap::new(identity, None);
    assert!(hashmap.insert(1, 0).is_ok());
    let statistics = hashmap.statistics();
    assert_eq!(statistics.capacity(), 256);
    assert_eq!(statistics.effective_capacity(), 256);
    assert_eq!(statistics.num_entries(), 1);
    assert_eq!(statistics.num_empty_cells(), 15);
    assert_eq!(statistics.num_linked_entries(), 0);
    assert!(hashmap.remove(1));
    let statistics = hashmap.statistics();
    assert_eq!(statistics.num_entries(), 0);
    assert_eq!(statistics.max_consecutive_empty_cells(), 16);
}

#[test]
fn statistics_of_a_fresh_map() {
    let mut hashmap: HashMap<u64, u32, _> = HashMap::new(identity, Some(1000));
    assert!(hashmap.insert(1, 0).is_ok());
    let statistics: Statistics = hashmap.statistics();
    assert_eq!(statistics.num_entries(), 1);
    assert_eq!(statistics.capacity(), 1024);
    assert_eq!(statistics.effective_capacity(), 1024);
    assert_eq!(statistics.num_cells(), 64);
    assert_eq!(statistics.num_empty_cells(), 63);
    // the key 1 belongs to the cell 3: the cells 4 to 63 are the longest run
    assert_eq!(statistics.max_consecutive_empty_cells(), 60);
    assert_eq!(statistics.num_killed_entries(), 0);
    assert_eq!(statistics.num_linked_entries(), 0);
    assert_eq!(statistics.num_cells_having_link(), 0);
    assert_eq!(statistics.max_link_length(), 0);
}

#[test]
fn statistics_counts_runs_of_empty_cells() {
    let mut hashmap: HashMap<u64, u64, _> = HashMap::new(identity, None);
    for cell in [2usize, 3, 9] {
        for key in keys_of_cell(cell, 4, 1) {
            assert!(hashmap.insert(key, 0).is_ok());
        }
    }
    let statistics = hashmap.statistics();
    assert_eq!(statistics.num_cells(), 16);
    assert_eq!(statistics.num_entries(), 3);
    assert_eq!(statistics.num_empty_cells(), 13);
    // the cells 0 and 1, then 4 to 8, then 10 to 15
    assert_eq!(statistics.max_consecutive_empty_cells(), 6);
}

#[test]
fn statistics_counts_linked_entries() {
    let mut hashmap: HashMap<u64, u64, _> = HashMap::new(identity, None);
    for key in keys_of_cell(4, 4, 16 + 7) {
        assert!(hashmap.insert(key, 0).is_ok());
    }
    for key in keys_of_cell(11, 4, 16 + 2) {
        assert!(hashmap.insert(key, 0).is_ok());
    }
    let statistics = hashmap.statistics();
    assert_eq!(statistics.num_entries(), 41);
    assert_eq!(statistics.num_linked_entries(), 9);
    assert_eq!(statistics.num_cells_having_link(), 2);
    assert_eq!(statistics.max_link_length(), 7);
    assert_eq!(statistics.num_empty_cells(), 14);
}

#[test]
fn statistics_text_names_the_figures() {
    let mut hashmap: HashMap<u64, u32, _> = HashMap::new(identity, Some(1000));
    assert!(hashmap.insert(1, 0).is_ok());
    assert_eq!(
        hashmap.statistics().describe(),
        "capacity: 1024, effective_capacity: 1024, cells: 64, killed_entries: 0, empty_cells: 63, max_consecutive_empty_cells: 60, entries: 1, linked_entries: 0, cells_having_link: 0, max_link_length: 0"
    );
}

#[test]
fn iter_produces_each_entry_once() {
    let mut hashmap: HashMap<u64, u32, _> = HashMap::new(identity, None);
    assert!(hashmap.insert(1, 0).is_ok());
    let mut scanner = hashmap.iter();
    assert!(scanner.next(&mut hashmap));
    assert_eq!(scanner.peek(&hashmap), (&1, &0));
    assert!(!scanner.next(&mut hashmap));
    assert!(!scanner.next(&mut hashmap));
    let mut empty: HashMap<u64, u32, _> = HashMap::new(identity, None);
    let mut scanner = empty.iter();
    assert!(!scanner.next(&mut empty));
}

#[test]
fn iter_covers_primary_slots_and_overflow_chains() {
    let mut hashmap: HashMap<u64, u64, _> = HashMap::new(identity, None);
    let mut expected = BTreeSet::new();
    for cell in [0usize, 5, 15] {
        for key in keys_of_cell(cell, 4, 30) {
            assert!(hashmap.insert(key, key + 1).is_ok());
            expected.insert(key);
        }
    }
    let mut seen = BTreeSet::new();
    let mut scanner = hashmap.iter();
    while scanner.next(&mut hashmap) {
        let (key, value) = scanner.peek(&hashmap);
        assert_eq!(*value, *key + 1);
        assert!(seen.insert(*key));
    }
    assert_eq!(seen, expected);
}

#[test]
fn accessor_get_and_erase() {
    let mut hashmap: HashMap<u64, u32, _> = HashMap::new(identity, None);
    assert!(hashmap.get(1).is_none());
    let result = hashmap.insert(1, 0);
    if let Ok(result) = result {
        assert_eq!(result.get(&mut hashmap), (&1, &mut 0));
        (*result.get(&mut hashmap).1) = 2;
    }
    let result = hashmap.get(1);
    assert_eq!(result.unwrap().get(&mut hashmap), (&1, &mut 2));
    assert_eq!(result_peek(&mut hashmap), 2);
    let result = hashmap.insert(3, 0);
    if let Ok(result) = result {
        assert!(result.erase(&mut hashmap));
    }
    assert!(hashmap.get(3).is_none());
    assert_eq!(hashmap.get(1).unwrap().peek(&hashmap), (&1, &2));
}

#[test]
fn insert_into_a_full_cell_of_the_sampling_range_uses_the_chain() {
    let mut hashmap: HashMap<u64, u64, _> = HashMap::new(identity, None);
    let keys = keys_of_cell(3, 4, 40);
    for key in &keys {
        assert!(hashmap.insert(*key, *key).is_ok());
        assert_eq!(hashmap.capacity(), 256);
    }
    for key in &keys {
        assert_eq!(hashmap.read(*key, |_, value| *value), Some(*key));
    }
    let statistics = hashmap.statistics();
    assert_eq!(statistics.num_linked_entries(), 24);
    assert_eq!(statistics.max_link_length(), 24);
}

#[test]
fn capacity_grows_by_powers_of_two_and_by_64_at_most() {
    let state = RandomState::new();
    let mut hashmap: HashMap<u64, u64, _> = HashMap::new(move |key: &u64| state.hash_one(key), None);
    let mut capacity = hashmap.capacity();
    assert_eq!(capacity, 256);
    let mut steps = 0;
    for key in 0..(1u64 << 20) {
        assert!(hashmap.insert(key, key).is_ok());
        let now = hashmap.capacity();
        if now != capacity {
            assert!(now.is_power_of_two());
            assert!(now > capacity);
            assert!(now <= capacity * 64);
            capacity = now;
            steps += 1;
        }
    }
    assert!(steps >= 2);
    assert!(capacity >= 1 << 19);
    for key in (0..(1u64 << 20)).step_by(997) {
        assert_eq!(hashmap.read(key, |_, value| *value), Some(key));
    }
    assert_eq!(hashmap.statistics().num_entries(), 1 << 20);
}

#[test]
fn capacity_shrinks_towards_the_least_capacity() {
    let state = RandomState::new();
    let mut hashmap: HashMap<u64, u64, _> = HashMap::new(move |key: &u64| state.hash_one(key), None);
    let keys = 1u64 << 16;
    for key in 0..keys {
        assert!(hashmap.insert(key, key).is_ok());
    }
    let grown = hashmap.capacity();
    assert!(grown >= 1 << 15);
    for key in 0..keys {
        assert!(hashmap.remove(key));
        let now = hashmap.capacity();
        assert!(now >= 256);
        assert!(now.is_power_of_two());
    }
    assert!(hashmap.capacity() < grown);
    assert_eq!(hashmap.statistics().num_entries(), 0);
    for _ in 0..(1u64 << 16) {
        hashmap.capacity();
    }
    assert!(hashmap.insert(1, 1).is_ok());
    assert!(hashmap.remove(1));
}

#[test]
fn capacity_does_not_fall_under_the_least_capacity() {
    let mut hashmap: HashMap<u64, u64, _> = HashMap::new(identity, Some(1000));
    for key in 0..5000u64 {
        assert!(hashmap.insert(key, key).is_ok());
    }
    assert_eq!(hashmap.retain(|_, _| false), (0, 5000));
    for key in 0..5000u64 {
        hashmap.remove(key);
        assert!(hashmap.capacity() >= 1024);
    }
}

#[test]
fn entries_survive_the_migration() {
    let mut hashmap: HashMap<u64, u64, _> = HashMap::new(identity, None);
    for key in 0..20_000u64 {
        assert!(hashmap.insert(key, key * 3).is_ok());
        if key % 1024 == 0 {
            for earlier in (0..=key).step_by(7) {
                assert_eq!(hashmap.read(earlier, |_, value| *value), Some(earlier * 3));
            }
        }
    }
    for key in 0..20_000u64 {
        assert_eq!(hashmap.get(key).unwrap().peek(&hashmap), (&key, &(key * 3)));
    }
    assert!(hashmap.get(20_000).is_none());
    let mut seen = BTreeSet::new();
    let mut scanner = hashmap.iter();
    while scanner.next(&mut hashmap) {
        assert!(seen.insert(*scanner.peek(&hashmap).0));
    }
    assert_eq!(seen.len(), 20_000);
}

#[test]
fn statistics_sees_both_arrays_while_migrating() {
    let state = RandomState::new();
    let mut hashmap: HashMap<u64, u64, _> = HashMap::new(move |key: &u64| state.hash_one(key), None);
    let mut key = 0u64;
    loop {
        assert!(hashmap.insert(key, key).is_ok());
        key += 1;
        let statistics = hashmap.statistics();
        assert_eq!(statistics.num_entries() as u64, key);
        if statistics.capacity() != statistics.effective_capacity() {
            assert_eq!(statistics.capacity(), statistics.effective_capacity() + 256);
            assert_eq!(statistics.num_cells(), statistics.effective_capacity() / 16 + 16);
            break;
        }
        assert!(key < 1000);
    }
    let mut steps = 0;
    while hashmap.statistics().capacity() != hashmap.statistics().effective_capacity() {
        let killed = hashmap.statistics().num_killed_entries();
        hashmap.capacity();
        steps += 1;
        let statistics = hashmap.statistics();
        assert!(
            statistics.capacity() == statistics.effective_capacity()
                || statistics.num_killed_entries() > killed
        );
        assert_eq!(statistics.num_entries() as u64, key);
        assert!(steps <= 16);
    }
}

struct Data {
    data: u64,
    checker: Arc<AtomicUsize>,
}

impl Data {
    fn new(data: u64, checker: &Arc<AtomicUsize>) -> Data {
        checker.fetch_add(1, Relaxed);
        Data { data, checker: checker.clone() }
    }
}

impl Drop for Data {
    fn drop(&mut self) {
        self.checker.fetch_sub(1, Relaxed);
    }
}

impl PartialEq for Data {
    fn eq(&self, other: &Self) -> bool {
        self.data == other.data
    }
}

#[test]
fn clear_drops_every_entry() {
    let checker = Arc::new(AtomicUsize::new(0));
    let state = RandomState::new();
    let mut hashmap: HashMap<Data, Data, _> =
        HashMap::new(move |key: &Data| state.hash_one(key.data), Some(10));
    for d in 0..1024u64 {
        assert!(hashmap.insert(Data::new(d, &checker), Data::new(d, &checker)).is_ok());
        hashmap.upsert(Data::new(d, &checker), Data::new(d + 1, &checker));
    }
    assert_eq!(checker.load(Relaxed), 2048);
    assert_eq!(hashmap.clear(), 1024);
    assert_eq!(checker.load(Relaxed), 0);
}

#[test]
fn remove_and_erase_drop_the_entry() {
    let checker = Arc::new(AtomicUsize::new(0));
    let mut hashmap: HashMap<u64, Data, _> = HashMap::new(identity, None);
    for d in 0..100u64 {
        assert!(hashmap.insert(d, Data::new(d, &checker)).is_ok());
    }
    assert_eq!(checker.load(Relaxed), 100);
    for d in 0..50u64 {
        assert!(hashmap.remove(d));
    }
    assert_eq!(checker.load(Relaxed), 50);
    for d in 50..100u64 {
        assert!(hashmap.get(d).unwrap().erase(&mut hashmap));
    }
    assert_eq!(checker.load(Relaxed), 0);
    assert!(hashmap.insert(1, Data::new(1, &checker)).is_ok());
    drop(hashmap);
    assert_eq!(checker.load(Relaxed), 0);
}
