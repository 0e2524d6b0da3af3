use scc::array::Array;
use scc::hash::hash_key;

fn identity(key: &u64) -> u64 {
    *key
}

fn put(array: &mut Array<u64, u64>, key: u64, value: u64) {
    let (hash, tag) = hash_key(&identity, &key);
    let index = array.calculate_cell_index(hash);
    array.insert(&identity, index, key, tag, value);
}

fn find(array: &Array<u64, u64>, key: u64) -> Option<u64> {
    let (hash, tag) = hash_key(&identity, &key);
    let cell = array.cell(array.calculate_cell_index(hash));
    cell.search(&key, tag).map(|handle| *cell.get(handle).1)
}

#[test]
fn array_capacity_is_a_power_of_two_of_at_least_256() {
    let array: Array<u64, u64> = Array::new(0, None);
    assert_eq!(array.get_capacity(), 256);
    assert_eq!(array.get_num_cells(), 16);
    let array: Array<u64, u64> = Array::new(300, None);
    assert_eq!(array.get_capacity(), 512);
    assert_eq!(array.get_num_cells(), 32);
    let array: Array<u64, u64> = Array::new(4096, None);
    assert_eq!(array.get_capacity(), 4096);
    assert!(!array.has_old_array());
    assert!(array.old_array().is_none());
}

#[test]
fn array_files_a_hash_by_its_highest_bits() {
    let array: Array<u64, u64> = Array::new(256, None);
    assert_eq!(array.calculate_cell_index(0), 0);
    assert_eq!(array.calculate_cell_index(u64::MAX), 15);
    assert_eq!(array.calculate_cell_index(0x9000_0000_0000_0000), 9);
    let array: Array<u64, u64> = Array::new(1024, None);
    assert_eq!(array.calculate_cell_index(u64::MAX), 63);
    assert_eq!(array.calculate_cell_index(0x9000_0000_0000_0000), 36);
}

#[test]
fn array_insert_erase_replace() {
    let mut array: Array<u64, u64> = Array::new(256, None);
    for key in 0..100u64 {
        put(&mut array, key, key + 1);
    }
    for key in 0..100u64 {
        assert_eq!(find(&array, key), Some(key + 1));
    }
    let (hash, tag) = hash_key(&identity, &7);
    let index = array.calculate_cell_index(hash);
    let handle = array.cell(index).search(&7, tag).unwrap();
    assert_eq!(array.replace_value(&identity, false, index, handle, 70), 8);
    assert_eq!(find(&array, 7), Some(70));
    *array.get_mut(&identity, false, index, handle).1 = 71;
    assert_eq!(find(&array, 7), Some(71));
    assert_eq!(array.erase(&identity, false, index, handle), (7, 71));
    assert_eq!(find(&array, 7), None);
    assert_eq!(find(&array, 8), Some(9));
}

#[test]
fn partial_rehash_drains_the_old_array_stride_by_stride() {
    let mut old: Array<u64, u64> = Array::new(256, None);
    for key in 0..200u64 {
        put(&mut old, key, key * 2);
    }
    // 16 cells go over into 64: the stride is 16 / 4 = 4 cells
    let mut array: Array<u64, u64> = Array::new(1024, Some(Box::new(old)));
    assert!(array.has_old_array());
    for step in 1..=3usize {
        assert!(!array.partial_rehash(&identity));
        let old = array.old_array().unwrap();
        for index in 0..16usize {
            assert_eq!(old.cell(index).killed(), index < 4 * step);
            assert!(!old.cell(index).killed() || old.cell(index).empty());
        }
    }
    assert!(array.partial_rehash(&identity));
    assert!(!array.has_old_array());
    for key in 0..200u64 {
        assert_eq!(find(&array, key), Some(key * 2));
    }
}

#[test]
fn partial_rehash_takes_16_cells_when_shrinking() {
    let mut old: Array<u64, u64> = Array::new(1024, None);
    for key in 0..100u64 {
        put(&mut old, key, key);
    }
    let mut array: Array<u64, u64> = Array::new(256, Some(Box::new(old)));
    for step in 1..=3usize {
        assert!(!array.partial_rehash(&identity));
        let old = array.old_array().unwrap();
        for index in 0..64usize {
            assert_eq!(old.cell(index).killed(), index < 16 * step);
        }
    }
    assert!(array.partial_rehash(&identity));
    for key in 0..100u64 {
        assert_eq!(find(&array, key), Some(key));
    }
}

#[test]
fn kill_cell_moves_the_entries_of_one_cell() {
    let mut old: Array<u64, u64> = Array::new(256, None);
    for key in 0..300u64 {
        put(&mut old, key, key);
    }
    let in_cell_5 = old.cell(5).size();
    assert!(in_cell_5.0 > 0);
    let mut array: Array<u64, u64> = Array::new(512, Some(Box::new(old)));
    array.kill_cell(5, &identity);
    let old = array.old_array().unwrap();
    assert!(old.cell(5).killed());
    assert!(old.cell(5).empty());
    assert!(!old.cell(4).killed());
    // the cell 5 of 16 lies over the cells 10 and 11 of 32
    let moved = array.cell(10).size().0 + array.cell(10).size().1 + array.cell(11).size().0
        + array.cell(11).size().1;
    assert_eq!(moved, in_cell_5.0 + in_cell_5.1);
    for index in 0..32usize {
        if index != 10 && index != 11 {
            assert!(array.cell(index).empty());
        }
    }
}

#[test]
fn adopt_starts_a_migration() {
    let mut old: Array<u64, u64> = Array::new(256, None);
    put(&mut old, 1, 10);
    let mut array: Array<u64, u64> = Array::new(256, None);
    array.adopt(Box::new(old));
    assert!(array.has_old_array());
    assert_eq!(find(array.old_array().unwrap(), 1), Some(10));
    assert!(array.partial_rehash(&identity));
    assert_eq!(find(&array, 1), Some(10));
}
