use scc::HashMap;
use std::collections::hash_map::RandomState;
use std::collections::BTreeSet;
use std::hash::BuildHasher;
use std::sync::atomic::AtomicUsize;
use std::sync::atomic::Ordering::Relaxed;
use std::sync::Arc;

fn basic_hashmap_with(key: u64) {
    let state = RandomState::new();
    let mut hashmap: HashMap<u64, u32, _> =
        HashMap::new(move |key: &u64| state.hash_one(key), Some(10));
    assert!(!hashmap.iter().next(&mut hashmap));

    let result1 = hashmap.insert(key, 0);
    assert!(result1.is_ok());
    if let Ok(result) = result1 {
        assert_eq!(result.get(&mut hashmap), (&key, &mut 0));
    }

    let result2 = hashmap.insert(key, 0);
    assert!(result2.is_err());
    if let Err((result, _)) = result2 {
        assert_eq!(result.get(&mut hashmap), (&key, &mut 0));
    }

    let result3 = hashmap.upsert(key, 1);
    assert_eq!(result3.get(&mut hashmap), (&key, &mut 1));
    drop(result3);

    let result4 = hashmap.insert(key, 10);
    assert!(result4.is_err());
    if let Err((result, _)) = result4 {
        assert_eq!(result.get(&mut hashmap), (&key, &mut 1));
        *result.get(&mut hashmap).1 = 2;
    }

    let mut result5 = hashmap.iter();
    assert!(result5.next(&mut hashmap));
    assert_eq!(result5.get(&mut hashmap), (&key, &mut 2));
    assert!(!result5.next(&mut hashmap));

    let mut iter = hashmap.iter();
    while iter.next(&mut hashmap) {
        let entry = iter.get(&mut hashmap);
        assert_eq!(entry, (&key, &mut 2));
        *entry.1 = 3;
    }

    let result6 = hashmap.get(key);
    assert_eq!(result6.unwrap().get(&mut hashmap), (&key, &mut 3));

    let result7 = hashmap.get(key + 1);
    assert!(result7.is_none());

    let result8 = hashmap.remove(key);
    assert_eq!(result8, true);

    let result9 = hashmap.insert(key + 2, 10);
    assert!(result9.is_ok());
    if let Ok(result) = result9 {
        assert_eq!(result.get(&mut hashmap), (&(key + 2), &mut 10));
        result.erase(&mut hashmap);
    }

    let result10 = hashmap.get(key + 2);
    assert!(result10.is_none());
}

#[test]
fn basic_hashmap() {
    for key in 0..10u64 {
        basic_hashmap_with(key);
    }
}

#[test]
fn basic_scanner() {
    for _ in 0..4 {
        let state = RandomState::new();
        let mut hashmap: HashMap<u64, u64, _> =
            HashMap::new(move |key: &u64| state.hash_one(key), None);
        for i in 0..16384u64 {
            assert!(hashmap.insert(i, i).is_ok());
            if i % 1024 == 1023 {
                let max = i;
                let mut scanned = 0;
                let mut checker = BTreeSet::new();
                let mut scanner = hashmap.iter();
                while scanner.next(&mut hashmap) {
                    scanned += 1;
                    checker.insert(*scanner.peek(&hashmap).0);
                }
                println!("scanned: {}, max: {}", scanned, max);
                assert_eq!(scanned, max + 1);
                for key in 0..max {
                    assert!(checker.contains(&key));
                }
            }
        }
    }
}

struct Data {
    data: u64,
    checker: Arc<AtomicUsize>,
}

impl Data {
    fn new(data: u64, checker: &Arc<AtomicUsize>) -> Data {
        checker.fetch_add(1, Relaxed);
        Data { data, checker: checker.clone() }
    }
}

impl Drop for Data {
    fn drop(&mut self) {
        self.checker.fetch_sub(1, Relaxed);
    }
}

impl PartialEq for Data {
    fn eq(&self, other: &Self) -> bool {
        self.data == other.data
    }
}

fn insert_with(key: u64) {
    let range = 1024;
    let checker = Arc::new(AtomicUsize::new(0));
    let state = RandomState::new();
    let mut hashmap: HashMap<Data, Data, _> =
        HashMap::new(move |key: &Data| state.hash_one(key.data), Some(10));
    for d in key..(key + range) {
        let result = hashmap.insert(Data::new(d, &checker), Data::new(d, &checker));
        assert!(result.is_ok());
        drop(result);
        let result = hashmap.upsert(Data::new(d, &checker), Data::new(d + 1, &checker));
        (*result.get(&mut hashmap).1) = Data::new(d + 2, &checker);
    }
    let statistics = hashmap.statistics();
    println!("{}", statistics.describe());

    for d in (key + range)..(key + range + range) {
        let result = hashmap.insert(Data::new(d, &checker), Data::new(d, &checker));
        assert!(result.is_ok());
        drop(result);
        let result = hashmap.upsert(Data::new(d, &checker), Data::new(d + 1, &checker));
        (*result.get(&mut hashmap).1) = Data::new(d + 2, &checker);
    }
    let statistics = hashmap.statistics();
    println!("before retain: {}", statistics.describe());

    let result = hashmap.retain(|k, _| k.data < key + range);
    assert_eq!(result, (range as usize, range as usize));

    let statistics = hashmap.statistics();
    println!("after retain: {}", statistics.describe());

    assert_eq!(statistics.num_entries() as u64, range);
    let mut found_keys = 0;
    let mut iter = hashmap.iter();
    while iter.next(&mut hashmap) {
        let entry = iter.peek(&hashmap);
        assert!(entry.0.data < key + range);
        assert!(entry.0.data >= key);
        found_keys += 1;
    }
    assert_eq!(found_keys, range);
    assert_eq!(checker.load(Relaxed) as u64, range * 2);
    for d in key..(key + range) {
        let result = hashmap.get(Data::new(d, &checker));
        result.unwrap().erase(&mut hashmap);
    }
    assert_eq!(checker.load(Relaxed), 0);

    let statistics = hashmap.statistics();
    println!("after erase: {}", statistics.describe());

    for d in key..(key + range) {
        let result = hashmap.insert(Data::new(d, &checker), Data::new(d, &checker));
        assert!(result.is_ok());
        drop(result);
        let result = hashmap.upsert(Data::new(d, &checker), Data::new(d + 1, &checker));
        (*result.get(&mut hashmap).1) = Data::new(d + 2, &checker);
    }
    let result = hashmap.clear();
    assert_eq!(result, range as usize);
    assert_eq!(checker.load(Relaxed), 0);

    let statistics = hashmap.statistics();
    println!("after clear: {}", statistics.describe());
}

#[test]
fn insert() {
    for key in 0..16u64 {
        insert_with(key);
    }
}

#[test]
fn sample() {
    for s in vec![65536, 2097152, 16777216] {
        let state = RandomState::new();
        let mut hashmap: HashMap<usize, u8, _> =
            HashMap::new(move |key: &usize| state.hash_one(key), Some(s));
        let step_size = s / 10;
        for p in 0..10 {
            for i in (p * step_size)..((p + 1) * step_size) {
                assert!(hashmap.insert(i, 0).is_ok());
            }
            let statistics = hashmap.statistics();
            println!("{}%: {}", (p + 1) * 10, statistics.describe());
            for sample_size in 0..9 {
                let len = hashmap.len(|_| (1 << sample_size) * 16);
                println!("{}/{}%: {};{}", s, (p + 1) * 10, 1 << sample_size, len);
            }
        }
    }
}
