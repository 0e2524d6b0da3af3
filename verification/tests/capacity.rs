use scc::capacity::{cell_index, cells_to_sample, max_capacity, rounded_capacity, target_capacity};

#[test]
fn rounded_capacity_is_next_power_of_two() {
    assert_eq!(rounded_capacity(0), (1, 0));
    assert_eq!(rounded_capacity(1), (1, 0));
    assert_eq!(rounded_capacity(2), (2, 1));
    assert_eq!(rounded_capacity(3), (4, 2));
    assert_eq!(rounded_capacity(256), (256, 8));
    assert_eq!(rounded_capacity(257), (512, 9));
    assert_eq!(rounded_capacity(1000), (1024, 10));
    assert_eq!(rounded_capacity(1_000_000), (1_048_576, 20));
}

#[test]
fn rounded_capacity_stops_at_the_largest_capacity() {
    let limit = max_capacity();
    assert_eq!(limit, 1usize << (usize::BITS - 1));
    assert_eq!(rounded_capacity(limit), (limit, usize::BITS - 1));
    assert_eq!(rounded_capacity(limit + 1), (limit, usize::BITS - 1));
    assert_eq!(rounded_capacity(usize::MAX), (limit, usize::BITS - 1));
}

#[test]
fn target_capacity_grows_at_seven_eighths() {
    assert_eq!(target_capacity(256, 224, 256), 512);
    assert_eq!(target_capacity(256, 255, 256), 512);
    assert_eq!(target_capacity(256, 257, 256), 1024);
    assert_eq!(target_capacity(1024, 896, 256), 2048);
}

#[test]
fn target_capacity_grows_by_factor_64_at_most() {
    assert_eq!(target_capacity(256, 100_000, 256), 16_384);
    assert_eq!(target_capacity(256, usize::MAX, 256), 16_384);
    assert_eq!(target_capacity(1024, 1 << 40, 256), 65_536);
}

#[test]
fn target_capacity_at_the_largest_capacity_stays() {
    let limit = max_capacity();
    assert_eq!(target_capacity(limit, usize::MAX, 256), limit);
    assert_eq!(target_capacity(limit / 2, usize::MAX, 256), limit);
}

#[test]
fn target_capacity_shrinks_at_one_eighth() {
    assert_eq!(target_capacity(4096, 512, 256), 512);
    assert_eq!(target_capacity(4096, 300, 256), 512);
    assert_eq!(target_capacity(4096, 10, 256), 256);
    assert_eq!(target_capacity(4096, 0, 256), 256);
    assert_eq!(target_capacity(4096, 10, 1000), 1000);
}

#[test]
fn target_capacity_stays_in_between() {
    assert_eq!(target_capacity(4096, 513, 256), 4096);
    assert_eq!(target_capacity(4096, 2000, 256), 4096);
    assert_eq!(target_capacity(4096, 3583, 256), 4096);
    assert_eq!(target_capacity(4096, 3584, 256), 8192);
}

#[test]
fn cells_to_sample_values() {
    assert_eq!(cells_to_sample(0, 256), 1);
    assert_eq!(cells_to_sample(16, 256), 1);
    assert_eq!(cells_to_sample(17, 256), 2);
    assert_eq!(cells_to_sample(100, 1024), 8);
    assert_eq!(cells_to_sample(256, 256), 16);
    assert_eq!(cells_to_sample(4096, 256), 16);
    assert_eq!(cells_to_sample(usize::MAX, 1024), 64);
}

#[test]
fn cell_index_is_made_of_the_highest_bits() {
    assert_eq!(cell_index(0, 4), 0);
    assert_eq!(cell_index(u64::MAX, 4), 15);
    assert_eq!(cell_index(1 << 60, 4), 1);
    assert_eq!(cell_index((1 << 60) - 1, 4), 0);
    assert_eq!(cell_index(0xc7596929f1a38205, 4), 12);
    assert_eq!(cell_index(0xc7596929f1a38205, 8), 199);
    assert_eq!(cell_index(u64::MAX, 16), 65_535);
}
