use scc::hash::{hash_key, mix, partial_hash, rotate_right, wrapping_mul};

#[test]
fn mix_matches_known_values() {
    assert_eq!(mix(0), 0);
    assert_eq!(mix(1), 0x0dadbfeeb7d64133);
    assert_eq!(mix(2), 0x90aeea2043435d3e);
    assert_eq!(mix(0xdeadbeef), 0xc7596929f1a38205);
    assert_eq!(mix(u64::MAX), 0xe398180adc04d6fc);
    assert_eq!(mix(0x0123456789abcdef), 0x4461f52ab4d824c2);
}

#[test]
fn rotate_right_matches_std() {
    for x in [0u64, 1, 2, 0xdeadbeef, u64::MAX, 0x8000000000000001] {
        for n in [1u32, 24, 25, 49, 50, 63] {
            assert_eq!(rotate_right(x, n), x.rotate_right(n));
        }
    }
    assert_eq!(rotate_right(1, 1), 0x8000000000000000);
}

#[test]
fn wrapping_mul_wraps() {
    assert_eq!(wrapping_mul(3, 5), 15);
    assert_eq!(wrapping_mul(u64::MAX, 2), u64::MAX - 1);
    assert_eq!(wrapping_mul(1 << 63, 2), 0);
}

#[test]
fn partial_hash_is_low_16_bits() {
    assert_eq!(partial_hash(0), 0);
    assert_eq!(partial_hash(0x1_0000), 0);
    assert_eq!(partial_hash(0xdeadbeef), 0xbeef);
    assert_eq!(partial_hash(u64::MAX), 0xffff);
}

#[test]
fn hash_key_mixes_what_the_hasher_returns() {
    let identity = |key: &u64| *key;
    assert_eq!(hash_key(&identity, &1), (0x0dadbfeeb7d64133, 16691));
    assert_eq!(hash_key(&identity, &0xdeadbeef), (0xc7596929f1a38205, 33285));
    let constant = |_key: &u64| 2u64;
    assert_eq!(hash_key(&constant, &77), (0x90aeea2043435d3e, 23870));
}
