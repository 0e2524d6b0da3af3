use vstd::prelude::*;

verus! {

/// The value that `hasher` returns for `key`.
pub open spec fn raw_hash<K, H: Fn(&K) -> u64>(hasher: H, key: K) -> u64 {
    choose|h: u64| call_ensures(hasher, (&key,), h)
}

/// A hasher can serve a map when it accepts every key and returns one value per key.
pub open spec fn hasher_ok<K, H: Fn(&K) -> u64>(hasher: H) -> bool {
    &&& forall|key: K| #[trigger] call_requires(hasher, (&key,))
    &&& forall|key: K, h: u64| #[trigger]
        call_ensures(hasher, (&key,), h) ==> h == raw_hash(hasher, key)
}

/// `x` rotated right by `n` bits, for `0 < n < 64`.
pub open spec fn spec_rotate_right(x: u64, n: u64) -> u64 {
    (x >> n) | (x << ((64 - n) as u64))
}

/// `x` multiplied by `y` modulo 2^64.
pub open spec fn spec_wrapping_mul(x: u64, y: u64) -> u64 {
    ((x as int * y as int) % 0x1_0000_0000_0000_0000) as u64
}

pub const MIX_MULTIPLIER_1: u64 = 0xA24BAED4963EE407u64;

pub const MIX_MULTIPLIER_2: u64 = 0x9FB21C651E98DF25u64;

/// The bit mixer applied to every raw hash: xor of two rotations, a multiplication, the same
/// again with other constants, and a final xor with the upper bits shifted down.
pub open spec fn spec_mix(hash: u64) -> u64 {
    let a = hash ^ (spec_rotate_right(hash, 25) ^ spec_rotate_right(hash, 50));
    let b = spec_wrapping_mul(a, MIX_MULTIPLIER_1);
    let c = b ^ (spec_rotate_right(b, 24) ^ spec_rotate_right(b, 49));
    let d = spec_wrapping_mul(c, MIX_MULTIPLIER_2);
    d ^ (d >> 28)
}

/// The 16-bit tag kept beside an entry: the low 16 bits of its hash.
pub open spec fn spec_partial_hash(hash: u64) -> u16 {
    (hash % 0x1_0000) as u16
}

/// The hash under which a map with this hasher files `key`.
pub open spec fn spec_hash<K, H: Fn(&K) -> u64>(hasher: H, key: K) -> u64 {
    spec_mix(raw_hash(hasher, key))
}

/// The tag under which a map with this hasher files `key`.
pub open spec fn spec_tag<K, H: Fn(&K) -> u64>(hasher: H, key: K) -> u16 {
    spec_partial_hash(spec_hash(hasher, key))
}

pub fn rotate_right(x: u64, n: u32) -> (r: u64)
    requires
        0 < n < 64,
    ensures
        r == spec_rotate_right(x, n as u64),
{
    (x >> n) | (x << (64 - n))
}

pub fn wrapping_mul(x: u64, y: u64) -> (r: u64)
    ensures
        r == spec_wrapping_mul(x, y),
{
    x.wrapping_mul(y)
}

pub fn mix(hash: u64) -> (r: u64)
    ensures
        r == spec_mix(hash),
{
    let a = hash ^ (rotate_right(hash, 25) ^ rotate_right(hash, 50));
    let b = wrapping_mul(a, MIX_MULTIPLIER_1);
    let c = b ^ (rotate_right(b, 24) ^ rotate_right(b, 49));
    let d = wrapping_mul(c, MIX_MULTIPLIER_2);
    d ^ (d >> 28)
}

pub fn partial_hash(hash: u64) -> (r: u16)
    ensures
        r == spec_partial_hash(hash),
{
    assert(hash & 0xffff == hash % 0x1_0000) by (bit_vector);
    (hash & 0xffff) as u16
}

/// Hashes `key` with `hasher`, mixes the result and derives the tag.
pub fn hash_key<K, H: Fn(&K) -> u64>(hasher: &H, key: &K) -> (r: (u64, u16))
    requires
        hasher_ok::<K, H>(*hasher),
    ensures
        r.0 == spec_hash::<K, H>(*hasher, *key),
        r.1 == spec_tag::<K, H>(*hasher, *key),
{
    let raw = hasher(key);
    let hash = mix(raw);
    (hash, partial_hash(hash))
}

/// The number that undoes the multiplication by `MIX_MULTIPLIER_1` modulo 2^64.
pub const MIX_INVERSE_1: u64 = 0x8b951323f69349b7u64;

/// The number that undoes the multiplication by `MIX_MULTIPLIER_2` modulo 2^64.
pub const MIX_INVERSE_2: u64 = 0x02ab9c720d1024adu64;

/// Multiplying by a number and then by its inverse modulo 2^64 gives the number back.
pub proof fn lemma_wrapping_mul_inverse(x: u64, c: u64, inverse: u64)
    requires
        (c as int * inverse as int) % 0x1_0000_0000_0000_0000 == 1,
    ensures
        spec_wrapping_mul(spec_wrapping_mul(x, c), inverse) == x,
{
    let m = 0x1_0000_0000_0000_0000int;
    let xi = x as int;
    let ci = c as int;
    let ii = inverse as int;
    vstd::arithmetic::div_mod::lemma_mul_mod_noop_left(xi * ci, ii, m);
    vstd::arithmetic::mul::lemma_mul_is_associative(xi, ci, ii);
    vstd::arithmetic::div_mod::lemma_mul_mod_noop_right(xi, ci * ii, m);
    vstd::arithmetic::div_mod::lemma_small_mod(x as nat, m as nat);
    assert(((xi * ci) % m) * ii % m == xi % m);
}

proof fn lemma_xor_rotations_25_50(x: u64, y: u64)
    by (bit_vector)
    requires
        x ^ (((x >> 25) | (x << 39)) ^ ((x >> 50) | (x << 14))) == y ^ (((y >> 25) | (y << 39)) ^ ((y
            >> 50) | (y << 14))),
    ensures
        x == y,
{
}

proof fn lemma_xor_rotations_24_49(x: u64, y: u64)
    by (bit_vector)
    requires
        x ^ (((x >> 24) | (x << 40)) ^ ((x >> 49) | (x << 15))) == y ^ (((y >> 24) | (y << 40)) ^ ((y
            >> 49) | (y << 15))),
    ensures
        x == y,
{
}

proof fn lemma_xor_shift_28(x: u64, y: u64)
    by (bit_vector)
    requires
        x ^ (x >> 28) == y ^ (y >> 28),
    ensures
        x == y,
{
}

/// The mixer maps no two hashes to the same value, so that it maps the 64-bit numbers one
/// to one onto themselves.
pub proof fn lemma_mix_is_injective(x: u64, y: u64)
    requires
        spec_mix(x) == spec_mix(y),
    ensures
        x == y,
{
    let ax = x ^ (spec_rotate_right(x, 25) ^ spec_rotate_right(x, 50));
    let ay = y ^ (spec_rotate_right(y, 25) ^ spec_rotate_right(y, 50));
    let bx = spec_wrapping_mul(ax, MIX_MULTIPLIER_1);
    let by = spec_wrapping_mul(ay, MIX_MULTIPLIER_1);
    let cx = bx ^ (spec_rotate_right(bx, 24) ^ spec_rotate_right(bx, 49));
    let cy = by ^ (spec_rotate_right(by, 24) ^ spec_rotate_right(by, 49));
    let dx = spec_wrapping_mul(cx, MIX_MULTIPLIER_2);
    let dy = spec_wrapping_mul(cy, MIX_MULTIPLIER_2);
    lemma_xor_shift_28(dx, dy);
    lemma_wrapping_mul_inverse(cx, MIX_MULTIPLIER_2, MIX_INVERSE_2);
    lemma_wrapping_mul_inverse(cy, MIX_MULTIPLIER_2, MIX_INVERSE_2);
    lemma_xor_rotations_24_49(bx, by);
    lemma_wrapping_mul_inverse(ax, MIX_MULTIPLIER_1, MIX_INVERSE_1);
    lemma_wrapping_mul_inverse(ay, MIX_MULTIPLIER_1, MIX_INVERSE_1);
    lemma_xor_rotations_25_50(x, y);
}

} // verus!
