use vstd::arithmetic::power2::{
    lemma2_to64, lemma2_to64_rest, lemma_pow2_adds, lemma_pow2_pos, lemma_pow2_strictly_increases,
    lemma_pow2_unfold, pow2,
};
use vstd::prelude::*;

verus! {

/// The capacity below which no array is made.
pub const DEFAULT_CAPACITY: usize = 256;

/// One resize multiplies the capacity by at most two to this power.
pub const MAX_ENLARGE_FACTOR: u32 = 6;

/// The number of cells at the start of an array that the resize policy looks at.
pub const SAMPLING_RANGE: usize = 16;

/// The largest capacity: the largest power of two that a `usize` holds.
pub open spec fn spec_max_capacity() -> nat {
    (usize::MAX / 2 + 1) as nat
}

pub open spec fn is_power_of_two(n: int) -> bool {
    exists|k: nat| n == #[trigger] pow2(k)
}

/// Two to the power of `k` is the smallest power of two that is at least `n`.
pub open spec fn is_ceil_log2(n: nat, k: nat) -> bool {
    pow2(k) >= n && (k == 0 || pow2((k - 1) as nat) < n)
}

/// The exponent of the smallest power of two that is at least `n`.
pub open spec fn spec_ceil_log2(n: nat) -> nat {
    choose|k: nat| is_ceil_log2(n, k)
}

/// The smallest power of two that is at least `n`.
pub open spec fn spec_next_power_of_two(n: nat) -> nat {
    pow2(spec_ceil_log2(n))
}

/// The capacity that an array gets where `n` is asked for: the smallest power of two that is
/// at least `n`, held at the largest capacity.
pub open spec fn spec_rounded_capacity(n: nat) -> nat {
    if n >= spec_max_capacity() {
        spec_max_capacity()
    } else {
        spec_next_power_of_two(n)
    }
}

pub open spec fn spec_min(a: nat, b: nat) -> nat {
    if a <= b {
        a
    } else {
        b
    }
}

pub open spec fn spec_max(a: nat, b: nat) -> nat {
    if a >= b {
        a
    } else {
        b
    }
}

/// The capacity that the resize policy asks for, given the capacity now, the estimated number
/// of entries and the least capacity of the map. With at least seven eighths of the capacity
/// in use the capacity grows, by a factor of 64 at most and to no more than twice the
/// estimate rounded up; with at most one eighth in use it shrinks to the estimate rounded
/// up, but not under the least capacity; else it stays.
pub open spec fn spec_target_capacity(capacity: nat, estimate: nat, minimum: nat) -> nat {
    if estimate >= capacity / 8 * 7 {
        if capacity >= spec_max_capacity() {
            capacity
        } else {
            spec_min(
                spec_min(capacity, spec_max_capacity() / 64) * 64,
                spec_rounded_capacity(estimate) * 2,
            )
        }
    } else if estimate <= capacity / 8 {
        spec_max(spec_rounded_capacity(estimate), minimum)
    } else {
        capacity
    }
}

/// The number of cells that an estimate of the size reads, where `wanted` entries are to be
/// sampled out of `capacity`.
pub open spec fn spec_cells_to_sample(wanted: nat, capacity: nat) -> nat {
    spec_max(spec_rounded_capacity(spec_min(wanted, capacity)) / 16, 1)
}

/// The cell that a hash belongs to in an array of two to the power of `lb_cells` cells: the
/// number made of its `lb_cells` highest bits.
pub open spec fn spec_cell_index(hash: u64, lb_cells: nat) -> nat {
    hash as nat / pow2((64 - lb_cells) as nat)
}

pub proof fn lemma_word()
    ensures
        usize::BITS == 32 || usize::BITS == 64,
        usize::MAX + 1 == pow2(usize::BITS as nat),
        spec_max_capacity() == pow2((usize::BITS - 1) as nat),
        spec_max_capacity() / 64 == pow2((usize::BITS - 7) as nat),
{
    lemma2_to64();
    lemma2_to64_rest();
}

/// Only one exponent gives the smallest power of two that is at least `n`.
pub proof fn lemma_ceil_log2(n: nat, k: nat)
    requires
        is_ceil_log2(n, k),
    ensures
        spec_ceil_log2(n) == k,
        spec_next_power_of_two(n) == pow2(k),
{
    let c = spec_ceil_log2(n);
    if c < k {
        if c < k - 1 {
            lemma_pow2_strictly_increases(c, (k - 1) as nat);
        }
    } else if k < c {
        if k < c - 1 {
            lemma_pow2_strictly_increases(k, (c - 1) as nat);
        }
    }
}

/// The smallest power of two that is at least `n` is less than twice `n`.
pub proof fn lemma_next_power_of_two(n: nat)
    ensures
        is_power_of_two(spec_next_power_of_two(n) as int),
        spec_next_power_of_two(n) >= n,
        spec_next_power_of_two(n) >= 1,
        n >= 1 ==> spec_next_power_of_two(n) < 2 * n,
        is_power_of_two(n as int) ==> spec_next_power_of_two(n) == n,
    decreases n,
{
    lemma_exponent_exists(n, 0);
    lemma2_to64();
    let k = spec_ceil_log2(n);
    assert(is_ceil_log2(n, k));
    lemma_pow2_pos(k);
    if k > 0 {
        lemma_pow2_unfold(k);
    }
    if is_power_of_two(n as int) {
        let e = choose|e: nat| n == #[trigger] pow2(e);
        if e > 0 {
            lemma_pow2_strictly_increases((e - 1) as nat, e);
        }
        lemma_ceil_log2(n, e);
    }
}

proof fn lemma_exponent_exists(n: nat, k: nat)
    requires
        k == 0 || pow2((k - 1) as nat) < n,
    ensures
        exists|e: nat| is_ceil_log2(n, e),
    decreases (if n > pow2(k) { n - pow2(k) } else { 0 }),
{
    lemma_pow2_pos(k);
    if pow2(k) < n {
        lemma_pow2_unfold(k + 1);
        lemma_exponent_exists(n, k + 1);
    } else {
        assert(is_ceil_log2(n, k));
    }
}

pub fn max_capacity() -> (r: usize)
    ensures
        r == spec_max_capacity(),
{
    usize::MAX / 2 + 1
}

/// The capacity that an array gets where `n` is asked for, and its exponent.
pub fn rounded_capacity(n: usize) -> (r: (usize, u32))
    ensures
        r.0 == spec_rounded_capacity(n as nat),
        r.0 == pow2(r.1 as nat),
        r.1 < usize::BITS,
{
    proof {
        lemma_word();
        lemma2_to64();
    }
    let limit = max_capacity();
    let mut capacity: usize = 1;
    let mut exponent: u32 = 0;
    while capacity < n && capacity < limit
        invariant
            limit == spec_max_capacity(),
            limit == pow2((usize::BITS - 1) as nat),
            usize::BITS == 32 || usize::BITS == 64,
            capacity == pow2(exponent as nat),
            1 <= capacity <= limit,
            exponent < usize::BITS,
            exponent == 0 || pow2((exponent - 1) as nat) < n,
        decreases limit - capacity,
    {
        proof {
            lemma_pow2_unfold((exponent + 1) as nat);
            if exponent + 1 < usize::BITS - 1 {
                lemma_pow2_strictly_increases((exponent + 1) as nat, (usize::BITS - 1) as nat);
            } else if exponent + 1 > usize::BITS - 1 {
                assert(false);
            }
        }
        capacity = capacity * 2;
        exponent = exponent + 1;
    }
    proof {
        if n >= limit {
            if capacity < limit {
                assert(false);
            }
        } else {
            lemma_ceil_log2(n as nat, exponent as nat);
        }
    }
    (capacity, exponent)
}

/// The capacity that the resize policy asks for.
pub fn target_capacity(capacity: usize, estimate: usize, minimum: usize) -> (r: usize)
    ensures
        r == spec_target_capacity(capacity as nat, estimate as nat, minimum as nat),
{
    let limit = max_capacity();
    if estimate >= capacity / 8 * 7 {
        if capacity >= limit {
            capacity
        } else {
            let step = limit / 64;
            let enlarged = if capacity < step {
                capacity * 64
            } else {
                step * 64
            };
            let rounded = rounded_capacity(estimate).0;
            proof {
                lemma_next_power_of_two(estimate as nat);
            }
            if rounded > enlarged / 2 {
                enlarged
            } else {
                rounded * 2
            }
        }
    } else if estimate <= capacity / 8 {
        let rounded = rounded_capacity(estimate).0;
        if rounded >= minimum {
            rounded
        } else {
            minimum
        }
    } else {
        capacity
    }
}

/// The number of cells that an estimate of the size reads.
pub fn cells_to_sample(wanted: usize, capacity: usize) -> (r: usize)
    ensures
        r == spec_cells_to_sample(wanted as nat, capacity as nat),
        r >= 1,
{
    let samples = if wanted <= capacity {
        wanted
    } else {
        capacity
    };
    let cells = rounded_capacity(samples).0 / 16;
    if cells >= 1 {
        cells
    } else {
        1
    }
}

/// The cell that a hash belongs to in an array of two to the power of `lb_cells` cells.
pub fn cell_index(hash: u64, lb_cells: u32) -> (i: usize)
    requires
        1 <= lb_cells < usize::BITS,
    ensures
        i == spec_cell_index(hash, lb_cells as nat),
        i < pow2(lb_cells as nat),
{
    let shift: u64 = (64 - lb_cells) as u64;
    proof {
        lemma_word();
        lemma2_to64();
        lemma2_to64_rest();
        vstd::bits::lemma_u64_shr_is_div(hash, shift);
        lemma_pow2_adds(shift as nat, lb_cells as nat);
        lemma_pow2_pos(shift as nat);
        lemma_pow2_strictly_increases(lb_cells as nat, usize::BITS as nat);
        let d = pow2(shift as nat) as int;
        let m = pow2(lb_cells as nat) as int;
        let h = hash as int;
        assert(h / d < m) by (nonlinear_arith)
            requires
                0 <= h < d * m,
                d > 0,
        ;
    }
    (hash >> shift) as usize
}

/// The cell that a hash belongs to is one of the cells that there are.
pub proof fn lemma_cell_index_bound(hash: u64, lb_cells: nat)
    requires
        lb_cells <= 64,
    ensures
        spec_cell_index(hash, lb_cells) < pow2(lb_cells),
{
    lemma2_to64_rest();
    lemma_pow2_adds((64 - lb_cells) as nat, lb_cells);
    lemma_pow2_pos((64 - lb_cells) as nat);
    let d = pow2((64 - lb_cells) as nat) as int;
    let m = pow2(lb_cells) as int;
    let h = hash as int;
    assert(h / d < m) by (nonlinear_arith)
        requires
            0 <= h < d * m,
            d > 0,
    ;
}

/// Rounding up does not pass a power of two that is at least as large.
pub proof fn lemma_rounded_capacity(n: nat, p: nat)
    requires
        n <= p,
        is_power_of_two(p as int),
        p <= spec_max_capacity(),
    ensures
        n <= spec_rounded_capacity(n) <= p,
        is_power_of_two(spec_rounded_capacity(n) as int),
        spec_rounded_capacity(n) >= 1,
        n == p ==> spec_rounded_capacity(n) == p,
{
    lemma_word();
    lemma_next_power_of_two(n);
    if n < spec_max_capacity() {
        let e = choose|e: nat| p == #[trigger] pow2(e);
        lemma_exponent_exists(n, 0);
        let k = spec_ceil_log2(n);
        assert(is_ceil_log2(n, k));
        if k > e {
            if k - 1 > e {
                lemma_pow2_strictly_increases(e, (k - 1) as nat);
            }
        } else if k < e {
            lemma_pow2_strictly_increases(k, e);
        }
    } else {
        assert(spec_rounded_capacity(n) == pow2((usize::BITS - 1) as nat));
    }
}

/// A power of two that is at least 8 is a multiple of 8.
pub proof fn lemma_multiple_of_eight(p: nat)
    requires
        is_power_of_two(p as int),
        p >= 8,
    ensures
        p % 8 == 0,
{
    let e = choose|e: nat| p == #[trigger] pow2(e);
    lemma2_to64();
    if e < 3 {
        lemma_pow2_strictly_increases(e, 3);
    } else {
        lemma_pow2_adds((e - 3) as nat, 3);
        let q = pow2((e - 3) as nat) as int;
        assert((q * 8) % 8 == 0) by (nonlinear_arith);
    }
}

/// Twice a power of two is one, and of two powers of two the smaller is one.
pub proof fn lemma_power_of_two_closed(a: nat, b: nat)
    requires
        is_power_of_two(a as int),
        is_power_of_two(b as int),
    ensures
        is_power_of_two((2 * a) as int),
        is_power_of_two((64 * a) as int),
        is_power_of_two(spec_min(a, b) as int),
{
    let e = choose|e: nat| a == #[trigger] pow2(e);
    lemma_pow2_unfold(e + 1);
    assert(2 * a == pow2(e + 1));
    lemma_pow2_adds(e, 6);
    lemma2_to64();
    assert(64 * a == pow2(e + 6));
}

/// What the resize policy asks for is not under the least capacity, is a capacity that an
/// array can have where it differs from the capacity now, and is at most 64 times the
/// capacity now; and it is a power of two where the map is to grow.
pub proof fn lemma_target_capacity(capacity: nat, estimate: nat, minimum: nat)
    requires
        is_power_of_two(capacity as int),
        DEFAULT_CAPACITY <= minimum <= capacity <= spec_max_capacity(),
    ensures
        minimum <= spec_target_capacity(capacity, estimate, minimum) <= spec_max_capacity(),
        spec_target_capacity(capacity, estimate, minimum) <= 64 * capacity,
        estimate >= capacity / 8 * 7 ==> {
            &&& is_power_of_two(spec_target_capacity(capacity, estimate, minimum) as int)
            &&& spec_target_capacity(capacity, estimate, minimum) >= capacity
        },
        estimate < capacity / 8 * 7 ==> spec_target_capacity(capacity, estimate, minimum)
            <= capacity,
{
    lemma_word();
    lemma2_to64();
    lemma_multiple_of_eight(capacity);
    let limit = spec_max_capacity();
    assert(is_power_of_two(limit as int));
    assert(is_power_of_two((limit / 64) as int));
    if estimate >= capacity / 8 * 7 {
        if capacity < limit {
            let rounded = spec_rounded_capacity(estimate);
            if estimate < limit {
                lemma_rounded_capacity(estimate, limit);
            }
            assert(is_power_of_two(rounded as int));
            assert(rounded <= limit);
            assert(rounded * 2 >= capacity);
            let a = spec_min(capacity, limit / 64);
            lemma_power_of_two_closed(capacity, limit / 64);
            lemma_power_of_two_closed(a, rounded);
            lemma_power_of_two_closed(rounded, a);
            lemma_power_of_two_closed(64 * a, 2 * rounded);
            if capacity > limit / 64 {
                assert(64 * (limit / 64) == limit);
            }
            assert(a * 64 <= limit);
        }
    } else if estimate <= capacity / 8 {
        lemma_rounded_capacity(estimate, capacity);
    }
}

/// Arrays of different sizes file a hash in cells that lie over each other: the cell in the
/// array with fewer cells is the cell in the array with more cells divided by the ratio of
/// the two sizes. So the entries of one cell of the smaller array belong to as many
/// neighbouring cells of the larger array as the ratio says, and the entries of one cell of
/// the larger array belong to one cell of the smaller array.
pub proof fn lemma_cell_index_locality(hash: u64, lb_few: nat, lb_many: nat)
    requires
        lb_few <= lb_many <= 64,
    ensures
        spec_cell_index(hash, lb_few) == spec_cell_index(hash, lb_many) / pow2(
            (lb_many - lb_few) as nat,
        ),
        spec_cell_index(hash, lb_few) * pow2((lb_many - lb_few) as nat) <= spec_cell_index(
            hash,
            lb_many,
        ) < (spec_cell_index(hash, lb_few) + 1) * pow2((lb_many - lb_few) as nat),
{
    let ratio = pow2((lb_many - lb_few) as nat) as int;
    let fine = pow2((64 - lb_many) as nat) as int;
    let coarse = pow2((64 - lb_few) as nat) as int;
    lemma_pow2_pos((lb_many - lb_few) as nat);
    lemma_pow2_pos((64 - lb_many) as nat);
    lemma_pow2_adds((64 - lb_many) as nat, (lb_many - lb_few) as nat);
    assert(coarse == fine * ratio);
    vstd::arithmetic::div_mod::lemma_div_denominator(hash as int, fine, ratio);
    let many = hash as int / fine;
    let few = many / ratio;
    vstd::arithmetic::div_mod::lemma_fundamental_div_mod(many, ratio);
    assert(0 <= many % ratio < ratio) by (nonlinear_arith)
        requires
            ratio > 0,
            many >= 0,
    ;
    assert(few * ratio == ratio * few) by (nonlinear_arith);
    assert((few + 1) * ratio == few * ratio + ratio) by (nonlinear_arith);
}

} // verus!
