//! Splitting the side of a block in two.
use vstd::prelude::*;

verus! {

/// `floor(log2(x))` for `x >= 1`, and `0` for `x == 0`.
pub open spec fn floor_log2(x: nat) -> nat
    decreases x,
{
    if x < 2 {
        0
    } else {
        1 + floor_log2(x / 2)
    }
}

/// `2^(floor(log2(x)) - 1)` for `x >= 2`: the largest power of two that is at
/// most half of `x`.
pub open spec fn half_power(x: nat) -> nat
    decreases x,
{
    if x < 4 {
        1
    } else {
        2 * half_power(x / 2)
    }
}

/// Length of the far part of a side of length `x >= 2`: the power of two
/// nearest to half of `x` among `half_power(x)` and twice that.
pub open spec fn far_part(x: nat) -> nat {
    if x < 3 * half_power(x) {
        half_power(x)
    } else {
        2 * half_power(x)
    }
}

/// Length of the near part of a side of length `x >= 2`.
pub open spec fn near_part(x: nat) -> nat {
    (x - far_part(x)) as nat
}

/// Length of the far part of a side of length `x` in the finest split, which
/// has no level of its own: half of `x`, rounded up to an even number.
pub open spec fn fine_far_part(x: nat) -> nat {
    (x + 3) / 4 * 2
}

/// Length of the near part of a side of length `x >= 2` in the finest split.
pub open spec fn fine_near_part(x: nat) -> nat {
    (x - fine_far_part(x)) as nat
}

/// Number of leading zero bits of a 32-bit number: all 32 for zero, and
/// otherwise those above the highest set bit, which is bit `floor(log2(x))`.
pub open spec fn leading_zeros_spec(x: u32) -> nat {
    if x == 0 {
        32
    } else {
        (31 - floor_log2(x as nat)) as nat
    }
}

/// Calls `num::PrimInt::leading_zeros` on a `u32`. The contract states what
/// the count of leading zero bits is.
#[verifier::external_body]
fn leading_zeros(x: u32) -> (r: u32)
    ensures
        r == leading_zeros_spec(x),
{
    num::PrimInt::leading_zeros(x)
}

/// Calls `num::PrimInt::unsigned_shl` on a `u32`: a left shift that drops the
/// bits shifted out. The shift amount has to be below the width.
#[verifier::external_body]
fn unsigned_shl(x: u32, n: u32) -> (r: u32)
    requires
        n < 32,
    ensures
        r == x << n,
{
    num::PrimInt::unsigned_shl(x, n)
}

/// Calls `array::Array2::map` on a pair of `u32`: the pair of what `f` gives
/// for the first and for the second component.
#[verifier::external_body]
pub(crate) fn map_pair<F: Fn(u32) -> u32>(pair: [u32; 2], f: F) -> (r: [u32; 2])
    requires
        call_requires(f, (pair[0],)),
        call_requires(f, (pair[1],)),
    ensures
        call_ensures(f, (pair[0],), r[0]),
        call_ensures(f, (pair[1],), r[1]),
{
    array::Array2::map(pair, f)
}

/// A number whose bits above position `r` are clear and whose bit `r` is set
/// has `floor_log2` equal to `r`.
pub proof fn lemma_floor_log2_of_top_bit(x: u32, r: u32)
    requires
        r < 32,
        x >> r == 1,
    ensures
        floor_log2(x as nat) == r,
        x >= 1,
        r >= 1 ==> x >= 2 && half_power(x as nat) == 1u32 << ((r - 1) as u32),
    decreases r,
{
    if r == 0 {
        assert(x >> 0u32 == 1 ==> x == 1) by (bit_vector);
    } else {
        let y: u32 = x / 2;
        let r1: u32 = (r - 1) as u32;
        assert(r >= 1 && r < 32 && x >> r == 1 && y == x / 2 && r1 == r - 1 ==> y >> r1 == 1 && x
            >= 2 && (r1 == 0 ==> x < 4) && (r1 >= 1 ==> x >= 4 && 1u32 << r1 == 2 * (1u32 << ((r1
            - 1) as u32)) && 1u32 << r1 <= 0x4000_0000)) by (bit_vector);
        lemma_floor_log2_of_top_bit(y, r1);
        if r1 == 0 {
            assert(1u32 << 0u32 == 1) by (bit_vector);
        }
    }
}

/// `floor_log2` does not decrease when its argument grows.
pub proof fn lemma_floor_log2_monotonic(x: nat, y: nat)
    requires
        x <= y,
    ensures
        floor_log2(x) <= floor_log2(y),
    decreases y,
{
    if x >= 2 {
        lemma_floor_log2_monotonic(x / 2, y / 2);
    }
}

/// What a split of a side of length `x` with `floor_log2(x) >= k + 1` gives:
/// two non-empty parts that add up to `x`, each with `floor_log2` at least
/// `k`, the far one even once `x >= 4`.
pub proof fn lemma_parts(x: u32, k: nat)
    requires
        floor_log2(x as nat) >= k + 1,
    ensures
        x >= 2,
        1 <= far_part(x as nat) < x,
        far_part(x as nat) + near_part(x as nat) == x,
        floor_log2(far_part(x as nat)) >= k,
        floor_log2(near_part(x as nat)) >= k,
        x >= 4 ==> far_part(x as nat) % 2 == 0,
{
    lemma_parts_bits(x);
    let r = floor_log2(x as nat) as u32;
    let m = (r - 1) as u32;
    let mask: u32 = 1u32 << m;
    let hi: u32 = far_part(x as nat) as u32;
    let lo: u32 = (x - hi) as u32;
    assert(x >> r == 1 && r >= 1 && r < 32 && m == r - 1 && mask == 1u32 << m && hi == (x & mask)
        + mask && lo == x - hi ==> lo >> m == 1 && (hi >> m == 1 || hi >> r == 1)) by (bit_vector);
    lemma_floor_log2_of_top_bit(lo, m);
    if hi >> m == 1 {
        lemma_floor_log2_of_top_bit(hi, m);
    } else {
        lemma_floor_log2_of_top_bit(hi, r);
    }
}

/// The bit-level form of `far_part`.
pub proof fn lemma_parts_bits(x: u32)
    requires
        x >= 2,
    ensures
        floor_log2(x as nat) < 32,
        floor_log2(x as nat) >= 1,
        x >> (floor_log2(x as nat) as u32) == 1,
        half_power(x as nat) == 1u32 << ((floor_log2(x as nat) - 1) as u32),
        far_part(x as nat) == (x & (1u32 << ((floor_log2(x as nat) - 1) as u32))) + (1u32 << ((
        floor_log2(x as nat) - 1) as u32)),
        1 <= far_part(x as nat) < x,
        x >= 4 ==> far_part(x as nat) % 2 == 0,
{
    lemma_top_bit_exists(x);
    let r = choose|r: u32| r < 32 && x >> r == 1;
    lemma_floor_log2_of_top_bit(x, r);
    assert(r >= 1) by {
        if r == 0 {
            assert(x >> 0u32 == 1 ==> x == 1) by (bit_vector);
        }
    }
    let m = (r - 1) as u32;
    let mask: u32 = 1u32 << m;
    assert(x >> r == 1 && r >= 1 && r < 32 && m == r - 1 && mask == 1u32 << m ==> mask
        <= 0x4000_0000 && mask >= 1 && (x & mask == 0 || x & mask == mask) && (x & mask == 0 <==> x
        < 3 * mask) && (x & mask) + mask < x && (x >= 4 ==> mask % 2 == 0)) by (bit_vector);
}

/// Every non-zero number has a highest set bit.
pub proof fn lemma_top_bit_exists(x: u32)
    requires
        x >= 1,
    ensures
        exists|r: u32| r < 32 && x >> r == 1,
    decreases x,
{
    if x == 1 {
        assert(1u32 >> 0u32 == 1) by (bit_vector);
    } else {
        let y: u32 = x / 2;
        lemma_top_bit_exists(y);
        let r1 = choose|r: u32| r < 32 && y >> r == 1;
        let r: u32 = (r1 + 1) as u32;
        assert(r1 < 32 && y == x / 2 && y >> r1 == 1 && r == r1 + 1 ==> r < 32 && x >> r == 1)
            by (bit_vector);
    }
}

/// What the finest split of a side of length `x >= 3` gives: an even far
/// part and a non-empty near part that add up to `x`.
pub proof fn lemma_fine_parts(x: nat)
    requires
        x >= 3,
    ensures
        fine_far_part(x) >= 2,
        fine_far_part(x) % 2 == 0,
        fine_near_part(x) >= 1,
        fine_far_part(x) + fine_near_part(x) == x,
{
}

/// `floor(log2(x))`.
pub fn log2_floor(x: u32) -> (r: u32)
    requires
        x >= 1,
    ensures
        r == floor_log2(x as nat),
        r < 32,
{
    proof {
        if x >= 2 {
            lemma_parts_bits(x);
        }
    }
    leading_zeros(0) - 1 - leading_zeros(x)
}

/// Find the split position of a side: the length of its far part.
pub fn division_l1(size: u32) -> (r: u32)
    requires
        size >= 2,
    ensures
        r == far_part(size as nat),
        1 <= r < size,
{
    proof {
        lemma_parts_bits(size);
    }
    let m = log2_floor(size) - 1;
    let mask = unsigned_shl(1, m);
    (size & mask) + mask
}

/// Half of `x`, rounded up to an even number.
fn fine_far(x: u32) -> (r: u32)
    requires
        x >= 1,
    ensures
        r == fine_far_part(x as nat),
{
    ((x - 1) / 4 + 1) * 2
}

/// Get the size of a sub-block in the finest split of a block.
///
/// `curve_type` is the curve type of the block and `pos` the address of the
/// sub-block within it, of which the two lowest bits count. Along X the near
/// sub-blocks get the near part. Along Y the same holds, except in a block
/// of curve type 0, where the near sub-blocks get the far part: its first
/// sub-block stacks its rows along Y and so needs an even height.
pub fn extra_division_subblock_size(size: [u32; 2], pos: u8, curve_type: u8) -> (r: [u32; 2])
    requires
        size[0] >= 2,
        size[1] >= 2,
    ensures
        r[0] == fine_sub_size(size[0] as nat, (pos / 2) % 2 == 1),
        r[1] == fine_sub_size(size[1] as nat, (pos % 2 == 1) != (curve_type == 0)),
{
    let size_l1 = map_pair(size, fine_far);
    let size_l0 = [size[0] - size_l1[0], size[1] - size_l1[1]];
    let adr0 = (pos / 2) % 2 == 1;
    let adr1 = (pos % 2 == 1) != (curve_type == 0);
    [
        if adr0 { size_l1[0] } else { size_l0[0] },
        if adr1 { size_l1[1] } else { size_l0[1] },
    ]
}

/// Length of a sub-block's side in the finest split of a side of length `x`.
pub open spec fn fine_sub_size(x: nat, far: bool) -> nat {
    if far {
        fine_far_part(x)
    } else {
        fine_near_part(x)
    }
}

} // verus!
