//! Curve types: the eight orientations of a block, their lookup tables, and
//! the facts about those tables that keep the scan continuous.
//!
//! A *corner* (and likewise the *address* of a sub-block inside its parent) is
//! a number in `0..4`: the high bit is the X side (0 = left, 1 = right), the
//! low bit is the Y side (0 = bottom, 1 = top).
use vstd::prelude::*;

verus! {

/// The curve type address sequence table.
///
/// Two bits per sub-block, the first sub-block in the lowest bits.
///
/// ```text
///   ,----,   <----,   ^    |   ,-----
///   |    |        |   |    |   |
///   |    v   -----'   '----'   '---->
///
///   Type 0   Type 1   Type 2   Type 3
/// ```
///
/// Types 4 to 7 are types 0 to 3 walked backwards.
pub const CURVE_ADDRESS_TABLE: [u8; 8] = [
    0b10_11_01_00,
    0b01_11_10_00,
    0b01_00_10_11,
    0b10_00_01_11,
    0b00_01_11_10,
    0b00_10_11_01,
    0b11_10_00_01,
    0b11_01_00_10,
];

/// The curve induction table: `CURVE_INDUCTION_TABLE[c][k]` is the curve type
/// of the `k`-th sub-block of a block of curve type `c`.
pub const CURVE_INDUCTION_TABLE: [[u8; 4]; 8] = [
    [1, 0, 0, 3],
    [0, 1, 1, 2],
    [3, 2, 2, 1],
    [2, 3, 3, 0],
    [7, 4, 4, 5],
    [6, 5, 5, 4],
    [5, 6, 6, 7],
    [4, 7, 7, 6],
];

/// The scanning pattern of a block, by the sign of the move that will leave it
/// (0 = towards larger coordinates), the corner at which it is entered, and
/// the axis of the move that will leave it (0 = X).
pub const SCANNING_TYPE: [[[u8; 2]; 4]; 2] = [
    [[0, 1], [6, 6], [7, 7], [3, 2]],
    [[1, 0], [5, 5], [4, 4], [2, 3]],
];

/// Side of corner (or address) `a` along `axis`: `true` is the far side.
pub open spec fn side(a: u8, axis: int) -> bool {
    if axis == 0 {
        a >= 2
    } else {
        a % 2 == 1
    }
}

/// The corner with the given sides.
pub open spec fn corner(x: bool, y: bool) -> u8 {
    ((if x { 2int } else { 0int }) + (if y { 1int } else { 0int })) as u8
}

/// The corner that differs from `a` along exactly `axis`.
pub open spec fn across(a: u8, axis: int) -> u8 {
    if axis == 0 {
        corner(!side(a, 0), side(a, 1))
    } else {
        corner(side(a, 0), !side(a, 1))
    }
}

/// Primary axis of curve type `c`: the axis along which the rows of its
/// zigzag are stacked.
pub open spec fn primary_axis(c: u8) -> int {
    c as int % 2
}

/// Whether the rows of curve type `c` are stacked towards smaller coordinates.
pub open spec fn primary_negative(c: u8) -> bool {
    (c as int / 2) % 2 != (c as int / 4) % 2
}

/// Whether the first row of curve type `c` runs towards smaller coordinates.
pub open spec fn secondary_negative(c: u8) -> bool {
    (c as int / 2) % 2 == 1
}

/// Address of the `k`-th sub-block of a block of curve type `c`.
pub open spec fn address(c: u8, k: u8) -> u8 {
    if c == 0 {
        if k == 0 { 0 } else if k == 1 { 1 } else if k == 2 { 3 } else { 2 }
    } else if c == 1 {
        if k == 0 { 0 } else if k == 1 { 2 } else if k == 2 { 3 } else { 1 }
    } else if c == 2 {
        if k == 0 { 3 } else if k == 1 { 2 } else if k == 2 { 0 } else { 1 }
    } else if c == 3 {
        if k == 0 { 3 } else if k == 1 { 1 } else if k == 2 { 0 } else { 2 }
    } else if c == 4 {
        if k == 0 { 2 } else if k == 1 { 3 } else if k == 2 { 1 } else { 0 }
    } else if c == 5 {
        if k == 0 { 1 } else if k == 1 { 3 } else if k == 2 { 2 } else { 0 }
    } else if c == 6 {
        if k == 0 { 1 } else if k == 1 { 0 } else if k == 2 { 2 } else { 3 }
    } else {
        if k == 0 { 2 } else if k == 1 { 0 } else if k == 2 { 1 } else { 3 }
    }
}

/// Corner at which a block of curve type `c` is entered.
pub open spec fn start_corner(c: u8) -> u8 {
    address(c, 0)
}

/// Corner at which a block of curve type `c` is left.
pub open spec fn end_corner(c: u8) -> u8 {
    address(c, 3)
}

/// Curve type of the `k`-th sub-block of a block of curve type `c`.
pub open spec fn induced(c: u8, k: u8) -> u8 {
    if c == 0 {
        if k == 0 { 1 } else if k == 3 { 3 } else { 0 }
    } else if c == 1 {
        if k == 0 { 0 } else if k == 3 { 2 } else { 1 }
    } else if c == 2 {
        if k == 0 { 3 } else if k == 3 { 1 } else { 2 }
    } else if c == 3 {
        if k == 0 { 2 } else if k == 3 { 0 } else { 3 }
    } else if c == 4 {
        if k == 0 { 7 } else if k == 3 { 5 } else { 4 }
    } else if c == 5 {
        if k == 0 { 6 } else if k == 3 { 4 } else { 5 }
    } else if c == 6 {
        if k == 0 { 5 } else if k == 3 { 7 } else { 6 }
    } else {
        if k == 0 { 4 } else if k == 3 { 6 } else { 7 }
    }
}

/// Axis of the move from the `k`-th sub-block to the next one.
pub open spec fn move_axis(c: u8, k: u8) -> int {
    if side(address(c, k), 0) != side(address(c, (k + 1) as u8), 0) {
        0
    } else {
        1
    }
}

/// Whether the move from the `k`-th sub-block to the next one goes towards
/// larger coordinates.
pub open spec fn move_positive(c: u8, k: u8) -> bool {
    side(address(c, (k + 1) as u8), move_axis(c, k))
}

/// The scanning pattern that enters at corner `enter` and leaves towards the
/// side given by `axis` and `positive`.
pub open spec fn scanning_type(positive: bool, enter: u8, axis: int) -> u8 {
    if enter == 0 {
        if positive == (axis == 0) { 0 } else { 1 }
    } else if enter == 1 {
        if positive { 6 } else { 5 }
    } else if enter == 2 {
        if positive { 7 } else { 4 }
    } else {
        if positive == (axis == 0) { 3 } else { 2 }
    }
}

/// Get the primary axis (X = 0, Y = 1) of a curve type.
///
/// ```text
///   ,--,  ,--,
///   |  |  |  |
///   |  |  |  |  ---> primary axis
///   |  '--'  v
/// ```
pub fn curve_primary_axis(c: u8) -> (r: u8)
    ensures
        r as int == primary_axis(c),
{
    assert(c & 1 == c % 2) by (bit_vector);
    c & 1
}

/// Get the sign of the primary direction of a curve type: 2 when the rows
/// are stacked towards smaller coordinates, else 0.
pub fn curve_primary_negative(c: u8) -> (r: u8)
    ensures
        r == (if primary_negative(c) {
            2u8
        } else {
            0u8
        }),
{
    assert((c ^ (c >> 1)) & 0b10 == (if (c / 2) % 2 != (c / 4) % 2 {
        2u8
    } else {
        0u8
    })) by (bit_vector);
    (c ^ (c >> 1)) & 0b10
}

/// Get the sign of the secondary direction of a curve type on its first row:
/// 2 when that row runs towards smaller coordinates, else 0.
pub fn curve_secondary_negative_at_start(c: u8) -> (r: u8)
    ensures
        r == (if secondary_negative(c) {
            2u8
        } else {
            0u8
        }),
{
    assert(c & 0b10 == (if (c / 2) % 2 == 1 {
        2u8
    } else {
        0u8
    })) by (bit_vector);
    c & 0b10
}

/// Get the address of the `k`-th sub-block of a block of curve type `c`.
pub fn curve_address(c: u8, k: u8) -> (r: u8)
    requires
        c < 8,
        k < 4,
    ensures
        r == address(c, k),
        r < 4,
{
    let w = CURVE_ADDRESS_TABLE[c as usize];
    let s = k * 2;
    assert(forall|w: u8, k: u8|
        k < 4 ==> #[trigger] ((w >> (k * 2)) & 3) == (w / (if k == 0 {
            1u8
        } else if k == 1 {
            4u8
        } else if k == 2 {
            16u8
        } else {
            64u8
        })) % 4) by (bit_vector);
    (w >> s) & 3
}

/// Get the corner at which a block of curve type `c` is left.
pub fn curve_end_point(c: u8) -> (r: u8)
    requires
        c < 8,
    ensures
        r == end_corner(c),
        r < 4,
{
    let w = CURVE_ADDRESS_TABLE[c as usize];
    assert(forall|w: u8| #[trigger] (w >> 6) == w / 64) by (bit_vector);
    w >> 6
}

/// Get the curve type of the `k`-th sub-block of a block of curve type `c`.
pub fn curve_induced(c: u8, k: u8) -> (r: u8)
    requires
        c < 8,
        k < 4,
    ensures
        r == induced(c, k),
        r < 8,
{
    CURVE_INDUCTION_TABLE[c as usize][k as usize]
}

/// Look up the scanning pattern of a block.
pub fn curve_scanning_type(positive: bool, enter: u8, axis: u8) -> (r: u8)
    requires
        enter < 4,
        axis < 2,
    ensures
        r == scanning_type(positive, enter, axis as int),
        r < 8,
{
    let sign: usize = if positive { 0 } else { 1 };
    SCANNING_TYPE[sign][enter as usize][axis as usize]
}

/// Get the axis and the sign of the move from the `k`-th sub-block of a
/// block of curve type `c` to the next one.
pub fn curve_move(c: u8, k: u8) -> (r: (u8, bool))
    requires
        c < 8,
        k < 3,
    ensures
        r.0 as int == move_axis(c, k),
        r.1 == move_positive(c, k),
        r.0 < 2,
{
    let from = curve_address(c, k);
    let to = curve_address(c, k + 1);
    let axis: u8 = if corner_side(from, 0) != corner_side(to, 0) { 0 } else { 1 };
    (axis, corner_side(to, axis))
}

/// Whether corner (or address) `a` lies on the far side along `axis`.
pub fn corner_side(a: u8, axis: u8) -> (r: bool)
    requires
        a < 4,
        axis < 2,
    ensures
        r == side(a, axis as int),
{
    if axis == 0 {
        a >= 2
    } else {
        a % 2 == 1
    }
}

/// The corner on the other side of `a` along `axis`.
pub fn corner_across(a: u8, axis: u8) -> (r: u8)
    requires
        a < 4,
        axis < 2,
    ensures
        r == across(a, axis as int),
        r < 4,
{
    assert(a < 4 ==> (a ^ 2 == if a >= 2 { (a - 2) as u8 } else { (a + 2) as u8 }) && (a ^ 1 == if a
        % 2 == 1 { (a - 1) as u8 } else { (a + 1) as u8 })) by (bit_vector);
    if axis == 0 {
        a ^ 2
    } else {
        a ^ 1
    }
}

/// Consecutive sub-blocks are neighbours: their addresses differ along
/// exactly one axis.
pub proof fn lemma_move(c: u8, k: u8)
    requires
        c < 8,
        k < 3,
    ensures
        address(c, (k + 1) as u8) == across(address(c, k), move_axis(c, k)),
        side(address(c, k), move_axis(c, k)) == !move_positive(c, k),
        move_axis(c, k) == 0 || move_axis(c, k) == 1,
{
}

/// A zigzag of curve type `c` with an even number of rows starts at the start
/// corner of `c` and ends at its end corner.
pub proof fn lemma_zigzag_corners(c: u8)
    requires
        c < 8,
    ensures
        side(start_corner(c), primary_axis(c)) == primary_negative(c),
        side(start_corner(c), 1 - primary_axis(c)) == secondary_negative(c),
        side(end_corner(c), primary_axis(c)) == !primary_negative(c),
        side(end_corner(c), 1 - primary_axis(c)) == secondary_negative(c),
        start_corner(c) < 4,
        end_corner(c) < 4,
{
}

/// The first sub-block starts where its parent starts, the last sub-block
/// ends where its parent ends, and each sub-block ends across the border from
/// where the next one starts.
pub proof fn lemma_induction(c: u8, k: u8)
    requires
        c < 8,
        k < 4,
    ensures
        induced(c, k) < 8,
        c < 4 ==> induced(c, k) < 4,
        c >= 4 ==> induced(c, k) >= 4,
        start_corner(induced(c, 0)) == start_corner(c),
        end_corner(induced(c, 3)) == end_corner(c),
        start_corner(induced(c, 0)) == address(c, 0),
        end_corner(induced(c, 3)) == address(c, 3),
        k < 3 ==> start_corner(induced(c, (k + 1) as u8)) == across(
            end_corner(induced(c, k)),
            move_axis(c, k),
        ),
        k < 3 ==> side(end_corner(induced(c, k)), move_axis(c, k)) == move_positive(c, k),
{
}

/// The looked-up scanning pattern starts at the entry corner and ends on the
/// side of the block that faces the next block.
pub proof fn lemma_scanning_type(positive: bool, enter: u8, axis: int)
    requires
        enter < 4,
        axis == 0 || axis == 1,
    ensures
        scanning_type(positive, enter, axis) < 8,
        start_corner(scanning_type(positive, enter, axis)) == enter,
        side(end_corner(scanning_type(positive, enter, axis)), axis) == positive,
        (enter == 0 || enter == 3) ==> scanning_type(positive, enter, axis) < 4,
        (enter == 1 || enter == 2) ==> scanning_type(positive, enter, axis) >= 4 && end_corner(
            scanning_type(positive, enter, axis),
        ) == corner(positive, positive),
        (enter == 2 && positive) ==> scanning_type(positive, enter, axis) == 7,
        (enter == 1 && positive) ==> scanning_type(positive, enter, axis) == 6,
{
}

/// Curve types at the edges of the rectangle. At the left edge only types
/// 0, 1 and 2 occur, and the scan never moves down along it nor arrives at it
/// from below other than along it; at the bottom edge only types 0, 1 and 3
/// occur, and the scan never moves left along it.
pub proof fn lemma_edge_types(c: u8, k: u8)
    requires
        c < 4,
        k < 4,
    ensures
        c != 3 && !side(address(c, k), 0) ==> induced(c, k) != 3 && induced(c, k) < 4,
        c != 2 && !side(address(c, k), 1) ==> induced(c, k) != 2 && induced(c, k) < 4,
        c != 3 && !side(address(c, k), 0) && k < 3 ==> move_positive(c, k),
        c != 2 && !side(address(c, k), 1) && k < 3 ==> move_positive(c, k),
        c != 3 && !side(address(c, k), 0) && k >= 1 ==> (move_axis(c, (k - 1) as u8) == 1
            ==> move_positive(c, (k - 1) as u8)),
        c != 2 && !side(address(c, k), 1) && k >= 1 ==> (move_axis(c, (k - 1) as u8) == 0
            ==> move_positive(c, (k - 1) as u8)),
        (c == 0 || c == 1) && k >= 1 ==> address(c, k) != 0,
        (c == 0 || c == 3) ==> address(c, 3) == 2 && (induced(c, 3) == 0 || induced(c, 3) == 3),
{
}

/// The four sub-blocks of a block lie at the four addresses.
pub proof fn lemma_addresses(c: u8, a: u8)
    requires
        c < 8,
        a < 4,
    ensures
        address(c, 0) == a || address(c, 1) == a || address(c, 2) == a || address(c, 3) == a,
        address(c, 0) != address(c, 1),
        address(c, 0) != address(c, 2),
        address(c, 0) != address(c, 3),
        address(c, 1) != address(c, 2),
        address(c, 1) != address(c, 3),
        address(c, 2) != address(c, 3),
        address(c, 0) < 4,
        address(c, 1) < 4,
        address(c, 2) < 4,
        address(c, 3) < 4,
{
}

} // verus!
