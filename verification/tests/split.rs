use zhang_hilbert::split::extra_division_subblock_size;
use zhang_hilbert::{division_l1, log2_floor};

#[test]
fn it_works() {
    assert_eq!(2 + 2, 4);
}

#[test]
fn log2_sanity() {
    assert_eq!(log2_floor(1), 0);
    assert_eq!(log2_floor(2), 1);
    assert_eq!(log2_floor(3), 1);
    assert_eq!(log2_floor(256), 8);
    assert_eq!(log2_floor(300), 8);
    assert_eq!(log2_floor(511), 8);
    assert_eq!(log2_floor(512), 9);
}

#[test]
fn division_sanity() {
    assert_eq!(division_l1(18u32), 8);
    assert_eq!(division_l1(32u32), 16);
}

#[test]
fn division_of_small_sides() {
    assert_eq!(division_l1(2), 1);
    assert_eq!(division_l1(3), 2);
    assert_eq!(division_l1(4), 2);
    assert_eq!(division_l1(5), 2);
    assert_eq!(division_l1(6), 4);
    assert_eq!(division_l1(7), 4);
    assert_eq!(division_l1(24), 16);
    assert_eq!(division_l1(u32::MAX), 1 << 31);
}

#[test]
fn log2_of_largest() {
    assert_eq!(log2_floor(u32::MAX), 31);
    assert_eq!(log2_floor(1 << 31), 31);
}

#[test]
fn finest_split() {
    // The far part is half of the side, rounded up to an even number.
    assert_eq!(extra_division_subblock_size([3, 3], 0b11, 1), [2, 2]);
    assert_eq!(extra_division_subblock_size([3, 3], 0b00, 1), [1, 1]);
    assert_eq!(extra_division_subblock_size([6, 7], 0b10, 1), [4, 3]);
    assert_eq!(extra_division_subblock_size([6, 7], 0b01, 1), [2, 4]);
    // In a block of curve type 0 the near sub-blocks get the far part
    // along Y.
    assert_eq!(extra_division_subblock_size([6, 7], 0b00, 0), [2, 4]);
    assert_eq!(extra_division_subblock_size([6, 7], 0b11, 0), [4, 3]);
    assert_eq!(extra_division_subblock_size([u32::MAX, 8], 0b10, 1), [1 << 31, 4]);
    // Only the two lowest bits of the address count.
    assert_eq!(extra_division_subblock_size([6, 7], 0b1110, 1), [4, 3]);
    assert_eq!(extra_division_subblock_size([6, 7], 0b0101, 1), [2, 4]);
}
