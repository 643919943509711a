use zhang_hilbert::curve::{
    corner_across, corner_side, curve_address, curve_end_point, curve_induced, curve_move,
    curve_primary_axis, curve_primary_negative, curve_scanning_type,
    curve_secondary_negative_at_start, CURVE_ADDRESS_TABLE, CURVE_INDUCTION_TABLE, SCANNING_TYPE,
};

#[test]
fn tables_are_as_published() {
    assert_eq!(
        CURVE_ADDRESS_TABLE,
        [0b10_11_01_00, 0b01_11_10_00, 0b01_00_10_11, 0b10_00_01_11, 0b00_01_11_10, 0b00_10_11_01,
            0b11_10_00_01, 0b11_01_00_10]
    );
    assert_eq!(
        CURVE_INDUCTION_TABLE,
        [
            [1, 0, 0, 3],
            [0, 1, 1, 2],
            [3, 2, 2, 1],
            [2, 3, 3, 0],
            [7, 4, 4, 5],
            [6, 5, 5, 4],
            [5, 6, 6, 7],
            [4, 7, 7, 6]
        ]
    );
    assert_eq!(
        SCANNING_TYPE,
        [
            [[0, 1], [6, 6], [7, 7], [3, 2]],
            [[1, 0], [5, 5], [4, 4], [2, 3]]
        ]
    );
}

#[test]
fn curve_type_flags() {
    let axes: Vec<u8> = (0..8).map(curve_primary_axis).collect();
    assert_eq!(axes, vec![0, 1, 0, 1, 0, 1, 0, 1]);
    let primary: Vec<u8> = (0..8).map(curve_primary_negative).collect();
    assert_eq!(primary, vec![0, 0, 2, 2, 2, 2, 0, 0]);
    let secondary: Vec<u8> = (0..8).map(curve_secondary_negative_at_start).collect();
    assert_eq!(secondary, vec![0, 0, 2, 2, 0, 0, 2, 2]);
    let ends: Vec<u8> = (0..8).map(curve_end_point).collect();
    assert_eq!(ends, vec![2, 1, 1, 2, 0, 0, 3, 3]);
}

#[test]
fn curve_addresses_follow_the_table() {
    for c in 0..8u8 {
        for k in 0..4u8 {
            assert_eq!(
                curve_address(c, k),
                (CURVE_ADDRESS_TABLE[c as usize] >> (k * 2)) & 3
            );
            assert_eq!(curve_induced(c, k), CURVE_INDUCTION_TABLE[c as usize][k as usize]);
        }
    }
    // Type 0 goes up, right, down.
    assert_eq!(curve_address(0, 0), 0b00);
    assert_eq!(curve_address(0, 1), 0b01);
    assert_eq!(curve_address(0, 2), 0b11);
    assert_eq!(curve_address(0, 3), 0b10);
}

#[test]
fn curve_moves() {
    assert_eq!(curve_move(0, 0), (1, true));
    assert_eq!(curve_move(0, 1), (0, true));
    assert_eq!(curve_move(0, 2), (1, false));
    assert_eq!(curve_move(1, 0), (0, true));
    assert_eq!(curve_move(2, 0), (1, false));
    assert_eq!(curve_move(3, 0), (0, false));
    for c in 0..8u8 {
        for k in 0..3u8 {
            let (axis, positive) = curve_move(c, k);
            let from = curve_address(c, k);
            let to = curve_address(c, k + 1);
            assert_eq!(corner_across(from, axis), to);
            assert_eq!(corner_side(to, axis), positive);
            assert_eq!(corner_side(from, axis), !positive);
        }
    }
}

#[test]
fn corners() {
    assert!(!corner_side(0b00, 0) && !corner_side(0b00, 1));
    assert!(!corner_side(0b01, 0) && corner_side(0b01, 1));
    assert!(corner_side(0b10, 0) && !corner_side(0b10, 1));
    assert!(corner_side(0b11, 0) && corner_side(0b11, 1));
    assert_eq!(corner_across(0b00, 0), 0b10);
    assert_eq!(corner_across(0b00, 1), 0b01);
    assert_eq!(corner_across(0b11, 0), 0b01);
    assert_eq!(corner_across(0b11, 1), 0b10);
}

#[test]
fn scanning_types_start_at_the_entry_corner() {
    for positive in [true, false] {
        for enter in 0..4u8 {
            for axis in 0..2u8 {
                let c = curve_scanning_type(positive, enter, axis);
                assert_eq!(curve_address(c, 0), enter);
                assert_eq!(corner_side(curve_end_point(c), axis), positive);
            }
        }
    }
    assert_eq!(curve_scanning_type(true, 0b00, 0), 0);
    assert_eq!(curve_scanning_type(true, 0b00, 1), 1);
    assert_eq!(curve_scanning_type(true, 0b01, 0), 6);
    assert_eq!(curve_scanning_type(false, 0b01, 1), 5);
    assert_eq!(curve_scanning_type(true, 0b10, 1), 7);
    assert_eq!(curve_scanning_type(false, 0b10, 0), 4);
    assert_eq!(curve_scanning_type(false, 0b11, 0), 2);
    assert_eq!(curve_scanning_type(true, 0b11, 0), 3);
}
