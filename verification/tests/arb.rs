use ndarray::Array2;

use zhang_hilbert::arb::{division_count, Divider};
use zhang_hilbert::{ArbHilbertScan32, ArbHilbertScanCore, LevelState};

fn collect_arb(mut scan: ArbHilbertScan32) -> Vec<[u32; 2]> {
    let mut cells = Vec::new();
    while let Some(cell) = scan.next() {
        cells.push(cell);
    }
    assert_eq!(scan.next(), None);
    cells
}

fn validate_arb_curve(scan: Vec<[u32; 2]>, [w, h]: [u32; 2]) {
    let mut map: Array2<usize> = Array2::zeros([h as usize, w as usize]);

    let mut last: Option<[u32; 2]> = None;

    for (i, x) in scan.into_iter().enumerate() {
        println!("{:?}", x);
        if map[[x[1] as usize, x[0] as usize]] != 0 {
            println!("{:?} has been already visited. \nMap: {:#?}", x, &map);
        }
        map[[x[1] as usize, x[0] as usize]] = i + 1;
        if let Some(last) = last {
            assert!(
                (last[0] != x[0]) != (last[1] != x[1]),
                "Invalid move: {:?} → {:?}. \nMap: {:#?}",
                last,
                x,
                &map
            );
        }
        last = Some(x);
    }

    for ((y, x), value) in map.indexed_iter() {
        if *value == 0 {
            panic!("{:?} was never visited. \nMap: {:#?}", [x, y], &map);
        }
    }
}

/// Every cell once, every move to a rook-adjacent cell, from the origin.
fn validate_arb_walk(cells: &[[u32; 2]], [w, h]: [u32; 2]) {
    assert_eq!(cells.len(), (w as usize) * (h as usize));
    let mut seen = vec![false; cells.len()];
    for cell in cells {
        assert!(cell[0] < w && cell[1] < h);
        let at = (cell[1] * w + cell[0]) as usize;
        assert!(!seen[at], "{:?} produced twice", cell);
        seen[at] = true;
    }
    for pair in cells.windows(2) {
        let dx = pair[0][0].abs_diff(pair[1][0]);
        let dy = pair[0][1].abs_diff(pair[1][1]);
        assert_eq!(dx + dy, 1, "{:?} -> {:?}", pair[0], pair[1]);
    }
    if let Some(first) = cells.first() {
        assert_eq!(*first, [0, 0]);
    }
}

fn parts(major: u32, minor: u32) -> Vec<u32> {
    let mut divider = Divider::new(major, minor);
    let mut widths = Vec::new();
    while let Some(width) = divider.next() {
        widths.push(width);
    }
    assert_eq!(divider.next(), None);
    widths
}

#[test]
fn arb_scan32_patterns() {
    for w in 0..32 {
        for h in 0..32 {
            println!("=== {:?} ===", [w, h]);
            let scan = ArbHilbertScan32::new([w, h]);
            validate_arb_curve(collect_arb(scan), [w, h]);
        }
    }
}

#[test]
fn arb_scan_is_a_walk_over_every_cell() {
    for w in 0..64 {
        for h in 0..64 {
            let cells = collect_arb(ArbHilbertScan32::new([w, h]));
            validate_arb_walk(&cells, [w, h]);
        }
    }
}

#[test]
fn arb_scan_of_long_rectangles() {
    for size in [[400, 7], [7, 400], [1, 300], [300, 1], [1000, 3], [2, 999]] {
        let cells = collect_arb(ArbHilbertScan32::new(size));
        validate_arb_walk(&cells, size);
    }
}

#[test]
fn arb_scan_of_empty_rectangle_is_empty() {
    for n in 0..40 {
        assert!(collect_arb(ArbHilbertScan32::new([0, n])).is_empty());
        assert!(collect_arb(ArbHilbertScan32::new([n, 0])).is_empty());
    }
}

#[test]
fn arb_scan_of_single_cell() {
    assert_eq!(collect_arb(ArbHilbertScan32::new([1, 1])), vec![[0, 0]]);
}

#[test]
fn arb_scan_5x2() {
    assert_eq!(
        collect_arb(ArbHilbertScan32::new([5, 2])),
        vec![
            [0, 0], [0, 1], [1, 1], [1, 0], [2, 0], [2, 1], [3, 1], [3, 0],
            [4, 0], [4, 1],
        ]
    );
}

#[test]
fn arb_scan_swaps_coordinates_of_tall_rectangles() {
    assert_eq!(
        collect_arb(ArbHilbertScan32::new([2, 5])),
        vec![
            [0, 0], [1, 0], [1, 1], [0, 1], [0, 2], [1, 2], [1, 3], [0, 3],
            [0, 4], [1, 4],
        ]
    );
    let cells = collect_arb(ArbHilbertScan32::new([11, 42]));
    assert_eq!(
        cells[..12],
        [
            [0, 0], [0, 1], [1, 1], [1, 0], [2, 0], [2, 1], [2, 2], [2, 3],
            [1, 3], [1, 2], [0, 2], [0, 3],
        ]
    );
    assert_eq!(cells[cells.len() - 3..], [[1, 40], [0, 40], [0, 41]]);
}

#[test]
fn arb_scan_with_explicit_storage() {
    for size in [[40, 7], [7, 40], [3, 100]] {
        let storage = vec![LevelState::default(); 3];
        let first = collect_arb(ArbHilbertScanCore::with_level_state_storage(storage, size));
        let second = collect_arb(ArbHilbertScan32::new(size));
        assert_eq!(first, second);
        validate_arb_walk(&first, size);
    }
}

#[test]
fn division_counts() {
    assert_eq!(division_count(40, 7), 6);
    assert_eq!(division_count(42, 11), 4);
    assert_eq!(division_count(5, 4), 1);
    assert_eq!(division_count(8, 3), 3);
    assert_eq!(division_count(7, 1), 7);
    assert_eq!(division_count(3, 3), 1);
    assert_eq!(division_count(2, 5), 1);
    assert_eq!(division_count(100, 1), 100);
    assert_eq!(division_count(9, 2), 4);
    assert_eq!(division_count(u32::MAX, 1), u32::MAX);
}

#[test]
fn divider_parts() {
    assert_eq!(parts(40, 7), vec![6, 6, 8, 6, 8, 6]);
    assert_eq!(parts(42, 11), vec![10, 10, 12, 10]);
    assert_eq!(parts(8, 3), vec![2, 4, 2]);
    assert_eq!(parts(7, 1), vec![2, 2, 2, 1]);
    assert_eq!(parts(3, 3), vec![3]);
    assert_eq!(parts(5, 4), vec![5]);
    assert_eq!(parts(1, 1), vec![1]);
    assert_eq!(parts(0, 0), Vec::<u32>::new());
    assert_eq!(parts(0, 9), Vec::<u32>::new());
}

#[test]
fn divider_parts_add_up_and_are_even() {
    for major in 1..200 {
        for minor in 1..40 {
            let widths = parts(major, minor);
            assert_eq!(widths.iter().sum::<u32>(), major);
            for width in &widths[..widths.len() - 1] {
                assert!(*width > 0 && width % 2 == 0);
            }
        }
    }
}

#[test]
fn two_arb_scans_of_one_size_agree() {
    for size in [[5, 9], [40, 7], [7, 40], [1, 6], [0, 3], [64, 64]] {
        let first = collect_arb(ArbHilbertScan32::new(size));
        let second = collect_arb(ArbHilbertScan32::new(size));
        assert_eq!(first, second);
    }
}

#[test]
fn arb_scan_of_square_is_the_plain_scan() {
    for n in 1..20 {
        let mut plain = zhang_hilbert::HilbertScan32::new([n, n]);
        let mut cells = Vec::new();
        while let Some(cell) = plain.next() {
            cells.push(cell);
        }
        assert_eq!(collect_arb(ArbHilbertScan32::new([n, n])), cells);
    }
}

#[test]
fn arb_scan_40x7_is_cut_into_six_parts() {
    let cells = collect_arb(ArbHilbertScan32::new([40, 7]));
    validate_arb_walk(&cells, [40, 7]);
    // Each part is scanned from its bottom left to its bottom right.
    let mut at = 0;
    let mut pos = 0;
    for width in [6u32, 6, 8, 6, 8, 6] {
        let part = &cells[at..at + (width * 7) as usize];
        assert_eq!(part[0], [pos, 0]);
        assert_eq!(part[part.len() - 1], [pos + width - 1, 0]);
        assert!(part.iter().all(|cell| cell[0] >= pos && cell[0] < pos + width));
        at += part.len();
        pos += width;
    }
    assert_eq!(at, cells.len());
}

#[test]
fn arb_collect_gives_the_cells_that_next_gives() {
    for size in [[0u32, 4], [1, 1], [40, 7], [7, 40], [9, 9]] {
        assert_eq!(
            ArbHilbertScan32::new(size).collect(),
            collect_arb(ArbHilbertScan32::new(size))
        );
    }
    let mut scan = ArbHilbertScan32::new([5, 2]);
    assert_eq!(scan.next(), Some([0, 0]));
    assert_eq!(scan.next(), Some([0, 1]));
    assert_eq!(
        scan.collect(),
        vec![[1, 1], [1, 0], [2, 0], [2, 1], [3, 1], [3, 0], [4, 0], [4, 1]]
    );
}
