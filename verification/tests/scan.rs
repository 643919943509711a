use ndarray::Array2;

use zhang_hilbert::{num_levels_for_size, HilbertScan32, HilbertScanCore, LevelState};

fn collect(mut scan: HilbertScan32) -> Vec<[u32; 2]> {
    let mut cells = Vec::new();
    while let Some(cell) = scan.next() {
        cells.push(cell);
    }
    assert_eq!(scan.next(), None);
    cells
}

fn validate_curve(scan: Vec<[u32; 2]>, [w, h]: [u32; 2]) {
    let mut map: Array2<usize> = Array2::zeros([h as usize, w as usize]);

    let mut last: Option<[u32; 2]> = None;

    for (i, x) in scan.into_iter().enumerate() {
        println!("{:?}", x);
        if map[[x[1] as usize, x[0] as usize]] != 0 {
            println!("{:?} has been already visited. \nMap: {:#?}", x, &map);
        }
        map[[x[1] as usize, x[0] as usize]] = i + 1;
        if let Some(last) = last {
            assert!(
                (last[0] != x[0]) != (last[1] != x[1]),
                "Invalid move: {:?} → {:?}. \nMap: {:#?}",
                last,
                x,
                &map
            );
        }
        last = Some(x);
    }

    for ((y, x), value) in map.indexed_iter() {
        if *value == 0 {
            panic!("{:?} was never visited. \nMap: {:#?}", [x, y], &map);
        }
    }
}

/// Every cell once, every move to a rook-adjacent cell, from the origin.
fn validate_walk(cells: &[[u32; 2]], [w, h]: [u32; 2]) {
    assert_eq!(cells.len(), (w as usize) * (h as usize));
    let mut seen = vec![false; cells.len()];
    for cell in cells {
        assert!(cell[0] < w && cell[1] < h);
        let at = (cell[1] * w + cell[0]) as usize;
        assert!(!seen[at], "{:?} produced twice", cell);
        seen[at] = true;
    }
    for pair in cells.windows(2) {
        let dx = pair[0][0].abs_diff(pair[1][0]);
        let dy = pair[0][1].abs_diff(pair[1][1]);
        assert_eq!(dx + dy, 1, "{:?} -> {:?}", pair[0], pair[1]);
    }
    if let Some(first) = cells.first() {
        assert_eq!(*first, [0, 0]);
    }
}

#[test]
fn normal_scan32_patterns() {
    for w in 0..32 {
        for h in 0..32 {
            println!("=== {:?} ===", [w, h]);
            let scan = HilbertScan32::new([w, h]);
            validate_curve(collect(scan), [w, h]);
        }
    }
}

#[test]
fn scan_is_a_walk_over_every_cell() {
    for w in 0..64 {
        for h in 0..64 {
            let cells = collect(HilbertScan32::new([w, h]));
            validate_walk(&cells, [w, h]);
        }
    }
}

#[test]
fn scan_of_even_width_ends_at_bottom_right() {
    for w in (2..64).step_by(2) {
        for h in 1..64 {
            let cells = collect(HilbertScan32::new([w, h]));
            assert_eq!(*cells.last().unwrap(), [w - 1, 0]);
        }
    }
}

#[test]
fn scan_of_empty_rectangle_is_empty() {
    for n in 0..40 {
        assert_eq!(collect(HilbertScan32::new([0, n])), Vec::<[u32; 2]>::new());
        assert_eq!(collect(HilbertScan32::new([n, 0])), Vec::<[u32; 2]>::new());
    }
}

#[test]
fn scan_of_single_cell() {
    assert_eq!(collect(HilbertScan32::new([1, 1])), vec![[0, 0]]);
}

#[test]
fn scan_of_single_row_or_column() {
    assert_eq!(
        collect(HilbertScan32::new([1, 4])),
        vec![[0, 0], [0, 1], [0, 2], [0, 3]]
    );
    assert_eq!(
        collect(HilbertScan32::new([4, 1])),
        vec![[0, 0], [1, 0], [2, 0], [3, 0]]
    );
}

#[test]
fn scan_4x4() {
    let cells = collect(HilbertScan32::new([4, 4]));
    assert_eq!(cells.len(), 16);
    validate_walk(&cells, [4, 4]);
    assert_eq!(
        cells,
        vec![
            [0, 0], [1, 0], [1, 1], [0, 1], [0, 2], [0, 3], [1, 3], [1, 2],
            [2, 2], [2, 3], [3, 3], [3, 2], [3, 1], [2, 1], [2, 0], [3, 0],
        ]
    );
}

#[test]
fn scan_6x7_leaves_at_bottom_right() {
    let cells = collect(HilbertScan32::new([6, 7]));
    validate_walk(&cells, [6, 7]);
    assert_eq!(*cells.last().unwrap(), [5, 0]);
    assert_eq!(
        cells,
        vec![
            [0, 0], [1, 0], [1, 1], [0, 1], [0, 2], [1, 2], [1, 3], [0, 3],
            [0, 4], [1, 4], [1, 5], [0, 5], [0, 6], [1, 6], [2, 6], [2, 5],
            [3, 5], [3, 6], [4, 6], [5, 6], [5, 5], [4, 5], [4, 4], [5, 4],
            [5, 3], [4, 3], [3, 3], [3, 4], [2, 4], [2, 3], [2, 2], [3, 2],
            [4, 2], [5, 2], [5, 1], [4, 1], [3, 1], [2, 1], [2, 0], [3, 0],
            [4, 0], [5, 0],
        ]
    );
}

#[test]
fn scan_small_odd_rectangles() {
    assert_eq!(
        collect(HilbertScan32::new([2, 3])),
        vec![[0, 0], [0, 1], [0, 2], [1, 2], [1, 1], [1, 0]]
    );
    assert_eq!(
        collect(HilbertScan32::new([3, 2])),
        vec![[0, 0], [0, 1], [1, 1], [1, 0], [2, 0], [2, 1]]
    );
    assert_eq!(
        collect(HilbertScan32::new([4, 3])),
        vec![
            [0, 0], [1, 0], [1, 1], [0, 1], [0, 2], [1, 2], [2, 2], [3, 2],
            [3, 1], [2, 1], [2, 0], [3, 0],
        ]
    );
    assert_eq!(
        collect(HilbertScan32::new([5, 3])),
        vec![
            [0, 0], [1, 0], [1, 1], [0, 1], [0, 2], [1, 2], [2, 2], [3, 2],
            [3, 1], [2, 1], [2, 0], [3, 0], [4, 0], [4, 1], [4, 2],
        ]
    );
}

#[test]
fn two_scans_of_one_size_agree() {
    for size in [[5, 9], [16, 16], [33, 7], [1, 6], [0, 3]] {
        let first = collect(HilbertScan32::new(size));
        let storage = vec![LevelState::default(); num_levels_for_size(size)];
        let second = collect(HilbertScanCore::with_level_state_storage(storage, size));
        assert_eq!(first, second);
    }
}

#[test]
fn storage_is_given_back() {
    let storage = vec![LevelState::default(); 7];
    let mut scan = HilbertScanCore::with_level_state_storage(storage, [9, 12]);
    assert_eq!(scan.next(), Some([0, 0]));
    assert_eq!(scan.into_level_states().len(), 7);
}

#[test]
fn large_scan() {
    let cells = collect(HilbertScan32::new([114, 514]));
    validate_walk(&cells, [114, 514]);
    let cells = collect(HilbertScan32::new([257, 255]));
    validate_walk(&cells, [257, 255]);
}

#[test]
fn number_of_levels() {
    assert_eq!(num_levels_for_size([0, 9]), 0);
    assert_eq!(num_levels_for_size([9, 0]), 0);
    assert_eq!(num_levels_for_size([1, 9]), 1);
    assert_eq!(num_levels_for_size([2, 9]), 2);
    assert_eq!(num_levels_for_size([3, 3]), 2);
    assert_eq!(num_levels_for_size([4, 4]), 3);
    assert_eq!(num_levels_for_size([300, 255]), 8);
    assert_eq!(num_levels_for_size([u32::MAX, u32::MAX]), 32);
}

#[test]
fn level_states_start_blank() {
    let state = LevelState::default();
    assert_eq!(format!("{:?}", state), "LevelState { size: [0, 0], curve_type: 0, progress: 0 }");
    let info = zhang_hilbert::LevelInfo::default();
    assert_eq!(format!("{:?}", info), "LevelInfo");
}

#[test]
fn scan_needs_no_more_than_the_levels_asked_for() {
    for size in [[2u32, 2], [3, 9], [17, 300], [64, 64], [1, 5], [1000, 1000]] {
        let storage = vec![LevelState::default(); num_levels_for_size(size)];
        let cells = collect(HilbertScanCore::with_level_state_storage(storage, size));
        validate_walk(&cells, size);
    }
}

#[test]
fn collect_gives_the_cells_that_next_gives() {
    for size in [[0u32, 4], [1, 1], [6, 7], [9, 9], [32, 5]] {
        assert_eq!(HilbertScan32::new(size).collect(), collect(HilbertScan32::new(size)));
    }
    // The cells produced before are left out.
    let mut scan = HilbertScan32::new([2, 2]);
    assert_eq!(scan.next(), Some([0, 0]));
    assert_eq!(scan.collect(), vec![[0, 1], [1, 1], [1, 0]]);
}
