//! The scan as a state machine on plain values: what a scan is, step by
//! step, for every size.
use crate::curve::{
    across, address, end_corner, induced, move_axis, move_positive, primary_axis, primary_negative,
    scanning_type, secondary_negative, side,
};
use crate::split::{far_part, fine_far_part, fine_near_part, floor_log2, near_part};
use vstd::prelude::*;

verus! {

/// One subdivision level: the size of its block, the curve type of the
/// block, and which of the four sub-blocks the scan is in.
pub struct Level {
    pub size: (nat, nat),
    pub curve_type: u8,
    pub progress: u8,
}

/// The state of a scan.
pub struct ScanState {
    /// Size of the rectangle.
    pub size: (nat, nat),
    /// The levels, from the whole rectangle down to the leaf block.
    pub levels: Seq<Level>,
    /// Size of the current sub-block of the leaf block, while the leaf is
    /// split once more.
    pub sub_size: Option<(nat, nat)>,
    /// The cell that is produced next.
    pub cursor: (int, int),
    /// Rows left in the block being zigzagged, this one included.
    pub rows: nat,
    /// Cells left in this row, this one included.
    pub cells: nat,
    /// Whether this row runs towards smaller coordinates.
    pub secondary_neg: bool,
    /// Curve type of the block being zigzagged.
    pub curve_type: u8,
    /// The corner at which the block being zigzagged is left.
    pub end: u8,
    /// Whether the helper row of the first leaf block is still to come.
    pub helper_row: bool,
    /// Whether every cell has been produced.
    pub done: bool,
}

/// A move along an axis.
pub struct Heading {
    /// The axis: 0 is X, 1 is Y.
    pub axis: int,
    /// Whether the move goes towards larger coordinates.
    pub positive: bool,
}

/// What a climb gives: the levels after it, and the level at which it
/// stopped, if it stopped.
pub struct Climb {
    pub levels: Seq<Level>,
    pub stop: Option<int>,
}

/// `floor(log2(min(w, h))) + 1` levels for a rectangle whose sides are at
/// least 2, one level for a single row, none for an empty rectangle.
pub open spec fn num_levels_spec(w: nat, h: nat) -> nat {
    let m = if w < h { w } else { h };
    if m == 0 {
        0
    } else {
        floor_log2(m) + 1
    }
}

/// Component of a pair along an axis.
pub open spec fn pick(p: (nat, nat), axis: int) -> nat {
    if axis == 0 {
        p.0
    } else {
        p.1
    }
}

/// The cell one step from `p` along an axis.
pub open spec fn step(p: (int, int), axis: int, positive: bool) -> (int, int) {
    let by = if positive { 1int } else { -1int };
    if axis == 0 {
        (p.0 + by, p.1)
    } else {
        (p.0, p.1 + by)
    }
}

/// Size of the sub-block at address `adr` of a block of the given size.
pub open spec fn quad_size(size: (nat, nat), adr: u8) -> (nat, nat) {
    (
        if side(adr, 0) { far_part(size.0) } else { near_part(size.0) },
        if side(adr, 1) { far_part(size.1) } else { near_part(size.1) },
    )
}

/// Size of the sub-block at address `adr` in the finest split of a leaf
/// block of the given size and curve type. Along Y, a leaf of curve type 0
/// gives the far part to its near sub-blocks.
pub open spec fn fine_quad_size(size: (nat, nat), adr: u8, curve_type: u8) -> (nat, nat) {
    (
        if side(adr, 0) { fine_far_part(size.0) } else { fine_near_part(size.0) },
        if side(adr, 1) != (curve_type == 0) {
            fine_far_part(size.1)
        } else {
            fine_near_part(size.1)
        },
    )
}

/// The level of the current sub-block of level `l`.
pub open spec fn child_level(l: Level) -> Level {
    Level {
        size: quad_size(l.size, address(l.curve_type, l.progress)),
        curve_type: induced(l.curve_type, l.progress),
        progress: 0,
    }
}

/// The levels down to level `d`, each the first sub-block of the one above
/// it, below the levels given.
pub open spec fn descend_from(levels: Seq<Level>, d: int) -> Seq<Level>
    decreases d + 1 - levels.len(),
{
    if levels.len() > d || levels.len() == 0 {
        levels
    } else {
        descend_from(levels.push(child_level(levels.last())), d)
    }
}

/// The levels after those from level `i` up have moved on to their next
/// sub-block until one has a next sub-block, and that level, if there is
/// one.
pub open spec fn climb(levels: Seq<Level>, i: int) -> Climb
    decreases i,
{
    if i < 0 || i >= levels.len() {
        Climb { levels, stop: None }
    } else {
        let l = levels[i];
        let moved = levels.update(
            i,
            Level { size: l.size, curve_type: l.curve_type, progress: (l.progress + 1) as u8 },
        );
        if l.progress + 1 == 4 {
            if i == 0 {
                Climb { levels: moved, stop: None }
            } else {
                climb(moved, i - 1)
            }
        } else {
            Climb { levels: moved, stop: Some(i) }
        }
    }
}

/// The axis and the sign of the move that will leave the leaf: that of the
/// level nearest to the leaf, among the levels above level `i`, that has a
/// next sub-block.
pub open spec fn direction(levels: Seq<Level>, i: int) -> Option<Heading>
    decreases i,
{
    if i <= 0 || i > levels.len() {
        None
    } else {
        let l = levels[i - 1];
        if l.progress != 3 {
            Some(
                Heading {
                    axis: move_axis(l.curve_type, l.progress),
                    positive: move_positive(l.curve_type, l.progress),
                },
            )
        } else {
            direction(levels, i - 1)
        }
    }
}

/// The state at the first cell of a block of the given size that is
/// zigzagged with pattern `c` and left at corner `end`.
pub open spec fn start_block(s: ScanState, size: (nat, nat), c: u8, end: u8) -> ScanState {
    ScanState {
        rows: pick(size, primary_axis(c)),
        cells: pick(size, 1 - primary_axis(c)),
        secondary_neg: secondary_negative(c),
        curve_type: c,
        end,
        ..s
    }
}

/// The state at the first cell of the leaf block, which is scanned with
/// pattern `c`: split once more where both its sides are at least 3, unless
/// it is scanned row by row.
pub open spec fn enter_leaf(s: ScanState, c: u8, plain: bool) -> ScanState {
    let d = s.levels.len() - 1;
    let leaf = s.levels[d];
    if leaf.size.0 >= 3 && leaf.size.1 >= 3 && !plain {
        let sub = fine_quad_size(leaf.size, address(c, 0), c);
        start_block(
            ScanState {
                levels: s.levels.update(d, Level { size: leaf.size, curve_type: c, progress: 0 }),
                sub_size: Some(sub),
                ..s
            },
            sub,
            induced(c, 0),
            end_corner(induced(c, 0)),
        )
    } else {
        start_block(
            ScanState { sub_size: None, ..s },
            leaf.size,
            c,
            if plain {
                2
            } else {
                end_corner(c)
            },
        )
    }
}

/// The state at the first cell of the first leaf block, once the levels
/// have been filled in. An odd width asks for a type-0 pattern and a helper
/// row. An odd height asks for a type-1 pattern and a helper row, unless the
/// rectangle is a single block, which is scanned with type 0.
pub open spec fn first_leaf(s: ScanState) -> ScanState {
    let d = s.levels.len() - 1;
    let leaf = s.levels[d];
    let w = s.size.0;
    let h = s.size.1;
    let c: u8 = if w % 2 == 1 {
        0
    } else if h % 2 == 1 {
        if d == 0 {
            0
        } else {
            1
        }
    } else {
        leaf.curve_type
    };
    let helper = w % 2 == 1 || (h % 2 == 1 && d > 0);
    let size = if !helper {
        leaf.size
    } else if primary_axis(c) == 0 {
        ((leaf.size.0 - 1) as nat, leaf.size.1)
    } else {
        (leaf.size.0, (leaf.size.1 - 1) as nat)
    };
    enter_leaf(
        ScanState {
            levels: s.levels.update(d, Level { size, curve_type: c, progress: 0 }),
            helper_row: helper,
            ..s
        },
        c,
        false,
    )
}

/// The state of a scan of a rectangle of the given size before the first
/// cell is produced.
pub open spec fn initial(w: nat, h: nat) -> ScanState {
    let n = num_levels_spec(w, h);
    let blank = ScanState {
        size: (w, h),
        levels: Seq::empty(),
        sub_size: None,
        cursor: (0, 0),
        rows: 0,
        cells: 0,
        secondary_neg: false,
        curve_type: 0,
        end: 0,
        helper_row: false,
        done: false,
    };
    let top = Level { size: (w, h), curve_type: 0, progress: 0 };
    if n == 0 {
        ScanState { done: true, ..blank }
    } else if n == 1 {
        // A single row or column.
        ScanState {
            levels: seq![top],
            rows: 1,
            cells: if w == 1 { h } else { w },
            curve_type: if w == 1 { 0 } else { 5 },
            end: if w == 1 { 3 } else { 2 },
            ..blank
        }
    } else {
        first_leaf(ScanState { levels: descend_from(seq![top], n - 2), ..blank })
    }
}

/// The state after a move within the block being zigzagged, or `None` at
/// the last cell of the block.
pub open spec fn advance(s: ScanState) -> Option<ScanState> {
    let p = primary_axis(s.curve_type);
    let d = s.levels.len() - 1;
    let width = pick(
        if s.sub_size is Some {
            s.sub_size->0
        } else {
            s.levels[d].size
        },
        1 - p,
    );
    if s.cells != 1 {
        Some(
            ScanState {
                cursor: step(s.cursor, 1 - p, !s.secondary_neg),
                cells: (s.cells - 1) as nat,
                ..s
            },
        )
    } else if s.rows != 1 {
        Some(
            ScanState {
                cursor: step(s.cursor, p, !primary_negative(s.curve_type)),
                rows: (s.rows - 1) as nat,
                cells: width,
                secondary_neg: !s.secondary_neg,
                ..s
            },
        )
    } else {
        None
    }
}

/// The state at the first cell of the helper row of the first leaf block.
pub open spec fn start_helper_row(s: ScanState) -> ScanState {
    let d = s.levels.len() - 1;
    let leaf = s.levels[d];
    let p = primary_axis(leaf.curve_type);
    ScanState {
        sub_size: None,
        cursor: step(s.cursor, p, true),
        rows: 1,
        cells: pick(leaf.size, 1 - p),
        secondary_neg: false,
        curve_type: leaf.curve_type,
        end: 3,
        helper_row: false,
        ..s
    }
}

/// The state at the first cell of the next sub-block of the leaf, after the
/// leaf level has moved on to it.
pub open spec fn next_sub_block(s: ScanState) -> ScanState {
    let d = s.levels.len() - 1;
    let leaf = s.levels[d];
    let from = (leaf.progress - 1) as u8;
    let sub = fine_quad_size(leaf.size, address(leaf.curve_type, leaf.progress), leaf.curve_type);
    let c = induced(leaf.curve_type, leaf.progress);
    start_block(
        ScanState {
            sub_size: Some(sub),
            cursor: step(
                s.cursor,
                move_axis(leaf.curve_type, from),
                move_positive(leaf.curve_type, from),
            ),
            ..s
        },
        sub,
        c,
        end_corner(c),
    )
}

/// The state at the first cell of the next leaf block, after level `j` has
/// moved on to its next sub-block.
pub open spec fn next_leaf(s: ScanState, j: int) -> ScanState {
    let d = s.levels.len() - 1;
    let l = s.levels[j];
    let from = (l.progress - 1) as u8;
    let axis = move_axis(l.curve_type, from);
    let enter = across(s.end, axis);
    let levels = descend_from(s.levels.take(j + 1), d);
    let dir = direction(levels, d);
    // The last block of a rectangle of even width and odd height is scanned
    // row by row, so that the scan ends at the bottom right.
    let plain = dir is None && s.size.0 % 2 == 0 && s.size.1 % 2 == 1;
    let c = if plain {
        5
    } else if dir is Some {
        scanning_type(dir->0.positive, enter, dir->0.axis)
    } else {
        scanning_type(true, enter, 0)
    };
    enter_leaf(
        ScanState { levels, cursor: step(s.cursor, axis, move_positive(l.curve_type, from)), ..s },
        c,
        plain,
    )
}

/// The state after the cell at the cursor has been produced.
pub open spec fn next(s: ScanState) -> ScanState {
    let d = s.levels.len() - 1;
    if s.done {
        s
    } else if advance(s) is Some {
        advance(s)->0
    } else if s.helper_row && (s.sub_size is None || s.levels[d].progress == 3) {
        start_helper_row(s)
    } else if s.sub_size is None && d == 0 {
        ScanState { done: true, ..s }
    } else {
        let up = climb(
            s.levels,
            if s.sub_size is Some {
                d
            } else {
                d - 1
            },
        );
        let climbed = ScanState { levels: up.levels, ..s };
        if up.stop is None {
            ScanState { done: true, ..climbed }
        } else if up.stop->0 == d {
            next_sub_block(climbed)
        } else {
            next_leaf(climbed, up.stop->0)
        }
    }
}

/// The state of a scan of a rectangle of the given size after `k` cells
/// have been produced.
pub open spec fn after(w: nat, h: nat, k: nat) -> ScanState
    decreases k,
{
    if k == 0 {
        initial(w, h)
    } else {
        next(after(w, h, (k - 1) as nat))
    }
}

/// The pseudo-Hilbert scan of a rectangle of the given size: its cells, in
/// the order in which the scan produces them.
pub open spec fn scan_order(w: nat, h: nat) -> Seq<(int, int)> {
    Seq::new(w * h, |k: int| after(w, h, k as nat).cursor)
}

/// The scan of a rectangle without cells has no cells.
pub proof fn lemma_scan_order_empty(w: nat, h: nat)
    requires
        w == 0 || h == 0,
    ensures
        scan_order(w, h) == Seq::<(int, int)>::empty(),
{
    assert(w * h == 0) by (nonlinear_arith)
        requires
            w == 0 || h == 0,
    ;
    assert(scan_order(w, h) =~= Seq::<(int, int)>::empty());
}

/// The scan of a rectangle of one cell is that cell.
pub proof fn lemma_scan_order_single()
    ensures
        scan_order(1, 1) == seq![(0int, 0int)],
{
    assert(1nat * 1nat == 1) by (nonlinear_arith);
    assert(floor_log2(1) == 0);
    assert(after(1, 1, 0).cursor == (0int, 0int));
    assert(scan_order(1, 1) =~= seq![(0int, 0int)]);
}

} // verus!
