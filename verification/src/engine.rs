//! The core implementation of the scan: a stack of subdivision levels and
//! the zigzag over the block at its bottom.
//!
//! # The invariant
//!
//! The engine keeps no coordinates but those of the cursor. What keeps the
//! cursor inside the rectangle is the invariant `Engine::wf`, which places
//! every block by a ghost origin and says where in its block the cursor
//! stands:
//!
//! - `stack_ok`: every level above the leaf level holds the current
//!   sub-block of the level above it, and every block lies inside the
//!   rectangle;
//! - `leaf_ok`: the leaf level holds the current sub-block of the level above
//!   it, less the helper row, and the pattern of the leaf is one that ends on
//!   the side of the leaf that faces the next leaf;
//! - `block_ok`: the cursor stands in the block being zigzagged where the
//!   counts of rows and cells left say, and the zigzag ends in the corner
//!   `bb_end`.
//!
//! A step within a block keeps the invariant by arithmetic alone. A step to
//! the next leaf climbs to the level that has a next sub-block, steps across
//! the border, and descends to the first leaf of that sub-block. The old
//! leaf lies in the corner of the old sub-block at which a Hilbert curve
//! leaves it, and the new leaf in the corner of the new sub-block at which a
//! Hilbert curve enters it; the two corners lie across the border from one
//! another, so the two leaves share the border and, along it, their extent.
//!
//! The proofs are in the sub-modules: `blocks` (the zigzag), `levels` (the
//! stack), `entry` (the step to the next leaf), `cover` (which cells have
//! been produced) and `refine` (the engine as an implementation of the state
//! machine on plain values).
use crate::curve::{
    across, address, corner_across, corner_side, curve_address, curve_end_point, curve_induced,
    curve_move, curve_primary_axis, curve_primary_negative, curve_scanning_type,
    curve_secondary_negative_at_start, end_corner, induced, move_axis, move_positive, primary_axis,
    primary_negative, secondary_negative, side, start_corner,
};
use crate::split::{
    division_l1, extra_division_subblock_size, far_part, fine_near_part, fine_sub_size, floor_log2,
    lemma_floor_log2_monotonic, lemma_parts, lemma_parts_bits, log2_floor, map_pair, near_part,
};
use crate::model::{Level, num_levels_spec, ScanState};
use crate::grid::adjacent;
use crate::model;
use self::blocks::{
    lemma_block_exit, lemma_enter_leaf, lemma_helper_row, lemma_leaf_exit, lemma_moved,
    lemma_next_sub, lemma_room, lemma_single_leaf_end, lemma_sub_room, lemma_sub_stepped,
};
use self::levels::{
    lemma_after_climb, lemma_all_last_top, lemma_descend_step, lemma_dock_leaf, lemma_dock_top,
    lemma_dock_up, lemma_first_entry, lemma_first_ready, lemma_same_descending,
};
use self::entry::{lemma_cross_room, lemma_entry, lemma_landed};
use self::cover::{
    lemma_above_first, lemma_block_fresh, lemma_cursor_fresh, lemma_done_visited,
    lemma_enter_visited, lemma_helper_visited, lemma_leaf_visited, lemma_moved_visited,
    lemma_next_sub_visited,
};
use self::refine::{
    lemma_model_climb_step, lemma_model_cross, lemma_model_descend_step, lemma_model_enter,
    lemma_model_first, lemma_model_helper, lemma_model_kind, lemma_model_levels_len,
    lemma_model_moved, lemma_model_next_leaf, lemma_model_next_sub, lemma_model_same_but_levels,
    lemma_model_same_size, lemma_model_stuck,
};
use vstd::prelude::*;

mod blocks;
mod levels;
mod entry;
mod cover;
mod refine;

verus! {

/// Stores pre-calculated values used to generate a pseudo-Hilbert scan of
/// a specific size.
#[derive(Debug, Default)]
pub struct LevelInfo {}

/// Stores the state data required for a single subdivision level.
#[derive(Debug, Clone, Copy)]
pub struct LevelState {
    /// The size of this level's block.
    pub(crate) size: [u32; 2],
    /// The curve type of this block: the order in which its sub-blocks are
    /// visited.
    pub(crate) curve_type: u8,
    /// An integer in `0..4`: which sub-block of this level's block the scan
    /// is in.
    pub(crate) progress: u8,
}

impl LevelState {
    /// Whether this is the state of an empty block of curve type 0 that is
    /// in its first sub-block.
    pub closed spec fn is_blank(&self) -> bool {
        &&& self.size[0] == 0
        &&& self.size[1] == 0
        &&& self.curve_type == 0
        &&& self.progress == 0
    }
}

/// A level state as plain values.
impl View for LevelState {
    type V = Level;

    closed spec fn view(&self) -> Level {
        Level {
            size: (self.size[0] as nat, self.size[1] as nat),
            curve_type: self.curve_type,
            progress: self.progress,
        }
    }
}

impl Default for LevelState {
    fn default() -> (r: Self)
        ensures
            r.is_blank(),
    {
        LevelState { size: [0, 0], curve_type: 0, progress: 0 }
    }
}

/// Which rule chose the pattern of the leaf block that the scan is in.
enum LeafKind {
    /// A rectangle one cell wide or high: a single straight row.
    Line,
    /// The first leaf block, whose pattern follows from the parity of the
    /// rectangle, with its helper row where it has one.
    First,
    /// A later leaf block, whose pattern follows from the corner at which it
    /// was entered and the side on which it is to be left.
    Inner,
    /// The last leaf block of a rectangle of even width and odd height: a
    /// plain zigzag with an odd number of rows, which ends at the bottom
    /// right.
    Plain,
}

/// A move from a sub-block of a level to the next one.
struct Move {
    /// The level.
    pub level: usize,
    /// The axis of the move: 0 is X, 1 is Y.
    pub axis: u8,
    /// Whether the move goes towards larger coordinates.
    pub positive: bool,
}

/// The state machine that walks a rectangle in pseudo-Hilbert order: the
/// stack of level states, the cursor, and the state of the zigzag over the
/// block that the cursor is in.
///
/// The level states are kept in a vector handed in by the caller, whose
/// first `num_levels_for_size(size)` elements are used.
pub(crate) struct Engine {
    /// The size of the rectangle.
    size: [u32; 2],
    /// The number of levels that the rectangle needs.
    num_levels: usize,
    /// The level whose size is that of the block being zigzagged: the leaf
    /// level, or the one below it while the leaf is split once more.
    last_level: usize,
    level_states: Vec<LevelState>,
    /// The cell that is produced next.
    position: [u32; 2],
    // ============ Basic (last-level block) scanning state =============
    /// Rows left, this one included, and cells left in this row, this one
    /// included.
    bb_progress: [u32; 2],
    /// Whether this row runs towards smaller coordinates.
    bb_secondary_neg: bool,
    /// The curve type of the block being zigzagged.
    bb_curve_type: u8,
    /// The corner at which the block being zigzagged is left.
    bb_end: u8,
    /// Whether the helper row of the first leaf is still to come.
    bb_helper_row: bool,
    /// Whether every cell has been produced.
    done: bool,
    /// Origin of the block of each level.
    origins: Ghost<Seq<(int, int)>>,
    /// Which rule chose the pattern of the leaf block.
    kind: Ghost<LeafKind>,
}

/// Coordinate of a point along an axis.
spec fn co(p: (int, int), a: int) -> int {
    if a == 0 {
        p.0
    } else {
        p.1
    }
}

/// Length of the block of level `l` along axis `a`.
spec fn lsz(l: LevelState, a: int) -> nat {
    l.size[a] as nat
}

/// Length of the near or the far part of a side of length `x`.
spec fn part(x: nat, far: bool) -> nat {
    if far {
        far_part(x)
    } else {
        near_part(x)
    }
}

/// Whether the current sub-block of level `l` is a far one along axis `a`.
spec fn child_far(l: LevelState, a: int) -> bool {
    side(address(l.curve_type, l.progress), a)
}

/// Length of the current sub-block of level `l` along axis `a`.
spec fn child_size(l: LevelState, a: int) -> nat {
    part(lsz(l, a), child_far(l, a))
}

/// Origin of the current sub-block of level `l`, whose block has origin `o`,
/// along axis `a`.
spec fn child_org(l: LevelState, o: (int, int), a: int) -> int {
    co(o, a) + if child_far(l, a) {
        near_part(lsz(l, a)) as int
    } else {
        0
    }
}

/// Level `i` above the leaf level `d` is sound in itself: its block lies
/// inside the rectangle and is large enough to be split down to the leaf
/// level, and its curve type is one that can stand where the block stands.
/// A block of odd width lies at the left edge, where type 3 never stands; a
/// block of odd height lies at the bottom edge, where type 2 never stands.
spec fn level_ok(
    l: LevelState,
    o: (int, int),
    w: int,
    h: int,
    d: int,
    i: int,
) -> bool {
    &&& l.progress <= 3
    &&& l.curve_type < 4
    &&& floor_log2(lsz(l, 0)) + i >= d + 1
    &&& floor_log2(lsz(l, 1)) + i >= d + 1
    &&& (lsz(l, 0) % 2 == 1 ==> l.curve_type != 3)
    &&& (lsz(l, 1) % 2 == 1 ==> l.curve_type != 2)
    &&& 0 <= co(o, 0)
    &&& 0 <= co(o, 1)
    &&& co(o, 0) + lsz(l, 0) <= w
    &&& co(o, 1) + lsz(l, 1) <= h
}

/// Level `i` above the leaf level `d` is sound, and the next level is its
/// current sub-block.
spec fn link_ok(
    levels: Seq<LevelState>,
    org: Seq<(int, int)>,
    w: int,
    h: int,
    d: int,
    i: int,
) -> bool {
    let l = levels[i];
    &&& level_ok(l, org[i], w, h, d, i)
    &&& co(org[i + 1], 0) == child_org(l, org[i], 0)
    &&& co(org[i + 1], 1) == child_org(l, org[i], 1)
    &&& (i + 1 < d ==> {
        &&& levels[i + 1].curve_type == induced(l.curve_type, l.progress)
        &&& lsz(levels[i + 1], 0) == child_size(l, 0)
        &&& lsz(levels[i + 1], 1) == child_size(l, 1)
    })
}

/// The levels `0..k` are sound.
spec fn stack_ok(
    levels: Seq<LevelState>,
    org: Seq<(int, int)>,
    w: int,
    h: int,
    d: int,
    k: int,
) -> bool {
    &&& 0 <= k <= d
    &&& d + 2 <= org.len()
    &&& d < levels.len()
    &&& org[0] == (0int, 0int)
    &&& (d > 0 ==> levels[0].curve_type == 0 && lsz(levels[0], 0) == w && lsz(levels[0], 1) == h)
    &&& 0 <= w
    &&& 0 <= h
    &&& forall|i: int| 0 <= i < k ==> #[trigger] link_ok(levels, org, w, h, d, i)
}

/// Every level strictly between `j` and `d` is in its last sub-block.
spec fn all_last(levels: Seq<LevelState>, j: int, d: int) -> bool {
    forall|k: int| j < k < d ==> (#[trigger] levels[k]).progress == 3
}

/// Every level above `d` is in its first sub-block.
spec fn all_first(levels: Seq<LevelState>, d: int) -> bool {
    forall|k: int| 0 <= k < d ==> (#[trigger] levels[k]).progress == 0
}

/// The corner `x`, at which the leaf is left, lies on the side of the leaf
/// that faces the next leaf.
spec fn faces_next(levels: Seq<LevelState>, d: int, x: u8) -> bool {
    forall|j: int|
        0 <= j < d && (#[trigger] levels[j]).progress < 3 && all_last(levels, j, d) ==> side(
            x,
            move_axis(levels[j].curve_type, levels[j].progress),
        ) == move_positive(levels[j].curve_type, levels[j].progress)
}

/// Whether a block of the given size can be scanned with pattern `c`: the
/// rows of every zigzag in it come in even numbers.
spec fn fits(sx: nat, sy: nat, c: u8) -> bool {
    &&& (sx % 2 == 1 ==> c == 7)
    &&& (sy % 2 == 1 ==> c == 0 || c == 6)
    &&& !(sx % 2 == 1 && sy % 2 == 1)
}

/// Whether `pos` is the cell in corner `x` of the block with origin `o` and
/// size `sx` by `sy`.
spec fn at_corner(pos: [u32; 2], o: (int, int), sx: int, sy: int, x: u8) -> bool {
    &&& pos[0] as int == o.0 + if side(x, 0) {
        sx - 1
    } else {
        0
    }
    &&& pos[1] as int == o.1 + if side(x, 1) {
        sy - 1
    } else {
        0
    }
}

/// Length of what is left of a side of length `s` after taking the same
/// part of it `n` times over.
spec fn chain_size(s: nat, far: bool, n: nat) -> nat
    decreases n,
{
    if n == 0 {
        s
    } else {
        chain_size(part(s, far), far, (n - 1) as nat)
    }
}

/// Along one axis, the leaf with origin `lo` and length `ls` is what is
/// left of the block with origin `bo` and length `bs` after taking the same
/// part `n` times over.
spec fn dock1(lo: int, ls: nat, bo: int, bs: nat, far: bool, n: nat) -> bool {
    &&& ls == chain_size(bs, far, n)
    &&& if far {
        lo + ls == bo + bs
    } else {
        lo == bo
    }
}

/// Length of the near sub-blocks along axis `a` in the finest split of the
/// leaf.
spec fn fine_low(leaf: LevelState, a: int) -> nat {
    if a == 0 {
        fine_near_part(lsz(leaf, 0))
    } else {
        fine_sub_size(lsz(leaf, 1), leaf.curve_type == 0)
    }
}

/// Whether cell `c` lies in the block with origin `o` and size `sx` by
/// `sy`.
spec fn in_rect(c: (int, int), o: (int, int), sx: int, sy: int) -> bool {
    o.0 <= c.0 < o.0 + sx && o.1 <= c.1 < o.1 + sy
}

/// Whether cell `c` lies in the sub-block at address `adr` of the block of
/// level `l` with origin `o`.
spec fn in_quad(l: LevelState, o: (int, int), adr: u8, c: (int, int)) -> bool {
    &&& if side(adr, 0) {
        o.0 + near_part(lsz(l, 0)) <= c.0 < o.0 + lsz(l, 0)
    } else {
        o.0 <= c.0 < o.0 + near_part(lsz(l, 0))
    }
    &&& if side(adr, 1) {
        o.1 + near_part(lsz(l, 1)) <= c.1 < o.1 + lsz(l, 1)
    } else {
        o.1 <= c.1 < o.1 + near_part(lsz(l, 1))
    }
}

/// Whether cell `c` lies in the sub-block at address `adr` of the finest
/// split of the leaf with origin `o`.
spec fn in_fine_quad(
    leaf: LevelState,
    o: (int, int),
    adr: u8,
    c: (int, int),
) -> bool {
    &&& if side(adr, 0) {
        o.0 + fine_low(leaf, 0) <= c.0 < o.0 + lsz(leaf, 0)
    } else {
        o.0 <= c.0 < o.0 + fine_low(leaf, 0)
    }
    &&& if side(adr, 1) {
        o.1 + fine_low(leaf, 1) <= c.1 < o.1 + lsz(leaf, 1)
    } else {
        o.1 <= c.1 < o.1 + fine_low(leaf, 1)
    }
}

/// Whether cell `c` lies in one of the sub-blocks that level `l` has left
/// behind.
spec fn level_done(l: LevelState, o: (int, int), c: (int, int)) -> bool {
    ||| (l.progress > 0 && in_quad(l, o, address(l.curve_type, 0), c))
    ||| (l.progress > 1 && in_quad(l, o, address(l.curve_type, 1), c))
    ||| (l.progress > 2 && in_quad(l, o, address(l.curve_type, 2), c))
}

/// Whether cell `c` lies in one of the sub-blocks that the levels from `i` to
/// the one above the leaf level have left behind.
spec fn above_done(
    levels: Seq<LevelState>,
    org: Seq<(int, int)>,
    i: int,
    d: int,
    c: (int, int),
) -> bool
    decreases d - i,
{
    if i >= d {
        false
    } else {
        level_done(levels[i], org[i], c) || above_done(levels, org, i + 1, d, c)
    }
}

impl Engine {
    /// Width of the rectangle.
    pub(crate) closed spec fn width(&self) -> nat {
        self.size[0] as nat
    }

    /// Height of the rectangle.
    pub(crate) closed spec fn height(&self) -> nat {
        self.size[1] as nat
    }

    /// Whether every cell has been produced.
    pub(crate) closed spec fn is_done(&self) -> bool {
        self.done
    }

    /// The cell that the next call of `next` produces, while the scan is not
    /// done.
    pub(crate) closed spec fn cursor(&self) -> (int, int) {
        (self.position[0] as int, self.position[1] as int)
    }

    /// Number of level states in the storage that the scan holds.
    pub(crate) closed spec fn capacity(&self) -> nat {
        self.level_states.len() as nat
    }

    /// The leaf level.
    spec fn d(&self) -> int {
        if self.num_levels >= 2 {
            self.num_levels - 2
        } else {
            0
        }
    }

    /// The level states.
    spec fn levels(&self) -> Seq<LevelState> {
        self.level_states@
    }

    /// Length of the shorter side of the rectangle.
    spec fn min_side(&self) -> nat {
        if self.width() < self.height() {
            self.width()
        } else {
            self.height()
        }
    }

    /// Size of the whole leaf block, its helper row included.
    spec fn leaf_size(&self, a: int) -> nat {
        if self.d() == 0 {
            self.size[a] as nat
        } else {
            child_size(self.levels()[self.d() - 1], a)
        }
    }

    /// Whether the first leaf block ends with a helper row.
    spec fn needs_helper(&self) -> bool {
        self.min_side() >= 2 && (self.width() % 2 == 1 || (self.height() % 2 == 1 && self.d() > 0))
    }

    /// The axis along which the helper row follows the first leaf block.
    spec fn helper_axis(&self) -> int {
        if self.width() % 2 == 1 {
            0
        } else {
            1
        }
    }

    /// Curve type of the first leaf block.
    spec fn first_type(&self) -> u8 {
        if self.min_side() < 2 {
            if self.width() == 1 {
                0
            } else {
                5
            }
        } else if self.width() % 2 == 1 {
            0
        } else if self.height() % 2 == 1 {
            if self.d() == 0 {
                0
            } else {
                1
            }
        } else if self.d() == 0 {
            0
        } else {
            induced(self.levels()[self.d() - 1].curve_type, 0)
        }
    }

    /// Whether the scan is in the helper row of the first leaf block.
    spec fn in_helper(&self) -> bool {
        self.kind@ is First && self.needs_helper() && !self.bb_helper_row
    }

    /// By how much the leaf level falls short of the leaf block along axis
    /// `a`: by the helper row of the first leaf block, along its axis.
    spec fn helper_cut(&self, a: int) -> int {
        if self.kind@ is First && self.needs_helper() && a == self.helper_axis() {
            1
        } else {
            0
        }
    }

    /// Origin of the block being zigzagged.
    spec fn bb_org(&self, a: int) -> int {
        let d = self.d();
        if self.last_level == d + 1 {
            co(self.origins@[d + 1], a)
        } else if self.in_helper() && a == self.helper_axis() {
            co(self.origins@[d], a) + lsz(self.levels()[d], a)
        } else {
            co(self.origins@[d], a)
        }
    }

    /// Size of the block being zigzagged.
    spec fn bb_ext(&self, a: int) -> int {
        let d = self.d();
        if self.last_level == d + 1 {
            lsz(self.levels()[d + 1], a) as int
        } else if self.in_helper() && a == self.helper_axis() {
            1
        } else {
            lsz(self.levels()[d], a) as int
        }
    }

    /// The corner of the leaf block at which the scan leaves it.
    spec fn exit_corner(&self) -> u8 {
        match self.kind@ {
            LeafKind::Line => self.bb_end,
            LeafKind::First => if self.needs_helper() {
                3
            } else {
                end_corner(self.levels()[self.d()].curve_type)
            },
            LeafKind::Inner => if self.last_level == self.d() {
                self.bb_end
            } else {
                end_corner(self.levels()[self.d()].curve_type)
            },
            LeafKind::Plain => 2,
        }
    }

    /// The zigzag state agrees with the block being zigzagged.
    spec fn block_ok(&self) -> bool {
        let c = self.bb_curve_type;
        let p = primary_axis(c);
        let q = 1 - p;
        let pri = self.bb_progress[0] as int;
        let sec = self.bb_progress[1] as int;
        &&& c < 8
        &&& self.bb_end < 4
        &&& 1 <= pri <= self.bb_ext(p)
        &&& 1 <= sec <= self.bb_ext(q)
        &&& self.bb_ext(q) == lsz(self.levels()[self.last_level as int], q)
        &&& self.position[p] as int == if primary_negative(c) {
            self.bb_org(p) + pri - 1
        } else {
            self.bb_org(p) + self.bb_ext(p) - pri
        }
        &&& self.position[q] as int == if self.bb_secondary_neg {
            self.bb_org(q) + sec - 1
        } else {
            self.bb_org(q) + self.bb_ext(q) - sec
        }
        &&& side(self.bb_end, p) == !primary_negative(c)
        &&& side(self.bb_end, q) == (if pri % 2 == 1 {
            !self.bb_secondary_neg
        } else {
            self.bb_secondary_neg
        })
        &&& 0 <= self.bb_org(0)
        &&& 0 <= self.bb_org(1)
        &&& self.bb_org(0) + self.bb_ext(0) <= self.width()
        &&& self.bb_org(1) + self.bb_ext(1) <= self.height()
    }

    /// The block below the leaf level is the current sub-block of the leaf.
    spec fn sub_ok(&self) -> bool {
        let d = self.d();
        let leaf = self.levels()[d];
        let sub = self.levels()[d + 1];
        let adr = address(leaf.curve_type, leaf.progress);
        let flip = leaf.curve_type == 0;
        &&& self.num_levels >= 2
        &&& !self.in_helper()
        &&& !(self.kind@ is Line)
        &&& !(self.kind@ is Plain)
        &&& self.bb_curve_type == induced(leaf.curve_type, leaf.progress)
        &&& self.bb_end == end_corner(self.bb_curve_type)
        &&& lsz(leaf, 0) >= 3
        &&& lsz(leaf, 1) >= 3
        &&& (lsz(leaf, 0) % 2 == 1 ==> leaf.curve_type == 7)
        &&& (lsz(leaf, 1) % 2 == 1 ==> leaf.curve_type == 0 || leaf.curve_type == 6)
        &&& lsz(sub, 0) == fine_sub_size(lsz(leaf, 0), side(adr, 0))
        &&& lsz(sub, 1) == fine_sub_size(lsz(leaf, 1), side(adr, 1) != flip)
        &&& co(self.origins@[d + 1], 0) == co(self.origins@[d], 0) + if side(adr, 0) {
            fine_near_part(lsz(leaf, 0)) as int
        } else {
            0
        }
        &&& co(self.origins@[d + 1], 1) == co(self.origins@[d], 1) + if side(adr, 1) {
            fine_sub_size(lsz(leaf, 1), flip) as int
        } else {
            0
        }
    }

    /// The leaf level holds the current sub-block of the level above it,
    /// less the helper row.
    spec fn leaf_geom_ok(&self) -> bool {
        let d = self.d();
        let leaf = self.levels()[d];
        let last = self.last_level as int;
        &&& last == d || last == d + 1
        &&& leaf.curve_type < 8
        &&& leaf.progress <= 3
        &&& lsz(leaf, 0) == self.leaf_size(0) - self.helper_cut(0)
        &&& lsz(leaf, 1) == self.leaf_size(1) - self.helper_cut(1)
        &&& lsz(leaf, 0) >= 1
        &&& lsz(leaf, 1) >= 1
        &&& 0 <= co(self.origins@[d], 0)
        &&& 0 <= co(self.origins@[d], 1)
        &&& co(self.origins@[d], 0) + self.leaf_size(0) <= self.width()
        &&& co(self.origins@[d], 1) + self.leaf_size(1) <= self.height()
        &&& (self.bb_helper_row ==> self.kind@ is First && self.needs_helper())
    }

    /// The pattern of the leaf is the one that the rule of its kind chooses.
    spec fn kind_ok(&self) -> bool {
        let d = self.d();
        let leaf = self.levels()[d];
        let last = self.last_level as int;
        match self.kind@ {
            LeafKind::Line => {
                &&& self.num_levels == 1
                &&& last == 0
                &&& self.bb_curve_type == self.first_type()
                &&& self.bb_end == (if self.width() == 1 {
                    3u8
                } else {
                    2u8
                })
            },
            LeafKind::First => {
                &&& self.num_levels >= 2
                &&& all_first(self.levels(), d)
                &&& leaf.curve_type == self.first_type()
                &&& (last == d ==> self.bb_curve_type == leaf.curve_type)
                &&& (last == d ==> self.bb_end == if self.in_helper() {
                    3u8
                } else {
                    end_corner(leaf.curve_type)
                })
                &&& (self.in_helper() ==> last == d)
            },
            LeafKind::Inner => {
                &&& self.num_levels >= 3
                &&& (last == d ==> self.bb_end == end_corner(self.bb_curve_type))
                &&& (self.width() % 2 == 1 || self.height() % 2 == 1 ==> (if last == d {
                    self.bb_curve_type
                } else {
                    leaf.curve_type
                }) >= 4)
                &&& (self.width() % 2 == 0 && self.height() % 2 == 0 ==> (if last == d {
                    self.bb_curve_type
                } else {
                    leaf.curve_type
                }) < 4)
            },
            LeafKind::Plain => {
                &&& self.num_levels >= 3
                &&& last == d
                &&& self.bb_curve_type == 5
                &&& self.bb_end == 2
                &&& self.width() % 2 == 0
                &&& self.height() % 2 == 1
                &&& all_last(self.levels(), -1, d)
            },
        }
    }

    /// The leaf is left on the side that faces the next leaf, and the last
    /// leaf of a rectangle of even width is left at the bottom right.
    spec fn exit_ok(&self) -> bool {
        &&& faces_next(self.levels(), self.d(), self.exit_corner())
        &&& (self.width() % 2 == 0 && all_last(self.levels(), -1, self.d()) ==> self.exit_corner()
            == 2)
    }

    /// The leaf level agrees with the levels above it and with the rule that
    /// chose its pattern.
    spec fn leaf_ok(&self) -> bool {
        &&& self.leaf_geom_ok()
        &&& (self.last_level == self.d() + 1 ==> self.sub_ok())
        &&& self.kind_ok()
        &&& self.exit_ok()
    }

    /// The invariant of the scan.
    pub(crate) closed spec fn wf(&self) -> bool {
        &&& self.num_levels == num_levels_spec(self.width(), self.height())
        &&& self.num_levels <= self.level_states.len()
        &&& (!self.done ==> {
            &&& self.num_levels >= 1
            &&& stack_ok(
                self.levels(),
                self.origins@,
                self.width() as int,
                self.height() as int,
                self.d(),
                self.d(),
            )
            &&& self.leaf_ok()
            &&& self.block_ok()
        })
    }

    /// What holds when the levels have been filled in for the first leaf.
    spec fn first_ready(&self) -> bool {
        let d = self.d();
        &&& self.num_levels >= 2
        &&& self.num_levels == num_levels_spec(self.width(), self.height())
        &&& self.num_levels <= self.level_states.len()
        &&& !self.done
        &&& self.kind@ is First
        &&& self.last_level == 0
        &&& self.position[0] == 0
        &&& self.position[1] == 0
        &&& self.origins@.len() >= d + 2
        &&& self.origins@[0] == (0int, 0int)
        &&& self.levels()[0].progress == 0
        &&& self.levels()[0].curve_type == 0
        &&& lsz(self.levels()[0], 0) == self.width()
        &&& lsz(self.levels()[0], 1) == self.height()
        &&& (d > 0 ==> self.descending(0, d))
    }

    /// The corner at which a leaf entered with pattern `c` will be left.
    spec fn entry_exit(&self, c: u8) -> u8 {
        match self.kind@ {
            LeafKind::Line => 0,
            LeafKind::First => if self.needs_helper() {
                3
            } else {
                end_corner(c)
            },
            LeafKind::Inner => end_corner(c),
            LeafKind::Plain => 2,
        }
    }

    /// What holds when the scan stands at the first cell of a leaf that is
    /// to be scanned with pattern `c`.
    spec fn entry_ok(&self, c: u8, plain: bool) -> bool {
        let d = self.d();
        let leaf = self.levels()[d];
        let e = start_corner(c);
        &&& !self.done
        &&& self.num_levels >= 2
        &&& self.num_levels == num_levels_spec(self.width(), self.height())
        &&& self.num_levels <= self.level_states.len()
        &&& c < 8
        &&& stack_ok(
            self.levels(),
            self.origins@,
            self.width() as int,
            self.height() as int,
            d,
            d,
        )
        &&& leaf.curve_type < 8
        &&& leaf.progress <= 3
        &&& lsz(leaf, 0) == self.leaf_size(0) - self.helper_cut(0)
        &&& lsz(leaf, 1) == self.leaf_size(1) - self.helper_cut(1)
        &&& lsz(leaf, 0) >= 1
        &&& lsz(leaf, 1) >= 1
        &&& 0 <= co(self.origins@[d], 0)
        &&& 0 <= co(self.origins@[d], 1)
        &&& co(self.origins@[d], 0) + self.leaf_size(0) <= self.width()
        &&& co(self.origins@[d], 1) + self.leaf_size(1) <= self.height()
        &&& self.bb_helper_row == (self.kind@ is First && self.needs_helper())
        &&& plain == (self.kind@ is Plain)
        &&& (plain ==> lsz(leaf, 1) % 2 == 1)
        &&& (!plain ==> fits(lsz(leaf, 0), lsz(leaf, 1), c))
        &&& self.position[0] as int == co(self.origins@[d], 0) + if side(e, 0) {
            lsz(leaf, 0) - 1
        } else {
            0
        }
        &&& self.position[1] as int == co(self.origins@[d], 1) + if side(e, 1) {
            lsz(leaf, 1) - 1
        } else {
            0
        }
        &&& match self.kind@ {
            LeafKind::Line => false,
            LeafKind::First => all_first(self.levels(), d) && c == self.first_type()
                && leaf.curve_type == c,
            LeafKind::Inner => {
                &&& self.num_levels >= 3
                &&& (self.width() % 2 == 1 || self.height() % 2 == 1 ==> c >= 4)
                &&& (self.width() % 2 == 0 && self.height() % 2 == 0 ==> c < 4)
            },
            LeafKind::Plain => {
                &&& self.num_levels >= 3
                &&& c == 5
                &&& self.width() % 2 == 0
                &&& self.height() % 2 == 1
                &&& all_last(self.levels(), -1, d)
            },
        }
        &&& faces_next(self.levels(), d, self.entry_exit(c))
        &&& (self.width() % 2 == 0 && all_last(self.levels(), -1, d) ==> self.entry_exit(c) == 2)
    }

    /// Whether the leaf block has been scanned, short of its helper row,
    /// once the block being zigzagged has been.
    spec fn leaf_complete(&self) -> bool {
        self.last_level == self.d() || self.levels()[self.d()].progress == 3
    }

    /// Every level below `i` is in its last sub-block, and the leaf lies in
    /// the corner of the current sub-block of level `i` at which that
    /// sub-block is left.
    spec fn docked_at(&self, i: int) -> bool {
        let d = self.d();
        let l = self.levels()[i];
        let g = end_corner(induced(l.curve_type, l.progress));
        &&& 0 <= i < d
        &&& all_last(self.levels(), i, d)
        &&& dock1(
            co(self.origins@[d], 0),
            self.leaf_size(0),
            child_org(l, self.origins@[i], 0),
            child_size(l, 0),
            side(g, 0),
            (d - 1 - i) as nat,
        )
        &&& dock1(
            co(self.origins@[d], 1),
            self.leaf_size(1),
            child_org(l, self.origins@[i], 1),
            child_size(l, 1),
            side(g, 1),
            (d - 1 - i) as nat,
        )
    }

    /// Whether `b` is what `a` becomes when the levels from the last one up
    /// move on to their next sub-block until one of them, level `j`, has a
    /// next sub-block.
    spec fn climbed(a: Self, b: Self, j: int) -> bool {
        let d = a.d();
        &&& 0 <= j <= d
        &&& j < a.last_level
        &&& a.levels()[j].progress < 3
        &&& b.levels()[j].progress == a.levels()[j].progress + 1
        &&& b.levels()[j].curve_type == a.levels()[j].curve_type
        &&& b.levels()[j].size == a.levels()[j].size
        &&& (forall|k: int| 0 <= k < j ==> b.levels()[k] == a.levels()[k])
        &&& (j == d ==> a.last_level == d + 1 && b.levels()[d + 1] == a.levels()[d + 1])
        &&& (j < d ==> a.leaf_complete() && !a.bb_helper_row && a.docked_at(j))
    }

    /// Whether `a` and `b` agree on everything but the level states and the
    /// origins of their blocks.
    spec fn same_but_stack(a: Self, b: Self) -> bool {
        &&& b.size == a.size
        &&& b.num_levels == a.num_levels
        &&& b.last_level == a.last_level
        &&& b.level_states.len() == a.level_states.len()
        &&& b.position == a.position
        &&& b.bb_progress == a.bb_progress
        &&& b.bb_secondary_neg == a.bb_secondary_neg
        &&& b.bb_curve_type == a.bb_curve_type
        &&& b.bb_end == a.bb_end
        &&& b.bb_helper_row == a.bb_helper_row
        &&& b.done == a.done
        &&& b.kind == a.kind
        &&& b.origins@.len() == a.origins@.len()
    }

    /// Whether `a` and `b` agree on everything but the level states.
    spec fn same_but_levels(a: Self, b: Self) -> bool {
        &&& b.size == a.size
        &&& b.num_levels == a.num_levels
        &&& b.last_level == a.last_level
        &&& b.level_states.len() == a.level_states.len()
        &&& b.position == a.position
        &&& b.bb_progress == a.bb_progress
        &&& b.bb_secondary_neg == a.bb_secondary_neg
        &&& b.bb_curve_type == a.bb_curve_type
        &&& b.bb_end == a.bb_end
        &&& b.bb_helper_row == a.bb_helper_row
        &&& b.done == a.done
        &&& b.origins == a.origins
        &&& b.kind == a.kind
    }

    /// Whether `b` is what `a` becomes, at the last cell of a sub-block of
    /// the leaf that is not the last one, when the scan moves on to the next
    /// sub-block.
    spec fn sub_stepped(a: Self, b: Self) -> bool {
        let d = a.d();
        let leaf = a.levels()[d];
        let c = leaf.curve_type;
        let k = (leaf.progress + 1) as u8;
        let m = move_axis(c, leaf.progress);
        let adr = address(c, k);
        let bct = induced(c, k);
        let p = primary_axis(bct);
        &&& a.wf()
        &&& !a.done
        &&& a.bb_progress[0] == 1
        &&& a.bb_progress[1] == 1
        &&& a.last_level == a.d() + 1
        &&& a.levels()[a.d()].progress < 3
        &&& b.size == a.size
        &&& b.num_levels == a.num_levels
        &&& b.last_level == a.last_level
        &&& b.level_states.len() == a.level_states.len()
        &&& b.bb_helper_row == a.bb_helper_row
        &&& b.done == a.done
        &&& b.kind == a.kind
        &&& b.origins@.len() == a.origins@.len()
        &&& (forall|i: int| 0 <= i < a.d() ==> a.levels()[i] == b.levels()[i])
        &&& (forall|i: int| 0 <= i <= a.d() ==> a.origins@[i] == b.origins@[i])
        &&& b.levels()[d].size == leaf.size
        &&& b.levels()[d].curve_type == c
        &&& b.levels()[d].progress == k
        &&& b.position[m] == a.position[m] + if move_positive(c, leaf.progress) {
            1int
        } else {
            -1int
        }
        &&& b.position[1 - m] == a.position[1 - m]
        &&& b.bb_curve_type == bct
        &&& b.bb_secondary_neg == secondary_negative(bct)
        &&& b.bb_end == end_corner(bct)
        &&& b.bb_progress[0] == lsz(b.levels()[d + 1], p)
        &&& b.bb_progress[1] == lsz(b.levels()[d + 1], 1 - p)
        &&& lsz(b.levels()[d + 1], 0) == fine_sub_size(lsz(leaf, 0), side(adr, 0))
        &&& lsz(b.levels()[d + 1], 1) == fine_sub_size(lsz(leaf, 1), side(adr, 1) != (c == 0))
        &&& co(b.origins@[d + 1], 0) == co(a.origins@[d], 0) + if side(adr, 0) {
            fine_near_part(lsz(leaf, 0)) as int
        } else {
            0
        }
        &&& co(b.origins@[d + 1], 1) == co(a.origins@[d], 1) + if side(adr, 1) {
            fine_sub_size(lsz(leaf, 1), c == 0) as int
        } else {
            0
        }
    }

    /// Whether `b` is what `a` becomes, after the leaf level has moved on to
    /// its next sub-block, when the scan steps across the border to that
    /// sub-block and starts its zigzag.
    spec fn sub_moved(a: Self, b: Self) -> bool {
        let d = a.d();
        let leaf = a.levels()[d];
        let c = leaf.curve_type;
        let k = leaf.progress;
        let from = (k - 1) as u8;
        let m = move_axis(c, from);
        let adr = address(c, k);
        let bct = induced(c, k);
        let p = primary_axis(bct);
        &&& b.size == a.size
        &&& b.num_levels == a.num_levels
        &&& b.last_level == a.last_level
        &&& b.level_states.len() == a.level_states.len()
        &&& b.bb_helper_row == a.bb_helper_row
        &&& b.done == a.done
        &&& b.kind == a.kind
        &&& b.origins@.len() == a.origins@.len()
        &&& (forall|i: int| 0 <= i <= d ==> a.levels()[i] == b.levels()[i])
        &&& (forall|i: int| 0 <= i <= d ==> a.origins@[i] == b.origins@[i])
        &&& b.position[m] == a.position[m] + if move_positive(c, from) {
            1int
        } else {
            -1int
        }
        &&& b.position[1 - m] == a.position[1 - m]
        &&& b.bb_curve_type == bct
        &&& b.bb_secondary_neg == secondary_negative(bct)
        &&& b.bb_end == end_corner(bct)
        &&& b.bb_progress[0] == lsz(b.levels()[d + 1], p)
        &&& b.bb_progress[1] == lsz(b.levels()[d + 1], 1 - p)
        &&& lsz(b.levels()[d + 1], 0) == fine_sub_size(lsz(leaf, 0), side(adr, 0))
        &&& lsz(b.levels()[d + 1], 1) == fine_sub_size(lsz(leaf, 1), side(adr, 1) != (c == 0))
        &&& co(b.origins@[d + 1], 0) == co(a.origins@[d], 0) + if side(adr, 0) {
            fine_near_part(lsz(leaf, 0)) as int
        } else {
            0
        }
        &&& co(b.origins@[d + 1], 1) == co(a.origins@[d], 1) + if side(adr, 1) {
            fine_sub_size(lsz(leaf, 1), c == 0) as int
        } else {
            0
        }
    }

    /// The leaf is what is left of the current sub-block of level `j` after
    /// taking the first sub-block at every level below it.
    spec fn docked_first(&self, j: int) -> bool {
        let d = self.d();
        let l = self.levels()[j];
        let g = start_corner(induced(l.curve_type, l.progress));
        &&& 0 <= j < d
        &&& (forall|k: int| j < k < d ==> (#[trigger] self.levels()[k]).progress == 0)
        &&& dock1(
            co(self.origins@[d], 0),
            lsz(self.levels()[d], 0),
            child_org(l, self.origins@[j], 0),
            child_size(l, 0),
            side(g, 0),
            (d - 1 - j) as nat,
        )
        &&& dock1(
            co(self.origins@[d], 1),
            lsz(self.levels()[d], 1),
            child_org(l, self.origins@[j], 1),
            child_size(l, 1),
            side(g, 1),
            (d - 1 - j) as nat,
        )
    }

    /// What holds of the level states from level `j` down to level `i` while
    /// the levels below `j` are filled in.
    spec fn descending(&self, j: int, i: int) -> bool {
        let d = self.d();
        let w = self.width() as int;
        let h = self.height() as int;
        let l = self.levels()[j];
        let g = start_corner(induced(l.curve_type, l.progress));
        let at = self.levels()[i];
        &&& 0 <= j <= i <= d
        &&& j < d
        &&& self.num_levels >= 3
        &&& self.num_levels <= self.level_states.len()
        &&& stack_ok(self.levels(), self.origins@, w, h, d, i)
        &&& (i < d ==> level_ok(at, self.origins@[i], w, h, d, i))
        &&& (forall|k: int|
            j < k <= i ==> (#[trigger] self.levels()[k]).progress == 0 && start_corner(
                self.levels()[k].curve_type,
            ) == g && self.levels()[k].curve_type < 4)
        &&& (i > j ==> {
            &&& (!side(g, 0) ==> lsz(at, 0) % 2 == child_size(l, 0) % 2)
            &&& (!side(g, 1) ==> lsz(at, 1) % 2 == child_size(l, 1) % 2)
            &&& floor_log2(lsz(at, 0)) + i >= d + 1
            &&& floor_log2(lsz(at, 1)) + i >= d + 1
            &&& 0 <= co(self.origins@[i], 0)
            &&& 0 <= co(self.origins@[i], 1)
            &&& co(self.origins@[i], 0) + lsz(at, 0) <= w
            &&& co(self.origins@[i], 1) + lsz(at, 1) <= h
            &&& at.curve_type < 4
            &&& at.curve_type == induced(
                self.levels()[i - 1].curve_type,
                self.levels()[i - 1].progress,
            )
            &&& start_corner(at.curve_type) == g
            &&& lsz(at, 0) == child_size(self.levels()[i - 1], 0)
            &&& lsz(at, 1) == child_size(self.levels()[i - 1], 1)
            &&& co(self.origins@[i], 0) == child_org(self.levels()[i - 1], self.origins@[i - 1], 0)
            &&& co(self.origins@[i], 1) == child_org(self.levels()[i - 1], self.origins@[i - 1], 1)
            &&& chain_size(child_size(l, 0), side(g, 0), (d - 1 - j) as nat) == chain_size(
                lsz(at, 0),
                side(g, 0),
                (d - i) as nat,
            )
            &&& chain_size(child_size(l, 1), side(g, 1), (d - 1 - j) as nat) == chain_size(
                lsz(at, 1),
                side(g, 1),
                (d - i) as nat,
            )
            &&& (if side(g, 0) {
                co(self.origins@[i], 0) + lsz(at, 0) == child_org(l, self.origins@[j], 0)
                    + child_size(l, 0)
            } else {
                co(self.origins@[i], 0) == child_org(l, self.origins@[j], 0)
            })
            &&& (if side(g, 1) {
                co(self.origins@[i], 1) + lsz(at, 1) == child_org(l, self.origins@[j], 1)
                    + child_size(l, 1)
            } else {
                co(self.origins@[i], 1) == child_org(l, self.origins@[j], 1)
            })
        })
    }

    /// Whether `dir` is the move that will leave the leaf.
    spec fn is_next_direction(&self, dir: Option<Move>) -> bool {
        &&& (dir is None ==> all_last(self.levels(), -1, self.d()))
        &&& (dir is Some ==> {
            let m = dir->0;
            let l = self.levels()[m.level as int];
            &&& 0 <= m.level < self.d()
            &&& l.progress < 3
            &&& all_last(self.levels(), m.level as int, self.d())
            &&& m.axis as int == move_axis(l.curve_type, l.progress)
            &&& m.positive == move_positive(l.curve_type, l.progress)
            &&& m.axis < 2
        })
    }

    /// Whether `b` is what `a` becomes when level `j` has moved on to its
    /// next sub-block and the scan has stepped across the border to it.
    spec fn crossed(a: Self, b: Self, j: int) -> bool {
        let l = a.levels()[j];
        let m = move_axis(l.curve_type, l.progress);
        &&& a.wf()
        &&& !a.done
        &&& a.bb_progress[0] == 1
        &&& a.bb_progress[1] == 1
        &&& 0 <= j < a.d()
        &&& a.leaf_complete()
        &&& !a.bb_helper_row
        &&& a.docked_at(j)
        &&& l.progress < 3
        &&& b.size == a.size
        &&& b.num_levels == a.num_levels
        &&& b.level_states.len() == a.level_states.len()
        &&& !b.done
        &&& !b.bb_helper_row
        &&& b.origins@[j] == a.origins@[j]
        &&& (forall|k: int| 0 <= k < j ==> b.levels()[k] == a.levels()[k])
        &&& (forall|k: int| 0 <= k <= j ==> b.origins@[k] == a.origins@[k])
        &&& b.levels()[j].progress == l.progress + 1
        &&& b.levels()[j].curve_type == l.curve_type
        &&& b.levels()[j].size == l.size
        &&& b.position[m] == a.position[m] + if move_positive(l.curve_type, l.progress) {
            1int
        } else {
            -1int
        }
        &&& b.position[1 - m] == a.position[1 - m]
    }

    /// Whether cell `c` lies in the block being zigzagged before the cursor.
    spec fn block_done(&self, c: (int, int)) -> bool {
        let t = self.bb_curve_type;
        let p = primary_axis(t);
        let q = 1 - p;
        &&& in_rect(c, (self.bb_org(0), self.bb_org(1)), self.bb_ext(0), self.bb_ext(1))
        &&& {
            ||| (if primary_negative(t) {
                co(c, p) > self.position[p]
            } else {
                co(c, p) < self.position[p]
            })
            ||| (co(c, p) == self.position[p] && if self.bb_secondary_neg {
                co(c, q) > self.position[q]
            } else {
                co(c, q) < self.position[q]
            })
        }
    }

    /// Whether cell `c` lies in the part of the leaf block that the scan
    /// has left behind.
    spec fn leaf_done(&self, c: (int, int)) -> bool {
        let d = self.d();
        let leaf = self.levels()[d];
        let o = self.origins@[d];
        if self.last_level == d + 1 {
            ||| (leaf.progress > 0 && in_fine_quad(leaf, o, address(leaf.curve_type, 0), c))
            ||| (leaf.progress > 1 && in_fine_quad(leaf, o, address(leaf.curve_type, 1), c))
            ||| (leaf.progress > 2 && in_fine_quad(leaf, o, address(leaf.curve_type, 2), c))
            ||| self.block_done(c)
        } else if self.in_helper() {
            in_rect(c, o, lsz(leaf, 0) as int, lsz(leaf, 1) as int) || self.block_done(c)
        } else {
            self.block_done(c)
        }
    }

    /// Whether the scan has produced cell `c`.
    pub(crate) closed spec fn visited(&self, c: (int, int)) -> bool {
        if self.done {
            in_rect(c, (0, 0), self.width() as int, self.height() as int)
        } else {
            above_done(self.levels(), self.origins@, 0, self.d(), c) || self.leaf_done(c)
        }
    }

    /// Whether cell `c` lies in the leaf block.
    spec fn in_leaf(&self, c: (int, int)) -> bool {
        in_rect(c, self.origins@[self.d()], self.leaf_size(0) as int, self.leaf_size(1) as int)
    }

    /// The levels down to the leaf level, as plain values.
    spec fn mlevels(&self) -> Seq<Level> {
        if self.num_levels == 0 {
            Seq::empty()
        } else {
            Seq::new((self.d() + 1) as nat, |i: int| self.levels()[i]@)
        }
    }

    /// The state of the scan, as plain values.
    pub(crate) closed spec fn model(&self) -> ScanState {
        ScanState {
            size: (self.width(), self.height()),
            levels: self.mlevels(),
            sub_size: if self.last_level == self.d() + 1 {
                Some(self.levels()[self.d() + 1]@.size)
            } else {
                None
            },
            cursor: self.cursor(),
            rows: self.bb_progress[0] as nat,
            cells: self.bb_progress[1] as nat,
            secondary_neg: self.bb_secondary_neg,
            curve_type: self.bb_curve_type,
            end: self.bb_end,
            helper_row: self.bb_helper_row,
            done: self.done,
        }
    }
}

/// No rectangle needs more than 32 levels.
pub(crate) proof fn lemma_num_levels_bound(w: u32, h: u32)
    ensures
        num_levels_spec(w as nat, h as nat) <= 32,
{
    let m = if w < h { w } else { h };
    if m >= 2 {
        lemma_parts_bits(m);
    }
}

/// Get the number of [`LevelState`]s required by a scan of the given size
/// to hold its internal state.
pub fn num_levels_for_size(size: [u32; 2]) -> (r: usize)
    ensures
        r == num_levels_spec(size[0] as nat, size[1] as nat),
        r <= 32,
{
    let m = if size[0] < size[1] { size[0] } else { size[1] };
    if m == 0 {
        0
    } else {
        log2_floor(m) as usize + 1
    }
}

impl Engine {
    /// Construct an `Engine` with explicit level states.
    ///
    /// `level_states` must have at least `num_levels_for_size(size)`
    /// elements. The elements do not have to be initialized as they are
    /// overwritten by this function.
    pub(crate) fn with_level_state_storage(
        level_states: Vec<LevelState>,
        size: [u32; 2],
    ) -> (r: Self)
        requires
            level_states.len() >= num_levels_spec(size[0] as nat, size[1] as nat),
        ensures
            r.wf(),
            r.width() == size[0],
            r.height() == size[1],
            r.capacity() == level_states.len(),
            r.is_done() <==> size[0] == 0 || size[1] == 0,
            !r.is_done() ==> r.cursor() == (0int, 0int),
            forall|c: (int, int)| !#[trigger] r.visited(c),
            r.model() == model::initial(size[0] as nat, size[1] as nat),
    {
        let ghost capacity = level_states.len();
        let mut level_states = level_states;
        let num_levels = num_levels_for_size(size);
        if num_levels == 0 {
            let r = Self {
                size,
                num_levels,
                last_level: 0,
                level_states,
                position: [0, 0],
                bb_progress: [0, 0],
                bb_secondary_neg: false,
                bb_curve_type: 0,
                bb_end: 0,
                bb_helper_row: false,
                done: true,
                origins: Ghost(Seq::empty()),
                kind: Ghost(LeafKind::Line),
            };
            proof {
                assert(r.mlevels() =~= Seq::<Level>::empty());
            }
            return r;
        }
        level_states[0] = LevelState { size, curve_type: 0, progress: 0 };
        let ghost org = Seq::new((num_levels + 2) as nat, |i: int| (0int, 0int));
        if num_levels == 1 {
            // A single row or column.
            let column = size[0] == 1;
            let r = Self {
                size,
                num_levels,
                last_level: 0,
                level_states,
                position: [0, 0],
                bb_progress: if column { [1, size[1]] } else { [1, size[0]] },
                bb_secondary_neg: false,
                bb_curve_type: if column { 0 } else { 5 },
                bb_end: if column { 3 } else { 2 },
                bb_helper_row: false,
                done: false,
                origins: Ghost(org),
                kind: Ghost(LeafKind::Line),
            };
            proof {
                assert(floor_log2(r.min_side()) == 0);
                assert(r.min_side() == 1) by {
                    if r.min_side() >= 2 {
                        assert(floor_log2(r.min_side()) == 1 + floor_log2(r.min_side() / 2));
                    }
                }
                assert(r.leaf_ok());
                assert(r.block_ok());
                assert forall|c: (int, int)| !#[trigger] r.visited(c) by {
                    lemma_block_fresh(r, c);
                    assert(!above_done(r.levels(), r.origins@, 0, 0, c));
                }
                assert(r.mlevels() =~= seq![
                    Level { size: (size[0] as nat, size[1] as nat), curve_type: 0, progress: 0 },
                ]);
            }
            return r;
        }
        let mut r = Self {
            size,
            num_levels,
            last_level: 0,
            level_states,
            position: [0, 0],
            bb_progress: [0, 0],
            bb_secondary_neg: false,
            bb_curve_type: 0,
            bb_end: 0,
            bb_helper_row: false,
            done: false,
            origins: Ghost(org),
            kind: Ghost(LeafKind::First),
        };
        proof {
            let m = if size[0] < size[1] { size[0] } else { size[1] };
            lemma_floor_log2_monotonic(m as nat, size[0] as nat);
            lemma_floor_log2_monotonic(m as nat, size[1] as nat);
        }
        let ghost top = Level {
            size: (size[0] as nat, size[1] as nat),
            curve_type: 0,
            progress: 0,
        };
        proof {
            assert(r.mlevels().take(1) =~= seq![top]);
        }
        if num_levels >= 3 {
            proof {
                assert(stack_ok(
                    r.levels(),
                    r.origins@,
                    r.width() as int,
                    r.height() as int,
                    r.d(),
                    0,
                ));
                assert(r.descending(0, 0));
            }
            r.descend(0);
        } else {
            proof {
                assert(r.mlevels() =~= seq![top]);
                assert(model::descend_from(seq![top], 0) == seq![top]);
            }
        }
        r.start_first_leaf();
        r
    }

    /// Choose the pattern of the first leaf block and set up its zigzag.
    fn start_first_leaf(&mut self)
        requires
            old(self).first_ready(),
        ensures
            final(self).wf(),
            final(self).size == old(self).size,
            final(self).level_states.len() == old(self).level_states.len(),
            !final(self).done,
            final(self).position == old(self).position,
            forall|c: (int, int)| !#[trigger] final(self).visited(c),
            final(self).model() == model::first_leaf(old(self).model()),
    {
        let last_level = self.num_levels - 2;
        let ghost d = last_level as int;
        let ghost start = *self;
        proof {
            lemma_first_ready(start);
        }
        let size = self.size;
        let level = self.level_states[last_level];
        // Set up the scan of the first block
        let (curve_type, helper): (u8, bool) = if size[0] % 2 == 1 {
            // An odd width: type-0 basic pattern + helper row
            (0, true)
        } else if size[1] % 2 == 1 {
            if last_level == 0 {
                // A single block of even width: type-0 basic pattern, which
                // ends at the bottom right
                (0, false)
            } else {
                // An odd height: type-1 basic pattern + helper row
                //
                //  ,------>  - Helper row
                //  '------,  \
                //    ...      } Type-1 basic pattern
                //  -------'  /
                //
                (1, true)
            }
        } else {
            (level.curve_type, false)
        };
        let mut last_size = level.size;
        if helper {
            // The helper row is specially handled, so exclude it from
            // the block's size
            let axis = curve_primary_axis(curve_type) as usize;
            last_size[axis] = last_size[axis] - 1;
        }
        self.level_states[last_level] = LevelState { size: last_size, curve_type, progress: 0 };
        self.bb_helper_row = helper;
        proof {
            lemma_first_entry(start, *self, curve_type);
        }
        let ghost ready = *self;
        self.enter_leaf(curve_type, false);
        proof {
            lemma_model_first(start, ready, curve_type, helper);
            assert forall|c: (int, int)| !#[trigger] self.visited(c) by {
                lemma_first_ready(start);
                assert forall|k: int| 0 <= k < ready.d() implies (
                #[trigger] ready.levels()[k]).progress == 0 by {
                    assert(start.levels()[k].progress == 0);
                }
                lemma_above_first(ready.levels(), ready.origins@, 0, ready.d(), c);
            }
        }
    }

    /// Set up the scan of the leaf at the first cell of which the scan
    /// stands: split it once more if it is large enough, and start the
    /// zigzag.
    #[verifier::rlimit(50)]
    fn enter_leaf(&mut self, c: u8, plain: bool)
        requires
            old(self).entry_ok(c, plain),
        ensures
            final(self).wf(),
            !final(self).done,
            final(self).position == old(self).position,
            final(self).size == old(self).size,
            final(self).level_states.len() == old(self).level_states.len(),
            forall|c: (int, int)| #[trigger]
                final(self).visited(c) <==> above_done(
                    old(self).levels(),
                    old(self).origins@,
                    0,
                    old(self).d(),
                    c,
                ),
            final(self).model() == model::enter_leaf(old(self).model(), c, plain),
    {
        let d = self.num_levels - 2;
        let leaf = self.level_states[d];
        let mut size = leaf.size;
        let mut bct = c;
        let mut last = d;
        let ghost start = *self;
        if size[0] >= 3 && size[1] >= 3 && !plain {
            // If the block is large enough, we can (and should) do the extra
            // subdivision (i.e., dividing the smallest blocks defined by the
            // top level of the algorithm)
            self.level_states[d] = LevelState { size: leaf.size, curve_type: c, progress: 0 };
            let adr = curve_address(c, 0);
            size = extra_division_subblock_size(size, adr, c);
            bct = curve_induced(c, 0);
            last = d + 1;
            self.level_states[last].size = size;
            proof {
                let o = self.origins@[d as int];
                let ox = o.0 + if side(adr, 0) {
                    fine_near_part(lsz(leaf, 0)) as int
                } else {
                    0
                };
                let oy = o.1 + if side(adr, 1) {
                    fine_sub_size(lsz(leaf, 1), c == 0) as int
                } else {
                    0
                };
                self.origins@ = self.origins@.update(d + 1, (ox, oy));
            }
        } else {
            // Otherwise, apply the basic scanning pattern on this block.
        }
        self.last_level = last;
        self.bb_curve_type = bct;
        self.bb_secondary_neg = curve_secondary_negative_at_start(bct) != 0;
        self.bb_end = if plain { 2 } else { curve_end_point(bct) };
        self.bb_progress = if curve_primary_axis(bct) != 0 {
            [size[1], size[0]]
        } else {
            [size[0], size[1]]
        };
        proof {
            lemma_enter_leaf(start, *self, c, plain);
            assert(!self.in_helper()) by {
                assert(start.bb_helper_row == (start.kind@ is First && start.needs_helper()));
                assert(self.needs_helper() == start.needs_helper());
            }
            assert forall|cell: (int, int)| #[trigger]
                self.visited(cell) <==> above_done(
                    start.levels(),
                    start.origins@,
                    0,
                    start.d(),
                    cell,
                ) by {
                lemma_enter_visited(start, *self, cell);
            }
            lemma_model_enter(start, *self, c, plain);
        }
    }

    /// Move to the next cell of the block being zigzagged, if it has one.
    fn advance(&mut self) -> (moved: bool)
        requires
            old(self).wf(),
            !old(self).done,
        ensures
            moved ==> final(self).wf() && !final(self).done && adjacent(
                old(self).cursor(),
                final(self).cursor(),
            ),
            !moved ==> *final(self) == *old(self) && old(self).bb_progress[0] == 1 && old(
                self,
            ).bb_progress[1] == 1,
            final(self).size == old(self).size,
            final(self).level_states.len() == old(self).level_states.len(),
            moved ==> forall|c: (int, int)| #[trigger]
                final(self).visited(c) <==> (old(self).visited(c) || c == old(self).cursor()),
            moved ==> model::advance(old(self).model()) == Some(final(self).model()),
            !moved ==> model::advance(old(self).model()) is None,
    {
        let ghost start = *self;
        proof {
            lemma_room(start);
            assert(start.leaf_geom_ok());
        }
        let pri = self.bb_progress[0];
        let sec = self.bb_progress[1];
        let pri_axis = curve_primary_axis(self.bb_curve_type) as usize;
        let sec_axis = 1 - pri_axis;
        if sec != 1 {
            let at = self.position[sec_axis];
            self.position[sec_axis] = if self.bb_secondary_neg { at - 1 } else { at + 1 };
            self.bb_progress = [pri, sec - 1];
            proof {
                lemma_moved(start, *self);
                assert forall|c: (int, int)| #[trigger]
                    self.visited(c) <==> (start.visited(c) || c == start.cursor()) by {
                    lemma_moved_visited(start, *self, c);
                }
                lemma_model_moved(start, *self);
            }
            return true;
        }
        if pri != 1 {
            let sec_width = self.level_states[self.last_level].size[sec_axis];
            let at = self.position[pri_axis];
            self.position[pri_axis] = if curve_primary_negative(self.bb_curve_type) != 0 {
                at - 1
            } else {
                at + 1
            };
            // Zigzag
            self.bb_secondary_neg = !self.bb_secondary_neg;
            self.bb_progress = [pri - 1, sec_width];
            proof {
                lemma_moved(start, *self);
                assert forall|c: (int, int)| #[trigger]
                    self.visited(c) <==> (start.visited(c) || c == start.cursor()) by {
                    lemma_moved_visited(start, *self, c);
                }
                lemma_model_moved(start, *self);
            }
            return true;
        }
        proof {
            lemma_model_stuck(start);
        }
        false
    }

    /// Start the helper row of the first leaf block: the row that is left
    /// over where the block's pattern needs an even number of rows.
    ///
    /// ```text
    ///    ,----->  ← helper row
    ///    | ,---,  \
    ///    '-' ,-'  | Type-1 curve
    ///    ,-, '-,  |
    ///    | '---'  /
    /// ```
    fn start_helper_row(&mut self)
        requires
            old(self).wf(),
            !old(self).done,
            old(self).bb_progress[0] == 1,
            old(self).bb_progress[1] == 1,
            old(self).leaf_complete(),
            old(self).bb_helper_row,
        ensures
            final(self).wf(),
            !final(self).done,
            adjacent(old(self).cursor(), final(self).cursor()),
            final(self).size == old(self).size,
            final(self).level_states.len() == old(self).level_states.len(),
            forall|c: (int, int)| #[trigger]
                final(self).visited(c) <==> (old(self).visited(c) || c == old(self).cursor()),
            final(self).model() == model::start_helper_row(old(self).model()),
    {
        let ghost start = *self;
        proof {
            assert(start.leaf_ok());
            assert(start.leaf_geom_ok());
            assert(start.kind_ok());
            lemma_block_exit(start);
        }
        let leaf_level = self.num_levels - 2;
        let level = self.level_states[leaf_level];
        let pri_axis = curve_primary_axis(level.curve_type) as usize;
        let sec_axis = 1 - pri_axis;
        let sec_width = level.size[sec_axis];

        self.bb_end = 0b11;
        self.bb_curve_type = level.curve_type;
        self.bb_secondary_neg = false;
        self.bb_progress = [1, sec_width];
        self.bb_helper_row = false;
        self.position[pri_axis] = self.position[pri_axis] + 1;
        self.last_level = leaf_level;
        proof {
            lemma_helper_row(start, *self);
            assert(self.in_helper());
            assert forall|c: (int, int)| #[trigger]
                self.visited(c) <==> (start.visited(c) || c == start.cursor()) by {
                lemma_helper_visited(start, *self, c);
            }
            lemma_model_helper(start, *self);
        }
    }

    /// Move the levels from the last one up on to their next sub-block,
    /// until one of them has a next sub-block. Gives the level that has one,
    /// or `None` where the scan is complete.
    fn ascend(&mut self) -> (r: Option<usize>)
        requires
            old(self).wf(),
            !old(self).done,
            old(self).bb_progress[0] == 1,
            old(self).bb_progress[1] == 1,
            old(self).last_level >= 1,
            !(old(self).bb_helper_row && old(self).leaf_complete()),
        ensures
            Self::same_but_levels(*old(self), *final(self)),
            r is None && old(self).width() % 2 == 0 ==> old(self).cursor() == (
                old(self).width() - 1,
                0int,
            ),
            r is None ==> old(self).leaf_complete() && !old(self).bb_helper_row && all_last(
                old(self).levels(),
                -1,
                old(self).d(),
            ),
            r is Some ==> Self::climbed(*old(self), *final(self), r->0 as int),
            model::climb(old(self).mlevels(), old(self).last_level - 1) == (model::Climb {
                levels: final(self).mlevels(),
                stop: if r is Some {
                    Some(r->0 as int)
                } else {
                    None
                },
            }),
            final(self).model() == (ScanState {
                levels: final(self).mlevels(),
                ..old(self).model()
            }),
    {
        let ghost start = *self;
        let ghost d = start.d();
        proof {
            assert(start.leaf_ok());
            assert(start.leaf_geom_ok());
            assert(start.kind_ok());
            if start.last_level == d {
                lemma_dock_leaf(start);
            }
        }
        let mut i = self.last_level - 1;
        loop
            invariant
                start == *old(self),
                start.wf(),
                !start.done,
                start.bb_progress[0] == 1,
                start.bb_progress[1] == 1,
                !(start.bb_helper_row && start.leaf_complete()),
                d == start.d(),
                0 <= i <= d,
                i < start.last_level,
                Self::same_but_levels(start, *self),
                forall|k: int| 0 <= k <= i ==> self.levels()[k] == start.levels()[k],
                forall|k: int|
                    start.last_level <= k < self.levels().len() ==> self.levels()[k]
                        == start.levels()[k],
                model::climb(start.mlevels(), start.last_level - 1) == model::climb(
                    self.mlevels(),
                    i as int,
                ),
                i == d ==> start.last_level == d + 1 && self.levels()[d + 1] == start.levels()[d
                    + 1],
                i < d ==> start.leaf_complete() && !start.bb_helper_row && start.docked_at(
                    i as int,
                ),
            decreases i,
        {
            proof {
                if i < d {
                    assert(stack_ok(
                        start.levels(),
                        start.origins@,
                        start.width() as int,
                        start.height() as int,
                        d,
                        d,
                    ));
                    assert(link_ok(
                        start.levels(),
                        start.origins@,
                        start.width() as int,
                        start.height() as int,
                        d,
                        i as int,
                    ));
                }
            }
            let ghost before = *self;
            self.level_states[i].progress += 1;
            let progress = self.level_states[i].progress;
            proof {
                lemma_model_climb_step(before, *self, i as int);
            }
            if progress == 4 {
                if i == 0 {
                    // No left blocks
                    proof {
                        lemma_all_last_top(start);
                        if start.width() % 2 == 0 {
                            if d == 0 {
                                assert(all_last(start.levels(), -1, 0));
                                assert(start.exit_ok());
                                lemma_leaf_exit(start);
                                assert(stack_ok(
                                    start.levels(),
                                    start.origins@,
                                    start.width() as int,
                                    start.height() as int,
                                    d,
                                    d,
                                ));
                            } else {
                                lemma_dock_top(start);
                            }
                        }
                    }
                    proof {
                        lemma_model_same_but_levels(start, *self);
                    }
                    return None;
                }
                proof {
                    if i == d {
                        lemma_dock_leaf(start);
                    } else {
                        lemma_dock_up(start, i as int);
                    }
                }
                i -= 1;
            } else {
                proof {
                    lemma_model_same_but_levels(start, *self);
                }
                return Some(i);
            }
        }
    }

    /// Move on to the next sub-block of the leaf, after the level of the
    /// leaf has moved on to it.
    #[verifier::rlimit(50)]
    fn next_sub_block(&mut self, Ghost(a): Ghost<Self>)
        requires
            a.wf(),
            !a.done,
            a.bb_progress[0] == 1,
            a.bb_progress[1] == 1,
            Self::climbed(a, *old(self), a.d()),
            Self::same_but_levels(a, *old(self)),
        ensures
            final(self).wf(),
            !final(self).done,
            adjacent(a.cursor(), final(self).cursor()),
            final(self).size == a.size,
            final(self).level_states.len() == a.level_states.len(),
            forall|c: (int, int)| #[trigger]
                final(self).visited(c) <==> (a.visited(c) || c == a.cursor()),
            final(self).model() == model::next_sub_block(old(self).model()),
    {
        let ghost pre = *self;
        proof {
            lemma_sub_room(a);
        }
        let leaf_level = self.num_levels - 2;
        let level = self.level_states[leaf_level];
        let curve_type = level.curve_type;
        // Get the relative position of the next block, and move the cursor
        // based on that
        let (axis, positive) = curve_move(curve_type, level.progress - 1);
        let at = self.position[axis as usize];
        self.position[axis as usize] = if positive { at + 1 } else { at - 1 };

        // We were and are still in the same leaf block and we just moved
        // between its sub-blocks.
        let adr = curve_address(curve_type, level.progress);
        let bb_curve_type = curve_induced(curve_type, level.progress);
        let size = extra_division_subblock_size(level.size, adr, curve_type);
        self.level_states[leaf_level + 1].size = size;
        proof {
            let o = self.origins@[leaf_level as int];
            let ox = o.0 + if side(adr, 0) {
                fine_near_part(lsz(level, 0)) as int
            } else {
                0
            };
            let oy = o.1 + if side(adr, 1) {
                fine_sub_size(lsz(level, 1), curve_type == 0) as int
            } else {
                0
            };
            self.origins@ = self.origins@.update(leaf_level + 1, (ox, oy));
        }
        self.bb_secondary_neg = curve_secondary_negative_at_start(bb_curve_type) != 0;
        self.bb_curve_type = bb_curve_type;
        self.bb_end = curve_end_point(bb_curve_type);
        self.bb_progress = if curve_primary_axis(bb_curve_type) != 0 {
            [size[1], size[0]]
        } else {
            [size[0], size[1]]
        };
        proof {
            assert(Self::sub_moved(pre, *self));
            lemma_sub_stepped(a, pre, *self);
            lemma_next_sub(a, *self);
            assert forall|c: (int, int)| #[trigger]
                self.visited(c) <==> (a.visited(c) || c == a.cursor()) by {
                lemma_next_sub_visited(a, *self, c);
            }
            lemma_model_next_sub(pre, *self);
        }
    }

    /// Recompute the sizes and curve types of the levels below `j`, down to
    /// the new leaf.
    fn descend(&mut self, j: usize)
        requires
            old(self).descending(j as int, j as int),
        ensures
            final(self).descending(j as int, final(self).d()),
            Self::same_but_stack(*old(self), *final(self)),
            forall|k: int| 0 <= k <= j ==> final(self).levels()[k] == old(self).levels()[k],
            forall|k: int| 0 <= k <= j ==> final(self).origins@[k] == old(self).origins@[k],
            final(self).mlevels() == model::descend_from(
                old(self).mlevels().take(j + 1),
                old(self).d(),
            ),
            final(self).model() == (ScanState {
                levels: final(self).mlevels(),
                ..old(self).model()
            }),
    {
        let leaf_level = self.num_levels - 2;
        let mut i = j;
        proof {
            assert(self.mlevels().take(i + 1) =~= self.mlevels().take(j + 1));
        }
        while i < leaf_level
            invariant
                j <= i <= leaf_level,
                leaf_level == self.d(),
                self.descending(j as int, i as int),
                Self::same_but_stack(*old(self), *self),
                forall|k: int| 0 <= k <= j ==> self.levels()[k] == old(self).levels()[k],
                forall|k: int| 0 <= k <= j ==> self.origins@[k] == old(self).origins@[k],
                forall|k: int|
                    leaf_level < k < self.levels().len() ==> self.levels()[k] == old(
                        self,
                    ).levels()[k],
                model::descend_from(old(self).mlevels().take(j + 1), leaf_level as int)
                    == model::descend_from(self.mlevels().take(i + 1), leaf_level as int),
            decreases leaf_level - i,
        {
            let ghost before = *self;
            let level = self.level_states[i];
            proof {
                assert(level_ok(
                    level,
                    self.origins@[i as int],
                    self.width() as int,
                    self.height() as int,
                    self.d(),
                    i as int,
                ));
                lemma_parts(level.size[0], (leaf_level - i) as nat);
                lemma_parts(level.size[1], (leaf_level - i) as nat);
            }
            let adr = curve_address(level.curve_type, level.progress);
            let ind = curve_induced(level.curve_type, level.progress);
            let far = map_pair(level.size, division_l1);
            let near = [level.size[0] - far[0], level.size[1] - far[1]];
            let size = [
                if corner_side(adr, 0) { far[0] } else { near[0] },
                if corner_side(adr, 1) { far[1] } else { near[1] },
            ];
            self.level_states[i + 1] = LevelState { size, curve_type: ind, progress: 0 };
            proof {
                let o = self.origins@[i as int];
                let ox = o.0 + if side(adr, 0) { near[0] as int } else { 0 };
                let oy = o.1 + if side(adr, 1) { near[1] as int } else { 0 };
                self.origins@ = self.origins@.update(i + 1, (ox, oy));
                lemma_descend_step(before, *self, j as int, i as int);
                lemma_model_descend_step(before, *self, i as int);
            }
            i += 1;
        }
        proof {
            assert(self.mlevels().take(leaf_level + 1) =~= self.mlevels());
            lemma_model_same_size(*old(self), *self);
        }
    }

    /// Find the move that will leave the leaf: the level nearest to the leaf
    /// that has a next sub-block, with the axis and the sign of the move to
    /// that sub-block. `None` where the leaf is the last one.
    fn next_direction(&self) -> (r: Option<Move>)
        requires
            self.num_levels >= 3,
            self.num_levels <= self.level_states.len(),
            forall|k: int|
                0 <= k < self.d() ==> (#[trigger] self.levels()[k]).progress <= 3
                    && self.levels()[k].curve_type < 8,
        ensures
            self.is_next_direction(r),
            r is Some ==> r->0.axis < 2,
            model::direction(self.mlevels(), self.d()) == (if r is Some {
                Some(model::Heading { axis: r->0.axis as int, positive: r->0.positive })
            } else {
                None
            }),
    {
        let mut i = self.num_levels - 2;
        while i > 0
            invariant
                0 <= i <= self.d(),
                self.num_levels >= 3,
                self.num_levels <= self.level_states.len(),
                all_last(self.levels(), i as int - 1, self.d()),
                forall|k: int|
                    0 <= k < self.d() ==> (#[trigger] self.levels()[k]).progress <= 3
                        && self.levels()[k].curve_type < 8,
                model::direction(self.mlevels(), self.d()) == model::direction(
                    self.mlevels(),
                    i as int,
                ),
            decreases i,
        {
            proof {
                assert(self.mlevels()[i - 1] == self.levels()[i - 1]@);
            }
            i -= 1;
            let level = self.level_states[i];
            if level.progress != 3 {
                let (axis, positive) = curve_move(level.curve_type, level.progress);
                return Some(Move { level: i, axis, positive });
            }
            proof {
                assert forall|k: int| i as int - 1 < k < self.d() implies (
                #[trigger] self.levels()[k]).progress == 3 by {
                    if k > i {
                        assert(all_last(self.levels(), i as int, self.d()));
                    }
                }
            }
        }
        None
    }

    /// Step across the border to the next sub-block of level `j`. Gives the
    /// corner at which the next leaf block is entered.
    fn cross(&mut self, j: usize, Ghost(a): Ghost<Self>) -> (enter: u8)
        requires
            a.wf(),
            !a.done,
            a.bb_progress[0] == 1,
            a.bb_progress[1] == 1,
            j < a.d(),
            Self::climbed(a, *old(self), j as int),
            Self::same_but_levels(a, *old(self)),
        ensures
            Self::crossed(a, *final(self), j as int),
            final(self).descending(j as int, j as int),
            enter == across(
                a.bb_end,
                move_axis(a.levels()[j as int].curve_type, a.levels()[j as int].progress),
            ),
            enter < 4,
            final(self).level_states == old(self).level_states,
            final(self).model() == (ScanState {
                cursor: model::step(
                    old(self).model().cursor,
                    move_axis(a.levels()[j as int].curve_type, a.levels()[j as int].progress),
                    move_positive(a.levels()[j as int].curve_type, a.levels()[j as int].progress),
                ),
                ..old(self).model()
            }),
    {
        proof {
            lemma_cross_room(a, j as int);
            lemma_after_climb(a, *self, j as int);
        }
        let ghost before = *self;
        // Get the relative position of the next block, and move the cursor
        // based on that
        let level = self.level_states[j];
        let (axis, positive) = curve_move(level.curve_type, level.progress - 1);
        let at = self.position[axis as usize];
        self.position[axis as usize] = if positive { at + 1 } else { at - 1 };
        proof {
            lemma_same_descending(before, *self, j as int);
            lemma_model_cross(before, *self, axis as int, positive);
        }
        // Now we also know where do we enter the next block
        corner_across(self.bb_end, axis)
    }

    /// Move on to the next leaf block, after level `j` has moved on to its
    /// next sub-block: step across the border, recompute the levels below
    /// `j`, and pick the pattern of the new leaf.
    #[verifier::rlimit(50)]
    fn next_leaf(&mut self, j: usize, Ghost(a): Ghost<Self>)
        requires
            a.wf(),
            !a.done,
            a.bb_progress[0] == 1,
            a.bb_progress[1] == 1,
            j < a.d(),
            Self::climbed(a, *old(self), j as int),
            Self::same_but_levels(a, *old(self)),
        ensures
            final(self).wf(),
            !final(self).done,
            adjacent(a.cursor(), final(self).cursor()),
            final(self).size == a.size,
            final(self).level_states.len() == a.level_states.len(),
            forall|c: (int, int)| #[trigger]
                final(self).visited(c) <==> (a.visited(c) || c == a.cursor()),
            final(self).model() == model::next_leaf(old(self).model(), j as int),
    {
        let ghost pre = *self;
        let next_bb_enter = self.cross(j, Ghost(a));
        let ghost over = *self;
        self.descend(j);
        proof {
            lemma_landed(a, over, *self, j as int);
        }
        // Now that a new block is found, the scanning pattern of the block
        // must be determined: we know the corner at which it is entered, and
        // the location (left, right, up or down) of the block after it.
        let next = self.next_direction();
        // The last block of a rectangle of even width and odd height is
        // scanned row by row, so that the scan ends at the bottom right.
        let plain = next.is_none() && self.size[0] % 2 == 0 && self.size[1] % 2 == 1;
        let curve_type = if plain {
            5
        } else {
            match next {
                Some(m) => curve_scanning_type(m.positive, next_bb_enter, m.axis),
                None => curve_scanning_type(true, next_bb_enter, 0),
            }
        };
        proof {
            let ghost landed = *self;
            self.kind@ = if plain {
                LeafKind::Plain
            } else {
                LeafKind::Inner
            };
            lemma_entry(a, landed, *self, j as int, next, curve_type, plain);
            lemma_model_kind(landed, *self);
        }
        let ghost ready = *self;
        self.enter_leaf(curve_type, plain);
        proof {
            assert forall|c: (int, int)| #[trigger]
                self.visited(c) <==> (a.visited(c) || c == a.cursor()) by {
                lemma_leaf_visited(a, ready, j as int, c);
            }
            lemma_model_next_leaf(a, pre, ready, *self, j as int, curve_type, plain);
        }
    }

    /// Produce the next cell of the scan, or `None` once every cell has been
    /// produced.
    #[verifier::rlimit(50)]
    pub(crate) fn next(&mut self) -> (r: Option<[u32; 2]>)
        requires
            old(self).wf(),
        ensures
            final(self).wf(),
            final(self).width() == old(self).width(),
            final(self).height() == old(self).height(),
            final(self).capacity() == old(self).capacity(),
            old(self).is_done() ==> r is None && *final(self) == *old(self),
            !old(self).is_done() ==> {
                &&& r is Some
                &&& (r->0[0] as int, r->0[1] as int) == old(self).cursor()
                &&& r->0[0] < old(self).width()
                &&& r->0[1] < old(self).height()
                &&& (!final(self).is_done() ==> adjacent(old(self).cursor(), final(self).cursor()))
                &&& (final(self).is_done() && old(self).width() % 2 == 0 ==> old(self).cursor() == (
                    old(self).width() - 1,
                    0int,
                ))
                &&& !old(self).visited(old(self).cursor())
                &&& (forall|c: (int, int)| #[trigger]
                    final(self).visited(c) <==> (old(self).visited(c) || c == old(self).cursor()))
            },
            final(self).model() == model::next(old(self).model()),
    {
        if self.done {
            return None;
        }
        let ghost start = *self;
        let position = self.position;
        proof {
            lemma_room(start);
            lemma_cursor_fresh(start);
        }
        if self.advance() {
            return Some(position);
        }
        // This block is complete! Find the next block.
        proof {
            assert(start.leaf_ok());
            assert(start.leaf_geom_ok());
            assert(start.kind_ok());
        }
        if self.bb_helper_row {
            let leaf_level = self.num_levels - 2;
            let block_done = if self.last_level == leaf_level {
                true
            } else {
                self.level_states[leaf_level].progress == 3
            };
            if block_done {
                // The current block is complete. Now, generate the helper
                // row.
                self.start_helper_row();
                return Some(position);
            }
        }
        if self.last_level == 0 {
            proof {
                if start.width() % 2 == 0 {
                    lemma_single_leaf_end(start);
                }
                assert(all_last(start.levels(), -1, start.d()));
            }
            self.done = true;
            proof {
                assert forall|c: (int, int)| #[trigger]
                    self.visited(c) <==> (start.visited(c) || c == start.cursor()) by {
                    lemma_done_visited(start, c);
                }
                assert(self.mlevels() == start.mlevels());
            }
            return Some(position);
        }
        proof {
            lemma_model_levels_len(start);
        }
        match self.ascend() {
            None => {
                self.done = true;
                proof {
                    assert forall|c: (int, int)| #[trigger]
                        self.visited(c) <==> (start.visited(c) || c == start.cursor()) by {
                        lemma_done_visited(start, c);
                    }
                }
            },
            Some(i) => {
                if i == self.num_levels - 2 {
                    self.next_sub_block(Ghost(start));
                } else {
                    self.next_leaf(i, Ghost(start));
                }
            },
        }
        Some(position)
    }

    /// Give back the level states.
    pub(crate) fn into_level_states(self) -> (r: Vec<LevelState>)
        ensures
            r.len() == self.capacity(),
    {
        self.level_states
    }
}

impl Engine {
    /// While the scan is not done its cursor is a cell of the rectangle.
    pub(crate) proof fn lemma_cursor_in_grid(&self)
        requires
            self.wf(),
            !self.is_done(),
        ensures
            0 <= self.cursor().0 < self.width(),
            0 <= self.cursor().1 < self.height(),
    {
        lemma_room(*self);
    }

    /// The cursor is a cell that the scan has not produced.
    pub(crate) proof fn lemma_cursor_not_visited(&self)
        requires
            self.wf(),
            !self.is_done(),
        ensures
            !self.visited(self.cursor()),
    {
        lemma_cursor_fresh(*self);
    }

    /// Once the scan is done it has produced every cell of the rectangle.
    pub(crate) proof fn lemma_visited_when_done(&self, c: (int, int))
        requires
            self.wf(),
            self.is_done(),
        ensures
            self.visited(c) <==> 0 <= c.0 < self.width() && 0 <= c.1 < self.height(),
    {
    }

    /// What the state as plain values says of the scan.
    pub(crate) proof fn lemma_model(&self)
        ensures
            self.model().size == (self.width(), self.height()),
            self.model().cursor == self.cursor(),
            self.model().done == self.is_done(),
    {
    }
}

} // verus!
