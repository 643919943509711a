//! The zigzag over a block: where it starts, where it ends, and how the
//! blocks of a leaf follow one another.
use crate::curve::{
    across, address, end_corner, induced, lemma_induction, lemma_move, lemma_zigzag_corners,
    move_axis, move_positive, primary_axis, primary_negative, secondary_negative, side,
    start_corner,
};
use crate::split::{fine_near_part, fine_sub_size, lemma_fine_parts};
use crate::model::num_levels_spec;
use crate::grid::adjacent;
use super::{all_first, all_last, at_corner, co, Engine, fine_low, fits, lsz, stack_ok};
use super::levels::{lemma_all_last_frame, lemma_faces_frame, lemma_stack_frame};
use vstd::prelude::*;

verus! {

/// In a block that pattern `c` fits, every sub-block of the finest split has
/// an even number of rows.
pub(super) proof fn lemma_sub_parity(sx: nat, sy: nat, c: u8, k: u8)
    requires
        sx >= 3,
        sy >= 3,
        c < 8,
        k < 4,
        fits(sx, sy, c),
    ensures
        ({
            let adr = address(c, k);
            let t = induced(c, k);
            let ex = fine_sub_size(sx, side(adr, 0));
            let ey = fine_sub_size(sy, side(adr, 1) != (c == 0));
            &&& ex >= 1
            &&& ey >= 1
            &&& (primary_axis(t) == 0 ==> ex % 2 == 0)
            &&& (primary_axis(t) == 1 ==> ey % 2 == 0)
        }),
{
    lemma_fine_parts(sx);
    lemma_fine_parts(sy);
}

/// A zigzag that starts at the start corner of its pattern, in a block that
/// lies inside the rectangle, is sound.
pub(super) proof fn lemma_block_start(s: Engine)
    requires
        s.bb_curve_type < 8,
        s.bb_end < 4,
        s.bb_ext(0) >= 1,
        s.bb_ext(1) >= 1,
        s.bb_progress[0] == s.bb_ext(primary_axis(s.bb_curve_type)),
        s.bb_progress[1] == s.bb_ext(1 - primary_axis(s.bb_curve_type)),
        s.bb_ext(1 - primary_axis(s.bb_curve_type)) == lsz(
            s.levels()[s.last_level as int],
            1 - primary_axis(s.bb_curve_type),
        ),
        s.bb_secondary_neg == secondary_negative(s.bb_curve_type),
        s.position[0] as int == s.bb_org(0) + if side(start_corner(s.bb_curve_type), 0) {
            s.bb_ext(0) - 1
        } else {
            0
        },
        s.position[1] as int == s.bb_org(1) + if side(start_corner(s.bb_curve_type), 1) {
            s.bb_ext(1) - 1
        } else {
            0
        },
        0 <= s.bb_org(0),
        0 <= s.bb_org(1),
        s.bb_org(0) + s.bb_ext(0) <= s.width(),
        s.bb_org(1) + s.bb_ext(1) <= s.height(),
        s.bb_ext(primary_axis(s.bb_curve_type)) % 2 == 0 ==> s.bb_end == end_corner(
            s.bb_curve_type,
        ),
        s.bb_ext(primary_axis(s.bb_curve_type)) % 2 == 1 ==> s.bb_end == across(
            end_corner(s.bb_curve_type),
            1 - primary_axis(s.bb_curve_type),
        ),
    ensures
        s.block_ok(),
{
    lemma_zigzag_corners(s.bb_curve_type);
}

/// `enter_leaf` establishes the invariant.
#[verifier::rlimit(50)]
pub(super) proof fn lemma_enter_leaf(a: Engine, b: Engine, c: u8, plain: bool)
    requires
        a.entry_ok(c, plain),
        b.size == a.size,
        b.num_levels == a.num_levels,
        b.position == a.position,
        b.bb_helper_row == a.bb_helper_row,
        b.done == a.done,
        b.kind == a.kind,
        b.level_states.len() == a.level_states.len(),
        b.origins@.len() == a.origins@.len(),
        forall|i: int| 0 <= i < a.d() ==> a.levels()[i] == b.levels()[i],
        forall|i: int| 0 <= i <= a.d() ==> a.origins@[i] == b.origins@[i],
        ({
            let d = a.d();
            let leaf = a.levels()[d];
            let split = lsz(leaf, 0) >= 3 && lsz(leaf, 1) >= 3 && !plain;
            let adr = address(c, 0);
            let bct = if split { induced(c, 0) } else { c };
            let p = primary_axis(bct);
            &&& b.last_level == if split { d + 1 } else { d }
            &&& b.bb_curve_type == bct
            &&& b.bb_secondary_neg == secondary_negative(bct)
            &&& b.bb_end == if plain { 2u8 } else { end_corner(bct) }
            &&& b.bb_progress[0] == lsz(b.levels()[b.last_level as int], p)
            &&& b.bb_progress[1] == lsz(b.levels()[b.last_level as int], 1 - p)
            &&& (!split ==> b.levels()[d] == leaf)
            &&& (split ==> {
                &&& b.levels()[d].size == leaf.size
                &&& b.levels()[d].curve_type == c
                &&& b.levels()[d].progress == 0
                &&& lsz(b.levels()[d + 1], 0) == fine_sub_size(lsz(leaf, 0), side(adr, 0))
                &&& lsz(b.levels()[d + 1], 1) == fine_sub_size(
                    lsz(leaf, 1),
                    side(adr, 1) != (c == 0),
                )
                &&& co(b.origins@[d + 1], 0) == co(a.origins@[d], 0) + if side(adr, 0) {
                    fine_near_part(lsz(leaf, 0)) as int
                } else {
                    0
                }
                &&& co(b.origins@[d + 1], 1) == co(a.origins@[d], 1) + if side(adr, 1) {
                    fine_sub_size(lsz(leaf, 1), c == 0) as int
                } else {
                    0
                }
            })
        }),
    ensures
        b.wf(),
{
    let d = a.d();
    let leaf = a.levels()[d];
    let split = lsz(leaf, 0) >= 3 && lsz(leaf, 1) >= 3 && !plain;
    let w = a.width() as int;
    let h = a.height() as int;
    assert(b.d() == d);
    lemma_stack_frame(a.levels(), a.origins@, b.levels(), b.origins@, w, h, d, d);
    lemma_faces_frame(a.levels(), b.levels(), d, a.entry_exit(c));
    lemma_all_last_frame(a.levels(), b.levels(), -1, d);
    lemma_induction(c, 0);
    lemma_zigzag_corners(c);
    assert(b.leaf_size(0) == a.leaf_size(0) && b.leaf_size(1) == a.leaf_size(1));
    assert(b.needs_helper() == a.needs_helper());
    assert(b.helper_cut(0) == a.helper_cut(0) && b.helper_cut(1) == a.helper_cut(1));
    assert(!b.in_helper());
    assert(b.leaf_geom_ok());
    if split {
        lemma_sub_parity(lsz(leaf, 0), lsz(leaf, 1), c, 0);
        lemma_fine_parts(lsz(leaf, 0));
        lemma_fine_parts(lsz(leaf, 1));
        assert(b.sub_ok());
    }
    assert(b.kind_ok()) by {
        if a.kind@ is First {
            assert(all_first(b.levels(), d)) by {
                assert forall|k: int| 0 <= k < d implies (#[trigger] b.levels()[k]).progress
                    == 0 by {
                    assert(a.levels()[k].progress == 0);
                }
            }
        }
    }
    assert(b.exit_corner() == a.entry_exit(c));
    assert(b.exit_ok());
    lemma_zigzag_corners(b.bb_curve_type);
    lemma_block_start(b);
}


/// The parts of the invariant that do not speak of the position within the
/// block hold of `b` when they hold of `a` and the two agree on everything
/// but that position.
pub(super) proof fn lemma_same_leaf(a: Engine, b: Engine)
    requires
        a.wf(),
        !a.done,
        b.size == a.size,
        b.num_levels == a.num_levels,
        b.last_level == a.last_level,
        b.level_states == a.level_states,
        b.bb_curve_type == a.bb_curve_type,
        b.bb_end == a.bb_end,
        b.bb_helper_row == a.bb_helper_row,
        b.done == a.done,
        b.origins == a.origins,
        b.kind == a.kind,
    ensures
        b.leaf_ok(),
        stack_ok(b.levels(), b.origins@, b.width() as int, b.height() as int, b.d(), b.d()),
        b.bb_org(0) == a.bb_org(0),
        b.bb_org(1) == a.bb_org(1),
        b.bb_ext(0) == a.bb_ext(0),
        b.bb_ext(1) == a.bb_ext(1),
{
    assert(b.leaf_geom_ok());
    assert(b.last_level == b.d() + 1 ==> b.sub_ok());
    assert(b.kind_ok());
    assert(b.exit_corner() == a.exit_corner());
    assert(b.exit_ok());
}

/// Where the zigzag can still move, the rectangle has room for the move.
pub(super) proof fn lemma_room(a: Engine)
    requires
        a.block_ok(),
    ensures
        a.bb_curve_type < 8,
        a.bb_progress[0] >= 1,
        a.bb_progress[1] >= 1,
        a.position[0] < a.size[0],
        a.position[1] < a.size[1],
        a.bb_progress[1] != 1 && a.bb_secondary_neg ==> a.position[1 - primary_axis(
            a.bb_curve_type,
        )] >= 1,
        a.bb_progress[1] != 1 && !a.bb_secondary_neg ==> a.position[1 - primary_axis(
            a.bb_curve_type,
        )] + 1 < a.size[1 - primary_axis(a.bb_curve_type)],
        a.bb_progress[0] != 1 && primary_negative(a.bb_curve_type) ==> a.position[primary_axis(
            a.bb_curve_type,
        )] >= 1,
        a.bb_progress[0] != 1 && !primary_negative(a.bb_curve_type) ==> a.position[primary_axis(
            a.bb_curve_type,
        )] + 1 < a.size[primary_axis(a.bb_curve_type)],
{
}

/// A move within the block keeps the invariant.
pub(super) proof fn lemma_moved(a: Engine, b: Engine)
    requires
        a.wf(),
        !a.done,
        b.size == a.size,
        b.num_levels == a.num_levels,
        b.last_level == a.last_level,
        b.level_states == a.level_states,
        b.bb_curve_type == a.bb_curve_type,
        b.bb_end == a.bb_end,
        b.bb_helper_row == a.bb_helper_row,
        b.done == a.done,
        b.origins == a.origins,
        b.kind == a.kind,
        ({
            let p = primary_axis(a.bb_curve_type);
            let q = 1 - p;
            ||| {
                &&& a.bb_progress[1] != 1
                &&& b.bb_progress[0] == a.bb_progress[0]
                &&& b.bb_progress[1] == a.bb_progress[1] - 1
                &&& b.bb_secondary_neg == a.bb_secondary_neg
                &&& b.position[p] == a.position[p]
                &&& b.position[q] == a.position[q] + if a.bb_secondary_neg {
                    -1int
                } else {
                    1int
                }
            }
            ||| {
                &&& a.bb_progress[1] == 1
                &&& a.bb_progress[0] != 1
                &&& b.bb_progress[0] == a.bb_progress[0] - 1
                &&& b.bb_progress[1] == lsz(a.levels()[a.last_level as int], q)
                &&& b.bb_secondary_neg == !a.bb_secondary_neg
                &&& b.position[q] == a.position[q]
                &&& b.position[p] == a.position[p] + if primary_negative(a.bb_curve_type) {
                    -1int
                } else {
                    1int
                }
            }
        }),
    ensures
        b.wf(),
        adjacent(a.cursor(), b.cursor()),
{
    lemma_same_leaf(a, b);
    assert(a.block_ok());
    assert(b.block_ok());
}

/// At the last cell of the block being zigzagged the scan stands in the
/// corner at which the block is left.
pub(super) proof fn lemma_at_exit(a: Engine)
    requires
        a.block_ok(),
        a.bb_progress[0] == 1,
        a.bb_progress[1] == 1,
    ensures
        at_corner(
            a.position,
            (a.bb_org(0), a.bb_org(1)),
            a.bb_ext(0),
            a.bb_ext(1),
            a.bb_end,
        ),
{
}

/// The corner of a sub-block that has the sub-block's address is the same
/// corner of the leaf.
pub(super) proof fn lemma_sub_corner(a: Engine)
    requires
        a.sub_ok(),
        a.last_level == a.d() + 1,
        a.levels()[a.d()].curve_type < 8,
        a.levels()[a.d()].progress <= 3,
    ensures
        ({
            let d = a.d();
            let leaf = a.levels()[d];
            let x = address(leaf.curve_type, leaf.progress);
            &&& a.bb_org(0) + (if side(x, 0) {
                a.bb_ext(0) - 1
            } else {
                0
            }) == co(a.origins@[d], 0) + if side(x, 0) {
                lsz(leaf, 0) - 1
            } else {
                0
            }
            &&& a.bb_org(1) + (if side(x, 1) {
                a.bb_ext(1) - 1
            } else {
                0
            }) == co(a.origins@[d], 1) + if side(x, 1) {
                lsz(leaf, 1) - 1
            } else {
                0
            }
        }),
{
    let d = a.d();
    let leaf = a.levels()[d];
    lemma_fine_parts(lsz(leaf, 0));
    lemma_fine_parts(lsz(leaf, 1));
}

/// At the last cell of the leaf block, short of its helper row, the scan
/// stands in the end corner of the leaf's pattern.
pub(super) proof fn lemma_block_exit(a: Engine)
    requires
        a.wf(),
        !a.done,
        a.bb_progress[0] == 1,
        a.bb_progress[1] == 1,
        a.leaf_complete(),
        !a.in_helper(),
    ensures
        at_corner(
            a.position,
            a.origins@[a.d()],
            lsz(a.levels()[a.d()], 0) as int,
            lsz(a.levels()[a.d()], 1) as int,
            if a.last_level == a.d() {
                a.bb_end
            } else {
                end_corner(a.levels()[a.d()].curve_type)
            },
        ),
        a.last_level == a.d() + 1 ==> a.bb_end == end_corner(a.levels()[a.d()].curve_type),
{
    lemma_at_exit(a);
    assert(a.leaf_ok());
    assert(a.leaf_geom_ok());
    if a.last_level == a.d() + 1 {
        lemma_sub_corner(a);
        lemma_induction(a.levels()[a.d()].curve_type, 3);
    }
}

/// At the last cell of the whole leaf block the scan stands in the corner
/// at which the leaf is left.
pub(super) proof fn lemma_leaf_exit(a: Engine)
    requires
        a.wf(),
        !a.done,
        a.bb_progress[0] == 1,
        a.bb_progress[1] == 1,
        a.leaf_complete(),
        !a.bb_helper_row,
    ensures
        at_corner(
            a.position,
            a.origins@[a.d()],
            a.leaf_size(0) as int,
            a.leaf_size(1) as int,
            a.exit_corner(),
        ),
        a.bb_end == a.exit_corner(),
        a.exit_corner() < 4,
{
    assert(a.leaf_ok());
    assert(a.leaf_geom_ok());
    assert(a.kind_ok());
    assert(a.block_ok());
    if a.in_helper() {
        lemma_at_exit(a);
    } else {
        lemma_block_exit(a);
    }
}

/// The start of the helper row keeps the invariant.
pub(super) proof fn lemma_helper_row(a: Engine, b: Engine)
    requires
        a.wf(),
        !a.done,
        a.bb_progress[0] == 1,
        a.bb_progress[1] == 1,
        a.leaf_complete(),
        a.bb_helper_row,
        b.size == a.size,
        b.num_levels == a.num_levels,
        b.last_level == a.d(),
        b.level_states == a.level_states,
        b.bb_curve_type == a.levels()[a.d()].curve_type,
        b.bb_end == 3,
        !b.bb_helper_row,
        b.done == a.done,
        b.origins == a.origins,
        b.kind == a.kind,
        !b.bb_secondary_neg,
        b.bb_progress[0] == 1,
        b.bb_progress[1] == lsz(
            a.levels()[a.d()],
            1 - primary_axis(a.levels()[a.d()].curve_type),
        ),
        b.position[primary_axis(a.levels()[a.d()].curve_type)] == a.position[primary_axis(
            a.levels()[a.d()].curve_type,
        )] + 1,
        b.position[1 - primary_axis(a.levels()[a.d()].curve_type)] == a.position[1 - primary_axis(
            a.levels()[a.d()].curve_type,
        )],
    ensures
        b.wf(),
        adjacent(a.cursor(), b.cursor()),
{
    let d = a.d();
    let leaf = a.levels()[d];
    assert(a.leaf_ok());
    assert(a.leaf_geom_ok());
    assert(a.kind_ok());
    assert(!a.in_helper());
    lemma_block_exit(a);
    assert(b.in_helper());
    assert(b.d() == d);
    assert(b.leaf_size(0) == a.leaf_size(0) && b.leaf_size(1) == a.leaf_size(1));
    assert(b.leaf_geom_ok());
    assert(b.kind_ok());
    assert(b.exit_corner() == a.exit_corner());
    assert(b.exit_ok()) by {
        assert(a.exit_ok());
    }
    assert(b.leaf_ok());
    lemma_zigzag_corners(leaf.curve_type);
    lemma_block_start(b);
}

/// Where the scan of a single leaf block ends.
pub(super) proof fn lemma_single_leaf_end(a: Engine)
    requires
        a.wf(),
        !a.done,
        a.bb_progress[0] == 1,
        a.bb_progress[1] == 1,
        a.last_level == 0,
        !a.bb_helper_row,
        a.width() % 2 == 0,
    ensures
        a.cursor() == (a.width() - 1, 0int),
{
    assert(a.leaf_ok());
    assert(a.leaf_geom_ok());
    assert(a.kind_ok());
    assert(a.exit_ok());
    assert(a.d() == 0);
    assert(all_last(a.levels(), -1, 0));
    lemma_leaf_exit(a);
    assert(stack_ok(a.levels(), a.origins@, a.width() as int, a.height() as int, 0, 0));
}

/// Where the current sub-block of the leaf lies in the leaf.
pub(super) proof fn lemma_sub_rect(a: Engine)
    requires
        a.sub_ok(),
        a.last_level == a.d() + 1,
        a.levels()[a.d()].curve_type < 8,
        a.levels()[a.d()].progress <= 3,
    ensures
        ({
            let d = a.d();
            let leaf = a.levels()[d];
            let x = address(leaf.curve_type, leaf.progress);
            &&& 1 <= fine_low(leaf, 0) < lsz(leaf, 0)
            &&& 1 <= fine_low(leaf, 1) < lsz(leaf, 1)
            &&& a.bb_org(0) == co(a.origins@[d], 0) + if side(x, 0) {
                fine_low(leaf, 0) as int
            } else {
                0
            }
            &&& a.bb_org(1) == co(a.origins@[d], 1) + if side(x, 1) {
                fine_low(leaf, 1) as int
            } else {
                0
            }
            &&& a.bb_ext(0) == if side(x, 0) {
                lsz(leaf, 0) - fine_low(leaf, 0)
            } else {
                fine_low(leaf, 0) as int
            }
            &&& a.bb_ext(1) == if side(x, 1) {
                lsz(leaf, 1) - fine_low(leaf, 1)
            } else {
                fine_low(leaf, 1) as int
            }
        }),
{
    let d = a.d();
    let leaf = a.levels()[d];
    lemma_fine_parts(lsz(leaf, 0));
    lemma_fine_parts(lsz(leaf, 1));
}

/// The rectangle has room for the move from a sub-block of the leaf to the
/// next one.
pub(super) proof fn lemma_sub_room(a: Engine)
    requires
        a.wf(),
        !a.done,
        a.bb_progress[0] == 1,
        a.bb_progress[1] == 1,
        a.last_level == a.d() + 1,
        a.levels()[a.d()].progress < 3,
    ensures
        ({
            let leaf = a.levels()[a.d()];
            let m = move_axis(leaf.curve_type, leaf.progress);
            &&& leaf.curve_type < 8
            &&& a.num_levels >= 2
            &&& lsz(leaf, 0) >= 3
            &&& lsz(leaf, 1) >= 3
            &&& a.bb_end < 4
            &&& (move_positive(leaf.curve_type, leaf.progress) ==> a.position[m] + 1 < a.size[m])
            &&& (!move_positive(leaf.curve_type, leaf.progress) ==> a.position[m] >= 1)
        }),
{
    let d = a.d();
    let leaf = a.levels()[d];
    assert(a.leaf_ok());
    assert(a.leaf_geom_ok());
    assert(a.sub_ok());
    assert(a.block_ok());
    lemma_at_exit(a);
    lemma_sub_rect(a);
    lemma_move(leaf.curve_type, leaf.progress);
    lemma_induction(leaf.curve_type, leaf.progress);
}

/// The move to the next sub-block of the leaf keeps what holds of the
/// levels and of the leaf.
pub(super) proof fn lemma_next_sub_leaf(a: Engine, b: Engine)
    requires
        Engine::sub_stepped(a, b),
    ensures
        b.d() == a.d(),
        stack_ok(b.levels(), b.origins@, b.width() as int, b.height() as int, b.d(), b.d()),
        b.leaf_ok(),
        b.sub_ok(),
        b.num_levels == num_levels_spec(b.width(), b.height()),
        b.num_levels <= b.level_states.len(),
        b.num_levels >= 1,
{
    let d = a.d();
    let leaf = a.levels()[d];
    let c = leaf.curve_type;
    let q = leaf.progress;
    let k = (q + 1) as u8;
    let w = a.width() as int;
    let h = a.height() as int;
    assert(a.leaf_ok());
    assert(a.leaf_geom_ok());
    assert(a.sub_ok());
    assert(a.kind_ok());
    assert(a.exit_ok());
    assert(b.d() == d);
    lemma_stack_frame(a.levels(), a.origins@, b.levels(), b.origins@, w, h, d, d);
    lemma_faces_frame(a.levels(), b.levels(), d, a.exit_corner());
    lemma_all_last_frame(a.levels(), b.levels(), -1, d);
    assert(b.leaf_size(0) == a.leaf_size(0) && b.leaf_size(1) == a.leaf_size(1));
    assert(b.needs_helper() == a.needs_helper());
    assert(b.helper_cut(0) == a.helper_cut(0) && b.helper_cut(1) == a.helper_cut(1));
    assert(!b.in_helper());
    assert(b.leaf_geom_ok());
    assert(b.sub_ok());
    assert(b.kind_ok()) by {
        if a.kind@ is First {
            assert(all_first(b.levels(), d)) by {
                assert forall|j: int| 0 <= j < d implies (#[trigger] b.levels()[j]).progress
                    == 0 by {
                    assert(a.levels()[j].progress == 0);
                }
            }
        }
    }
    assert(b.exit_corner() == a.exit_corner());
    assert(b.exit_ok());
}

/// After the move to the next sub-block of the leaf the scan stands at the
/// first cell of that sub-block.
pub(super) proof fn lemma_next_sub_block(a: Engine, b: Engine)
    requires
        Engine::sub_stepped(a, b),
        b.sub_ok(),
    ensures
        b.block_ok(),
        adjacent(a.cursor(), b.cursor()),
{
    let d = a.d();
    let leaf = a.levels()[d];
    let c = leaf.curve_type;
    let q = leaf.progress;
    let k = (q + 1) as u8;
    assert(a.leaf_ok());
    assert(a.leaf_geom_ok());
    assert(a.sub_ok());
    assert(a.block_ok());
    assert(b.d() == d);
    assert(fits(lsz(leaf, 0), lsz(leaf, 1), c));
    lemma_sub_parity(lsz(leaf, 0), lsz(leaf, 1), c, k);
    lemma_fine_parts(lsz(leaf, 0));
    lemma_fine_parts(lsz(leaf, 1));
    lemma_induction(c, q);
    lemma_move(c, q);
    lemma_at_exit(a);
    lemma_sub_rect(a);
    lemma_sub_rect(b);
    lemma_zigzag_corners(b.bb_curve_type);
    lemma_block_start(b);
}

/// The move to the next sub-block of the leaf keeps the invariant.
pub(super) proof fn lemma_next_sub(a: Engine, b: Engine)
    requires
        Engine::sub_stepped(a, b),
    ensures
        b.wf(),
        adjacent(a.cursor(), b.cursor()),
{
    lemma_next_sub_leaf(a, b);
    lemma_next_sub_block(a, b);
}

/// The step to the next sub-block, seen from the state before the climb.
/// `pre` is the state after the climb.
pub(super) proof fn lemma_sub_stepped(a: Engine, pre: Engine, b: Engine)
    requires
        a.wf(),
        !a.done,
        a.bb_progress[0] == 1,
        a.bb_progress[1] == 1,
        Engine::climbed(a, pre, a.d()),
        Engine::same_but_levels(a, pre),
        Engine::sub_moved(pre, b),
    ensures
        Engine::sub_stepped(a, b),
{
    assert(pre.d() == a.d());
}

} // verus!
