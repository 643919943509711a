//! The step from one leaf block to the next.
use crate::curve::{
    across, end_corner, induced, lemma_edge_types, lemma_induction, lemma_move, lemma_scanning_type,
    move_axis, move_positive, scanning_type, side, start_corner,
};
use crate::split::{floor_log2, lemma_parts};
use crate::grid::adjacent;
use super::{
    all_last, at_corner, child_far, child_org, child_size, Engine, faces_next, fits, LeafKind,
    link_ok, lsz, Move, stack_ok,
};
use super::blocks::lemma_leaf_exit;
use super::levels::{lemma_descended, lemma_last_chain, lemma_levels_in_range, lemma_odd_chain};
use vstd::prelude::*;

verus! {

/// The rectangle has room for the move from the leaf to the next leaf.
pub(super) proof fn lemma_cross_room(a: Engine, j: int)
    requires
        a.wf(),
        !a.done,
        a.bb_progress[0] == 1,
        a.bb_progress[1] == 1,
        0 <= j < a.d(),
        a.leaf_complete(),
        !a.bb_helper_row,
        a.docked_at(j),
        a.levels()[j].progress < 3,
    ensures
        ({
            let l = a.levels()[j];
            let m = move_axis(l.curve_type, l.progress);
            &&& l.curve_type < 4
            &&& a.bb_end < 4
            &&& a.bb_end == a.exit_corner()
            &&& side(a.exit_corner(), m) == move_positive(l.curve_type, l.progress)
            &&& (move_positive(l.curve_type, l.progress) ==> a.position[m] + 1 < a.size[m])
            &&& (!move_positive(l.curve_type, l.progress) ==> a.position[m] >= 1)
        }),
{
    let d = a.d();
    let w = a.width() as int;
    let h = a.height() as int;
    let l = a.levels()[j];
    assert(stack_ok(a.levels(), a.origins@, w, h, d, d));
    assert(link_ok(a.levels(), a.origins@, w, h, d, j));
    assert(a.leaf_ok());
    assert(a.exit_ok());
    lemma_leaf_exit(a);
    lemma_induction(l.curve_type, l.progress);
    lemma_move(l.curve_type, l.progress);
    lemma_parts(l.size[0], (d - j) as nat);
    lemma_parts(l.size[1], (d - j) as nat);
}

/// After the move and the descent the scan stands in the corner of the new
/// leaf that lies across the border from the corner at which the old leaf
/// was left.
pub(super) proof fn lemma_arrive_position(a: Engine, b: Engine, j: int)
    requires
        a.wf(),
        !a.done,
        a.bb_progress[0] == 1,
        a.bb_progress[1] == 1,
        0 <= j < a.d(),
        a.leaf_complete(),
        !a.bb_helper_row,
        a.docked_at(j),
        a.levels()[j].progress < 3,
        b.size == a.size,
        b.num_levels == a.num_levels,
        b.origins@[j] == a.origins@[j],
        b.levels()[j].progress == a.levels()[j].progress + 1,
        b.levels()[j].curve_type == a.levels()[j].curve_type,
        b.levels()[j].size == a.levels()[j].size,
        b.docked_first(j),
        ({
            let l = a.levels()[j];
            let m = move_axis(l.curve_type, l.progress);
            &&& b.position[m] == a.position[m] + if move_positive(l.curve_type, l.progress) {
                1int
            } else {
                -1int
            }
            &&& b.position[1 - m] == a.position[1 - m]
        }),
    ensures
        at_corner(
            b.position,
            b.origins@[b.d()],
            lsz(b.levels()[b.d()], 0) as int,
            lsz(b.levels()[b.d()], 1) as int,
            across(
                a.exit_corner(),
                move_axis(a.levels()[j].curve_type, a.levels()[j].progress),
            ),
        ),
        adjacent(a.cursor(), b.cursor()),
{
    let d = a.d();
    let w = a.width() as int;
    let h = a.height() as int;
    let l = a.levels()[j];
    let nl = b.levels()[j];
    let c = l.curve_type;
    let k = l.progress;
    let m = move_axis(c, k);
    assert(b.d() == d);
    lemma_cross_room(a, j);
    assert(stack_ok(a.levels(), a.origins@, w, h, d, d));
    assert(link_ok(a.levels(), a.origins@, w, h, d, j));
    lemma_leaf_exit(a);
    lemma_induction(c, k);
    lemma_move(c, k);
    lemma_parts(l.size[0], (d - j) as nat);
    lemma_parts(l.size[1], (d - j) as nat);
    let g = end_corner(induced(c, k));
    let g2 = start_corner(induced(c, (k + 1) as u8));
    assert(g2 == across(g, m));
    assert(lsz(nl, 0) == lsz(l, 0) && lsz(nl, 1) == lsz(l, 1));
    assert(child_far(nl, 1 - m) == child_far(l, 1 - m));
    assert(child_far(nl, m) == !child_far(l, m));
    assert(child_size(nl, 1 - m) == child_size(l, 1 - m));
    assert(child_org(nl, b.origins@[j], 1 - m) == child_org(l, a.origins@[j], 1 - m));
    assert(side(g2, 1 - m) == side(g, 1 - m));
}

/// On which corner the leaf is left: in a rectangle with an odd side, on
/// the bottom left or the top right; in one without, on the top left or the
/// bottom right.
pub(super) proof fn lemma_exit_mode(a: Engine, j: int)
    requires
        a.wf(),
        !a.done,
        0 <= j < a.d(),
        a.leaf_complete(),
        !a.bb_helper_row,
        a.levels()[j].progress < 3,
    ensures
        a.width() % 2 == 1 || a.height() % 2 == 1 ==> a.exit_corner() == 0 || a.exit_corner() == 3,
        a.width() % 2 == 0 && a.height() % 2 == 0 ==> a.exit_corner() == 1 || a.exit_corner()
            == 2,
{
    let d = a.d();
    assert(a.leaf_ok());
    assert(a.leaf_geom_ok());
    assert(a.kind_ok());
    if a.kind@ is First {
        let m = a.min_side();
        assert(m >= 2) by {
            if m < 2 {
                assert(floor_log2(m) == 0);
            }
        }
        assert(stack_ok(a.levels(), a.origins@, a.width() as int, a.height() as int, d, d));
        assert(link_ok(a.levels(), a.origins@, a.width() as int, a.height() as int, d, d - 1));
        lemma_induction(a.levels()[d - 1].curve_type, 0);
        assert(a.levels()[d - 1].progress == 0);
    }
    if a.kind@ is Plain {
        assert(a.levels()[j].progress == 3);
    }
}

/// The pattern that is looked up for the new leaf fits it, and the scan
/// stands at its first cell.
#[verifier::rlimit(50)]
pub(super) proof fn lemma_arrive(
    a: Engine,
    b: Engine,
    j: int,
    dir: Option<Move>,
    c: u8,
    plain: bool,
)
    requires
        a.wf(),
        !a.done,
        a.bb_progress[0] == 1,
        a.bb_progress[1] == 1,
        0 <= j < a.d(),
        a.leaf_complete(),
        !a.bb_helper_row,
        a.docked_at(j),
        a.levels()[j].progress < 3,
        b.size == a.size,
        b.num_levels == a.num_levels,
        b.level_states.len() == a.level_states.len(),
        !b.done,
        !b.bb_helper_row,
        b.descending(j, a.d()),
        b.origins@[j] == a.origins@[j],
        b.levels()[j].progress == a.levels()[j].progress + 1,
        b.levels()[j].curve_type == a.levels()[j].curve_type,
        b.levels()[j].size == a.levels()[j].size,
        ({
            let l = a.levels()[j];
            let m = move_axis(l.curve_type, l.progress);
            &&& b.position[m] == a.position[m] + if move_positive(l.curve_type, l.progress) {
                1int
            } else {
                -1int
            }
            &&& b.position[1 - m] == a.position[1 - m]
        }),
        b.is_next_direction(dir),
        plain == (dir is None && a.width() % 2 == 0 && a.height() % 2 == 1),
        c == (if plain {
            5u8
        } else {
            scanning_type(
                if dir is Some {
                    dir->0.positive
                } else {
                    true
                },
                across(
                    a.bb_end,
                    move_axis(a.levels()[j].curve_type, a.levels()[j].progress),
                ),
                if dir is Some {
                    dir->0.axis as int
                } else {
                    0
                },
            )
        }),
        b.kind@ == (if plain {
            LeafKind::Plain
        } else {
            LeafKind::Inner
        }),
    ensures
        b.entry_ok(c, plain),
        adjacent(a.cursor(), b.cursor()),
{
    let d = a.d();
    let w = a.width() as int;
    let h = a.height() as int;
    let l = a.levels()[j];
    let nl = b.levels()[j];
    let m = move_axis(l.curve_type, l.progress);
    let sigma = move_positive(l.curve_type, l.progress);
    let x = a.exit_corner();
    let nbe = across(x, m);
    let leaf = b.levels()[d];
    let positive = if dir is Some { dir->0.positive } else { true };
    let axis = if dir is Some { dir->0.axis as int } else { 0 };
    assert(b.d() == d);
    lemma_descended(b, j);
    lemma_arrive_position(a, b, j);
    lemma_exit_mode(a, j);
    lemma_cross_room(a, j);
    lemma_move(l.curve_type, l.progress);
    lemma_scanning_type(positive, nbe, axis);
    lemma_levels_in_range(b.levels(), b.origins@, w, h, d);
    assert(link_ok(b.levels(), b.origins@, w, h, d, 0));
    assert(b.helper_cut(0) == 0 && b.helper_cut(1) == 0);

    // The parity of the new leaf.
    if lsz(leaf, 0) % 2 == 1 {
        lemma_odd_chain(b.levels(), b.origins@, w, h, d, 0, j);
        lemma_odd_chain(b.levels(), b.origins@, w, h, d, 0, 0);
        lemma_edge_types(nl.curve_type, nl.progress);
        assert(nbe == 2);
        if dir is Some {
            let t = dir->0.level as int;
            lemma_odd_chain(b.levels(), b.origins@, w, h, d, 0, t);
            lemma_edge_types(b.levels()[t].curve_type, b.levels()[t].progress);
        }
        assert(c == 7);
    }
    if lsz(leaf, 1) % 2 == 1 {
        lemma_odd_chain(b.levels(), b.origins@, w, h, d, 1, j);
        lemma_odd_chain(b.levels(), b.origins@, w, h, d, 1, 0);
        lemma_edge_types(nl.curve_type, nl.progress);
        assert(nbe == 1);
        if dir is Some {
            let t = dir->0.level as int;
            lemma_odd_chain(b.levels(), b.origins@, w, h, d, 1, t);
            lemma_edge_types(b.levels()[t].curve_type, b.levels()[t].progress);
        }
        assert(plain || c == 6);
    }
    if plain {
        lemma_last_chain(b.levels(), b.origins@, w, h, d, d - 1);
        assert(lsz(leaf, 1) % 2 == 1);
    }
    assert(!plain ==> fits(lsz(leaf, 0), lsz(leaf, 1), c));
    assert(start_corner(c) == nbe);

    // The side on which the new leaf will be left.
    assert(faces_next(b.levels(), d, b.entry_exit(c))) by {
        assert forall|t: int|
            0 <= t < d && (#[trigger] b.levels()[t]).progress < 3 && all_last(
                b.levels(),
                t,
                d,
            ) implies side(
            b.entry_exit(c),
            move_axis(b.levels()[t].curve_type, b.levels()[t].progress),
        ) == move_positive(b.levels()[t].curve_type, b.levels()[t].progress) by {
            if dir is Some {
                let u = dir->0.level as int;
                if t < u {
                    assert(b.levels()[u].progress == 3);
                }
                if u < t {
                    assert(b.levels()[t].progress == 3);
                }
            } else {
                assert(b.levels()[t].progress == 3);
            }
        }
    }
    assert(b.width() % 2 == 0 && all_last(b.levels(), -1, d) ==> b.entry_exit(c) == 2) by {
        if all_last(b.levels(), -1, d) && dir is Some {
            assert(b.levels()[dir->0.level as int].progress == 3);
        }
    }
}

/// The descent keeps what the step across the border has established.
pub(super) proof fn lemma_landed(a: Engine, over: Engine, b: Engine, j: int)
    requires
        Engine::crossed(a, over, j),
        b.size == over.size,
        b.num_levels == over.num_levels,
        b.level_states.len() == over.level_states.len(),
        b.position == over.position,
        b.bb_helper_row == over.bb_helper_row,
        b.done == over.done,
        b.descending(j, b.d()),
        forall|k: int| 0 <= k <= j ==> b.levels()[k] == over.levels()[k],
        forall|k: int| 0 <= k <= j ==> b.origins@[k] == over.origins@[k],
    ensures
        Engine::crossed(a, b, j),
        b.num_levels >= 3,
        b.num_levels <= b.level_states.len(),
        forall|k: int|
            0 <= k < b.d() ==> (#[trigger] b.levels()[k]).progress <= 3
                && b.levels()[k].curve_type < 8,
{
    lemma_descended(b, j);
    lemma_levels_in_range(
        b.levels(),
        b.origins@,
        b.width() as int,
        b.height() as int,
        b.d(),
    );
}

/// The new leaf can be entered with the pattern that was picked for it.
pub(super) proof fn lemma_entry(
    a: Engine,
    landed: Engine,
    b: Engine,
    j: int,
    dir: Option<Move>,
    c: u8,
    plain: bool,
)
    requires
        Engine::crossed(a, landed, j),
        landed.descending(j, a.d()),
        landed.is_next_direction(dir),
        b.size == landed.size,
        b.num_levels == landed.num_levels,
        b.last_level == landed.last_level,
        b.level_states == landed.level_states,
        b.position == landed.position,
        b.bb_progress == landed.bb_progress,
        b.bb_secondary_neg == landed.bb_secondary_neg,
        b.bb_curve_type == landed.bb_curve_type,
        b.bb_end == landed.bb_end,
        b.bb_helper_row == landed.bb_helper_row,
        b.done == landed.done,
        b.origins == landed.origins,
        plain == (dir is None && a.width() % 2 == 0 && a.height() % 2 == 1),
        c == (if plain {
            5u8
        } else {
            scanning_type(
                if dir is Some {
                    dir->0.positive
                } else {
                    true
                },
                across(
                    a.bb_end,
                    move_axis(a.levels()[j].curve_type, a.levels()[j].progress),
                ),
                if dir is Some {
                    dir->0.axis as int
                } else {
                    0
                },
            )
        }),
        b.kind@ == (if plain {
            LeafKind::Plain
        } else {
            LeafKind::Inner
        }),
    ensures
        b.entry_ok(c, plain),
        adjacent(a.cursor(), b.cursor()),
{
    assert(b.descending(j, a.d()));
    assert(b.is_next_direction(dir));
    lemma_arrive(a, b, j, dir, c, plain);
}

} // verus!
