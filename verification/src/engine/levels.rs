//! The stack of levels: how the leaf hangs in the blocks above it.
use crate::curve::{
    address, end_corner, induced, lemma_edge_types, lemma_induction, move_axis, move_positive, side,
    start_corner,
};
use crate::split::{far_part, floor_log2, lemma_floor_log2_monotonic, lemma_parts, near_part};
use crate::model::num_levels_spec;
use super::{
    all_first, all_last, chain_size, child_far, child_org, child_size, co, Engine, faces_next, fits,
    level_ok, LevelState, link_ok, lsz, part, stack_ok,
};
use super::blocks::lemma_leaf_exit;
use vstd::prelude::*;

verus! {

/// The levels above the leaf level stay sound when only the leaf level and
/// what lies below it change.
pub(super) proof fn lemma_stack_frame(
    l1: Seq<LevelState>,
    o1: Seq<(int, int)>,
    l2: Seq<LevelState>,
    o2: Seq<(int, int)>,
    w: int,
    h: int,
    d: int,
    k: int,
)
    requires
        stack_ok(l1, o1, w, h, d, k),
        l1.len() == l2.len(),
        o1.len() == o2.len(),
        forall|i: int| 0 <= i < d ==> l1[i] == l2[i],
        forall|i: int| 0 <= i <= d ==> o1[i] == o2[i],
    ensures
        stack_ok(l2, o2, w, h, d, k),
{
    assert forall|i: int| 0 <= i < k implies #[trigger] link_ok(l2, o2, w, h, d, i) by {
        assert(link_ok(l1, o1, w, h, d, i));
    }
}

/// Which corner faces the next leaf depends on the levels above the leaf
/// level only.
pub(super) proof fn lemma_faces_frame(l1: Seq<LevelState>, l2: Seq<LevelState>, d: int, x: u8)
    requires
        faces_next(l1, d, x),
        forall|i: int| 0 <= i < d ==> l1[i] == l2[i],
    ensures
        faces_next(l2, d, x),
{
    assert forall|j: int|
        0 <= j < d && (#[trigger] l2[j]).progress < 3 && all_last(l2, j, d) implies side(
        x,
        move_axis(l2[j].curve_type, l2[j].progress),
    ) == move_positive(l2[j].curve_type, l2[j].progress) by {
        assert(l1[j] == l2[j]);
        assert(all_last(l1, j, d)) by {
            assert forall|k: int| j < k < d implies (#[trigger] l1[k]).progress == 3 by {
                assert(l2[k].progress == 3);
            }
        }
    }
}

/// Whether every level above the leaf is in its last sub-block depends on
/// those levels only.
pub(super) proof fn lemma_all_last_frame(l1: Seq<LevelState>, l2: Seq<LevelState>, j: int, d: int)
    requires
        forall|i: int| 0 <= i < d ==> l1[i] == l2[i],
        j >= -1,
    ensures
        all_last(l1, j, d) == all_last(l2, j, d),
{
    if all_last(l1, j, d) {
        assert forall|k: int| j < k < d implies (#[trigger] l2[k]).progress == 3 by {
            assert(l1[k].progress == 3);
        }
    }
    if all_last(l2, j, d) {
        assert forall|k: int| j < k < d implies (#[trigger] l1[k]).progress == 3 by {
            assert(l2[k].progress == 3);
        }
    }
}

/// The leaf lies in the current sub-block of the level above it: it is
/// that sub-block.
pub(super) proof fn lemma_dock_leaf(a: Engine)
    requires
        a.wf(),
        !a.done,
        a.d() >= 1,
    ensures
        a.docked_at(a.d() - 1),
{
    let d = a.d();
    assert(stack_ok(a.levels(), a.origins@, a.width() as int, a.height() as int, d, d));
    assert(link_ok(a.levels(), a.origins@, a.width() as int, a.height() as int, d, d - 1));
    assert(all_last(a.levels(), d - 1, d));
}

/// Where level `i` is in its last sub-block, and the leaf lies in the
/// corner of that sub-block at which it is left, the leaf lies in the corner
/// of the current sub-block of level `i - 1` at which that one is left.
pub(super) proof fn lemma_dock_up(a: Engine, i: int)
    requires
        a.wf(),
        !a.done,
        1 <= i < a.d(),
        a.docked_at(i),
        a.levels()[i].progress == 3,
    ensures
        a.docked_at(i - 1),
{
    let d = a.d();
    let w = a.width() as int;
    let h = a.height() as int;
    assert(stack_ok(a.levels(), a.origins@, w, h, d, d));
    assert(link_ok(a.levels(), a.origins@, w, h, d, i));
    assert(link_ok(a.levels(), a.origins@, w, h, d, i - 1));
    let l = a.levels()[i];
    let up = a.levels()[i - 1];
    lemma_induction(l.curve_type, 3);
    lemma_parts(l.size[0], (d - i) as nat);
    lemma_parts(l.size[1], (d - i) as nat);
    assert(all_last(a.levels(), i - 1, d)) by {
        assert forall|k: int| i - 1 < k < d implies (#[trigger] a.levels()[k]).progress == 3 by {
            if k > i {
                assert(all_last(a.levels(), i, d));
            }
        }
    }
    let g = end_corner(l.curve_type);
    assert(end_corner(induced(up.curve_type, up.progress)) == g);
    assert(end_corner(induced(l.curve_type, l.progress)) == g);
    assert(address(l.curve_type, l.progress) == g);
    let n = (d - 1 - i) as nat;
    assert(chain_size(lsz(l, 0), side(g, 0), n + 1) == chain_size(
        part(lsz(l, 0), side(g, 0)),
        side(g, 0),
        n,
    ));
    assert(chain_size(lsz(l, 1), side(g, 1), n + 1) == chain_size(
        part(lsz(l, 1), side(g, 1)),
        side(g, 1),
        n,
    ));
}

/// Where every level is in its last sub-block, the scan of a rectangle of
/// even width stands at the bottom right at the last cell of the leaf.
pub(super) proof fn lemma_dock_top(a: Engine)
    requires
        a.wf(),
        !a.done,
        a.d() >= 1,
        a.docked_at(0),
        a.levels()[0].progress == 3,
        a.bb_progress[0] == 1,
        a.bb_progress[1] == 1,
        a.leaf_complete(),
        !a.bb_helper_row,
        a.width() % 2 == 0,
    ensures
        a.cursor() == (a.width() - 1, 0int),
{
    let d = a.d();
    let w = a.width() as int;
    let h = a.height() as int;
    assert(stack_ok(a.levels(), a.origins@, w, h, d, d));
    assert(link_ok(a.levels(), a.origins@, w, h, d, 0));
    let l = a.levels()[0];
    lemma_parts(l.size[0], d as nat);
    lemma_parts(l.size[1], d as nat);
    assert(all_last(a.levels(), -1, d)) by {
        assert forall|k: int| -1 < k < d implies (#[trigger] a.levels()[k]).progress == 3 by {
            if k > 0 {
                assert(all_last(a.levels(), 0, d));
            }
        }
    }
    assert(a.leaf_ok());
    assert(a.exit_ok());
    lemma_leaf_exit(a);
}

/// One step of the descent: level `i + 1` becomes the current sub-block of
/// level `i`.
pub(super) proof fn lemma_descend_step(a: Engine, b: Engine, j: int, i: int)
    requires
        a.descending(j, i),
        i < a.d(),
        b.size == a.size,
        b.num_levels == a.num_levels,
        b.level_states.len() == a.level_states.len(),
        b.origins@.len() == a.origins@.len(),
        forall|k: int| 0 <= k <= i ==> a.levels()[k] == b.levels()[k],
        forall|k: int| 0 <= k <= i ==> a.origins@[k] == b.origins@[k],
        b.levels()[i + 1].progress == 0,
        b.levels()[i + 1].curve_type == induced(a.levels()[i].curve_type, a.levels()[i].progress),
        lsz(b.levels()[i + 1], 0) == child_size(a.levels()[i], 0),
        lsz(b.levels()[i + 1], 1) == child_size(a.levels()[i], 1),
        co(b.origins@[i + 1], 0) == child_org(a.levels()[i], a.origins@[i], 0),
        co(b.origins@[i + 1], 1) == child_org(a.levels()[i], a.origins@[i], 1),
    ensures
        b.descending(j, i + 1),
{
    let d = a.d();
    let w = a.width() as int;
    let h = a.height() as int;
    let l = a.levels()[i];
    let nl = b.levels()[i + 1];
    assert(b.d() == d);
    lemma_parts(l.size[0], (d - i) as nat);
    lemma_parts(l.size[1], (d - i) as nat);
    lemma_edge_types(l.curve_type, l.progress);
    lemma_induction(l.curve_type, l.progress);
    assert(stack_ok(b.levels(), b.origins@, w, h, d, i + 1)) by {
        assert forall|k: int| 0 <= k < i + 1 implies #[trigger] link_ok(
            b.levels(),
            b.origins@,
            w,
            h,
            d,
            k,
        ) by {
            if k < i {
                assert(link_ok(a.levels(), a.origins@, w, h, d, k));
            }
        }
    }
    assert(induced(l.curve_type, l.progress) < 4);
    if i + 1 < d {
        assert(level_ok(nl, b.origins@[i + 1], w, h, d, i + 1));
    }
    let lj = a.levels()[j];
    let g = start_corner(induced(lj.curve_type, lj.progress));
    if i > j {
        assert(l.progress == 0);
        assert(address(l.curve_type, 0) == g);
        assert(start_corner(nl.curve_type) == g);
        let n = (d - i - 1) as nat;
        assert(chain_size(lsz(l, 0), side(g, 0), n + 1) == chain_size(
            part(lsz(l, 0), side(g, 0)),
            side(g, 0),
            n,
        ));
        assert(chain_size(lsz(l, 1), side(g, 1), n + 1) == chain_size(
            part(lsz(l, 1), side(g, 1)),
            side(g, 1),
            n,
        ));
    }
    assert forall|k: int| j < k <= i + 1 implies (#[trigger] b.levels()[k]).progress == 0
        && start_corner(b.levels()[k].curve_type) == g && b.levels()[k].curve_type < 4 by {
        if k <= i {
            assert(a.levels()[k].progress == 0);
        }
    }
}

/// At the end of the descent the leaf is docked in the current sub-block of
/// level `j`.
pub(super) proof fn lemma_descended(b: Engine, j: int)
    requires
        b.descending(j, b.d()),
    ensures
        b.docked_first(j),
        stack_ok(b.levels(), b.origins@, b.width() as int, b.height() as int, b.d(), b.d()),
        forall|k: int|
            j < k <= b.d() ==> (#[trigger] b.levels()[k]).progress == 0 && start_corner(
                b.levels()[k].curve_type,
            ) == start_corner(induced(b.levels()[j].curve_type, b.levels()[j].progress))
                && b.levels()[k].curve_type < 4,
        !side(start_corner(induced(b.levels()[j].curve_type, b.levels()[j].progress)), 0) ==> lsz(
            b.levels()[b.d()],
            0,
        ) % 2 == child_size(b.levels()[j], 0) % 2,
        !side(start_corner(induced(b.levels()[j].curve_type, b.levels()[j].progress)), 1) ==> lsz(
            b.levels()[b.d()],
            1,
        ) % 2 == child_size(b.levels()[j], 1) % 2,
        b.levels()[b.d()].progress == 0,
        b.levels()[b.d()].curve_type < 4,
        b.levels()[b.d()].curve_type == induced(
            b.levels()[b.d() - 1].curve_type,
            b.levels()[b.d() - 1].progress,
        ),
        lsz(b.levels()[b.d()], 0) == b.leaf_size(0),
        lsz(b.levels()[b.d()], 1) == b.leaf_size(1),
        lsz(b.levels()[b.d()], 0) >= 2,
        lsz(b.levels()[b.d()], 1) >= 2,
        0 <= co(b.origins@[b.d()], 0),
        0 <= co(b.origins@[b.d()], 1),
        co(b.origins@[b.d()], 0) + b.leaf_size(0) <= b.width(),
        co(b.origins@[b.d()], 1) + b.leaf_size(1) <= b.height(),
{
    let d = b.d();
    let at = b.levels()[d];
    assert(floor_log2(lsz(at, 0)) >= 1 ==> lsz(at, 0) >= 2);
    assert(floor_log2(lsz(at, 1)) >= 1 ==> lsz(at, 1) >= 2);
    assert forall|k: int| j < k < d implies (#[trigger] b.levels()[k]).progress == 0 by {}
}


/// A rectangle with two levels or more has no side shorter than 2.
pub(super) proof fn lemma_min_side(w: nat, h: nat)
    requires
        num_levels_spec(w, h) >= 2,
    ensures
        w >= 2,
        h >= 2,
        floor_log2(w) >= 1,
        floor_log2(h) >= 1,
{
    let m = if w < h { w } else { h };
    if m < 2 {
        assert(floor_log2(m) == 0);
    }
    lemma_floor_log2_monotonic(m, w);
    lemma_floor_log2_monotonic(m, h);
}

/// What the filled-in levels give for the first leaf: it lies at the origin,
/// has the parity of the rectangle, and every level above it is in its first
/// sub-block, with curve type 0 or 1.
#[verifier::rlimit(50)]
pub(super) proof fn lemma_first_ready(a: Engine)
    requires
        a.first_ready(),
    ensures
        a.min_side() >= 2,
        stack_ok(a.levels(), a.origins@, a.width() as int, a.height() as int, a.d(), a.d()),
        all_first(a.levels(), a.d()),
        forall|k: int| 0 <= k < a.d() ==> (#[trigger] a.levels()[k]).curve_type < 2,
        a.levels()[a.d()].progress == 0,
        a.levels()[a.d()].curve_type == (if a.d() == 0 {
            0u8
        } else {
            induced(a.levels()[a.d() - 1].curve_type, 0)
        }),
        lsz(a.levels()[a.d()], 0) == a.leaf_size(0),
        lsz(a.levels()[a.d()], 1) == a.leaf_size(1),
        lsz(a.levels()[a.d()], 0) >= 2,
        lsz(a.levels()[a.d()], 1) >= 2,
        lsz(a.levels()[a.d()], 0) % 2 == a.width() % 2,
        lsz(a.levels()[a.d()], 1) % 2 == a.height() % 2,
        a.origins@[a.d()] == (0int, 0int),
        a.leaf_size(0) <= a.width(),
        a.leaf_size(1) <= a.height(),
{
    let d = a.d();
    let w = a.width() as int;
    let h = a.height() as int;
    lemma_min_side(a.width(), a.height());
    if d > 0 {
        lemma_descended(a, 0);
        lemma_first_top(a);
        let l0 = a.levels()[0];
        let g = start_corner(induced(l0.curve_type, l0.progress));
        assert(g == 0);
        assert(all_first(a.levels(), d)) by {
            assert forall|k: int| 0 <= k < d implies (#[trigger] a.levels()[k]).progress == 0 by {}
        }
        assert forall|k: int| 0 <= k < d implies (#[trigger] a.levels()[k]).curve_type < 2 by {
            if k > 0 {
                let t = a.levels()[k].curve_type;
                assert(a.levels()[k].progress == 0 && start_corner(t) == g && t < 4);
                assert(start_corner(2) == 3 && start_corner(3) == 3);
            }
        }
        assert(a.docked_first(0));
        assert(a.origins@[d] == (0int, 0int));
    }
}

/// What the top level gives to the first leaf: the near parts of its sides,
/// which have the parity of the sides.
pub(super) proof fn lemma_first_top(a: Engine)
    requires
        a.first_ready(),
        a.d() > 0,
    ensures
        start_corner(induced(a.levels()[0].curve_type, a.levels()[0].progress)) == 0,
        !child_far(a.levels()[0], 0),
        !child_far(a.levels()[0], 1),
        child_size(a.levels()[0], 0) % 2 == a.width() % 2,
        child_size(a.levels()[0], 1) % 2 == a.height() % 2,
        child_org(a.levels()[0], a.origins@[0], 0) == 0,
        child_org(a.levels()[0], a.origins@[0], 1) == 0,
{
    let d = a.d();
    let l0 = a.levels()[0];
    lemma_min_side(a.width(), a.height());
    let m = a.min_side();
    lemma_floor_log2_monotonic(m, a.width());
    lemma_floor_log2_monotonic(m, a.height());
    assert(floor_log2(m) == d + 1);
    lemma_parts(l0.size[0], d as nat);
    lemma_parts(l0.size[1], d as nat);
    assert(a.width() >= 4) by {
        if a.width() < 4 {
            assert(floor_log2(a.width()) == 1 + floor_log2(a.width() / 2));
            assert(floor_log2(a.width() / 2) == 0);
        }
    }
    assert(a.height() >= 4) by {
        if a.height() < 4 {
            assert(floor_log2(a.height()) == 1 + floor_log2(a.height() / 2));
            assert(floor_log2(a.height() / 2) == 0);
        }
    }
    assert(address(0, 0) == 0);
}


/// The first leaf can be entered with the pattern that the parity of the
/// rectangle asks for.
pub(super) proof fn lemma_first_entry(a: Engine, b: Engine, c: u8)
    requires
        a.first_ready(),
        b.size == a.size,
        b.num_levels == a.num_levels,
        b.level_states.len() == a.level_states.len(),
        b.position == a.position,
        b.done == a.done,
        b.origins == a.origins,
        b.kind == a.kind,
        forall|i: int| 0 <= i < a.d() ==> a.levels()[i] == b.levels()[i],
        c == b.first_type(),
        b.bb_helper_row == b.needs_helper(),
        b.levels()[a.d()].curve_type == c,
        b.levels()[a.d()].progress == 0,
        lsz(b.levels()[a.d()], 0) == lsz(a.levels()[a.d()], 0) - b.helper_cut(0),
        lsz(b.levels()[a.d()], 1) == lsz(a.levels()[a.d()], 1) - b.helper_cut(1),
    ensures
        b.entry_ok(c, false),
{
    let d = a.d();
    let w = a.width() as int;
    let h = a.height() as int;
    lemma_first_ready(a);
    assert(b.d() == d);
    lemma_stack_frame(a.levels(), a.origins@, b.levels(), b.origins@, w, h, d, d);
    assert(b.leaf_size(0) == a.leaf_size(0) && b.leaf_size(1) == a.leaf_size(1));
    assert(all_first(b.levels(), d)) by {
        assert forall|k: int| 0 <= k < d implies (#[trigger] b.levels()[k]).progress == 0 by {
            assert(a.levels()[k].progress == 0);
        }
    }
    assert(faces_next(b.levels(), d, b.entry_exit(c))) by {
        assert forall|j: int|
            0 <= j < d && (#[trigger] b.levels()[j]).progress < 3 && all_last(
                b.levels(),
                j,
                d,
            ) implies side(
            b.entry_exit(c),
            move_axis(b.levels()[j].curve_type, b.levels()[j].progress),
        ) == move_positive(b.levels()[j].curve_type, b.levels()[j].progress) by {
            assert(b.levels()[d - 1].progress == 0);
            assert(j == d - 1);
            assert(a.levels()[j].curve_type < 2);
            assert(b.levels()[j].progress == 0);
            lemma_induction(b.levels()[j].curve_type, 0);
        }
    }
    assert(b.width() % 2 == 0 && all_last(b.levels(), -1, d) ==> b.entry_exit(c) == 2) by {
        if d > 0 {
            assert(b.levels()[0].progress == 0);
        }
    }
    if d > 0 {
        assert(a.levels()[d - 1].curve_type < 2);
    }
    assert(fits(lsz(b.levels()[d], 0), lsz(b.levels()[d], 1), c));
}


/// Every level above the leaf level has a curve type and a progress in
/// range.
pub(super) proof fn lemma_levels_in_range(
    levels: Seq<LevelState>,
    org: Seq<(int, int)>,
    w: int,
    h: int,
    d: int,
)
    requires
        stack_ok(levels, org, w, h, d, d),
    ensures
        forall|k: int|
            0 <= k < d ==> (#[trigger] levels[k]).progress <= 3 && levels[k].curve_type < 4,
{
    assert forall|k: int| 0 <= k < d implies (#[trigger] levels[k]).progress <= 3
        && levels[k].curve_type < 4 by {
        assert(link_ok(levels, org, w, h, d, k));
    }
}

/// A leaf of odd length along an axis lies at the near edge of the
/// rectangle along that axis: every level above it has an odd length there
/// and is in a near sub-block.
pub(super) proof fn lemma_odd_chain(
    levels: Seq<LevelState>,
    org: Seq<(int, int)>,
    w: int,
    h: int,
    d: int,
    ax: int,
    i: int,
)
    requires
        stack_ok(levels, org, w, h, d, d),
        0 <= i < d,
        ax == 0 || ax == 1,
        child_size(levels[d - 1], ax) % 2 == 1,
    ensures
        lsz(levels[i], ax) % 2 == 1,
        !child_far(levels[i], ax),
        levels[i].curve_type < 4,
        levels[i].progress <= 3,
        ax == 0 ==> levels[i].curve_type != 3,
        ax == 1 ==> levels[i].curve_type != 2,
    decreases d - i,
{
    assert(link_ok(levels, org, w, h, d, i));
    if i < d - 1 {
        lemma_odd_chain(levels, org, w, h, d, ax, i + 1);
    }
    lemma_parts(levels[i].size[ax], (d - i) as nat);
}

/// Where every level is in its last sub-block, every level has curve type
/// 0 or 3 and the height of its current sub-block has the parity of the
/// height of the rectangle.
pub(super) proof fn lemma_last_chain(
    levels: Seq<LevelState>,
    org: Seq<(int, int)>,
    w: int,
    h: int,
    d: int,
    i: int,
)
    requires
        stack_ok(levels, org, w, h, d, d),
        all_last(levels, -1, d),
        0 <= i < d,
    ensures
        levels[i].curve_type == 0 || levels[i].curve_type == 3,
        lsz(levels[i], 1) % 2 == h % 2,
        child_size(levels[i], 1) % 2 == h % 2,
    decreases i,
{
    let l = levels[i];
    assert(link_ok(levels, org, w, h, d, i));
    assert(level_ok(l, org[i], w, h, d, i));
    assert(l.progress == 3);
    if i > 0 {
        let up = levels[i - 1];
        lemma_last_chain(levels, org, w, h, d, i - 1);
        assert(link_ok(levels, org, w, h, d, i - 1));
        assert(up.progress == 3);
        lemma_edge_types(up.curve_type, 3);
        assert(l.curve_type == induced(up.curve_type, 3));
        assert(lsz(l, 1) == child_size(up, 1));
    }
    assert(l.curve_type == 0 || l.curve_type == 3);
    lemma_edge_types(l.curve_type, 3);
    assert(address(l.curve_type, 3) == 2);
    assert(!child_far(l, 1));
    lemma_parts(l.size[1], (d - i) as nat);
    assert(lsz(l, 1) >= 4) by {
        assert(floor_log2(lsz(l, 1)) >= 2);
        if lsz(l, 1) < 4 {
            assert(floor_log2(lsz(l, 1)) == 1 + floor_log2(lsz(l, 1) / 2));
            assert(floor_log2(lsz(l, 1) / 2) == 0);
        }
    }
    assert(child_size(l, 1) == near_part(lsz(l, 1)));
    assert(far_part(lsz(l, 1)) % 2 == 0);
}

/// After the climb to level `j` the levels down to `j` are ready for the
/// descent.
pub(super) proof fn lemma_after_climb(a: Engine, b: Engine, j: int)
    requires
        a.wf(),
        !a.done,
        0 <= j < a.d(),
        Engine::climbed(a, b, j),
        b.size == a.size,
        b.num_levels == a.num_levels,
        b.level_states.len() == a.level_states.len(),
        b.origins == a.origins,
    ensures
        b.descending(j, j),
{
    let d = a.d();
    let w = a.width() as int;
    let h = a.height() as int;
    assert(stack_ok(a.levels(), a.origins@, w, h, d, d));
    assert(link_ok(a.levels(), a.origins@, w, h, d, j));
    assert(b.d() == d);
    assert(stack_ok(b.levels(), b.origins@, w, h, d, j)) by {
        assert forall|k: int| 0 <= k < j implies #[trigger] link_ok(
            b.levels(),
            b.origins@,
            w,
            h,
            d,
            k,
        ) by {
            assert(link_ok(a.levels(), a.origins@, w, h, d, k));
        }
    }
    assert(level_ok(b.levels()[j], b.origins@[j], w, h, d, j));
}


/// The levels stay ready for the descent when only the position changes.
pub(super) proof fn lemma_same_descending(a: Engine, b: Engine, j: int)
    requires
        a.descending(j, j),
        b.size == a.size,
        b.num_levels == a.num_levels,
        b.level_states == a.level_states,
        b.origins == a.origins,
    ensures
        b.descending(j, j),
{
}


/// Where the climb reaches the top, every level is in its last sub-block.
pub(super) proof fn lemma_all_last_top(a: Engine)
    requires
        a.wf(),
        !a.done,
        a.d() == 0 || (a.docked_at(0) && a.levels()[0].progress == 3),
    ensures
        all_last(a.levels(), -1, a.d()),
{
    let d = a.d();
    if d > 0 {
        assert forall|k: int| -1 < k < d implies (#[trigger] a.levels()[k]).progress == 3 by {
            if k > 0 {
                assert(all_last(a.levels(), 0, d));
            }
        }
    }
}

} // verus!
