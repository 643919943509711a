//! Which cells the scan has produced.
use crate::curve::{address, lemma_addresses, primary_axis, primary_negative};
use crate::split::{floor_log2, lemma_fine_parts, lemma_parts};
use super::{
    above_done, all_last, child_org, child_size, Engine, in_fine_quad, in_quad, in_rect, LevelState,
    link_ok, lsz, stack_ok,
};
use super::blocks::{lemma_same_leaf, lemma_sub_rect};
use vstd::prelude::*;

verus! {

/// The four sub-blocks of a level make up its block, and no two of them
/// share a cell.
pub(super) proof fn lemma_quads(l: LevelState, o: (int, int), c: (int, int), k: nat)
    requires
        l.curve_type < 8,
        floor_log2(lsz(l, 0)) >= k + 1,
        floor_log2(lsz(l, 1)) >= k + 1,
    ensures
        in_rect(c, o, lsz(l, 0) as int, lsz(l, 1) as int) <==> (in_quad(
            l,
            o,
            address(l.curve_type, 0),
            c,
        ) || in_quad(l, o, address(l.curve_type, 1), c) || in_quad(
            l,
            o,
            address(l.curve_type, 2),
            c,
        ) || in_quad(l, o, address(l.curve_type, 3), c)),
        forall|i: u8, j: u8|
            i < 4 && j < 4 && i != j ==> !(in_quad(l, o, address(l.curve_type, i), c) && in_quad(
                l,
                o,
                address(l.curve_type, j),
                c,
            )),
        l.progress <= 3 ==> (in_quad(l, o, address(l.curve_type, l.progress), c) <==> in_rect(
            c,
            (child_org(l, o, 0), child_org(l, o, 1)),
            child_size(l, 0) as int,
            child_size(l, 1) as int,
        )),
{
    lemma_parts(l.size[0], k);
    lemma_parts(l.size[1], k);
    lemma_addresses(l.curve_type, 0);
}

/// The four sub-blocks of the finest split of a leaf make up the leaf, and
/// no two of them share a cell.
pub(super) proof fn lemma_fine_quads(leaf: LevelState, o: (int, int), c: (int, int))
    requires
        leaf.curve_type < 8,
        lsz(leaf, 0) >= 3,
        lsz(leaf, 1) >= 3,
    ensures
        in_rect(c, o, lsz(leaf, 0) as int, lsz(leaf, 1) as int) <==> (in_fine_quad(
            leaf,
            o,
            address(leaf.curve_type, 0),
            c,
        ) || in_fine_quad(leaf, o, address(leaf.curve_type, 1), c) || in_fine_quad(
            leaf,
            o,
            address(leaf.curve_type, 2),
            c,
        ) || in_fine_quad(leaf, o, address(leaf.curve_type, 3), c)),
        forall|i: u8, j: u8|
            i < 4 && j < 4 && i != j ==> !(in_fine_quad(leaf, o, address(leaf.curve_type, i), c)
                && in_fine_quad(leaf, o, address(leaf.curve_type, j), c)),
{
    lemma_fine_parts(lsz(leaf, 0));
    lemma_fine_parts(lsz(leaf, 1));
    lemma_addresses(leaf.curve_type, 0);
}

/// At the first cell of a block nothing of the block lies before the
/// cursor.
pub(super) proof fn lemma_block_fresh(a: Engine, c: (int, int))
    requires
        a.block_ok(),
        a.bb_progress[0] == a.bb_ext(primary_axis(a.bb_curve_type)),
        a.bb_progress[1] == a.bb_ext(1 - primary_axis(a.bb_curve_type)),
    ensures
        !a.block_done(c),
{
}

/// At the last cell of a block all of the block but that cell lies before
/// the cursor.
pub(super) proof fn lemma_block_full(a: Engine, c: (int, int))
    requires
        a.block_ok(),
        a.bb_progress[0] == 1,
        a.bb_progress[1] == 1,
    ensures
        in_rect(c, (a.bb_org(0), a.bb_org(1)), a.bb_ext(0), a.bb_ext(1)) <==> (a.block_done(c) || c
            == a.cursor()),
        !a.block_done(a.cursor()),
{
}

/// The cursor lies in the block being zigzagged, and not before itself.
pub(super) proof fn lemma_cursor_in_block(a: Engine)
    requires
        a.block_ok(),
    ensures
        in_rect(a.cursor(), (a.bb_org(0), a.bb_org(1)), a.bb_ext(0), a.bb_ext(1)),
        !a.block_done(a.cursor()),
{
}


/// A cell of the leaf block lies in the current sub-block of every level
/// above it, and in none of the sub-blocks that those levels have left
/// behind.
pub(super) proof fn lemma_leaf_not_above(
    levels: Seq<LevelState>,
    org: Seq<(int, int)>,
    w: int,
    h: int,
    d: int,
    i: int,
    c: (int, int),
)
    requires
        stack_ok(levels, org, w, h, d, d),
        0 <= i <= d,
        d > 0 ==> in_rect(
            c,
            org[d],
            child_size(levels[d - 1], 0) as int,
            child_size(levels[d - 1], 1) as int,
        ),
    ensures
        !above_done(levels, org, i, d, c),
        i < d ==> in_rect(c, org[i], lsz(levels[i], 0) as int, lsz(levels[i], 1) as int),
    decreases d - i,
{
    if i < d {
        lemma_leaf_not_above(levels, org, w, h, d, i + 1, c);
        assert(link_ok(levels, org, w, h, d, i));
        lemma_quads(levels[i], org[i], c, (d - i) as nat);
        lemma_addresses(levels[i].curve_type, 0);
    }
}

/// The levels that are in their first sub-block have left nothing behind.
pub(super) proof fn lemma_above_first(
    levels: Seq<LevelState>,
    org: Seq<(int, int)>,
    i: int,
    d: int,
    c: (int, int),
)
    requires
        0 <= i,
        forall|k: int| i <= k < d ==> (#[trigger] levels[k]).progress == 0,
    ensures
        !above_done(levels, org, i, d, c),
    decreases d - i,
{
    if i < d {
        lemma_above_first(levels, org, i + 1, d, c);
        assert(levels[i].progress == 0);
    }
}

/// What the levels have left behind depends on those levels and their
/// origins only.
pub(super) proof fn lemma_above_frame(
    l1: Seq<LevelState>,
    o1: Seq<(int, int)>,
    l2: Seq<LevelState>,
    o2: Seq<(int, int)>,
    i: int,
    d: int,
    c: (int, int),
)
    requires
        0 <= i,
        forall|k: int| i <= k < d ==> l1[k] == l2[k],
        forall|k: int| i <= k < d ==> o1[k] == o2[k],
    ensures
        above_done(l1, o1, i, d, c) == above_done(l2, o2, i, d, c),
    decreases d - i,
{
    if i < d {
        lemma_above_frame(l1, o1, l2, o2, i + 1, d, c);
    }
}

/// The block being zigzagged lies in the leaf block, apart from what the
/// leaf has left behind.
pub(super) proof fn lemma_block_in_leaf(a: Engine, c: (int, int))
    requires
        a.wf(),
        !a.done,
        in_rect(c, (a.bb_org(0), a.bb_org(1)), a.bb_ext(0), a.bb_ext(1)),
    ensures
        a.in_leaf(c),
        !a.block_done(c) ==> !a.leaf_done(c),
{
    let d = a.d();
    let leaf = a.levels()[d];
    assert(a.leaf_ok());
    assert(a.leaf_geom_ok());
    assert(a.block_ok());
    if a.last_level == d + 1 {
        assert(a.sub_ok());
        lemma_sub_rect(a);
        lemma_fine_quads(leaf, a.origins@[d], c);
        lemma_addresses(leaf.curve_type, 0);
    }
}

/// The cursor is a cell that the scan has not produced.
pub(super) proof fn lemma_cursor_fresh(a: Engine)
    requires
        a.wf(),
        !a.done,
    ensures
        !a.visited(a.cursor()),
{
    let d = a.d();
    let c = a.cursor();
    assert(a.block_ok());
    lemma_cursor_in_block(a);
    lemma_block_in_leaf(a, c);
    lemma_leaf_not_above(
        a.levels(),
        a.origins@,
        a.width() as int,
        a.height() as int,
        d,
        0,
        c,
    );
}

/// A move within the block adds the cell that the cursor leaves to the
/// cells produced.
pub(super) proof fn lemma_moved_visited(a: Engine, b: Engine, c: (int, int))
    requires
        a.wf(),
        !a.done,
        b.wf(),
        b.size == a.size,
        b.num_levels == a.num_levels,
        b.last_level == a.last_level,
        b.level_states == a.level_states,
        b.bb_curve_type == a.bb_curve_type,
        b.bb_end == a.bb_end,
        b.bb_helper_row == a.bb_helper_row,
        b.done == a.done,
        b.origins == a.origins,
        b.kind == a.kind,
        ({
            let p = primary_axis(a.bb_curve_type);
            let q = 1 - p;
            ||| {
                &&& a.bb_progress[1] != 1
                &&& b.bb_progress[0] == a.bb_progress[0]
                &&& b.bb_progress[1] == a.bb_progress[1] - 1
                &&& b.bb_secondary_neg == a.bb_secondary_neg
                &&& b.position[p] == a.position[p]
                &&& b.position[q] == a.position[q] + if a.bb_secondary_neg {
                    -1int
                } else {
                    1int
                }
            }
            ||| {
                &&& a.bb_progress[1] == 1
                &&& a.bb_progress[0] != 1
                &&& b.bb_progress[0] == a.bb_progress[0] - 1
                &&& b.bb_progress[1] == lsz(a.levels()[a.last_level as int], q)
                &&& b.bb_secondary_neg == !a.bb_secondary_neg
                &&& b.position[q] == a.position[q]
                &&& b.position[p] == a.position[p] + if primary_negative(a.bb_curve_type) {
                    -1int
                } else {
                    1int
                }
            }
        }),
    ensures
        b.visited(c) <==> (a.visited(c) || c == a.cursor()),
{
    lemma_same_leaf(a, b);
    assert(a.block_ok());
    assert(b.block_ok());
    assert(b.in_helper() == a.in_helper());
    assert(b.block_done(c) <==> (a.block_done(c) || c == a.cursor()));
    if c == a.cursor() {
        lemma_cursor_in_block(a);
        lemma_block_in_leaf(a, c);
    }
}


/// At the last cell of the leaf block all of the leaf but that cell has
/// been produced.
pub(super) proof fn lemma_leaf_full(a: Engine, c: (int, int))
    requires
        a.wf(),
        !a.done,
        a.bb_progress[0] == 1,
        a.bb_progress[1] == 1,
        a.leaf_complete(),
        !a.bb_helper_row,
    ensures
        a.in_leaf(c) <==> (a.leaf_done(c) || c == a.cursor()),
{
    let d = a.d();
    let leaf = a.levels()[d];
    assert(a.leaf_ok());
    assert(a.leaf_geom_ok());
    assert(a.kind_ok());
    assert(a.block_ok());
    lemma_block_full(a, c);
    if a.last_level == d + 1 {
        assert(a.sub_ok());
        lemma_sub_rect(a);
        lemma_fine_quads(leaf, a.origins@[d], c);
        lemma_addresses(leaf.curve_type, 0);
    }
}

/// At the last cell of the leaf block, where every level from `i + 1` down
/// is in its last sub-block, all of the current sub-block of level `i` but
/// that cell has been produced.
pub(super) proof fn lemma_filled(a: Engine, i: int, c: (int, int))
    requires
        a.wf(),
        !a.done,
        a.bb_progress[0] == 1,
        a.bb_progress[1] == 1,
        a.leaf_complete(),
        !a.bb_helper_row,
        0 <= i < a.d(),
        all_last(a.levels(), i, a.d()),
    ensures
        (above_done(a.levels(), a.origins@, i + 1, a.d(), c) || a.leaf_done(c) || c == a.cursor())
            <==> in_rect(
            c,
            (
                child_org(a.levels()[i], a.origins@[i], 0),
                child_org(a.levels()[i], a.origins@[i], 1),
            ),
            child_size(a.levels()[i], 0) as int,
            child_size(a.levels()[i], 1) as int,
        ),
    decreases a.d() - i,
{
    let d = a.d();
    let w = a.width() as int;
    let h = a.height() as int;
    assert(stack_ok(a.levels(), a.origins@, w, h, d, d));
    assert(link_ok(a.levels(), a.origins@, w, h, d, i));
    if i == d - 1 {
        lemma_leaf_full(a, c);
    } else {
        assert(all_last(a.levels(), i + 1, d)) by {
            assert forall|k: int| i + 1 < k < d implies (#[trigger] a.levels()[k]).progress
                == 3 by {}
        }
        lemma_filled(a, i + 1, c);
        assert(link_ok(a.levels(), a.origins@, w, h, d, i + 1));
        let l = a.levels()[i + 1];
        assert(l.progress == 3);
        lemma_quads(l, a.origins@[i + 1], c, (d - i - 1) as nat);
    }
}

/// At the last cell of the last leaf block every cell of the rectangle but
/// that cell has been produced.
pub(super) proof fn lemma_done_visited(a: Engine, c: (int, int))
    requires
        a.wf(),
        !a.done,
        a.bb_progress[0] == 1,
        a.bb_progress[1] == 1,
        a.leaf_complete(),
        !a.bb_helper_row,
        all_last(a.levels(), -1, a.d()),
    ensures
        (a.visited(c) || c == a.cursor()) <==> in_rect(
            c,
            (0, 0),
            a.width() as int,
            a.height() as int,
        ),
{
    let d = a.d();
    let w = a.width() as int;
    let h = a.height() as int;
    assert(stack_ok(a.levels(), a.origins@, w, h, d, d));
    if d == 0 {
        lemma_leaf_full(a, c);
        assert(a.leaf_ok());
        assert(a.leaf_geom_ok());
        assert(!above_done(a.levels(), a.origins@, 0, 0, c));
    } else {
        assert(all_last(a.levels(), 0, d)) by {
            assert forall|k: int| 0 < k < d implies (#[trigger] a.levels()[k]).progress == 3 by {}
        }
        lemma_filled(a, 0, c);
        assert(link_ok(a.levels(), a.origins@, w, h, d, 0));
        let l = a.levels()[0];
        assert(l.progress == 3);
        lemma_quads(l, a.origins@[0], c, d as nat);
    }
}

/// The start of the helper row adds the cell that the cursor leaves to the
/// cells produced.
pub(super) proof fn lemma_helper_visited(a: Engine, b: Engine, c: (int, int))
    requires
        a.wf(),
        !a.done,
        a.bb_progress[0] == 1,
        a.bb_progress[1] == 1,
        a.leaf_complete(),
        a.bb_helper_row,
        b.wf(),
        b.in_helper(),
        b.size == a.size,
        b.num_levels == a.num_levels,
        b.last_level == a.d(),
        b.level_states == a.level_states,
        b.done == a.done,
        b.origins == a.origins,
        b.kind == a.kind,
        b.bb_progress[0] == 1,
        b.bb_progress[1] == b.bb_ext(1 - primary_axis(b.bb_curve_type)),
        b.bb_ext(primary_axis(b.bb_curve_type)) == 1,
    ensures
        b.visited(c) <==> (a.visited(c) || c == a.cursor()),
{
    let d = a.d();
    let leaf = a.levels()[d];
    assert(a.leaf_ok());
    assert(a.leaf_geom_ok());
    assert(a.kind_ok());
    assert(a.block_ok());
    assert(b.block_ok());
    assert(!a.in_helper());
    lemma_block_full(a, c);
    lemma_block_fresh(b, c);
    if a.last_level == d + 1 {
        assert(a.sub_ok());
        lemma_sub_rect(a);
        lemma_fine_quads(leaf, a.origins@[d], c);
        lemma_addresses(leaf.curve_type, 0);
    }
}

/// The move to the next sub-block of the leaf adds the cell that the cursor
/// leaves to the cells produced.
pub(super) proof fn lemma_next_sub_visited(a: Engine, b: Engine, c: (int, int))
    requires
        a.wf(),
        !a.done,
        a.bb_progress[0] == 1,
        a.bb_progress[1] == 1,
        a.last_level == a.d() + 1,
        a.levels()[a.d()].progress < 3,
        b.wf(),
        !b.done,
        b.size == a.size,
        b.num_levels == a.num_levels,
        b.last_level == a.last_level,
        b.bb_helper_row == a.bb_helper_row,
        b.kind == a.kind,
        forall|i: int| 0 <= i < a.d() ==> a.levels()[i] == b.levels()[i],
        forall|i: int| 0 <= i <= a.d() ==> a.origins@[i] == b.origins@[i],
        b.levels()[a.d()].size == a.levels()[a.d()].size,
        b.levels()[a.d()].curve_type == a.levels()[a.d()].curve_type,
        b.levels()[a.d()].progress == a.levels()[a.d()].progress + 1,
        b.bb_progress[0] == b.bb_ext(primary_axis(b.bb_curve_type)),
        b.bb_progress[1] == b.bb_ext(1 - primary_axis(b.bb_curve_type)),
    ensures
        b.visited(c) <==> (a.visited(c) || c == a.cursor()),
{
    let d = a.d();
    let leaf = a.levels()[d];
    assert(b.d() == d);
    assert(a.leaf_ok());
    assert(a.leaf_geom_ok());
    assert(a.sub_ok());
    assert(a.block_ok());
    assert(b.leaf_ok());
    assert(b.block_ok());
    lemma_block_full(a, c);
    lemma_block_fresh(b, c);
    lemma_sub_rect(a);
    lemma_above_frame(a.levels(), a.origins@, b.levels(), b.origins@, 0, d, c);
    assert(in_fine_quad(b.levels()[d], b.origins@[d], address(leaf.curve_type, 0), c)
        == in_fine_quad(leaf, a.origins@[d], address(leaf.curve_type, 0), c));
    assert(in_fine_quad(b.levels()[d], b.origins@[d], address(leaf.curve_type, 1), c)
        == in_fine_quad(leaf, a.origins@[d], address(leaf.curve_type, 1), c));
    assert(in_fine_quad(b.levels()[d], b.origins@[d], address(leaf.curve_type, 2), c)
        == in_fine_quad(leaf, a.origins@[d], address(leaf.curve_type, 2), c));
}

/// After a leaf has been entered, the cells produced are those that the
/// levels above the leaf have left behind.
pub(super) proof fn lemma_enter_visited(a: Engine, b: Engine, c: (int, int))
    requires
        b.wf(),
        !b.done,
        b.num_levels == a.num_levels,
        !b.in_helper(),
        forall|i: int| 0 <= i < a.d() ==> a.levels()[i] == b.levels()[i],
        forall|i: int| 0 <= i <= a.d() ==> a.origins@[i] == b.origins@[i],
        b.last_level == b.d() + 1 ==> b.levels()[b.d()].progress == 0,
        b.bb_progress[0] == b.bb_ext(primary_axis(b.bb_curve_type)),
        b.bb_progress[1] == b.bb_ext(1 - primary_axis(b.bb_curve_type)),
    ensures
        b.visited(c) <==> above_done(a.levels(), a.origins@, 0, a.d(), c),
{
    let d = a.d();
    assert(b.d() == d);
    assert(b.block_ok());
    assert(b.leaf_ok());
    assert(b.leaf_geom_ok());
    lemma_block_fresh(b, c);
    lemma_above_frame(a.levels(), a.origins@, b.levels(), b.origins@, 0, d, c);
}

/// After level `j` has moved on to its next sub-block and the levels below
/// it are in their first sub-block, the levels have left behind what they
/// had left behind before, and all of the sub-block that level `j` was in.
pub(super) proof fn lemma_above_after(
    a: Engine,
    l2: Seq<LevelState>,
    o2: Seq<(int, int)>,
    j: int,
    i: int,
    c: (int, int),
)
    requires
        a.wf(),
        !a.done,
        a.bb_progress[0] == 1,
        a.bb_progress[1] == 1,
        a.leaf_complete(),
        !a.bb_helper_row,
        0 <= i <= j < a.d(),
        all_last(a.levels(), j, a.d()),
        a.levels()[j].progress < 3,
        forall|k: int| 0 <= k < j ==> l2[k] == a.levels()[k],
        forall|k: int| 0 <= k <= j ==> o2[k] == a.origins@[k],
        l2[j].progress == a.levels()[j].progress + 1,
        l2[j].curve_type == a.levels()[j].curve_type,
        l2[j].size == a.levels()[j].size,
        forall|k: int| j < k < a.d() ==> (#[trigger] l2[k]).progress == 0,
    ensures
        above_done(l2, o2, i, a.d(), c) <==> (above_done(a.levels(), a.origins@, i, a.d(), c)
            || a.leaf_done(c) || c == a.cursor()),
    decreases j - i,
{
    let d = a.d();
    let w = a.width() as int;
    let h = a.height() as int;
    assert(stack_ok(a.levels(), a.origins@, w, h, d, d));
    if i == j {
        lemma_above_first(l2, o2, j + 1, d, c);
        lemma_filled(a, j, c);
        assert(link_ok(a.levels(), a.origins@, w, h, d, j));
        lemma_quads(a.levels()[j], a.origins@[j], c, (d - j) as nat);
        let l = a.levels()[j];
        let nl = l2[j];
        assert(lsz(nl, 0) == lsz(l, 0) && lsz(nl, 1) == lsz(l, 1));
        assert(forall|adr: u8| in_quad(nl, o2[j], adr, c) == in_quad(l, a.origins@[j], adr, c));
    } else {
        lemma_above_after(a, l2, o2, j, i + 1, c);
    }
}

/// The move to the next leaf adds the cell that the cursor leaves to the
/// cells produced. `b` is the state in which the new leaf is entered.
pub(super) proof fn lemma_leaf_visited(a: Engine, b: Engine, j: int, c: (int, int))
    requires
        Engine::crossed(a, b, j),
        b.descending(j, a.d()),
    ensures
        above_done(b.levels(), b.origins@, 0, b.d(), c) <==> (a.visited(c) || c == a.cursor()),
{
    assert(b.d() == a.d());
    assert(a.docked_at(j));
    lemma_above_after(a, b.levels(), b.origins@, j, 0, c);
}

} // verus!
