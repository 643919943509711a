//! The scan as an implementation of the state machine on plain values.
use crate::curve::{
    across, address, end_corner, induced, lemma_move, move_axis, move_positive, primary_axis,
    primary_negative, scanning_type, secondary_negative, side,
};
use crate::split::fine_sub_size;
use crate::model::{Level, ScanState};
use crate::model;
use super::{child_size, co, Engine, lsz, part};
use super::levels::lemma_first_ready;
use vstd::prelude::*;

verus! {

/// A move within the block is a move of the state machine.
pub(super) proof fn lemma_model_moved(a: Engine, b: Engine)
    requires
        a.wf(),
        !a.done,
        b.size == a.size,
        b.num_levels == a.num_levels,
        b.last_level == a.last_level,
        b.level_states == a.level_states,
        b.bb_curve_type == a.bb_curve_type,
        b.bb_end == a.bb_end,
        b.bb_helper_row == a.bb_helper_row,
        b.done == a.done,
        ({
            let p = primary_axis(a.bb_curve_type);
            let q = 1 - p;
            ||| {
                &&& a.bb_progress[1] != 1
                &&& b.bb_progress[0] == a.bb_progress[0]
                &&& b.bb_progress[1] == a.bb_progress[1] - 1
                &&& b.bb_secondary_neg == a.bb_secondary_neg
                &&& b.position[p] == a.position[p]
                &&& b.position[q] == a.position[q] + if a.bb_secondary_neg {
                    -1int
                } else {
                    1int
                }
            }
            ||| {
                &&& a.bb_progress[1] == 1
                &&& a.bb_progress[0] != 1
                &&& b.bb_progress[0] == a.bb_progress[0] - 1
                &&& b.bb_progress[1] == lsz(a.levels()[a.last_level as int], q)
                &&& b.bb_secondary_neg == !a.bb_secondary_neg
                &&& b.position[q] == a.position[q]
                &&& b.position[p] == a.position[p] + if primary_negative(a.bb_curve_type) {
                    -1int
                } else {
                    1int
                }
            }
        }),
    ensures
        model::advance(a.model()) == Some(b.model()),
{
    assert(a.leaf_ok());
    assert(a.leaf_geom_ok());
    assert(a.mlevels() =~= b.mlevels());
    let p = primary_axis(a.bb_curve_type);
    assert(a.position[p] as int == co(a.cursor(), p));
    assert(a.position[1 - p] as int == co(a.cursor(), 1 - p));
    assert(b.position[p] as int == co(b.cursor(), p));
    assert(b.position[1 - p] as int == co(b.cursor(), 1 - p));
}

/// At the last cell of a block the state machine has no move within the
/// block.
pub(super) proof fn lemma_model_stuck(a: Engine)
    requires
        a.bb_progress[0] == 1,
        a.bb_progress[1] == 1,
    ensures
        model::advance(a.model()) is None,
{
}


/// The levels as plain values after one of them has been written.
pub(super) proof fn lemma_mlevels_update(a: Engine, b: Engine, i: int)
    requires
        b.num_levels == a.num_levels,
        a.num_levels >= 1,
        b.levels().len() == a.levels().len(),
        a.d() < a.levels().len(),
        0 <= i,
        forall|k: int| 0 <= k <= a.d() && k != i ==> b.levels()[k] == a.levels()[k],
    ensures
        i <= a.d() ==> b.mlevels() == a.mlevels().update(i, b.levels()[i]@),
        i > a.d() ==> b.mlevels() == a.mlevels(),
{
    if i <= a.d() {
        assert(b.mlevels() =~= a.mlevels().update(i, b.levels()[i]@));
    } else {
        assert(b.mlevels() =~= a.mlevels());
    }
}

/// One step of the climb is one step of the climb of the state machine.
pub(super) proof fn lemma_model_climb_step(a: Engine, b: Engine, i: int)
    requires
        b.num_levels == a.num_levels,
        a.num_levels >= 1,
        b.levels().len() == a.levels().len(),
        a.d() < a.levels().len(),
        0 <= i <= a.d(),
        a.levels()[i].progress <= 3,
        forall|k: int| 0 <= k < a.levels().len() && k != i ==> b.levels()[k] == a.levels()[k],
        b.levels()[i].size == a.levels()[i].size,
        b.levels()[i].curve_type == a.levels()[i].curve_type,
        b.levels()[i].progress == a.levels()[i].progress + 1,
    ensures
        b.levels()[i].progress == 4 && i > 0 ==> model::climb(a.mlevels(), i) == model::climb(
            b.mlevels(),
            i - 1,
        ),
        b.levels()[i].progress == 4 && i == 0 ==> model::climb(a.mlevels(), i) == (model::Climb {
            levels: b.mlevels(),
            stop: None,
        }),
        b.levels()[i].progress != 4 ==> model::climb(a.mlevels(), i) == (model::Climb {
            levels: b.mlevels(),
            stop: Some(i),
        }),
{
    lemma_mlevels_update(a, b, i);
    let l = a.mlevels()[i];
    assert(l == a.levels()[i]@);
    assert(b.levels()[i]@ == Level {
        size: l.size,
        curve_type: l.curve_type,
        progress: (l.progress + 1) as u8,
    });
}

/// What the state is as plain values, where only the level states have
/// changed, and none below the last level.
pub(super) proof fn lemma_model_same_but_levels(a: Engine, b: Engine)
    requires
        Engine::same_but_levels(a, b),
        forall|k: int| a.last_level <= k < a.levels().len() ==> b.levels()[k] == a.levels()[k],
        a.last_level == a.d() + 1 ==> a.d() + 1 < a.levels().len(),
    ensures
        b.model() == (ScanState { levels: b.mlevels(), ..a.model() }),
{
}

/// The start of the helper row is that of the state machine.
pub(super) proof fn lemma_model_helper(a: Engine, b: Engine)
    requires
        a.wf(),
        !a.done,
        a.bb_helper_row,
        b.size == a.size,
        b.num_levels == a.num_levels,
        b.last_level == a.d(),
        b.level_states == a.level_states,
        b.bb_curve_type == a.levels()[a.d()].curve_type,
        b.bb_end == 3,
        !b.bb_helper_row,
        b.done == a.done,
        !b.bb_secondary_neg,
        b.bb_progress[0] == 1,
        b.bb_progress[1] == lsz(
            a.levels()[a.d()],
            1 - primary_axis(a.levels()[a.d()].curve_type),
        ),
        b.position[primary_axis(a.levels()[a.d()].curve_type)] == a.position[primary_axis(
            a.levels()[a.d()].curve_type,
        )] + 1,
        b.position[1 - primary_axis(a.levels()[a.d()].curve_type)] == a.position[1 - primary_axis(
            a.levels()[a.d()].curve_type,
        )],
    ensures
        b.model() == model::start_helper_row(a.model()),
{
    assert(a.leaf_ok());
    assert(a.kind_ok());
    assert(a.mlevels() =~= b.mlevels());
    let d = a.d();
    assert(a.mlevels()[d] == a.levels()[d]@);
    let p = primary_axis(a.levels()[d].curve_type);
    assert(a.position[p] as int == co(a.cursor(), p));
    assert(a.position[1 - p] as int == co(a.cursor(), 1 - p));
    assert(b.position[p] as int == co(b.cursor(), p));
    assert(b.position[1 - p] as int == co(b.cursor(), 1 - p));
}

/// The move to the next sub-block of the leaf is that of the state machine.
/// `a` is the state after the climb.
pub(super) proof fn lemma_model_next_sub(a: Engine, b: Engine)
    requires
        a.num_levels >= 2,
        a.last_level == a.d() + 1,
        a.d() + 1 < a.levels().len(),
        1 <= a.levels()[a.d()].progress <= 3,
        a.levels()[a.d()].curve_type < 8,
        Engine::sub_moved(a, b),
    ensures
        b.model() == model::next_sub_block(a.model()),
{
    let d = a.d();
    assert(a.mlevels() =~= b.mlevels());
    assert(a.mlevels()[d] == a.levels()[d]@);
    let leaf = a.levels()[d];
    lemma_move(leaf.curve_type, (leaf.progress - 1) as u8);
    let m = move_axis(leaf.curve_type, (leaf.progress - 1) as u8);
    assert(a.position[m] as int == co(a.cursor(), m));
    assert(a.position[1 - m] as int == co(a.cursor(), 1 - m));
    assert(b.position[m] as int == co(b.cursor(), m));
    assert(b.position[1 - m] as int == co(b.cursor(), 1 - m));
}

/// The entry into a leaf is that of the state machine.
pub(super) proof fn lemma_model_enter(a: Engine, b: Engine, c: u8, plain: bool)
    requires
        a.num_levels >= 2,
        a.d() + 1 < a.levels().len(),
        c < 8,
        b.size == a.size,
        b.num_levels == a.num_levels,
        b.position == a.position,
        b.bb_helper_row == a.bb_helper_row,
        b.done == a.done,
        b.level_states.len() == a.level_states.len(),
        forall|i: int| 0 <= i < a.d() ==> a.levels()[i] == b.levels()[i],
        ({
            let d = a.d();
            let leaf = a.levels()[d];
            let split = lsz(leaf, 0) >= 3 && lsz(leaf, 1) >= 3 && !plain;
            let adr = address(c, 0);
            let bct = if split { induced(c, 0) } else { c };
            let p = primary_axis(bct);
            &&& b.last_level == if split { d + 1 } else { d }
            &&& b.bb_curve_type == bct
            &&& b.bb_secondary_neg == secondary_negative(bct)
            &&& b.bb_end == if plain { 2u8 } else { end_corner(bct) }
            &&& b.bb_progress[0] == lsz(b.levels()[b.last_level as int], p)
            &&& b.bb_progress[1] == lsz(b.levels()[b.last_level as int], 1 - p)
            &&& (!split ==> b.levels()[d] == leaf)
            &&& (split ==> {
                &&& b.levels()[d].size == leaf.size
                &&& b.levels()[d].curve_type == c
                &&& b.levels()[d].progress == 0
                &&& lsz(b.levels()[d + 1], 0) == fine_sub_size(lsz(leaf, 0), side(adr, 0))
                &&& lsz(b.levels()[d + 1], 1) == fine_sub_size(
                    lsz(leaf, 1),
                    side(adr, 1) != (c == 0),
                )
            })
        }),
    ensures
        b.model() == model::enter_leaf(a.model(), c, plain),
{
    let d = a.d();
    let leaf = a.levels()[d];
    assert(a.mlevels()[d] == leaf@);
    let split = lsz(leaf, 0) >= 3 && lsz(leaf, 1) >= 3 && !plain;
    if split {
        assert(b.mlevels() =~= a.mlevels().update(
            d,
            Level { size: leaf@.size, curve_type: c, progress: 0 },
        ));
    } else {
        assert(b.mlevels() =~= a.mlevels());
    }
}


/// The step across the border is that of the state machine.
pub(super) proof fn lemma_model_cross(a: Engine, b: Engine, axis: int, positive: bool)
    requires
        axis == 0 || axis == 1,
        b.size == a.size,
        b.num_levels == a.num_levels,
        b.last_level == a.last_level,
        b.level_states == a.level_states,
        b.bb_progress == a.bb_progress,
        b.bb_secondary_neg == a.bb_secondary_neg,
        b.bb_curve_type == a.bb_curve_type,
        b.bb_end == a.bb_end,
        b.bb_helper_row == a.bb_helper_row,
        b.done == a.done,
        b.position[axis] == a.position[axis] + if positive {
            1int
        } else {
            -1int
        },
        b.position[1 - axis] == a.position[1 - axis],
    ensures
        b.model() == (ScanState {
            cursor: model::step(a.model().cursor, axis, positive),
            ..a.model()
        }),
{
    assert(a.mlevels() =~= b.mlevels());
    assert(a.position[axis] as int == co(a.cursor(), axis));
    assert(a.position[1 - axis] as int == co(a.cursor(), 1 - axis));
    assert(b.position[axis] as int == co(b.cursor(), axis));
    assert(b.position[1 - axis] as int == co(b.cursor(), 1 - axis));
}

/// One step of the descent is one step of the descent of the state
/// machine.
pub(super) proof fn lemma_model_descend_step(a: Engine, b: Engine, i: int)
    requires
        a.num_levels >= 2,
        b.num_levels == a.num_levels,
        b.levels().len() == a.levels().len(),
        a.d() < a.levels().len(),
        0 <= i < a.d(),
        a.levels()[i].curve_type < 8,
        a.levels()[i].progress <= 3,
        forall|k: int| 0 <= k <= i ==> a.levels()[k] == b.levels()[k],
        b.levels()[i + 1].progress == 0,
        b.levels()[i + 1].curve_type == induced(a.levels()[i].curve_type, a.levels()[i].progress),
        lsz(b.levels()[i + 1], 0) == child_size(a.levels()[i], 0),
        lsz(b.levels()[i + 1], 1) == child_size(a.levels()[i], 1),
    ensures
        model::descend_from(a.mlevels().take(i + 1), a.d()) == model::descend_from(
            b.mlevels().take(i + 2),
            a.d(),
        ),
{
    let prefix = a.mlevels().take(i + 1);
    assert(prefix.last() == a.levels()[i]@);
    assert(b.mlevels().take(i + 2) =~= prefix.push(model::child_level(prefix.last())));
}

/// What the state is as plain values, where only the levels down to the
/// leaf level have changed.
pub(super) proof fn lemma_model_same_size(a: Engine, b: Engine)
    requires
        b.size == a.size,
        b.num_levels == a.num_levels,
        b.last_level == a.last_level,
        b.level_states.len() == a.level_states.len(),
        b.position == a.position,
        b.bb_progress == a.bb_progress,
        b.bb_secondary_neg == a.bb_secondary_neg,
        b.bb_curve_type == a.bb_curve_type,
        b.bb_end == a.bb_end,
        b.bb_helper_row == a.bb_helper_row,
        b.done == a.done,
        a.last_level == a.d() + 1 ==> a.d() + 1 < a.levels().len(),
        forall|k: int| a.d() < k < a.levels().len() ==> b.levels()[k] == a.levels()[k],
    ensures
        b.model() == (ScanState { levels: b.mlevels(), ..a.model() }),
{
}

/// The kind of the leaf is no part of the state as plain values.
pub(super) proof fn lemma_model_kind(a: Engine, b: Engine)
    requires
        b.size == a.size,
        b.num_levels == a.num_levels,
        b.last_level == a.last_level,
        b.level_states == a.level_states,
        b.position == a.position,
        b.bb_progress == a.bb_progress,
        b.bb_secondary_neg == a.bb_secondary_neg,
        b.bb_curve_type == a.bb_curve_type,
        b.bb_end == a.bb_end,
        b.bb_helper_row == a.bb_helper_row,
        b.done == a.done,
    ensures
        b.model() == a.model(),
{
    assert(a.mlevels() =~= b.mlevels());
}

/// While the scan is not done the state machine has a leaf level.
pub(super) proof fn lemma_model_levels_len(a: Engine)
    requires
        a.wf(),
        !a.done,
    ensures
        a.mlevels().len() == a.d() + 1,
        a.model().levels.len() - 1 == a.d(),
        (a.model().sub_size is Some) == (a.last_level == a.d() + 1),
        a.last_level == a.d() || a.last_level == a.d() + 1,
        a.model().levels[a.d()] == a.levels()[a.d()]@,
        a.levels()[a.d()]@.progress == a.levels()[a.d()].progress,
{
    assert(a.leaf_ok());
    assert(a.leaf_geom_ok());
}

/// The move to the next leaf is that of the state machine. `pre` is the
/// state after the climb, `ready` the state in which the new leaf is
/// entered, and `b` the state after it has been entered.
pub(super) proof fn lemma_model_next_leaf(
    a: Engine,
    pre: Engine,
    ready: Engine,
    b: Engine,
    j: int,
    c: u8,
    plain: bool,
)
    requires
        0 <= j < a.d(),
        pre.num_levels == a.num_levels,
        pre.num_levels >= 2,
        pre.d() < pre.levels().len(),
        pre.size == a.size,
        pre.bb_end == a.bb_end,
        a.levels()[j].progress < 3,
        a.levels()[j].curve_type < 8,
        pre.levels()[j].progress == a.levels()[j].progress + 1,
        pre.levels()[j].curve_type == a.levels()[j].curve_type,
        ready.model() == (ScanState {
            levels: model::descend_from(pre.mlevels().take(j + 1), pre.d()),
            cursor: model::step(
                pre.model().cursor,
                move_axis(a.levels()[j].curve_type, a.levels()[j].progress),
                move_positive(a.levels()[j].curve_type, a.levels()[j].progress),
            ),
            ..pre.model()
        }),
        plain == (model::direction(ready.model().levels, pre.d()) is None && a.width() % 2 == 0
            && a.height() % 2 == 1),
        c == (if plain {
            5u8
        } else if model::direction(ready.model().levels, pre.d()) is Some {
            scanning_type(
                model::direction(ready.model().levels, pre.d())->0.positive,
                across(a.bb_end, move_axis(a.levels()[j].curve_type, a.levels()[j].progress)),
                model::direction(ready.model().levels, pre.d())->0.axis,
            )
        } else {
            scanning_type(
                true,
                across(a.bb_end, move_axis(a.levels()[j].curve_type, a.levels()[j].progress)),
                0,
            )
        }),
        b.model() == model::enter_leaf(ready.model(), c, plain),
    ensures
        b.model() == model::next_leaf(pre.model(), j),
{
    assert(pre.mlevels()[j] == pre.levels()[j]@);
    assert(pre.mlevels().len() == pre.d() + 1);
}

/// The entry into the first leaf is that of the state machine. `ready` is
/// the state in which the first leaf is entered.
pub(super) proof fn lemma_model_first(a: Engine, ready: Engine, c: u8, helper: bool)
    requires
        a.first_ready(),
        ready.size == a.size,
        ready.num_levels == a.num_levels,
        ready.last_level == a.last_level,
        ready.level_states.len() == a.level_states.len(),
        ready.position == a.position,
        ready.bb_progress == a.bb_progress,
        ready.bb_secondary_neg == a.bb_secondary_neg,
        ready.bb_curve_type == a.bb_curve_type,
        ready.bb_end == a.bb_end,
        ready.done == a.done,
        ready.bb_helper_row == helper,
        a.last_level != a.d() + 1,
        forall|i: int|
            0 <= i < a.levels().len() && i != a.d() ==> a.levels()[i] == ready.levels()[i],
        ready.levels()[a.d()].curve_type == c,
        ready.levels()[a.d()].progress == 0,
        helper == (a.width() % 2 == 1 || (a.height() % 2 == 1 && a.d() > 0)),
        c == (if a.width() % 2 == 1 {
            0u8
        } else if a.height() % 2 == 1 {
            if a.d() == 0 {
                0u8
            } else {
                1u8
            }
        } else {
            a.levels()[a.d()].curve_type
        }),
        lsz(ready.levels()[a.d()], 0) == lsz(a.levels()[a.d()], 0) - if helper && primary_axis(c)
            == 0 {
            1int
        } else {
            0int
        },
        lsz(ready.levels()[a.d()], 1) == lsz(a.levels()[a.d()], 1) - if helper && primary_axis(c)
            == 1 {
            1int
        } else {
            0int
        },
    ensures
        model::enter_leaf(ready.model(), c, false) == model::first_leaf(a.model()),
{
    let d = a.d();
    lemma_mlevels_update(a, ready, d);
    assert(a.mlevels()[d] == a.levels()[d]@);
    assert(a.mlevels().len() == d + 1);
    lemma_first_ready(a);
}

} // verus!
