//! The pseudo-Hilbert scan of a rectangle.
use crate::engine::{lemma_num_levels_bound, Engine, LevelState};
use crate::model::{after, initial, num_levels_spec, scan_order, ScanState};
use crate::model;
use crate::grid::{
    adjacent, cells_of, covers, in_grid, is_walk, lemma_covering_walk_len, lemma_open_walk_len,
    lemma_walk_empty, lemma_walk_push, lemma_walk_steps,
};
use vstd::prelude::*;

verus! {

/// A pseudo-Hilbert scan of a rectangle, which produces the cells of the
/// rectangle one by one.
///
/// The level states are kept in a vector handed in by the caller, whose
/// first `num_levels_for_size(size)` elements are used.
pub struct HilbertScanCore {
    /// The state machine that walks the rectangle.
    engine: Engine,
    /// The cells produced so far.
    history: Ghost<Seq<(int, int)>>,
}

impl HilbertScanCore {
    /// Width of the rectangle.
    pub closed spec fn width(&self) -> nat {
        self.engine.width()
    }

    /// Height of the rectangle.
    pub closed spec fn height(&self) -> nat {
        self.engine.height()
    }

    /// Whether every cell has been produced.
    pub closed spec fn is_done(&self) -> bool {
        self.engine.is_done()
    }

    /// The cell that the next call of `next` produces, while the scan is not
    /// done.
    pub closed spec fn cursor(&self) -> (int, int) {
        self.engine.cursor()
    }

    /// The cells produced so far, in the order in which they were produced.
    pub closed spec fn produced(&self) -> Seq<(int, int)> {
        self.history@
    }

    /// Number of level states in the storage that the scan holds.
    pub closed spec fn capacity(&self) -> nat {
        self.engine.capacity()
    }

    /// The state of the scan, as plain values.
    pub closed spec fn state(&self) -> ScanState {
        self.engine.model()
    }

    /// The invariant of the scan.
    pub closed spec fn wf(&self) -> bool {
        let trail = self.history@;
        &&& self.engine.wf()
        &&& is_walk(trail, self.width(), self.height())
        &&& (forall|c: (int, int)| trail.contains(c) <==> #[trigger] self.engine.visited(c))
        &&& self.state() == after(self.width(), self.height(), trail.len())
        &&& (forall|i: int|
            0 <= i < trail.len() ==> #[trigger] trail[i] == after(
                self.width(),
                self.height(),
                i as nat,
            ).cursor)
        &&& (trail.len() == 0 ==> (self.is_done() <==> self.width() == 0 || self.height() == 0))
        &&& (trail.len() == 0 && !self.is_done() ==> self.cursor() == (0int, 0int))
        &&& (trail.len() > 0 && !self.is_done() ==> adjacent(trail.last(), self.cursor()))
        &&& (!self.is_done() ==> in_grid(self.cursor(), self.width(), self.height()))
        &&& (trail.len() > 0 && self.is_done() && self.width() % 2 == 0 ==> trail.last() == (
            self.width() - 1,
            0int,
        ))
    }

    /// Construct a `HilbertScanCore` on level states of its own: 32 of them,
    /// which is enough for every size.
    pub fn new(size: [u32; 2]) -> (r: Self)
        ensures
            r.wf(),
            r.width() == size[0],
            r.height() == size[1],
            r.capacity() == 32,
            r.produced() == Seq::<(int, int)>::empty(),
            r.state() == initial(size[0] as nat, size[1] as nat),
            r.is_done() <==> size[0] == 0 || size[1] == 0,
            !r.is_done() ==> r.cursor() == (0int, 0int),
    {
        proof {
            lemma_num_levels_bound(size[0], size[1]);
        }
        let mut level_states: Vec<LevelState> = Vec::new();
        let mut i: usize = 0;
        while i < 32
            invariant
                i <= 32,
                level_states.len() == i,
            decreases 32 - i,
        {
            level_states.push(LevelState::default());
            i += 1;
        }
        Self::with_level_state_storage(level_states, size)
    }

    /// Construct a `HilbertScanCore` with explicit level states.
    ///
    /// `level_states` must have at least `num_levels_for_size(size)`
    /// elements. The elements do not have to be initialized as they are
    /// overwritten by this function.
    pub fn with_level_state_storage(level_states: Vec<LevelState>, size: [u32; 2]) -> (r: Self)
        requires
            level_states.len() >= num_levels_spec(size[0] as nat, size[1] as nat),
        ensures
            r.wf(),
            r.width() == size[0],
            r.height() == size[1],
            r.capacity() == level_states.len(),
            r.produced() == Seq::<(int, int)>::empty(),
            r.state() == initial(size[0] as nat, size[1] as nat),
            r.is_done() <==> size[0] == 0 || size[1] == 0,
            !r.is_done() ==> r.cursor() == (0int, 0int),
    {
        let engine = Engine::with_level_state_storage(level_states, size);
        proof {
            lemma_walk_empty(size[0] as nat, size[1] as nat);
            engine.lemma_model();
        }
        HilbertScanCore { engine, history: Ghost(Seq::empty()) }
    }

    /// Produce the next cell of the scan, or `None` once every cell has been
    /// produced.
    pub fn next(&mut self) -> (r: Option<[u32; 2]>)
        requires
            old(self).wf(),
        ensures
            final(self).wf(),
            final(self).width() == old(self).width(),
            final(self).height() == old(self).height(),
            final(self).capacity() == old(self).capacity(),
            old(self).is_done() ==> r is None && final(self).is_done() && final(self).produced()
                == old(self).produced(),
            !old(self).is_done() ==> r is Some && (r->0[0] as int, r->0[1] as int) == old(
                self,
            ).cursor() && final(self).produced() == old(self).produced().push(old(self).cursor()),
            final(self).state() == model::next(old(self).state()),
            r is Some <==> old(self).produced().len() < old(self).width() * old(self).height(),
            r is Some ==> old(self).produced().len() < scan_order(
                old(self).width(),
                old(self).height(),
            ).len() && (r->0[0] as int, r->0[1] as int) == scan_order(
                old(self).width(),
                old(self).height(),
            )[old(self).produced().len() as int],
    {
        let ghost start = *self;
        proof {
            self.lemma_order();
            if self.is_done() {
                self.lemma_coverage();
            } else {
                self.lemma_more_to_come();
                self.engine.lemma_cursor_in_grid();
            }
        }
        let r = self.engine.next();
        proof {
            if r is Some {
                self.history@ = start.history@.push(start.cursor());
                lemma_step(start, *self);
            }
        }
        r
    }

    /// Run the scan to its end, and give the cells that it produces on the
    /// way, in the order in which it produces them. Together with the cells
    /// produced before, they are the scan order of the rectangle: a walk
    /// from the origin over every cell of the rectangle.
    pub fn collect(self) -> (cells: Vec<[u32; 2]>)
        requires
            self.wf(),
        ensures
            self.produced() + cells_of(cells@) == scan_order(self.width(), self.height()),
            is_walk(scan_order(self.width(), self.height()), self.width(), self.height()),
            covers(scan_order(self.width(), self.height()), self.width(), self.height()),
    {
        let mut scan = self;
        let mut cells: Vec<[u32; 2]> = Vec::new();
        proof {
            assert(self.produced() + cells_of(cells@) =~= self.produced());
        }
        loop
            invariant
                scan.wf(),
                scan.width() == self.width(),
                scan.height() == self.height(),
                scan.produced() == self.produced() + cells_of(cells@),
            decreases self.width() * self.height() - scan.produced().len(),
        {
            let ghost before = scan;
            let ghost sofar = cells@;
            proof {
                if scan.is_done() {
                    scan.lemma_coverage();
                } else {
                    scan.lemma_more_to_come();
                }
            }
            match scan.next() {
                Some(cell) => {
                    cells.push(cell);
                    proof {
                        assert(cells_of(cells@) =~= cells_of(sofar).push(before.cursor()));
                        assert(scan.produced() =~= self.produced() + cells_of(cells@));
                    }
                },
                None => {
                    proof {
                        scan.lemma_order();
                        scan.lemma_walk();
                        scan.lemma_coverage();
                    }
                    return cells;
                },
            }
        }
    }

    /// Give back the level states.
    pub fn into_level_states(self) -> (r: Vec<LevelState>)
        ensures
            r.len() == self.capacity(),
    {
        self.engine.into_level_states()
    }

    /// Every cell produced lies in the rectangle, every cell but the first
    /// is rook-adjacent to the one produced before it, and no cell is
    /// produced twice. The first cell is the origin.
    pub proof fn lemma_walk(&self)
        requires
            self.wf(),
        ensures
            is_walk(self.produced(), self.width(), self.height()),
    {
    }

    /// Once the scan is done, every cell of the rectangle has been
    /// produced, and as many cells have been produced as the rectangle has.
    pub proof fn lemma_coverage(&self)
        requires
            self.wf(),
            self.is_done(),
        ensures
            covers(self.produced(), self.width(), self.height()),
            self.produced().len() == self.width() * self.height(),
    {
        assert forall|x: int, y: int|
            0 <= x < self.width() && 0 <= y < self.height() implies self.produced().contains(
            (x, y),
        ) by {
            self.engine.lemma_visited_when_done((x, y));
        }
        lemma_covering_walk_len(self.produced(), self.width(), self.height());
    }

    /// While the scan is not done, fewer cells have been produced than the
    /// rectangle has: the scan is done after exactly as many calls of `next`
    /// as the rectangle has cells.
    pub proof fn lemma_more_to_come(&self)
        requires
            self.wf(),
            !self.is_done(),
        ensures
            self.produced().len() < self.width() * self.height(),
            !self.produced().contains(self.cursor()),
    {
        self.engine.lemma_cursor_not_visited();
        lemma_open_walk_len(self.produced(), self.width(), self.height(), self.cursor());
    }

    /// The scan of a rectangle without cells produces nothing.
    pub proof fn lemma_empty(&self)
        requires
            self.wf(),
            self.width() == 0 || self.height() == 0,
        ensures
            self.is_done(),
            self.produced().len() == 0,
    {
        lemma_walk_steps(self.produced(), self.width(), self.height());
        if self.produced().len() > 0 {
            assert(in_grid(self.produced()[0], self.width(), self.height()));
        }
    }

    /// While the scan is not done its cursor is a cell of the rectangle,
    /// rook-adjacent to the cell produced last.
    pub proof fn lemma_cursor(&self)
        requires
            self.wf(),
            !self.is_done(),
        ensures
            in_grid(self.cursor(), self.width(), self.height()),
            self.produced().len() == 0 ==> self.cursor() == (0int, 0int),
            self.produced().len() > 0 ==> adjacent(self.produced().last(), self.cursor()),
    {
    }

    /// What the state as plain values says of the scan.
    pub proof fn lemma_state(&self)
        ensures
            self.state().size == (self.width(), self.height()),
            self.state().cursor == self.cursor(),
            self.state().done == self.is_done(),
    {
        self.engine.lemma_model();
    }

    /// The cells produced so far are the first cells of the scan order of
    /// the rectangle, and once the scan is done they are all of it.
    pub proof fn lemma_order(&self)
        requires
            self.wf(),
        ensures
            self.produced().len() <= self.width() * self.height(),
            self.produced() == scan_order(self.width(), self.height()).take(
                self.produced().len() as int,
            ),
            self.is_done() ==> self.produced() == scan_order(self.width(), self.height()),
            self.state() == after(self.width(), self.height(), self.produced().len()),
            !self.is_done() ==> self.cursor() == scan_order(
                self.width(),
                self.height(),
            )[self.produced().len() as int],
    {
        let order = scan_order(self.width(), self.height());
        if self.is_done() {
            self.lemma_coverage();
        } else {
            self.lemma_more_to_come();
            self.engine.lemma_model();
        }
        assert(self.produced() =~= order.take(self.produced().len() as int));
        if self.is_done() {
            assert(order.take(order.len() as int) =~= order);
        }
    }

    /// Two scans of rectangles of one size that have produced the same
    /// number of cells have produced the same cells, and are in the same
    /// state.
    pub proof fn lemma_same_scan(&self, other: &Self)
        requires
            self.wf(),
            other.wf(),
            self.width() == other.width(),
            self.height() == other.height(),
            self.produced().len() == other.produced().len(),
        ensures
            self.produced() == other.produced(),
            self.state() == other.state(),
            self.is_done() == other.is_done(),
            !self.is_done() ==> self.cursor() == other.cursor(),
    {
        self.lemma_order();
        other.lemma_order();
        self.engine.lemma_model();
        other.engine.lemma_model();
    }

    /// The scan of a rectangle with cells is done only after it has
    /// produced a cell.
    pub proof fn lemma_not_done_at_once(&self)
        requires
            self.wf(),
            self.width() > 0,
            self.height() > 0,
            self.is_done(),
        ensures
            self.produced().len() > 0,
    {
    }

    /// The scan of a rectangle of even width ends at the bottom right.
    pub proof fn lemma_leave_point(&self)
        requires
            self.wf(),
            self.is_done(),
            self.width() % 2 == 0,
            self.produced().len() > 0,
        ensures
            self.produced().last() == (self.width() - 1, 0int),
    {
    }
}

/// A step of the engine is a step of the scan. `a` is the scan before the
/// step and `b` the scan after it, with the cell at the cursor of `a` added
/// to the cells produced.
proof fn lemma_step(a: HilbertScanCore, b: HilbertScanCore)
    requires
        a.wf(),
        !a.is_done(),
        b.engine.wf(),
        b.engine.width() == a.engine.width(),
        b.engine.height() == a.engine.height(),
        !b.engine.is_done() ==> adjacent(a.engine.cursor(), b.engine.cursor()),
        b.engine.is_done() && a.engine.width() % 2 == 0 ==> a.engine.cursor() == (
            a.engine.width() - 1,
            0int,
        ),
        forall|c: (int, int)| #[trigger]
            b.engine.visited(c) <==> (a.engine.visited(c) || c == a.engine.cursor()),
        b.engine.model() == model::next(a.engine.model()),
        b.history@ == a.history@.push(a.cursor()),
    ensures
        b.wf(),
{
    let before = a.history@;
    let trail = b.history@;
    let cursor = a.cursor();
    a.engine.lemma_cursor_in_grid();
    a.engine.lemma_cursor_not_visited();
    a.engine.lemma_model();
    lemma_walk_push(before, a.width(), a.height(), cursor);
    if !b.engine.is_done() {
        b.engine.lemma_cursor_in_grid();
    }
    assert(trail.last() == cursor);
    assert forall|c: (int, int)| trail.contains(c) <==> #[trigger] b.engine.visited(c) by {
        assert(a.engine.visited(c) <==> before.contains(c));
    }
    assert forall|i: int| 0 <= i < trail.len() implies #[trigger] trail[i] == after(
        b.width(),
        b.height(),
        i as nat,
    ).cursor by {
        if i < before.len() {
            assert(trail[i] == before[i]);
        }
    }
    assert(b.state() == after(b.width(), b.height(), trail.len()));
}

} // verus!
