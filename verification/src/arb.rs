//! Aspect ratio-bounded tiling
use crate::engine::{lemma_num_levels_bound, LevelState};
use crate::model::{num_levels_spec, scan_order};
use crate::grid::{
    adjacent, cells_of, covers, in_grid, is_walk, lemma_covering_walk_len, lemma_open_walk_len,
    lemma_push_contains, lemma_walk_empty, lemma_walk_steps, lemma_walk_in_grid, lemma_walk_push,
};
use crate::scan::HilbertScanCore;
use crate::split::{floor_log2, lemma_floor_log2_monotonic};
use vstd::prelude::*;

verus! {

/// The number of parts into which a side of length `major` is best cut,
/// next to a side of length `minor`: the one of `major / minor` and
/// `major / minor + 1` that makes the proportion of a part closer to
/// square.
pub open spec fn division_count_spec(major: nat, minor: nat) -> nat {
    if major <= minor || minor == 0 {
        1
    } else {
        let k = major / minor;
        if major / k - minor < minor - major / (k + 1) {
            k
        } else {
            k + 1
        }
    }
}

/// The length of the next part that is cut off a side of which `remaining`
/// is left: all of it where one part is best, else that share of it, made
/// even.
pub open spec fn part_width(remaining: nat, minor: nat) -> nat {
    let count = division_count_spec(remaining, minor);
    if count == 1 {
        remaining
    } else {
        let w = remaining / count;
        if w % 2 == 1 {
            w + 1
        } else {
            w
        }
    }
}

/// What the division gives: the count lies between 1 and `major`, and the
/// lengths that it compares are in order.
pub proof fn lemma_division_count(major: nat, minor: nat)
    requires
        minor >= 1,
        major > minor,
    ensures
        major / minor >= 1,
        major / (major / minor) >= minor,
        major / (major / minor + 1) <= minor,
        1 <= division_count_spec(major, minor) <= major,
{
    let k = major / minor;
    assert(k >= 1 && k * minor <= major && major < (k + 1) * minor) by (nonlinear_arith)
        requires
            k == major / minor,
            minor >= 1,
            major > minor,
    ;
    assert(major / k >= minor) by (nonlinear_arith)
        requires
            k >= 1,
            k * minor <= major,
    ;
    assert(major / (k + 1) <= minor) by (nonlinear_arith)
        requires
            k >= 1,
            major < (k + 1) * minor,
    ;
    if minor == 1 {
        assert(k == major);
        assert(major / k == 1) by (nonlinear_arith)
            requires
                k == major,
                major >= 1,
        ;
        assert(major / (k + 1) == 0) by (nonlinear_arith)
            requires
                k == major,
                major >= 1,
        ;
    } else {
        assert(k + 1 <= major) by (nonlinear_arith)
            requires
                k * minor <= major,
                minor >= 2,
                k >= 1,
        ;
    }
}

/// What a part is: not empty, not longer than what is left, and even unless
/// it is the last one.
pub proof fn lemma_part_width(remaining: nat, minor: nat)
    requires
        remaining >= 1,
        minor >= 1,
    ensures
        1 <= part_width(remaining, minor) <= remaining,
        part_width(remaining, minor) < remaining ==> part_width(remaining, minor) % 2 == 0,
{
    let count = division_count_spec(remaining, minor);
    if remaining > minor {
        lemma_division_count(remaining, minor);
    }
    if count != 1 {
        let w = remaining / count;
        assert(1 <= w && 2 * w <= remaining) by (nonlinear_arith)
            requires
                w == remaining / count,
                2 <= count <= remaining,
        ;
    }
}

/// Estimate the optimal subdivision count.
pub fn division_count(major: u32, minor: u32) -> (r: u32)
    requires
        minor >= 1,
    ensures
        r == division_count_spec(major as nat, minor as nat),
        r >= 1,
{
    if major <= minor {
        1
    } else {
        proof {
            lemma_division_count(major as nat, minor as nat);
        }
        let k = major / minor;

        let w1 = major / k;
        let w2 = (major as u64 / (k as u64 + 1)) as u32;

        let d1 = w1 - minor;
        let d2 = minor - w2;

        // Choose the one of `k` and `k + 1` that makes the proportion closer
        // to square
        if d1 < d2 {
            k
        } else {
            k + 1
        }
    }
}

/// Cuts the longer side of a rectangle into parts that are about as long as
/// the shorter side.
#[derive(Debug)]
pub struct Divider {
    /// What is left of the longer side.
    remaining: u32,
    /// The shorter side.
    minor: u32,
}

impl Divider {
    /// What is left of the longer side.
    pub closed spec fn remaining(&self) -> nat {
        self.remaining as nat
    }

    /// The shorter side.
    pub closed spec fn minor(&self) -> nat {
        self.minor as nat
    }

    /// A divider of a side of length `major` next to a side of length
    /// `minor`.
    pub fn new(major: u32, minor: u32) -> (r: Self)
        ensures
            r.remaining() == major,
            r.minor() == minor,
    {
        Divider { remaining: major, minor }
    }

    /// Cut off the next part, and give its length. `None` where nothing is
    /// left.
    pub fn next(&mut self) -> (r: Option<u32>)
        requires
            old(self).minor() >= 1 || old(self).remaining() == 0,
        ensures
            final(self).minor() == old(self).minor(),
            old(self).remaining() == 0 ==> r is None && final(self).remaining() == 0,
            old(self).remaining() > 0 ==> r is Some && r->0 == part_width(
                old(self).remaining(),
                old(self).minor(),
            ) && final(self).remaining() == old(self).remaining() - r->0,
    {
        if self.remaining == 0 {
            return None;
        }
        proof {
            lemma_part_width(self.remaining as nat, self.minor as nat);
            if self.remaining > self.minor {
                lemma_division_count(self.remaining as nat, self.minor as nat);
            }
        }
        let count = division_count(self.remaining, self.minor);
        let remaining = self.remaining;

        let width = if count == 1 {
            remaining
        } else {
            let mut w = remaining / count;
            if w % 2 != 0 {
                // Make `w` even. We need the last point's Y coordinate to be
                // `0` so that the curve connects seamlessly to the next one.
                w = w + 1;
            }
            w
        };

        self.remaining = self.remaining - width;

        Some(width)
    }
}

/// A cell of a part, in the coordinates of the whole rectangle: moved along
/// the major axis by the position of the part, and with its coordinates
/// swapped where the major axis is Y.
pub open spec fn to_global_spec(p: (int, int), pos: int, major_axis: int) -> (int, int) {
    if major_axis != 0 {
        (p.1, p.0 + pos)
    } else {
        (p.0 + pos, p.1)
    }
}

/// A cell of the whole rectangle, in the coordinates of the part at position
/// `pos`.
pub open spec fn to_local_spec(p: (int, int), pos: int, major_axis: int) -> (int, int) {
    if major_axis != 0 {
        (p.1 - pos, p.0)
    } else {
        (p.0 - pos, p.1)
    }
}

/// Coordinate of a cell along the major axis.
pub open spec fn major_of(p: (int, int), major_axis: int) -> int {
    if major_axis != 0 {
        p.1
    } else {
        p.0
    }
}

/// The cells of a scan of a part, in the coordinates of the whole rectangle.
pub open spec fn globalize(cells: Seq<(int, int)>, pos: int, major_axis: int) -> Seq<(int, int)> {
    Seq::new(cells.len(), |i: int| to_global_spec(cells[i], pos, major_axis))
}

/// The scans of the parts into which a side of which `remaining` is left is
/// cut, one after the other, the first part at position `pos`.
pub open spec fn parts_order(remaining: nat, minor: nat, pos: int, major_axis: int) -> Seq<
    (int, int),
>
    decreases remaining,
{
    let len = part_width(remaining, minor);
    if remaining == 0 || len == 0 || len > remaining {
        Seq::empty()
    } else {
        globalize(scan_order(len, minor), pos, major_axis) + parts_order(
            (remaining - len) as nat,
            minor,
            pos + len,
            major_axis,
        )
    }
}

/// The aspect-ratio bounded scan of a rectangle of the given size: the
/// cells of the rectangle, in the order in which the scan produces them.
/// The longer side is cut into parts, along X where the sides are equal.
pub open spec fn arb_scan_order(w: nat, h: nat) -> Seq<(int, int)> {
    if w == 0 || h == 0 {
        Seq::empty()
    } else if h > w {
        parts_order(h, w, 0, 1)
    } else {
        parts_order(w, h, 0, 0)
    }
}

/// The scans of the parts have as many cells as the parts together.
pub proof fn lemma_parts_order_len(remaining: nat, minor: nat, pos: int, major_axis: int)
    requires
        minor >= 1,
    ensures
        parts_order(remaining, minor, pos, major_axis).len() == remaining * minor,
    decreases remaining,
{
    let len = part_width(remaining, minor);
    if remaining == 0 {
        assert(remaining * minor == 0) by (nonlinear_arith)
            requires
                remaining == 0,
        ;
    } else {
        lemma_part_width(remaining, minor);
        let rest = (remaining - len) as nat;
        lemma_parts_order_len(rest, minor, pos + len, major_axis);
        assert(len * minor + rest * minor == remaining * minor) by (nonlinear_arith)
            requires
                len + rest == remaining,
        ;
    }
}

/// The aspect-ratio bounded scan order of a rectangle has as many cells as
/// the rectangle.
pub proof fn lemma_arb_scan_order_len(w: nat, h: nat)
    ensures
        arb_scan_order(w, h).len() == w * h,
{
    if w == 0 || h == 0 {
        assert(w * h == 0) by (nonlinear_arith)
            requires
                w == 0 || h == 0,
        ;
    } else if h > w {
        lemma_parts_order_len(h, w, 0, 1);
        assert(h * w == w * h) by (nonlinear_arith);
    } else {
        lemma_parts_order_len(w, h, 0, 0);
    }
}

/// A scan wrapping [`HilbertScanCore`] that produces better results for
/// rectangles having extreme proportions.
///
/// The scan of `HilbertScanCore` accepts any rectangle size, but produces a
/// worse result as the proportions of the rectangle gets distant from
/// square. `ArbHilbertScanCore` improves the output quality by dividing the
/// rectangle into multiple rectangles whose proportions are closer to square
/// than the whole rectangle is (thus *aspect-ratio bounded*).
pub struct ArbHilbertScanCore {
    /// The scan of the current part.
    inner: Option<HilbertScanCore>,
    /// The axis along which the rectangle is cut into parts: 0 is X, 1 is Y.
    major_axis: u8,
    /// What cuts off the parts.
    divider: Divider,
    /// The current part's position.
    pos: u32,
    /// The current part's size.
    len: u32,
    /// The size of the rectangle.
    size: Ghost<(nat, nat)>,
    /// The cells produced so far.
    history: Ghost<Seq<(int, int)>>,
    /// The cells of the parts before the current one.
    finished: Ghost<Seq<(int, int)>>,
}

impl ArbHilbertScanCore {
    /// Width of the rectangle.
    pub closed spec fn width(&self) -> nat {
        self.size@.0
    }

    /// Height of the rectangle.
    pub closed spec fn height(&self) -> nat {
        self.size@.1
    }

    /// Whether every cell has been produced.
    pub closed spec fn is_done(&self) -> bool {
        self.inner->0.is_done() && self.divider.remaining() == 0
    }

    /// The cell that the next call of `next` produces, while the scan is not
    /// done.
    pub closed spec fn cursor(&self) -> (int, int) {
        if self.inner->0.is_done() {
            to_global_spec((0, 0), self.pos + self.len, self.major_axis as int)
        } else {
            to_global_spec(self.inner->0.cursor(), self.pos as int, self.major_axis as int)
        }
    }

    /// The cells produced so far, in the order in which they were produced.
    pub closed spec fn produced(&self) -> Seq<(int, int)> {
        self.history@
    }

    /// Length of the rectangle along the major axis.
    spec fn major(&self) -> nat {
        if self.major_axis != 0 {
            self.height()
        } else {
            self.width()
        }
    }

    /// Length of the rectangle along the minor axis.
    spec fn minor(&self) -> nat {
        if self.major_axis != 0 {
            self.width()
        } else {
            self.height()
        }
    }

    /// What holds while the rectangle has cells.
    spec fn parts_ok(&self) -> bool {
        let trail = self.history@;
        let inner = self.inner->0;
        &&& self.major() >= self.minor()
        &&& self.divider.minor() == self.minor()
        &&& inner.width() == self.len
        &&& inner.height() == self.minor()
        &&& self.len >= 1
        &&& self.pos + self.len + self.divider.remaining() == self.major()
        &&& self.major() <= u32::MAX
        &&& (self.divider.remaining() > 0 ==> self.len % 2 == 0)
        &&& inner.capacity() >= floor_log2(self.minor()) + 1
        &&& inner.produced().len() <= trail.len()
        &&& (trail.len() == 0 ==> self.pos == 0)
        &&& (trail.len() > 0 && !self.is_done() ==> adjacent(trail.last(), self.cursor()))
        &&& self.covered()
        &&& self.ordered()
    }

    /// The cells produced are those of the parts before the current one,
    /// followed by those that the scan of the current part has produced; and
    /// the scan order of the rectangle is the former, followed by the scans
    /// of the current part and of those after it.
    spec fn ordered(&self) -> bool {
        let ahead = (self.len + self.divider.remaining()) as nat;
        &&& self.len == part_width(ahead, self.minor())
        &&& arb_scan_order(self.width(), self.height()) == self.finished@ + parts_order(
            ahead,
            self.minor(),
            self.pos as int,
            self.major_axis as int,
        )
        &&& self.history@ == self.finished@ + globalize(
            self.inner->0.produced(),
            self.pos as int,
            self.major_axis as int,
        )
    }

    /// The cells produced are those of the parts before the current one, and
    /// those that the scan of the current part has produced.
    spec fn covered(&self) -> bool {
        forall|c: (int, int)| #[trigger]
            self.history@.contains(c) <==> in_grid(c, self.width(), self.height()) && (major_of(
                c,
                self.major_axis as int,
            ) < self.pos || self.inner->0.produced().contains(
                to_local_spec(c, self.pos as int, self.major_axis as int),
            ))
    }

    /// The invariant of the scan.
    pub closed spec fn wf(&self) -> bool {
        let trail = self.history@;
        let inner = self.inner->0;
        &&& self.inner is Some
        &&& inner.wf()
        &&& self.major_axis < 2
        &&& is_walk(trail, self.width(), self.height())
        &&& if self.width() == 0 || self.height() == 0 {
            &&& inner.is_done()
            &&& self.divider.remaining() == 0
            &&& trail.len() == 0
        } else {
            self.parts_ok()
        }
    }

    /// Construct a `ArbHilbertScanCore` on level states of its own: 32 of
    /// them, which is enough for every size.
    ///
    /// See also: [`HilbertScanCore::new`].
    pub fn new(size: [u32; 2]) -> (r: Self)
        ensures
            r.wf(),
            r.width() == size[0],
            r.height() == size[1],
            r.produced() == Seq::<(int, int)>::empty(),
            r.is_done() <==> size[0] == 0 || size[1] == 0,
            !r.is_done() ==> r.cursor() == (0int, 0int),
    {
        proof {
            lemma_num_levels_bound(size[0], size[1]);
        }
        let mut level_states: Vec<LevelState> = Vec::new();
        let mut i: usize = 0;
        while i < 32
            invariant
                i <= 32,
                level_states.len() == i,
            decreases 32 - i,
        {
            level_states.push(LevelState::default());
            i += 1;
        }
        Self::with_level_state_storage(level_states, size)
    }

    /// Construct a `ArbHilbertScanCore` with explicit level states.
    ///
    /// `level_states` must have at least `num_levels_for_size(size)`
    /// elements. The elements do not have to be initialized as they are
    /// overwritten by this function.
    pub fn with_level_state_storage(level_states: Vec<LevelState>, size: [u32; 2]) -> (r: Self)
        requires
            level_states.len() >= num_levels_spec(size[0] as nat, size[1] as nat),
        ensures
            r.wf(),
            r.width() == size[0],
            r.height() == size[1],
            r.produced() == Seq::<(int, int)>::empty(),
            r.is_done() <==> size[0] == 0 || size[1] == 0,
            !r.is_done() ==> r.cursor() == (0int, 0int),
    {
        proof {
            lemma_walk_empty(size[0] as nat, size[1] as nat);
        }
        if size[0] == 0 || size[1] == 0 {
            return Self {
                inner: Some(HilbertScanCore::with_level_state_storage(level_states, size)),
                major_axis: 0,
                divider: Divider { remaining: 0, minor: 0 },
                pos: 0,
                len: 0,
                size: Ghost((size[0] as nat, size[1] as nat)),
                history: Ghost(Seq::empty()),
                finished: Ghost(Seq::empty()),
            };
        }
        let major_axis: usize = if size[1] > size[0] { 1 } else { 0 };
        let mut divider = Divider { remaining: size[major_axis], minor: size[1 - major_axis] };

        // The first part
        proof {
            lemma_part_width(size[major_axis as int] as nat, size[1 - major_axis] as nat);
        }
        let len = divider.next().unwrap_or(0);
        proof {
            lemma_levels_of_part(len, divider.minor);
        }

        let r = Self {
            inner: Some(
                HilbertScanCore::with_level_state_storage(level_states, [len, divider.minor]),
            ),
            major_axis: major_axis as u8,
            divider,
            pos: 0,
            len,
            size: Ghost((size[0] as nat, size[1] as nat)),
            history: Ghost(Seq::empty()),
            finished: Ghost(Seq::empty()),
        };
        proof {
            let order = parts_order(
                size[major_axis as int] as nat,
                size[1 - major_axis] as nat,
                0,
                major_axis as int,
            );
            assert(Seq::<(int, int)>::empty() + order =~= order);
            assert(globalize(Seq::<(int, int)>::empty(), 0, major_axis as int) =~= Seq::<
                (int, int),
            >::empty());
            assert(r.ordered());
        }
        r
    }

    /// Move a cell of the current part to the coordinates of the whole
    /// rectangle.
    fn to_global(&self, p: [u32; 2]) -> (r: [u32; 2])
        requires
            p[0] + self.pos <= u32::MAX,
        ensures
            (r[0] as int, r[1] as int) == to_global_spec(
                (p[0] as int, p[1] as int),
                self.pos as int,
                self.major_axis as int,
            ),
    {
        let mut p = p;
        p[0] = p[0] + self.pos;
        if self.major_axis != 0 {
            [p[1], p[0]]
        } else {
            [p[0], p[1]]
        }
    }

    /// Produce the next cell of the scan, or `None` once every cell has been
    /// produced.
    #[verifier::rlimit(50)]
    pub fn next(&mut self) -> (r: Option<[u32; 2]>)
        requires
            old(self).wf(),
        ensures
            final(self).wf(),
            final(self).width() == old(self).width(),
            final(self).height() == old(self).height(),
            old(self).is_done() ==> r is None && final(self).is_done() && final(self).produced()
                == old(self).produced(),
            !old(self).is_done() ==> r is Some && (r->0[0] as int, r->0[1] as int) == old(
                self,
            ).cursor() && final(self).produced() == old(self).produced().push(old(self).cursor()),
            r is Some <==> old(self).produced().len() < old(self).width() * old(self).height(),
            r is Some ==> old(self).produced().len() < arb_scan_order(
                old(self).width(),
                old(self).height(),
            ).len() && (r->0[0] as int, r->0[1] as int) == arb_scan_order(
                old(self).width(),
                old(self).height(),
            )[old(self).produced().len() as int],
    {
        let ghost start = *self;
        proof {
            if !start.inner->0.is_done() {
                start.inner->0.lemma_cursor();
            }
        }
        if let Some(p) = self.inner.as_mut().unwrap().next() {
            let r = self.to_global(p);
            proof {
                self.history@ = start.history@.push(start.cursor());
                lemma_arb_step(start, *self);
                lemma_arb_produced(start, *self);
            }
            return Some(r);
        }
        self.next_part()
    }

    /// Run the scan to its end, and give the cells that it produces on the
    /// way, in the order in which it produces them. Together with the cells
    /// produced before, they are the aspect-ratio bounded scan order of the
    /// rectangle: a walk from the origin over every cell of the rectangle.
    pub fn collect(self) -> (cells: Vec<[u32; 2]>)
        requires
            self.wf(),
        ensures
            self.produced() + cells_of(cells@) == arb_scan_order(self.width(), self.height()),
            is_walk(arb_scan_order(self.width(), self.height()), self.width(), self.height()),
            covers(arb_scan_order(self.width(), self.height()), self.width(), self.height()),
    {
        let mut scan = self;
        let mut cells: Vec<[u32; 2]> = Vec::new();
        proof {
            assert(self.produced() + cells_of(cells@) =~= self.produced());
        }
        loop
            invariant
                scan.wf(),
                scan.width() == self.width(),
                scan.height() == self.height(),
                scan.produced() == self.produced() + cells_of(cells@),
            decreases self.width() * self.height() - scan.produced().len(),
        {
            let ghost before = scan;
            let ghost sofar = cells@;
            proof {
                if scan.is_done() {
                    scan.lemma_coverage();
                } else {
                    scan.lemma_more_to_come();
                }
            }
            match scan.next() {
                Some(cell) => {
                    cells.push(cell);
                    proof {
                        assert(cells_of(cells@) =~= cells_of(sofar).push(before.cursor()));
                        assert(scan.produced() =~= self.produced() + cells_of(cells@));
                    }
                },
                None => {
                    proof {
                        scan.lemma_order();
                        scan.lemma_walk();
                        scan.lemma_coverage();
                    }
                    return cells;
                },
            }
        }
    }

    /// Move on to the next part, where there is one, and produce its first
    /// cell.
    #[verifier::rlimit(50)]
    fn next_part(&mut self) -> (r: Option<[u32; 2]>)
        requires
            old(self).wf(),
            old(self).inner->0.is_done(),
        ensures
            final(self).wf(),
            final(self).width() == old(self).width(),
            final(self).height() == old(self).height(),
            old(self).is_done() ==> r is None && final(self).is_done() && final(self).produced()
                == old(self).produced(),
            !old(self).is_done() ==> r is Some && (r->0[0] as int, r->0[1] as int) == old(
                self,
            ).cursor() && final(self).produced() == old(self).produced().push(old(self).cursor()),
            r is Some <==> old(self).produced().len() < old(self).width() * old(self).height(),
            r is Some ==> old(self).produced().len() < arb_scan_order(
                old(self).width(),
                old(self).height(),
            ).len() && (r->0[0] as int, r->0[1] as int) == arb_scan_order(
                old(self).width(),
                old(self).height(),
            )[old(self).produced().len() as int],
    {
        let ghost start = *self;
        let next_len = if let Some(x) = self.divider.next() {
            x
        } else {
            proof {
                start.lemma_coverage();
            }
            return None;
        };

        proof {
            lemma_part_width(start.divider.remaining(), start.divider.minor());
            lemma_levels_of_part(next_len, self.divider.minor);
            start.inner->0.lemma_not_done_at_once();
        }
        let level_states = self.inner.take().unwrap().into_level_states();
        let minor = self.divider.minor;
        self.inner = Some(
            HilbertScanCore::with_level_state_storage(level_states, [next_len, minor]),
        );
        self.pos = self.pos + self.len;
        self.len = next_len;
        proof {
            self.finished@ = start.history@;
        }
        let ghost fresh = *self;
        proof {
            fresh.inner->0.lemma_cursor();
            lemma_arb_switch(start, fresh);
        }

        let p = self.inner.as_mut().unwrap().next().unwrap();
        let r = self.to_global(p);
        proof {
            self.history@ = start.history@.push(start.cursor());
            lemma_arb_step(fresh, *self);
            lemma_arb_produced(start, *self);
        }
        Some(r)
    }

    /// Every cell produced lies in the rectangle, every cell but the first
    /// is rook-adjacent to the one produced before it, also where the two
    /// lie in different parts, and no cell is produced twice. The first cell
    /// is the origin.
    pub proof fn lemma_walk(&self)
        requires
            self.wf(),
        ensures
            is_walk(self.produced(), self.width(), self.height()),
    {
    }

    /// The scan of a rectangle without cells produces nothing.
    pub proof fn lemma_empty(&self)
        requires
            self.wf(),
            self.width() == 0 || self.height() == 0,
        ensures
            self.is_done(),
            self.produced().len() == 0,
    {
        lemma_walk_steps(self.produced(), self.width(), self.height());
        if self.produced().len() > 0 {
            assert(in_grid(self.produced()[0], self.width(), self.height()));
        }
    }

    /// Once the scan is done, every cell of the rectangle has been
    /// produced, and as many cells have been produced as the rectangle has.
    pub proof fn lemma_coverage(&self)
        requires
            self.wf(),
            self.is_done(),
        ensures
            covers(self.produced(), self.width(), self.height()),
            self.produced().len() == self.width() * self.height(),
    {
        if self.width() > 0 && self.height() > 0 {
            assert(self.parts_ok());
            assert(self.covered());
            let inner = self.inner->0;
            inner.lemma_coverage();
            assert forall|x: int, y: int|
                0 <= x < self.width() && 0 <= y < self.height() implies self.produced().contains(
                (x, y),
            ) by {
                let c = (x, y);
                let l = to_local_spec(c, self.pos as int, self.major_axis as int);
                if major_of(c, self.major_axis as int) >= self.pos {
                    assert(inner.produced().contains((l.0, l.1)));
                }
                assert(self.history@.contains(c));
            }
        }
        lemma_covering_walk_len(self.produced(), self.width(), self.height());
    }

    /// The cells produced so far are the first cells of the scan order of
    /// the rectangle, and once the scan is done they are all of it.
    pub proof fn lemma_order(&self)
        requires
            self.wf(),
        ensures
            self.produced().len() <= arb_scan_order(self.width(), self.height()).len(),
            self.produced() == arb_scan_order(self.width(), self.height()).take(
                self.produced().len() as int,
            ),
            self.is_done() ==> self.produced() == arb_scan_order(self.width(), self.height()),
    {
        let order = arb_scan_order(self.width(), self.height());
        if self.width() == 0 || self.height() == 0 {
            assert(self.produced() =~= order.take(0));
        } else {
            assert(self.parts_ok());
            assert(self.ordered());
            let inner = self.inner->0;
            let pos = self.pos as int;
            let axis = self.major_axis as int;
            let ahead = (self.len + self.divider.remaining()) as nat;
            inner.lemma_order();
            let whole = scan_order(self.len as nat, self.minor());
            let part = globalize(whole, pos, axis);
            let rest = parts_order(
                self.divider.remaining(),
                self.minor(),
                pos + self.len,
                axis,
            );
            assert(parts_order(ahead, self.minor(), pos, axis) == part + rest);
            let k = inner.produced().len() as int;
            assert(inner.produced() == whole.take(k));
            assert(globalize(whole.take(k), pos, axis) =~= part.take(k));
            assert(self.produced() =~= order.take(self.produced().len() as int));
            if self.is_done() {
                assert(rest =~= Seq::<(int, int)>::empty());
                assert(whole.take(k) == whole);
                assert(self.produced() =~= order);
            }
        }
    }

    /// Two scans of rectangles of one size that have produced the same
    /// number of cells have produced the same cells.
    pub proof fn lemma_same_scan(&self, other: &Self)
        requires
            self.wf(),
            other.wf(),
            self.width() == other.width(),
            self.height() == other.height(),
            self.produced().len() == other.produced().len(),
        ensures
            self.produced() == other.produced(),
    {
        self.lemma_order();
        other.lemma_order();
    }

    /// While the scan is not done, fewer cells have been produced than the
    /// rectangle has, and the cell at the cursor is not among them.
    pub proof fn lemma_more_to_come(&self)
        requires
            self.wf(),
            !self.is_done(),
        ensures
            self.produced().len() < self.width() * self.height(),
            !self.produced().contains(self.cursor()),
            in_grid(self.cursor(), self.width(), self.height()),
    {
        lemma_arb_cursor(*self);
        lemma_open_walk_len(self.produced(), self.width(), self.height(), self.cursor());
    }
}

/// A part needs no more levels than the rectangle that it is cut from.
proof fn lemma_levels_of_part(len: u32, minor: u32)
    requires
        len >= 1,
        minor >= 1,
    ensures
        num_levels_spec(len as nat, minor as nat) <= floor_log2(minor as nat) + 1,
{
    let m = if len < minor { len } else { minor };
    lemma_floor_log2_monotonic(m as nat, minor as nat);
}

/// While the scan is not done its cursor is a cell of the rectangle that
/// has not been produced.
proof fn lemma_arb_cursor(a: ArbHilbertScanCore)
    requires
        a.wf(),
        !a.is_done(),
    ensures
        in_grid(a.cursor(), a.width(), a.height()),
        !a.history@.contains(a.cursor()),
{
    let inner = a.inner->0;
    assert(a.width() > 0 && a.height() > 0);
    assert(a.parts_ok());
    assert(a.covered());
    let c = a.cursor();
    let l = to_local_spec(c, a.pos as int, a.major_axis as int);
    if inner.is_done() {
        assert(l == (a.len as int, 0int));
        if inner.produced().contains(l) {
            inner.lemma_walk();
            lemma_walk_in_grid(inner.produced(), inner.width(), inner.height(), l);
        }
    } else {
        inner.lemma_cursor();
        inner.lemma_more_to_come();
        assert(l == inner.cursor());
    }
}

/// When a part is done and another one is put in its place, the cells
/// produced are those of the parts before the new one. `a` is the state
/// with the part that is done, `b` the state with the new part.
#[verifier::rlimit(50)]
proof fn lemma_arb_switch(a: ArbHilbertScanCore, b: ArbHilbertScanCore)
    requires
        a.wf(),
        a.width() > 0,
        a.height() > 0,
        a.inner->0.is_done(),
        a.divider.remaining() > 0,
        b.inner is Some,
        b.inner->0.wf(),
        !b.inner->0.is_done(),
        b.inner->0.produced() == Seq::<(int, int)>::empty(),
        b.inner->0.cursor() == (0int, 0int),
        b.inner->0.width() == b.len,
        b.inner->0.height() == a.minor(),
        b.inner->0.capacity() == a.inner->0.capacity(),
        b.major_axis == a.major_axis,
        b.divider.minor() == a.divider.minor(),
        b.len >= 1,
        b.len <= a.divider.remaining(),
        b.divider.remaining() == a.divider.remaining() - b.len,
        b.divider.remaining() > 0 ==> b.len % 2 == 0,
        b.pos == a.pos + a.len,
        b.size == a.size,
        b.history == a.history,
        b.finished == a.history,
        b.len == part_width(a.divider.remaining(), a.divider.minor()),
    ensures
        b.parts_ok(),
        b.width() == a.width(),
        b.height() == a.height(),
        is_walk(b.history@, b.width(), b.height()),
        b.cursor() == a.cursor(),
        !b.is_done(),
{
    let inner = a.inner->0;
    assert(a.parts_ok());
    inner.lemma_not_done_at_once();
    lemma_arb_switch_order(a, b);
    assert(b.covered()) by {
        assert forall|c: (int, int)| #[trigger]
            b.history@.contains(c) <==> in_grid(c, b.width(), b.height()) && (major_of(
                c,
                b.major_axis as int,
            ) < b.pos || b.inner->0.produced().contains(
                to_local_spec(c, b.pos as int, b.major_axis as int),
            )) by {
            lemma_arb_switch_cell(a, b, c);
        }
    }
}

/// What `lemma_arb_switch` says, of one cell.
proof fn lemma_arb_switch_cell(a: ArbHilbertScanCore, b: ArbHilbertScanCore, c: (int, int))
    requires
        a.inner is Some,
        a.inner->0.wf(),
        a.inner->0.is_done(),
        a.covered(),
        a.major_axis < 2,
        a.inner->0.width() == a.len,
        a.inner->0.height() == a.minor(),
        b.inner is Some,
        b.inner->0.produced() == Seq::<(int, int)>::empty(),
        b.major_axis == a.major_axis,
        b.pos == a.pos + a.len,
        b.size == a.size,
        b.history == a.history,
    ensures
        b.history@.contains(c) <==> in_grid(c, b.width(), b.height()) && (major_of(
            c,
            b.major_axis as int,
        ) < b.pos || b.inner->0.produced().contains(
            to_local_spec(c, b.pos as int, b.major_axis as int),
        )),
{
    let inner = a.inner->0;
    let l = to_local_spec(c, a.pos as int, a.major_axis as int);
    inner.lemma_coverage();
    inner.lemma_walk();
    assert(a.history@.contains(c) <==> in_grid(c, a.width(), a.height()) && (major_of(
        c,
        a.major_axis as int,
    ) < a.pos || inner.produced().contains(l)));
    if inner.produced().contains(l) {
        lemma_walk_in_grid(inner.produced(), inner.width(), inner.height(), l);
    }
    if in_grid(l, inner.width(), inner.height()) {
        assert(inner.produced().contains((l.0, l.1)));
    }
    assert(!Seq::<(int, int)>::empty().contains(
        to_local_spec(c, b.pos as int, b.major_axis as int),
    ));
}

/// A step of the scan of the current part is a step of the scan of the
/// whole. `a` is the state before the step, with the part in place, and `b`
/// the state after it, with the cell at the cursor of `a` added to the cells
/// produced.
#[verifier::rlimit(50)]
proof fn lemma_arb_step(a: ArbHilbertScanCore, b: ArbHilbertScanCore)
    requires
        a.inner is Some,
        b.inner is Some,
        a.inner->0.wf(),
        b.inner->0.wf(),
        !a.inner->0.is_done(),
        b.inner->0.width() == a.inner->0.width(),
        b.inner->0.height() == a.inner->0.height(),
        b.inner->0.capacity() == a.inner->0.capacity(),
        b.inner->0.produced() == a.inner->0.produced().push(a.inner->0.cursor()),
        b.major_axis == a.major_axis,
        b.divider == a.divider,
        b.pos == a.pos,
        b.len == a.len,
        b.size == a.size,
        b.history@ == a.history@.push(a.cursor()),
        b.finished == a.finished,
        a.major_axis < 2,
        a.width() > 0,
        a.height() > 0,
        is_walk(a.history@, a.width(), a.height()),
        a.parts_ok(),
    ensures
        b.wf(),
{
    let before = a.history@;
    let trail = b.history@;
    let cursor = a.cursor();
    let inner = a.inner->0;
    inner.lemma_cursor();
    inner.lemma_more_to_come();
    assert(in_grid(cursor, a.width(), a.height()));
    assert(to_local_spec(cursor, a.pos as int, a.major_axis as int) == inner.cursor());
    assert(!before.contains(cursor)) by {
        lemma_arb_step_cell(a, b, cursor);
    }
    lemma_walk_push(before, a.width(), a.height(), cursor);
    assert(trail.last() == cursor);
    if b.inner->0.is_done() {
        if a.len % 2 == 0 {
            b.inner->0.lemma_leave_point();
            assert(b.inner->0.produced().last() == inner.cursor());
        }
    } else {
        b.inner->0.lemma_cursor();
        assert(b.inner->0.produced().last() == inner.cursor());
    }
    assert(b.covered()) by {
        assert forall|c: (int, int)| #[trigger]
            trail.contains(c) <==> in_grid(c, b.width(), b.height()) && (major_of(
                c,
                b.major_axis as int,
            ) < b.pos || b.inner->0.produced().contains(
                to_local_spec(c, b.pos as int, b.major_axis as int),
            )) by {
            lemma_arb_step_cell(a, b, c);
        }
    }
    lemma_arb_step_order(a, b);
    assert(b.parts_ok());
}

/// What `lemma_arb_step` says, of one cell.
proof fn lemma_arb_step_cell(a: ArbHilbertScanCore, b: ArbHilbertScanCore, c: (int, int))
    requires
        a.inner is Some,
        b.inner is Some,
        a.inner->0.wf(),
        !a.inner->0.is_done(),
        a.covered(),
        a.major_axis < 2,
        a.width() > 0,
        a.height() > 0,
        a.inner->0.width() == a.len,
        a.inner->0.height() == a.minor(),
        a.pos + a.len <= a.major(),
        b.inner->0.produced() == a.inner->0.produced().push(a.inner->0.cursor()),
        b.major_axis == a.major_axis,
        b.pos == a.pos,
        b.size == a.size,
        b.history@ == a.history@.push(a.cursor()),
    ensures
        !a.history@.contains(a.cursor()),
        b.history@.contains(c) <==> in_grid(c, b.width(), b.height()) && (major_of(
            c,
            b.major_axis as int,
        ) < b.pos || b.inner->0.produced().contains(
            to_local_spec(c, b.pos as int, b.major_axis as int),
        )),
{
    let before = a.history@;
    let cursor = a.cursor();
    let inner = a.inner->0;
    let l = to_local_spec(c, a.pos as int, a.major_axis as int);
    inner.lemma_cursor();
    inner.lemma_more_to_come();
    assert(to_local_spec(cursor, a.pos as int, a.major_axis as int) == inner.cursor());
    assert(before.contains(cursor) <==> in_grid(cursor, a.width(), a.height()) && (major_of(
        cursor,
        a.major_axis as int,
    ) < a.pos || inner.produced().contains(inner.cursor())));
    lemma_push_contains(inner.produced(), inner.cursor(), l);
    lemma_push_contains(before, cursor, c);
    assert(before.contains(c) <==> in_grid(c, a.width(), a.height()) && (major_of(
        c,
        a.major_axis as int,
    ) < a.pos || inner.produced().contains(l)));
}

/// A step of the scan of the current part keeps the cells produced in the
/// scan order of the rectangle.
proof fn lemma_arb_step_order(a: ArbHilbertScanCore, b: ArbHilbertScanCore)
    requires
        a.inner is Some,
        b.inner is Some,
        !a.inner->0.is_done(),
        a.ordered(),
        b.inner->0.produced() == a.inner->0.produced().push(a.inner->0.cursor()),
        b.major_axis == a.major_axis,
        b.divider == a.divider,
        b.pos == a.pos,
        b.len == a.len,
        b.size == a.size,
        b.history@ == a.history@.push(a.cursor()),
        b.finished == a.finished,
    ensures
        b.ordered(),
{
    let inner = a.inner->0;
    let pos = a.pos as int;
    let axis = a.major_axis as int;
    assert(a.cursor() == to_global_spec(inner.cursor(), pos, axis));
    assert(globalize(inner.produced().push(inner.cursor()), pos, axis) =~= globalize(
        inner.produced(),
        pos,
        axis,
    ).push(a.cursor()));
    assert(b.history@ =~= b.finished@ + globalize(b.inner->0.produced(), pos, axis));
    assert(b.minor() == a.minor());
}

/// When a part is done and another one is put in its place, the cells
/// produced stay in the scan order of the rectangle.
proof fn lemma_arb_switch_order(a: ArbHilbertScanCore, b: ArbHilbertScanCore)
    requires
        a.inner is Some,
        a.inner->0.wf(),
        a.inner->0.is_done(),
        a.ordered(),
        a.inner->0.width() == a.len,
        a.inner->0.height() == a.minor(),
        a.divider.minor() == a.minor(),
        a.len >= 1,
        a.divider.remaining() > 0,
        a.minor() >= 1,
        b.inner is Some,
        b.inner->0.produced() == Seq::<(int, int)>::empty(),
        b.major_axis == a.major_axis,
        b.divider.minor() == a.divider.minor(),
        b.len <= a.divider.remaining(),
        b.divider.remaining() == a.divider.remaining() - b.len,
        b.pos == a.pos + a.len,
        b.size == a.size,
        b.history == a.history,
        b.finished == a.history,
        b.len == part_width(a.divider.remaining(), a.divider.minor()),
    ensures
        b.ordered(),
{
    let inner = a.inner->0;
    let pos = a.pos as int;
    let axis = a.major_axis as int;
    let minor = a.minor();
    let ahead = (a.len + a.divider.remaining()) as nat;
    inner.lemma_order();
    let part = globalize(scan_order(a.len as nat, minor), pos, axis);
    let rest = parts_order(a.divider.remaining(), minor, pos + a.len, axis);
    assert(parts_order(ahead, minor, pos, axis) == part + rest);
    assert(a.history@ == a.finished@ + part);
    assert(a.finished@ + (part + rest) =~= (a.finished@ + part) + rest);
    assert(b.minor() == minor);
    assert(globalize(Seq::<(int, int)>::empty(), b.pos as int, axis) =~= Seq::<
        (int, int),
    >::empty());
    assert(b.history@ =~= b.finished@ + globalize(b.inner->0.produced(), b.pos as int, axis));
}

/// What a step adds to the cells produced is the next cell of the scan
/// order of the rectangle.
proof fn lemma_arb_produced(a: ArbHilbertScanCore, b: ArbHilbertScanCore)
    requires
        a.wf(),
        b.wf(),
        b.width() == a.width(),
        b.height() == a.height(),
        b.produced() == a.produced().push(a.cursor()),
    ensures
        a.produced().len() < a.width() * a.height(),
        a.produced().len() < arb_scan_order(a.width(), a.height()).len(),
        a.cursor() == arb_scan_order(a.width(), a.height())[a.produced().len() as int],
{
    b.lemma_order();
    b.lemma_walk();
    let trail = b.produced();
    assert(trail[a.produced().len() as int] == a.cursor());
    if b.is_done() {
        b.lemma_coverage();
    } else {
        b.lemma_more_to_come();
    }
}

} // verus!
