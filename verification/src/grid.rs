//! Cells, rectangles of cells, and walks through them.
use vstd::prelude::*;
use vstd::set_lib::lemma_len_subset;

verus! {

/// Whether two cells are rook-adjacent: they differ by one along exactly
/// one axis.
pub open spec fn adjacent(p: (int, int), q: (int, int)) -> bool {
    ||| (p.1 == q.1 && (p.0 == q.0 + 1 || q.0 == p.0 + 1))
    ||| (p.0 == q.0 && (p.1 == q.1 + 1 || q.1 == p.1 + 1))
}

/// Whether `p` is a cell of the rectangle of the given size.
pub open spec fn in_grid(p: (int, int), width: nat, height: nat) -> bool {
    0 <= p.0 < width && 0 <= p.1 < height
}

/// The cells of the rectangle of the given size.
pub open spec fn grid(width: nat, height: nat) -> Set<(int, int)> {
    Set::new(|p: (int, int)| in_grid(p, width, height))
}

/// The cells in a sequence of coordinate pairs.
pub open spec fn cells_of(pairs: Seq<[u32; 2]>) -> Seq<(int, int)> {
    Seq::new(pairs.len(), |i: int| (pairs[i][0] as int, pairs[i][1] as int))
}

/// Whether `trail` is a walk through the rectangle that starts at the
/// origin, moves to a rook-adjacent cell at every step, and comes to no
/// cell twice.
#[verifier::opaque]
pub open spec fn is_walk(trail: Seq<(int, int)>, width: nat, height: nat) -> bool {
    &&& forall|i: int| 0 <= i < trail.len() ==> in_grid(#[trigger] trail[i], width, height)
    &&& forall|i: int| 0 <= i && i + 1 < trail.len() ==> adjacent(#[trigger] trail[i], trail[i + 1])
    &&& (trail.len() > 0 ==> trail[0] == (0int, 0int))
    &&& trail.no_duplicates()
}

/// Whether `trail` comes to every cell of the rectangle.
pub open spec fn covers(trail: Seq<(int, int)>, width: nat, height: nat) -> bool {
    forall|x: int, y: int| 0 <= x < width && 0 <= y < height ==> trail.contains((x, y))
}

/// The first `h` rows of the rectangle, and the first `k` cells of the row
/// after them.
spec fn partial_grid(w: nat, h: nat, k: nat) -> Set<(int, int)> {
    Set::new(|p: (int, int)| in_grid(p, w, h) || (p.1 == h && 0 <= p.0 < k))
}

/// The first `h` rows of a rectangle of width `w` and `k` cells more are
/// `w * h + k` cells.
proof fn lemma_partial_grid_len(w: nat, h: nat, k: nat)
    requires
        k <= w,
    ensures
        partial_grid(w, h, k).finite(),
        partial_grid(w, h, k).len() == w * h + k,
    decreases h, k,
{
    if k == 0 {
        if h == 0 {
            assert(partial_grid(w, 0, 0) =~= Set::<(int, int)>::empty());
            assert(w * 0 + 0 == 0) by (nonlinear_arith);
        } else {
            lemma_partial_grid_len(w, (h - 1) as nat, w);
            assert(partial_grid(w, h, 0) =~= partial_grid(w, (h - 1) as nat, w));
            assert(w * (h - 1) + w == w * h + 0) by (nonlinear_arith);
        }
    } else {
        lemma_partial_grid_len(w, h, (k - 1) as nat);
        let rest = partial_grid(w, h, (k - 1) as nat);
        let cell = ((k - 1) as int, h as int);
        assert(!rest.contains(cell));
        assert(partial_grid(w, h, k) =~= rest.insert(cell));
    }
}

/// A rectangle of `width` by `height` has `width * height` cells.
pub proof fn lemma_grid_len(width: nat, height: nat)
    ensures
        grid(width, height).finite(),
        grid(width, height).len() == width * height,
{
    lemma_partial_grid_len(width, height, 0);
    assert(grid(width, height) =~= partial_grid(width, height, 0));
}

/// A walk that covers the rectangle has as many steps as the rectangle has
/// cells.
pub proof fn lemma_covering_walk_len(trail: Seq<(int, int)>, width: nat, height: nat)
    requires
        is_walk(trail, width, height),
        covers(trail, width, height),
    ensures
        trail.len() == width * height,
{
    reveal(is_walk);
    lemma_grid_len(width, height);
    trail.unique_seq_to_set();
    assert(trail.to_set() =~= grid(width, height)) by {
        assert forall|p: (int, int)| trail.to_set().contains(p) == grid(width, height).contains(
            p,
        ) by {
            if trail.contains(p) {
                let i = choose|i: int| 0 <= i < trail.len() && trail[i] == p;
                assert(in_grid(trail[i], width, height));
            }
            if in_grid(p, width, height) {
                assert(trail.contains((p.0, p.1)));
            }
        }
    }
}

/// A walk that has not come to some cell of the rectangle has fewer steps
/// than the rectangle has cells.
pub proof fn lemma_open_walk_len(trail: Seq<(int, int)>, width: nat, height: nat, p: (int, int))
    requires
        is_walk(trail, width, height),
        in_grid(p, width, height),
        !trail.contains(p),
    ensures
        trail.len() < width * height,
{
    reveal(is_walk);
    lemma_grid_len(width, height);
    trail.unique_seq_to_set();
    let rest = grid(width, height).remove(p);
    assert(trail.to_set().subset_of(rest)) by {
        assert forall|q: (int, int)| trail.to_set().contains(q) implies rest.contains(q) by {
            let i = choose|i: int| 0 <= i < trail.len() && trail[i] == q;
            assert(in_grid(trail[i], width, height));
        }
    }
    lemma_len_subset(trail.to_set(), rest);
}

/// A walk stays a walk when it goes on to an adjacent cell to which it has
/// not come.
pub proof fn lemma_walk_push(trail: Seq<(int, int)>, width: nat, height: nat, p: (int, int))
    requires
        is_walk(trail, width, height),
        in_grid(p, width, height),
        !trail.contains(p),
        trail.len() == 0 ==> p == (0int, 0int),
        trail.len() > 0 ==> adjacent(trail.last(), p),
    ensures
        is_walk(trail.push(p), width, height),
        forall|q: (int, int)| trail.push(p).contains(q) <==> (trail.contains(q) || q == p),
{
    reveal(is_walk);
    let next = trail.push(p);
    assert forall|i: int| 0 <= i < next.len() implies in_grid(
        #[trigger] next[i],
        width,
        height,
    ) by {
        if i < trail.len() {
            assert(next[i] == trail[i]);
        }
    }
    assert forall|i: int| 0 <= i && i + 1 < next.len() implies adjacent(
        #[trigger] next[i],
        next[i + 1],
    ) by {
        if i + 1 < trail.len() {
            assert(next[i] == trail[i]);
            assert(next[i + 1] == trail[i + 1]);
        } else {
            assert(next[i] == trail.last());
        }
    }
    assert forall|i: int, j: int|
        0 <= i < next.len() && 0 <= j < next.len() && i != j implies next[i] != next[j] by {
        if i < trail.len() && j < trail.len() {
            assert(trail[i] != trail[j]);
        } else if i < trail.len() {
            assert(trail.contains(trail[i]));
        } else {
            assert(trail.contains(trail[j]));
        }
    }
    assert forall|q: (int, int)| next.contains(q) <==> (trail.contains(q) || q == p) by {
        if next.contains(q) {
            let i = choose|i: int| 0 <= i < next.len() && next[i] == q;
            if i < trail.len() {
                assert(trail[i] == q);
            }
        }
        if trail.contains(q) {
            let i = choose|i: int| 0 <= i < trail.len() && trail[i] == q;
            assert(next[i] == q);
        }
        if q == p {
            assert(next[trail.len() as int] == p);
        }
    }
}

/// What a sequence holds after a push: what it held, and what was pushed.
pub proof fn lemma_push_contains(trail: Seq<(int, int)>, p: (int, int), q: (int, int))
    ensures
        trail.push(p).contains(q) <==> (trail.contains(q) || q == p),
{
    let next = trail.push(p);
    if next.contains(q) {
        let i = choose|i: int| 0 <= i < next.len() && next[i] == q;
        if i < trail.len() {
            assert(trail[i] == q);
        }
    }
    if trail.contains(q) {
        let i = choose|i: int| 0 <= i < trail.len() && trail[i] == q;
        assert(next[i] == q);
    }
    if q == p {
        assert(next[trail.len() as int] == p);
    }
}

/// A walk holds cells of the rectangle only.
pub proof fn lemma_walk_in_grid(trail: Seq<(int, int)>, width: nat, height: nat, p: (int, int))
    requires
        is_walk(trail, width, height),
        trail.contains(p),
    ensures
        in_grid(p, width, height),
{
    reveal(is_walk);
    let i = choose|i: int| 0 <= i < trail.len() && trail[i] == p;
    assert(in_grid(trail[i], width, height));
}

/// The walk of no steps.
pub proof fn lemma_walk_empty(width: nat, height: nat)
    ensures
        is_walk(Seq::<(int, int)>::empty(), width, height),
{
    reveal(is_walk);
}

/// What a walk is, step by step.
pub proof fn lemma_walk_steps(trail: Seq<(int, int)>, width: nat, height: nat)
    requires
        is_walk(trail, width, height),
    ensures
        forall|i: int| 0 <= i < trail.len() ==> in_grid(#[trigger] trail[i], width, height),
        forall|i: int|
            0 <= i && i + 1 < trail.len() ==> adjacent(#[trigger] trail[i], trail[i + 1]),
        trail.len() > 0 ==> trail[0] == (0int, 0int),
        trail.no_duplicates(),
{
    reveal(is_walk);
}

} // verus!
