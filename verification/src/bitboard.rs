use vstd::prelude::*;

use crate::Position;
use crate::ascii::{
    ascii_text, drawn_cells, format_ascii_helper, lemma_ascii_marks, lemma_line_covers,
    lemma_line_len_bound, marked_cells, marked_upto, rows_of, step_cursor,
};
use vstd::string::StrSliceExecFns;
use bit_iter::BitIter;

verus! {

/// Value of bit `c` (0 = least significant) of a row.
pub open spec fn bit(x: u16, c: int) -> bool {
    0 <= c < 16 && (x >> (c as u16)) & 1u16 == 1u16
}

/// A cell `(row, col)` inside the 16 by 16 grid.
pub open spec fn in_grid(p: (int, int)) -> bool {
    0 <= p.0 < 16 && 0 <= p.1 < 16
}

/// All cells of the 16 by 16 grid.
pub open spec fn grid() -> Set<(int, int)> {
    Set::new(|p: (int, int)| in_grid(p))
}

/// One of the four orthogonal neighbours of `p` lies in `s`.
pub open spec fn touches(s: Set<(int, int)>, p: (int, int)) -> bool {
    ||| s.contains((p.0 - 1, p.1))
    ||| s.contains((p.0 + 1, p.1))
    ||| s.contains((p.0, p.1 - 1))
    ||| s.contains((p.0, p.1 + 1))
}

/// `s` grown by one step in the four directions, clipped to the grid.
pub open spec fn dilation(s: Set<(int, int)>) -> Set<(int, int)> {
    Set::new(|p: (int, int)| in_grid(p) && (s.contains(p) || touches(s, p)))
}

/// Cells of `mask` reachable from `seed` (restricted to `mask`) in at most `n`
/// orthogonal steps that never leave `mask`.
pub open spec fn reach(seed: Set<(int, int)>, mask: Set<(int, int)>, n: nat) -> Set<(int, int)>
    decreases n,
{
    if n == 0 {
        seed.intersect(mask)
    } else {
        let prev = reach(seed, mask, (n - 1) as nat);
        prev.union(Set::new(|p: (int, int)| mask.contains(p) && touches(prev, p)))
    }
}

/// Cells of `mask` that are 4-connected inside `mask` to some cell of `seed`
/// that lies in `mask`.
pub open spec fn flood(seed: Set<(int, int)>, mask: Set<(int, int)>) -> Set<(int, int)> {
    Set::new(|p: (int, int)| exists|n: nat| #[trigger] reach(seed, mask, n).contains(p))
}

/// The cells of `s` on row `r` in the columns below `c`, in increasing column order.
pub open spec fn row_cells(s: Set<(int, int)>, r: int, c: nat) -> Seq<(int, int)>
    decreases c,
{
    if c == 0 {
        Seq::empty()
    } else {
        let prev = row_cells(s, r, (c - 1) as nat);
        if s.contains((r, c - 1)) {
            prev.push((r, c - 1))
        } else {
            prev
        }
    }
}

/// The grid cells of `s` in the rows below `n`, in row-major order.
pub open spec fn rows_cells(s: Set<(int, int)>, n: nat) -> Seq<(int, int)>
    decreases n,
{
    if n == 0 {
        Seq::empty()
    } else {
        rows_cells(s, (n - 1) as nat) + row_cells(s, n - 1, 16)
    }
}

/// The grid cells of `s` in row-major order.
pub open spec fn cells(s: Set<(int, int)>) -> Seq<(int, int)> {
    rows_cells(s, 16)
}

/// A set is non-empty exactly when it has an element.
pub proof fn lemma_nonempty(s: Set<(int, int)>)
    ensures
        s != Set::<(int, int)>::empty() <==> exists|w: (int, int)| s.contains(w),
{
    if !(exists|w: (int, int)| s.contains(w)) {
        assert(s =~= Set::<(int, int)>::empty());
    }
}

/// `reach` grows with the number of steps.
pub proof fn lemma_reach_mono(seed: Set<(int, int)>, mask: Set<(int, int)>, n: nat, m: nat)
    requires
        n <= m,
    ensures
        reach(seed, mask, n).subset_of(reach(seed, mask, m)),
    decreases m - n,
{
    if n < m {
        lemma_reach_mono(seed, mask, n, (m - 1) as nat);
    }
}

/// What `reach` collects lies in the mask.
pub proof fn lemma_reach_in_mask(seed: Set<(int, int)>, mask: Set<(int, int)>, n: nat)
    ensures
        reach(seed, mask, n).subset_of(mask),
    decreases n,
{
    if n > 0 {
        lemma_reach_in_mask(seed, mask, (n - 1) as nat);
    }
}

/// A flood lies in its mask and holds the part of the seed that lies in the mask.
pub proof fn lemma_flood_bounds(seed: Set<(int, int)>, mask: Set<(int, int)>)
    ensures
        flood(seed, mask).subset_of(mask),
        seed.intersect(mask).subset_of(flood(seed, mask)),
{
    assert forall|p: (int, int)| flood(seed, mask).contains(p) implies mask.contains(p) by {
        let n = choose|n: nat| #[trigger] reach(seed, mask, n).contains(p);
        lemma_reach_in_mask(seed, mask, n);
    }
    assert forall|p: (int, int)| seed.intersect(mask).contains(p) implies flood(
        seed,
        mask,
    ).contains(p) by {
        assert(reach(seed, mask, 0).contains(p));
    }
}

/// A flood is closed under steps to neighbours inside the mask.
pub proof fn lemma_flood_closed(seed: Set<(int, int)>, mask: Set<(int, int)>, q: (int, int))
    requires
        mask.contains(q),
        touches(flood(seed, mask), q),
    ensures
        flood(seed, mask).contains(q),
{
    let f = flood(seed, mask);
    let p = if f.contains((q.0 - 1, q.1)) {
        (q.0 - 1, q.1)
    } else if f.contains((q.0 + 1, q.1)) {
        (q.0 + 1, q.1)
    } else if f.contains((q.0, q.1 - 1)) {
        (q.0, q.1 - 1)
    } else {
        (q.0, q.1 + 1)
    };
    let n = choose|n: nat| #[trigger] reach(seed, mask, n).contains(p);
    assert(touches(reach(seed, mask, n), q));
    assert(reach(seed, mask, n + 1).contains(q));
}

/// A flood lies inside every set that holds the seed's part in the mask and
/// is closed under steps to neighbours inside the mask.
pub proof fn lemma_flood_least(
    seed: Set<(int, int)>,
    mask: Set<(int, int)>,
    closed: Set<(int, int)>,
)
    requires
        seed.intersect(mask).subset_of(closed),
        forall|q: (int, int)| mask.contains(q) && touches(closed, q) ==> #[trigger] closed.contains(q),
    ensures
        flood(seed, mask).subset_of(closed),
{
    assert forall|p: (int, int)| flood(seed, mask).contains(p) implies closed.contains(p) by {
        let n = choose|n: nat| #[trigger] reach(seed, mask, n).contains(p);
        lemma_reach_least(seed, mask, closed, n);
    }
}

proof fn lemma_reach_least(
    seed: Set<(int, int)>,
    mask: Set<(int, int)>,
    closed: Set<(int, int)>,
    n: nat,
)
    requires
        seed.intersect(mask).subset_of(closed),
        forall|q: (int, int)| mask.contains(q) && touches(closed, q) ==> #[trigger] closed.contains(q),
    ensures
        reach(seed, mask, n).subset_of(closed),
    decreases n,
{
    if n > 0 {
        lemma_reach_least(seed, mask, closed, (n - 1) as nat);
        let prev = reach(seed, mask, (n - 1) as nat);
        assert forall|q: (int, int)| reach(seed, mask, n).contains(q) implies closed.contains(q) by {
            if !prev.contains(q) {
                assert(touches(prev, q));
                assert(touches(closed, q));
            }
        }
    }
}

/// Flooding from cells of a flood stays inside that flood.
pub proof fn lemma_flood_absorbs(
    seed: Set<(int, int)>,
    inner: Set<(int, int)>,
    mask: Set<(int, int)>,
)
    requires
        inner.intersect(mask).subset_of(flood(seed, mask)),
    ensures
        flood(inner, mask).subset_of(flood(seed, mask)),
{
    let f = flood(seed, mask);
    assert forall|q: (int, int)| mask.contains(q) && touches(f, q) implies #[trigger] f.contains(q) by {
        lemma_flood_closed(seed, mask, q);
    }
    lemma_flood_least(inner, mask, f);
}

/// A flood grows with its seed and with its mask.
pub proof fn lemma_flood_mono(
    seed: Set<(int, int)>,
    mask: Set<(int, int)>,
    seed2: Set<(int, int)>,
    mask2: Set<(int, int)>,
)
    requires
        seed.subset_of(seed2),
        mask.subset_of(mask2),
    ensures
        flood(seed, mask).subset_of(flood(seed2, mask2)),
{
    assert forall|p: (int, int)| flood(seed, mask).contains(p) implies flood(
        seed2,
        mask2,
    ).contains(p) by {
        let n = choose|n: nat| #[trigger] reach(seed, mask, n).contains(p);
        lemma_reach_mono_sets(seed, mask, seed2, mask2, n);
        assert(reach(seed2, mask2, n).contains(p));
    }
}

proof fn lemma_reach_mono_sets(
    seed: Set<(int, int)>,
    mask: Set<(int, int)>,
    seed2: Set<(int, int)>,
    mask2: Set<(int, int)>,
    n: nat,
)
    requires
        seed.subset_of(seed2),
        mask.subset_of(mask2),
    ensures
        reach(seed, mask, n).subset_of(reach(seed2, mask2, n)),
    decreases n,
{
    if n > 0 {
        lemma_reach_mono_sets(seed, mask, seed2, mask2, (n - 1) as nat);
    }
}

/// A flood that stays inside a second mask is also found by flooding that second
/// mask from any larger seed.
pub proof fn lemma_flood_within(
    seed: Set<(int, int)>,
    mask: Set<(int, int)>,
    seed2: Set<(int, int)>,
    mask2: Set<(int, int)>,
)
    requires
        seed.subset_of(seed2),
        flood(seed, mask).subset_of(mask2),
    ensures
        flood(seed, mask).subset_of(flood(seed2, mask2)),
{
    assert forall|p: (int, int)| flood(seed, mask).contains(p) implies flood(
        seed2,
        mask2,
    ).contains(p) by {
        let n = choose|n: nat| #[trigger] reach(seed, mask, n).contains(p);
        lemma_reach_within(seed, mask, seed2, mask2, n);
        assert(reach(seed2, mask2, n).contains(p));
    }
}

proof fn lemma_reach_within(
    seed: Set<(int, int)>,
    mask: Set<(int, int)>,
    seed2: Set<(int, int)>,
    mask2: Set<(int, int)>,
    n: nat,
)
    requires
        seed.subset_of(seed2),
        flood(seed, mask).subset_of(mask2),
    ensures
        reach(seed, mask, n).subset_of(reach(seed2, mask2, n)),
    decreases n,
{
    assert forall|p: (int, int)| reach(seed, mask, n).contains(p) implies mask2.contains(p) by {
        assert(flood(seed, mask).contains(p));
    }
    if n > 0 {
        lemma_reach_within(seed, mask, seed2, mask2, (n - 1) as nat);
        let prev = reach(seed, mask, (n - 1) as nat);
        let prev2 = reach(seed2, mask2, (n - 1) as nat);
        assert forall|p: (int, int)| reach(seed, mask, n).contains(p) implies reach(
            seed2,
            mask2,
            n,
        ).contains(p) by {
            if !prev.contains(p) {
                assert(touches(prev, p));
                assert(touches(prev2, p));
            }
        }
    }
}

/// Connection through a mask is symmetric.
pub proof fn lemma_flood_symmetric(p: (int, int), q: (int, int), mask: Set<(int, int)>)
    requires
        mask.contains(p),
        flood(set![p], mask).contains(q),
    ensures
        flood(set![q], mask).contains(p),
{
    let n = choose|n: nat| #[trigger] reach(set![p], mask, n).contains(q);
    lemma_reach_symmetric(p, mask, n);
}

proof fn lemma_reach_symmetric(p: (int, int), mask: Set<(int, int)>, n: nat)
    requires
        mask.contains(p),
    ensures
        forall|x: (int, int)| #[trigger]
            reach(set![p], mask, n).contains(x) ==> flood(set![x], mask).contains(p),
    decreases n,
{
    if n == 0 {
        assert forall|x: (int, int)| #[trigger] reach(set![p], mask, n).contains(x) implies flood(
            set![x],
            mask,
        ).contains(p) by {
            assert(x == p);
            assert(reach(set![p], mask, 0).contains(p));
        }
    } else {
        lemma_reach_symmetric(p, mask, (n - 1) as nat);
        let prev = reach(set![p], mask, (n - 1) as nat);
        assert forall|x: (int, int)| #[trigger] reach(set![p], mask, n).contains(x) implies flood(
            set![x],
            mask,
        ).contains(p) by {
            if !prev.contains(x) {
                assert(touches(prev, x));
                let y = if prev.contains((x.0 - 1, x.1)) {
                    (x.0 - 1, x.1)
                } else if prev.contains((x.0 + 1, x.1)) {
                    (x.0 + 1, x.1)
                } else if prev.contains((x.0, x.1 - 1)) {
                    (x.0, x.1 - 1)
                } else {
                    (x.0, x.1 + 1)
                };
                assert(prev.contains(y));
                assert(flood(set![y], mask).contains(p));
                lemma_reach_in_mask(set![p], mask, (n - 1) as nat);
                assert(mask.contains(y));
                // y is one step away from x
                let r0 = reach(set![x], mask, 0);
                assert(r0.contains(x));
                assert(touches(r0, y));
                assert(reach(set![x], mask, 1).contains(y));
                assert(flood(set![x], mask).contains(y));
                lemma_flood_absorbs(set![x], set![y], mask);
            }
        }
    }
}

/// `s` moved by `dr` rows and `dc` columns, clipped to the grid.
pub open spec fn translate(s: Set<(int, int)>, dr: int, dc: int) -> Set<(int, int)> {
    Set::new(|p: (int, int)| in_grid(p) && s.contains((p.0 - dr, p.1 - dc)))
}

/// Walking back along a line of mask cells from a cell of a flood stays in the flood.
proof fn lemma_walk(
    seed: Set<(int, int)>,
    mask: Set<(int, int)>,
    pt: spec_fn(int) -> (int, int),
    k: nat,
)
    requires
        forall|j: int| 0 <= j < k ==> #[trigger] mask.contains(pt(j)),
        forall|j: int| 0 <= j < k ==> #[trigger] touches(set![pt(j + 1)], pt(j)),
        flood(seed, mask).contains(pt(k as int)),
    ensures
        flood(seed, mask).contains(pt(0)),
    decreases k,
{
    if k > 0 {
        let q = pt(k - 1);
        assert(mask.contains(q));
        assert(touches(set![pt((k - 1) + 1)], pt(k - 1)));
        assert((k - 1) + 1 == k as int);
        assert(touches(set![pt(k as int)], q));
        assert(touches(flood(seed, mask), q));
        lemma_flood_closed(seed, mask, q);
        lemma_walk(seed, mask, pt, (k - 1) as nat);
    }
}

/// One doubling step of a directional fill.
/// `pt(p, j)` is the cell `j` steps from `p` against the direction of the fill.
proof fn lemma_fill_step(
    seed: Set<(int, int)>,
    mask: Set<(int, int)>,
    cur: Set<(int, int)>,
    m: Set<(int, int)>,
    next: Set<(int, int)>,
    mnext: Set<(int, int)>,
    k: nat,
    pt: spec_fn((int, int), int) -> (int, int),
)
    requires
        forall|p: (int, int), j: int| #[trigger] touches(set![pt(p, j + 1)], pt(p, j)),
        forall|p: (int, int), a: int, b: int| #[trigger] pt(pt(p, a), b) == pt(p, a + b),
        forall|p: (int, int)| #[trigger] pt(p, 0) == p,
        cur.subset_of(flood(seed, mask)),
        forall|p: (int, int), j: int|
            m.contains(p) && 0 <= j < k ==> #[trigger] mask.contains(pt(p, j)),
        forall|p: (int, int)|
            #[trigger] next.contains(p) ==> cur.contains(p) || (m.contains(p) && cur.contains(
                pt(p, k as int),
            )),
        forall|p: (int, int)|
            #[trigger] mnext.contains(p) ==> m.contains(p) && m.contains(pt(p, k as int)),
    ensures
        next.subset_of(flood(seed, mask)),
        forall|p: (int, int), j: int|
            mnext.contains(p) && 0 <= j < 2 * k ==> #[trigger] mask.contains(pt(p, j)),
{
    assert forall|p: (int, int)| next.contains(p) implies flood(seed, mask).contains(p) by {
        if !cur.contains(p) {
            let line = |j: int| pt(p, j);
            assert forall|j: int| 0 <= j < k implies #[trigger] mask.contains(line(j)) by {
                assert(mask.contains(pt(p, j)));
            }
            assert forall|j: int| 0 <= j < k implies #[trigger] touches(set![line(j + 1)], line(j)) by {
                assert(touches(set![pt(p, j + 1)], pt(p, j)));
            }
            assert(line(0) == p);
            lemma_walk(seed, mask, line, k);
        }
    }
    assert forall|p: (int, int), j: int| mnext.contains(p) && 0 <= j < 2 * k implies #[trigger] mask.contains(
        pt(p, j),
    ) by {
        if j < k {
            assert(mask.contains(pt(p, j)));
        } else {
            let q = pt(p, k as int);
            assert(m.contains(q));
            assert(mask.contains(pt(q, j - k)));
            assert(pt(q, j - k) == pt(p, k + (j - k)));
        }
    }
}

/// Counting the cells of a subset never gives more.
proof fn lemma_row_cells_mono(a: Set<(int, int)>, b: Set<(int, int)>, r: int, c: nat)
    requires
        a.subset_of(b),
    ensures
        row_cells(a, r, c).len() <= row_cells(b, r, c).len(),
        row_cells(b, r, c).len() <= c,
        (exists|x: int| 0 <= x < c && #[trigger] b.contains((r, x)) && !a.contains((r, x))) ==> row_cells(
            a,
            r,
            c,
        ).len() < row_cells(b, r, c).len(),
    decreases c,
{
    if c > 0 {
        lemma_row_cells_mono(a, b, r, (c - 1) as nat);
        if exists|x: int| 0 <= x < c && #[trigger] b.contains((r, x)) && !a.contains((r, x)) {
            let x = choose|x: int| 0 <= x < c && #[trigger] b.contains((r, x)) && !a.contains((r, x));
            if x < c - 1 {
                assert(exists|x: int|
                    0 <= x < c - 1 && #[trigger] b.contains((r, x)) && !a.contains((r, x)));
            }
        }
    }
}

proof fn lemma_rows_cells_mono(a: Set<(int, int)>, b: Set<(int, int)>, n: nat)
    requires
        a.subset_of(b),
    ensures
        rows_cells(a, n).len() <= rows_cells(b, n).len(),
        rows_cells(b, n).len() <= 16 * n,
        (exists|p: (int, int)| 0 <= p.0 < n && 0 <= p.1 < 16 && b.contains(p) && !a.contains(p))
            ==> rows_cells(a, n).len() < rows_cells(b, n).len(),
    decreases n,
{
    if n > 0 {
        lemma_rows_cells_mono(a, b, (n - 1) as nat);
        lemma_row_cells_mono(a, b, n - 1, 16);
        if exists|p: (int, int)| 0 <= p.0 < n && 0 <= p.1 < 16 && b.contains(p) && !a.contains(p) {
            let p = choose|p: (int, int)|
                0 <= p.0 < n && 0 <= p.1 < 16 && b.contains(p) && !a.contains(p);
            if p.0 == n - 1 {
                assert(exists|x: int|
                    0 <= x < 16 && #[trigger] b.contains((n - 1, x)) && !a.contains((n - 1, x)));
            } else {
                assert(exists|p: (int, int)|
                    0 <= p.0 < n - 1 && 0 <= p.1 < 16 && b.contains(p) && !a.contains(p));
            }
        }
    }
}

/// The number of grid cells grows strictly when a grid cell is added.
pub proof fn lemma_cells_len_mono(a: Set<(int, int)>, b: Set<(int, int)>)
    requires
        a.subset_of(b),
    ensures
        cells(a).len() <= cells(b).len(),
        cells(b).len() <= 256,
        (exists|p: (int, int)| in_grid(p) && b.contains(p) && !a.contains(p)) ==> cells(a).len()
            < cells(b).len(),
{
    lemma_rows_cells_mono(a, b, 16);
}

/// One doubling step of the fill that spreads `left`.
proof fn lemma_fill_step_left(
    seed: Set<(int, int)>,
    mask: Set<(int, int)>,
    cur: Set<(int, int)>,
    m: Set<(int, int)>,
    next: Set<(int, int)>,
    mnext: Set<(int, int)>,
    k: nat,
)
    requires
        cur.subset_of(flood(seed, mask)),
        forall|p: (int, int), j: int|
            m.contains(p) && 0 <= j < k ==> #[trigger] mask.contains(((p.0, p.1 + j))),
        next == cur.union(translate(cur, 0, -(k as int)).intersect(m)),
        mnext == m.intersect(translate(m, 0, -(k as int))),
    ensures
        next.subset_of(flood(seed, mask)),
        forall|p: (int, int), j: int|
            mnext.contains(p) && 0 <= j < 2 * k ==> #[trigger] mask.contains(((p.0, p.1 + j))),
{
    let pt = |p: (int, int), j: int| (p.0, p.1 + j);
    assert forall|p: (int, int), j: int| m.contains(p) && 0 <= j < k implies #[trigger] mask.contains(pt(p, j)) by {
        assert(mask.contains((p.0, p.1 + j)));
    }
    lemma_fill_step(seed, mask, cur, m, next, mnext, k, pt);
    assert forall|p: (int, int), j: int| mnext.contains(p) && 0 <= j < 2 * k implies #[trigger] mask.contains(((p.0, p.1 + j))) by {
        assert(mask.contains(pt(p, j)));
    }
}

/// One doubling step of the fill that spreads `right`.
proof fn lemma_fill_step_right(
    seed: Set<(int, int)>,
    mask: Set<(int, int)>,
    cur: Set<(int, int)>,
    m: Set<(int, int)>,
    next: Set<(int, int)>,
    mnext: Set<(int, int)>,
    k: nat,
)
    requires
        cur.subset_of(flood(seed, mask)),
        forall|p: (int, int), j: int|
            m.contains(p) && 0 <= j < k ==> #[trigger] mask.contains(((p.0, p.1 - j))),
        next == cur.union(translate(cur, 0, k as int).intersect(m)),
        mnext == m.intersect(translate(m, 0, k as int)),
    ensures
        next.subset_of(flood(seed, mask)),
        forall|p: (int, int), j: int|
            mnext.contains(p) && 0 <= j < 2 * k ==> #[trigger] mask.contains(((p.0, p.1 - j))),
{
    let pt = |p: (int, int), j: int| (p.0, p.1 - j);
    assert forall|p: (int, int), j: int| m.contains(p) && 0 <= j < k implies #[trigger] mask.contains(pt(p, j)) by {
        assert(mask.contains((p.0, p.1 - j)));
    }
    lemma_fill_step(seed, mask, cur, m, next, mnext, k, pt);
    assert forall|p: (int, int), j: int| mnext.contains(p) && 0 <= j < 2 * k implies #[trigger] mask.contains(((p.0, p.1 - j))) by {
        assert(mask.contains(pt(p, j)));
    }
}

/// One doubling step of the fill that spreads `up`.
proof fn lemma_fill_step_up(
    seed: Set<(int, int)>,
    mask: Set<(int, int)>,
    cur: Set<(int, int)>,
    m: Set<(int, int)>,
    next: Set<(int, int)>,
    mnext: Set<(int, int)>,
    k: nat,
)
    requires
        cur.subset_of(flood(seed, mask)),
        forall|p: (int, int), j: int|
            m.contains(p) && 0 <= j < k ==> #[trigger] mask.contains(((p.0 + j, p.1))),
        next == cur.union(translate(cur, -(k as int), 0).intersect(m)),
        mnext == m.intersect(translate(m, -(k as int), 0)),
    ensures
        next.subset_of(flood(seed, mask)),
        forall|p: (int, int), j: int|
            mnext.contains(p) && 0 <= j < 2 * k ==> #[trigger] mask.contains(((p.0 + j, p.1))),
{
    let pt = |p: (int, int), j: int| (p.0 + j, p.1);
    assert forall|p: (int, int), j: int| m.contains(p) && 0 <= j < k implies #[trigger] mask.contains(pt(p, j)) by {
        assert(mask.contains((p.0 + j, p.1)));
    }
    lemma_fill_step(seed, mask, cur, m, next, mnext, k, pt);
    assert forall|p: (int, int), j: int| mnext.contains(p) && 0 <= j < 2 * k implies #[trigger] mask.contains(((p.0 + j, p.1))) by {
        assert(mask.contains(pt(p, j)));
    }
}

/// One doubling step of the fill that spreads `down`.
proof fn lemma_fill_step_down(
    seed: Set<(int, int)>,
    mask: Set<(int, int)>,
    cur: Set<(int, int)>,
    m: Set<(int, int)>,
    next: Set<(int, int)>,
    mnext: Set<(int, int)>,
    k: nat,
)
    requires
        cur.subset_of(flood(seed, mask)),
        forall|p: (int, int), j: int|
            m.contains(p) && 0 <= j < k ==> #[trigger] mask.contains(((p.0 - j, p.1))),
        next == cur.union(translate(cur, k as int, 0).intersect(m)),
        mnext == m.intersect(translate(m, k as int, 0)),
    ensures
        next.subset_of(flood(seed, mask)),
        forall|p: (int, int), j: int|
            mnext.contains(p) && 0 <= j < 2 * k ==> #[trigger] mask.contains(((p.0 - j, p.1))),
{
    let pt = |p: (int, int), j: int| (p.0 - j, p.1);
    assert forall|p: (int, int), j: int| m.contains(p) && 0 <= j < k implies #[trigger] mask.contains(pt(p, j)) by {
        assert(mask.contains((p.0 - j, p.1)));
    }
    lemma_fill_step(seed, mask, cur, m, next, mnext, k, pt);
    assert forall|p: (int, int), j: int| mnext.contains(p) && 0 <= j < 2 * k implies #[trigger] mask.contains(((p.0 - j, p.1))) by {
        assert(mask.contains(pt(p, j)));
    }
}

/// One round of four directional fills grows the current set, and when it
/// adds nothing the set is closed under steps to neighbours inside the mask.
proof fn lemma_flood_step_facts(
    current: Set<(int, int)>,
    mask: Set<(int, int)>,
    left: Set<(int, int)>,
    right: Set<(int, int)>,
    next: Set<(int, int)>,
    up: Set<(int, int)>,
    down: Set<(int, int)>,
    next2: Set<(int, int)>,
)
    requires
        mask.subset_of(grid()),
        current.subset_of(left),
        translate(current, 0, -1).intersect(mask).subset_of(left),
        translate(current, 0, 1).intersect(mask).subset_of(right),
        next == left.union(right),
        next.subset_of(up),
        translate(next, -1, 0).intersect(mask).subset_of(up),
        translate(next, 1, 0).intersect(mask).subset_of(down),
        next2 == up.union(down),
    ensures
        current.subset_of(next2),
        current == next2 ==> forall|q: (int, int)|
            mask.contains(q) && touches(current, q) ==> #[trigger] current.contains(q),
{
    if current == next2 {
        assert forall|q: (int, int)| mask.contains(q) && touches(current, q) implies #[trigger] current.contains(
            q,
        ) by {
            assert(in_grid(q));
            if current.contains((q.0, q.1 + 1)) {
                assert(translate(current, 0, -1).contains(q));
            } else if current.contains((q.0, q.1 - 1)) {
                assert(translate(current, 0, 1).contains(q));
            } else if current.contains((q.0 + 1, q.1)) {
                assert(translate(next, -1, 0).contains(q));
            } else {
                assert(translate(next, 1, 0).contains(q));
            }
        }
    }
}

/// Row-major index of a cell.
pub open spec fn cell_key(p: (int, int)) -> int {
    16 * p.0 + p.1
}

/// A sequence of cells in strictly increasing row-major order.
pub open spec fn sorted_cells(q: Seq<(int, int)>) -> bool {
    forall|i: int, j: int| 0 <= i < j < q.len() ==> cell_key(#[trigger] q[i]) < cell_key(#[trigger] q[j])
}

proof fn lemma_row_cells_props(s: Set<(int, int)>, r: int, c: nat)
    requires
        c <= 16,
    ensures
        sorted_cells(row_cells(s, r, c)),
        forall|i: int|
            0 <= i < row_cells(s, r, c).len() ==> {
                let p = #[trigger] row_cells(s, r, c)[i];
                p.0 == r && 0 <= p.1 < c && s.contains(p)
            },
        forall|x: int|
            0 <= x < c && s.contains((r, x)) ==> #[trigger] row_cells(s, r, c).contains((r, x)),
    decreases c,
{
    if c > 0 {
        lemma_row_cells_props(s, r, (c - 1) as nat);
        let prev = row_cells(s, r, (c - 1) as nat);
        let cur = row_cells(s, r, c);
        assert forall|x: int| 0 <= x < c && s.contains((r, x)) implies #[trigger] cur.contains(
            (r, x),
        ) by {
            if x < c - 1 {
                assert(prev.contains((r, x)));
                let i = choose|i: int| 0 <= i < prev.len() && prev[i] == (r, x);
                assert(cur[i] == (r, x));
            } else {
                assert(cur[cur.len() - 1] == (r, x));
            }
        }
    }
}

proof fn lemma_rows_cells_props(s: Set<(int, int)>, n: nat)
    requires
        n <= 16,
    ensures
        sorted_cells(rows_cells(s, n)),
        forall|i: int|
            0 <= i < rows_cells(s, n).len() ==> {
                let p = #[trigger] rows_cells(s, n)[i];
                0 <= p.0 < n && 0 <= p.1 < 16 && s.contains(p)
            },
        forall|p: (int, int)|
            0 <= p.0 < n && 0 <= p.1 < 16 && s.contains(p) ==> #[trigger] rows_cells(
                s,
                n,
            ).contains(p),
    decreases n,
{
    if n > 0 {
        lemma_rows_cells_props(s, (n - 1) as nat);
        lemma_row_cells_props(s, n - 1, 16);
        let a = rows_cells(s, (n - 1) as nat);
        let b = row_cells(s, n - 1, 16);
        let q = rows_cells(s, n);
        assert(q == a + b);
        assert forall|i: int, j: int| 0 <= i < j < q.len() implies cell_key(#[trigger] q[i])
            < cell_key(#[trigger] q[j]) by {
            if j < a.len() {
                assert(q[i] == a[i] && q[j] == a[j]);
            } else if i >= a.len() {
                assert(q[i] == b[i - a.len()] && q[j] == b[j - a.len()]);
            } else {
                assert(q[i] == a[i] && q[j] == b[j - a.len()]);
            }
        }
        assert forall|i: int| 0 <= i < q.len() implies {
            let p = #[trigger] q[i];
            0 <= p.0 < n && 0 <= p.1 < 16 && s.contains(p)
        } by {
            if i < a.len() {
                assert(q[i] == a[i]);
            } else {
                assert(q[i] == b[i - a.len()]);
            }
        }
        assert forall|p: (int, int)| 0 <= p.0 < n && 0 <= p.1 < 16 && s.contains(p) implies #[trigger] q.contains(
            p,
        ) by {
            if p.0 < n - 1 {
                assert(a.contains(p));
                let i = choose|i: int| 0 <= i < a.len() && a[i] == p;
                assert(q[i] == p);
            } else {
                assert(b.contains((p.0, p.1)));
                let i = choose|i: int| 0 <= i < b.len() && b[i] == p;
                assert(q[a.len() + i] == p);
            }
        }
    }
}

/// The cells of `s` in row-major order: exactly the grid cells of `s`, each once.
pub proof fn lemma_cells_props(s: Set<(int, int)>)
    ensures
        sorted_cells(cells(s)),
        cells(s).no_duplicates(),
        forall|i: int|
            0 <= i < cells(s).len() ==> in_grid(#[trigger] cells(s)[i]) && s.contains(cells(s)[i]),
        forall|p: (int, int)| in_grid(p) && s.contains(p) ==> #[trigger] cells(s).contains(p),
        cells(s).to_set() == s.intersect(grid()),
        s.intersect(grid()).finite(),
        cells(s).len() == s.intersect(grid()).len(),
{
    lemma_rows_cells_props(s, 16);
    let q = cells(s);
    assert forall|i: int, j: int| 0 <= i < q.len() && 0 <= j < q.len() && i != j implies q[i]
        != q[j] by {
        if i < j {
            assert(cell_key(q[i]) < cell_key(q[j]));
        } else {
            assert(cell_key(q[j]) < cell_key(q[i]));
        }
    }
    assert(q.to_set() =~= s.intersect(grid())) by {
        assert forall|p: (int, int)| q.to_set().contains(p) <==> s.intersect(grid()).contains(p) by {
            if q.to_set().contains(p) {
                let i = choose|i: int| 0 <= i < q.len() && q[i] == p;
                assert(q[i] == p);
            }
        }
    }
    q.unique_seq_to_set();
    vstd::seq_lib::seq_to_set_is_finite(q);
}

/// The columns below `c` whose bit is set in row `x`, in increasing order.
pub open spec fn set_columns(x: u16, c: nat) -> Seq<int>
    decreases c,
{
    if c == 0 {
        Seq::empty()
    } else {
        let prev = set_columns(x, (c - 1) as nat);
        if bit(x, c - 1) {
            prev.push(c - 1)
        } else {
            prev
        }
    }
}

/// `bit_iter::BitIter::from(row)` collected into a vector: the positions of the
/// set bits of `row`, in ascending order.
#[verifier::external_body]
fn row_set_columns(row: u16) -> (r: Vec<usize>)
    ensures
        r@.len() == set_columns(row, 16).len(),
        forall|i: int| 0 <= i < r@.len() ==> r@[i] as int == #[trigger] set_columns(row, 16)[i],
{
    BitIter::from(row).collect()
}

spec fn rows_view(rows: [u16; 16]) -> Set<(int, int)> {
    Set::new(|p: (int, int)| in_grid(p) && bit(rows[p.0], p.1))
}

/// Bitboard for representing positions on a board of at most 16 by 16 cells.
/// Row `r` is held in `rows[r]`; column `c` is bit `c` of that row.
#[derive(Copy, Clone, Debug, Eq)]
pub struct Bitboard16 {
    rows: [u16; 16],
}

impl View for Bitboard16 {
    type V = Set<(int, int)>;

    closed spec fn view(&self) -> Set<(int, int)> {
        rows_view(self.rows)
    }
}

// ---------------------------------------------------------------------------
// Facts about single bits of a row.
// ---------------------------------------------------------------------------

proof fn lemma_bit_or(x: u16, y: u16, c: u16)
    by (bit_vector)
    requires
        c < 16,
    ensures
        ((x | y) >> c) & 1u16 == 1u16 <==> ((x >> c) & 1u16 == 1u16 || (y >> c) & 1u16 == 1u16),
{
}

proof fn lemma_bit_and(x: u16, y: u16, c: u16)
    by (bit_vector)
    requires
        c < 16,
    ensures
        ((x & y) >> c) & 1u16 == 1u16 <==> ((x >> c) & 1u16 == 1u16 && (y >> c) & 1u16 == 1u16),
{
}

proof fn lemma_bit_not(x: u16, c: u16)
    by (bit_vector)
    requires
        c < 16,
    ensures
        ((!x) >> c) & 1u16 == 1u16 <==> !((x >> c) & 1u16 == 1u16),
{
}

proof fn lemma_bit_shr(x: u16, n: u16, c: u16)
    by (bit_vector)
    requires
        c < 16,
        n < 16,
    ensures
        ((x >> n) >> c) & 1u16 == 1u16 <==> (c + n < 16 && (x >> ((c + n) as u16)) & 1u16
            == 1u16),
{
}

proof fn lemma_bit_shl(x: u16, n: u16, c: u16)
    by (bit_vector)
    requires
        c < 16,
        n < 16,
    ensures
        ((x << n) >> c) & 1u16 == 1u16 <==> (c >= n && (x >> ((c - n) as u16)) & 1u16 == 1u16),
{
}

proof fn lemma_bit_single(k: u16, c: u16)
    by (bit_vector)
    requires
        c < 16,
        k < 16,
    ensures
        ((1u16 << k) >> c) & 1u16 == 1u16 <==> c == k,
{
}

proof fn lemma_bit_low_mask(n: u16, c: u16)
    by (bit_vector)
    requires
        c < 16,
        n < 16,
    ensures
        ((((1u16 << n) - 1u16) as u16) >> c) & 1u16 == 1u16 <==> c < n,
        (1u16 << n) >= 1u16,
{
}

proof fn lemma_bit_constants(c: u16)
    by (bit_vector)
    requires
        c < 16,
    ensures
        (0xffffu16 >> c) & 1u16 == 1u16,
        !((0u16 >> c) & 1u16 == 1u16),
{
}

proof fn lemma_bits_determine_row(x: u16, y: u16)
    by (bit_vector)
    requires
        (x >> 0u16) & 1u16 == (y >> 0u16) & 1u16,
        (x >> 1u16) & 1u16 == (y >> 1u16) & 1u16,
        (x >> 2u16) & 1u16 == (y >> 2u16) & 1u16,
        (x >> 3u16) & 1u16 == (y >> 3u16) & 1u16,
        (x >> 4u16) & 1u16 == (y >> 4u16) & 1u16,
        (x >> 5u16) & 1u16 == (y >> 5u16) & 1u16,
        (x >> 6u16) & 1u16 == (y >> 6u16) & 1u16,
        (x >> 7u16) & 1u16 == (y >> 7u16) & 1u16,
        (x >> 8u16) & 1u16 == (y >> 8u16) & 1u16,
        (x >> 9u16) & 1u16 == (y >> 9u16) & 1u16,
        (x >> 10u16) & 1u16 == (y >> 10u16) & 1u16,
        (x >> 11u16) & 1u16 == (y >> 11u16) & 1u16,
        (x >> 12u16) & 1u16 == (y >> 12u16) & 1u16,
        (x >> 13u16) & 1u16 == (y >> 13u16) & 1u16,
        (x >> 14u16) & 1u16 == (y >> 14u16) & 1u16,
        (x >> 15u16) & 1u16 == (y >> 15u16) & 1u16,
    ensures
        x == y,
{
}

proof fn lemma_bit_is_zero_or_one(x: u16, c: u16)
    by (bit_vector)
    ensures
        (x >> c) & 1u16 == 0u16 || (x >> c) & 1u16 == 1u16,
{
}

/// Two rows with the same bits are equal.
proof fn lemma_row_ext(x: u16, y: u16)
    requires
        forall|c: int| 0 <= c < 16 ==> bit(x, c) == bit(y, c),
    ensures
        x == y,
{
    assert forall|c: u16| c < 16 implies (x >> c) & 1u16 == (y >> c) & 1u16 by {
        assert(bit(x, c as int) == bit(y, c as int));
        lemma_bit_is_zero_or_one(x, c);
        lemma_bit_is_zero_or_one(y, c);
    }
    assert((x >> 0u16) & 1u16 == (y >> 0u16) & 1u16);
    assert((x >> 1u16) & 1u16 == (y >> 1u16) & 1u16);
    assert((x >> 2u16) & 1u16 == (y >> 2u16) & 1u16);
    assert((x >> 3u16) & 1u16 == (y >> 3u16) & 1u16);
    assert((x >> 4u16) & 1u16 == (y >> 4u16) & 1u16);
    assert((x >> 5u16) & 1u16 == (y >> 5u16) & 1u16);
    assert((x >> 6u16) & 1u16 == (y >> 6u16) & 1u16);
    assert((x >> 7u16) & 1u16 == (y >> 7u16) & 1u16);
    assert((x >> 8u16) & 1u16 == (y >> 8u16) & 1u16);
    assert((x >> 9u16) & 1u16 == (y >> 9u16) & 1u16);
    assert((x >> 10u16) & 1u16 == (y >> 10u16) & 1u16);
    assert((x >> 11u16) & 1u16 == (y >> 11u16) & 1u16);
    assert((x >> 12u16) & 1u16 == (y >> 12u16) & 1u16);
    assert((x >> 13u16) & 1u16 == (y >> 13u16) & 1u16);
    assert((x >> 14u16) & 1u16 == (y >> 14u16) & 1u16);
    assert((x >> 15u16) & 1u16 == (y >> 15u16) & 1u16);
    lemma_bits_determine_row(x, y);
}

impl Bitboard16 {
    /// The view is a set of grid cells.
    pub proof fn lemma_view_in_grid(self)
        ensures
            self@.subset_of(grid()),
            forall|p: (int, int)| #[trigger] self@.contains(p) ==> in_grid(p),
    {
    }

    /// Bitboards with the same cells are the same bitboard.
    pub proof fn lemma_view_ext(self, other: Bitboard16)
        requires
            self@ == other@,
        ensures
            self == other,
    {
        assert forall|r: int| 0 <= r < 16 implies self.rows[r] == other.rows[r] by {
            assert forall|c: int| 0 <= c < 16 implies bit(self.rows[r], c) == bit(
                other.rows[r],
                c,
            ) by {
                assert(self@.contains((r, c)) == other@.contains((r, c)));
                assert(self@.contains((r, c)) == bit(self.rows[r], c));
                assert(other@.contains((r, c)) == bit(other.rows[r], c));
            }
            lemma_row_ext(self.rows[r], other.rows[r]);
        }
        assert(self.rows@ =~= other.rows@);
        assert(self.rows == other.rows);
    }

    /// Creates a bitboard with no positions set.
    pub fn new() -> (bb: Bitboard16)
        ensures
            bb@ == Set::<(int, int)>::empty(),
    {
        let bb = Bitboard16 { rows: [0u16; 16] };
        assert(bb@ =~= Set::<(int, int)>::empty()) by {
            assert forall|p: (int, int)| !bb@.contains(p) by {
                if in_grid(p) {
                    lemma_bit_constants(p.1 as u16);
                }
            }
        }
        bb
    }
}


impl Bitboard16 {
    /// The bitboard whose cells are the grid cells of `s`.
    pub closed spec fn from_cells(s: Set<(int, int)>) -> Bitboard16 {
        choose|b: Bitboard16| b@ == s.intersect(grid())
    }

    /// A bitboard is the bitboard of its own cells.
    pub proof fn lemma_from_cells(self)
        ensures
            Bitboard16::from_cells(self@) == self,
    {
        assert(self@.intersect(grid()) =~= self@);
        let b = Bitboard16::from_cells(self@);
        assert(b@ == self@.intersect(grid()));
        b.lemma_view_ext(self);
    }

    /// Creates a bitboard with a single position set.
    /// Panics on a position outside the 16 by 16 grid.
    pub fn single(pos: Position) -> (bb: Bitboard16)
        requires
            pos.row < 16,
            pos.col < 16,
        ensures
            bb@ == set![(pos.row as int, pos.col as int)],
    {
        let mut bb = Self::new();
        bb.set(pos, true);
        assert(bb@ =~= set![(pos.row as int, pos.col as int)]);
        bb
    }

    /// Creates a mask where the first `board_size` rows and columns are set, rest is zero.
    /// Generates full 16x16 masks for out of bounds `board_size`.
    pub fn board_mask(board_size: usize) -> (bb: Bitboard16)
        ensures
            bb@ == Set::new(
                |p: (int, int)| in_grid(p) && p.0 < board_size && p.1 < board_size,
            ),
    {
        let row_bits: u16 = if board_size >= 16 {
            0xffffu16
        } else {
            proof {
                lemma_bit_low_mask(board_size as u16, 0);
            }
            ((1u16 << board_size as u16) - 1) as u16
        };
        let mut rows = [0u16; 16];
        let mut i: usize = 0;
        while i < 16
            invariant
                i <= 16,
                forall|j: int| 0 <= j < i ==> rows[j] == (if j < board_size { row_bits } else { 0u16 }),
                forall|j: int| i <= j < 16 ==> rows[j] == 0u16,
            decreases 16 - i,
        {
            if i < board_size {
                rows[i] = row_bits;
            }
            i += 1;
        }
        let bb = Bitboard16 { rows };
        assert(bb@ =~= Set::new(
            |p: (int, int)| in_grid(p) && p.0 < board_size && p.1 < board_size,
        )) by {
            assert forall|p: (int, int)| in_grid(p) implies bit(bb.rows[p.0], p.1) == (p.0
                < board_size && p.1 < board_size) by {
                lemma_bit_constants(p.1 as u16);
                if board_size < 16 {
                    lemma_bit_low_mask(board_size as u16, p.1 as u16);
                }
            }
        }
        bb
    }

    /// Returns a value of a single bit.
    /// Panics on out of range index.
    pub fn get(&self, pos: Position) -> (r: bool)
        requires
            pos.row < 16,
            pos.col < 16,
        ensures
            r == self@.contains((pos.row as int, pos.col as int)),
    {
        let x = self.rows[pos.row];
        proof {
            lemma_bit_is_zero_or_one(x, pos.col as u16);
        }
        (x >> pos.col as u16) & 1 != 0
    }

    /// Sets a value of a single bit.
    /// Panics on out of range index.
    pub fn set(&mut self, pos: Position, value: bool)
        requires
            pos.row < 16,
            pos.col < 16,
        ensures
            value ==> final(self)@ == old(self)@.insert((pos.row as int, pos.col as int)),
            !value ==> final(self)@ == old(self)@.remove((pos.row as int, pos.col as int)),
    {
        let ghost before = *self;
        let r = pos.row;
        let c = pos.col as u16;
        let x = self.rows[r];
        let y = if value {
            x | (1u16 << c)
        } else {
            x & !(1u16 << c)
        };
        self.rows[r] = y;
        proof {
            let target = (pos.row as int, pos.col as int);
            let expected = if value {
                before@.insert(target)
            } else {
                before@.remove(target)
            };
            assert forall|p: (int, int)| #[trigger] self@.contains(p) == expected.contains(p) by {
                if in_grid(p) {
                    if p.0 == r {
                        lemma_bit_or(x, 1u16 << c, p.1 as u16);
                        lemma_bit_and(x, !(1u16 << c), p.1 as u16);
                        lemma_bit_not(1u16 << c, p.1 as u16);
                        lemma_bit_single(c, p.1 as u16);
                    }
                }
            }
            assert(self@ =~= expected);
        }
    }

    /// Returns true if all positions are unset.
    pub fn is_empty(&self) -> (r: bool)
        ensures
            r == (self@ == Set::<(int, int)>::empty()),
    {
        let mut i: usize = 0;
        while i < 16
            invariant
                i <= 16,
                forall|j: int| 0 <= j < i ==> self.rows[j] == 0u16,
            decreases 16 - i,
        {
            if self.rows[i] != 0 {
                proof {
                    let x = self.rows[i as int];
                    if forall|c: int| 0 <= c < 16 ==> !bit(x, c) {
                        assert forall|c: int| 0 <= c < 16 implies bit(x, c) == bit(0u16, c) by {
                            lemma_bit_constants(c as u16);
                        }
                        lemma_row_ext(x, 0u16);
                    }
                    let c = choose|c: int| 0 <= c < 16 && bit(x, c);
                    assert(self@.contains((i as int, c)));
                }
                return false;
            }
            i += 1;
        }
        assert(self@ =~= Set::<(int, int)>::empty()) by {
            assert forall|p: (int, int)| !self@.contains(p) by {
                if in_grid(p) {
                    lemma_bit_constants(p.1 as u16);
                }
            }
        }
        true
    }

    /// Returns true if both bitboards hold the same positions.
    pub fn same_as(&self, other: &Bitboard16) -> (r: bool)
        ensures
            r == (self@ == other@),
    {
        self.same_cells(other)
    }

    fn same_cells(&self, other: &Bitboard16) -> (r: bool)
        ensures
            r == (self@ == other@),
    {
        let mut i: usize = 0;
        while i < 16
            invariant
                i <= 16,
                forall|j: int| 0 <= j < i ==> self.rows[j] == other.rows[j],
            decreases 16 - i,
        {
            if self.rows[i] != other.rows[i] {
                proof {
                    if self@ == other@ {
                        self.lemma_view_ext(*other);
                    }
                }
                return false;
            }
            i += 1;
        }
        assert(self@ =~= other@);
        true
    }

    /// The positions set in `self` or in `other`.
    pub fn union(&self, other: &Bitboard16) -> (r: Bitboard16)
        ensures
            r@ == self@.union(other@),
    {
        let mut rows = [0u16; 16];
        let mut i: usize = 0;
        while i < 16
            invariant
                i <= 16,
                forall|j: int| 0 <= j < i ==> rows[j] == self.rows[j] | other.rows[j],
            decreases 16 - i,
        {
            rows[i] = self.rows[i] | other.rows[i];
            i += 1;
        }
        let r = Bitboard16 { rows };
        assert(r@ =~= self@.union(other@)) by {
            assert forall|p: (int, int)| in_grid(p) implies bit(r.rows[p.0], p.1) == (bit(
                self.rows[p.0],
                p.1,
            ) || bit(other.rows[p.0], p.1)) by {
                lemma_bit_or(self.rows[p.0], other.rows[p.0], p.1 as u16);
            }
        }
        r
    }

    /// The positions set in both `self` and `other`.
    pub fn intersection(&self, other: &Bitboard16) -> (r: Bitboard16)
        ensures
            r@ == self@.intersect(other@),
    {
        let mut rows = [0u16; 16];
        let mut i: usize = 0;
        while i < 16
            invariant
                i <= 16,
                forall|j: int| 0 <= j < i ==> rows[j] == self.rows[j] & other.rows[j],
            decreases 16 - i,
        {
            rows[i] = self.rows[i] & other.rows[i];
            i += 1;
        }
        let r = Bitboard16 { rows };
        assert(r@ =~= self@.intersect(other@)) by {
            assert forall|p: (int, int)| in_grid(p) implies bit(r.rows[p.0], p.1) == (bit(
                self.rows[p.0],
                p.1,
            ) && bit(other.rows[p.0], p.1)) by {
                lemma_bit_and(self.rows[p.0], other.rows[p.0], p.1 as u16);
            }
        }
        r
    }

    /// The grid positions not set in `self`.
    pub fn complement(&self) -> (r: Bitboard16)
        ensures
            r@ == grid().difference(self@),
    {
        let mut rows = [0u16; 16];
        let mut i: usize = 0;
        while i < 16
            invariant
                i <= 16,
                forall|j: int| 0 <= j < i ==> rows[j] == !self.rows[j],
            decreases 16 - i,
        {
            rows[i] = !self.rows[i];
            i += 1;
        }
        let r = Bitboard16 { rows };
        assert(r@ =~= grid().difference(self@)) by {
            assert forall|p: (int, int)| in_grid(p) implies bit(r.rows[p.0], p.1) == !bit(
                self.rows[p.0],
                p.1,
            ) by {
                lemma_bit_not(self.rows[p.0], p.1 as u16);
            }
        }
        r
    }
}

impl vstd::std_specs::cmp::PartialEqSpecImpl for Bitboard16 {
    open spec fn obeys_eq_spec() -> bool {
        true
    }

    open spec fn eq_spec(&self, other: &Bitboard16) -> bool {
        self@ == other@
    }
}

impl PartialEq for Bitboard16 {
    fn eq(&self, other: &Bitboard16) -> (r: bool) {
        self.same_cells(other)
    }
}

impl Default for Bitboard16 {
    fn default() -> (r: Bitboard16)
        ensures
            r@ == Set::<(int, int)>::empty(),
    {
        Self::new()
    }
}


/// Shifting
impl Bitboard16 {
    /// Shifts the content of the bitboard to the left (decreasing column indices of set bits).
    /// Shifting by 16 or more columns leaves nothing.
    pub fn shift_left(&self, n: usize) -> (r: Bitboard16)
        ensures
            r@ == translate(self@, 0, -n),
    {
        if n >= 16 {
            proof {
                self.lemma_view_in_grid();
            }
            let r = Self::new();
            assert(r@ =~= translate(self@, 0, -n));
            return r;
        }
        let mut rows = [0u16; 16];
        let mut i: usize = 0;
        while i < 16
            invariant
                i <= 16,
                n < 16,
                forall|j: int| 0 <= j < i ==> rows[j] == self.rows[j] >> (n as u16),
            decreases 16 - i,
        {
            rows[i] = self.rows[i] >> n as u16;
            i += 1;
        }
        let r = Bitboard16 { rows };
        assert(r@ =~= translate(self@, 0, -n)) by {
            assert forall|p: (int, int)| in_grid(p) implies bit(r.rows[p.0], p.1) == self@.contains(
                (p.0, p.1 + n),
            ) by {
                lemma_bit_shr(self.rows[p.0], n as u16, p.1 as u16);
            }
        }
        r
    }

    /// Shifts the content of the bitboard to the right (increasing column indices of set bits).
    /// Shifting by 16 or more columns leaves nothing.
    pub fn shift_right(&self, n: usize) -> (r: Bitboard16)
        ensures
            r@ == translate(self@, 0, n as int),
    {
        if n >= 16 {
            proof {
                self.lemma_view_in_grid();
            }
            let r = Self::new();
            assert(r@ =~= translate(self@, 0, n as int));
            return r;
        }
        let mut rows = [0u16; 16];
        let mut i: usize = 0;
        while i < 16
            invariant
                i <= 16,
                n < 16,
                forall|j: int| 0 <= j < i ==> rows[j] == self.rows[j] << (n as u16),
            decreases 16 - i,
        {
            rows[i] = self.rows[i] << n as u16;
            i += 1;
        }
        let r = Bitboard16 { rows };
        assert(r@ =~= translate(self@, 0, n as int)) by {
            assert forall|p: (int, int)| in_grid(p) implies bit(r.rows[p.0], p.1) == self@.contains(
                (p.0, p.1 - n),
            ) by {
                lemma_bit_shl(self.rows[p.0], n as u16, p.1 as u16);
            }
        }
        r
    }

    /// Shifts the content of the bitboard up (decreasing row indices of set bits).
    pub fn shift_up(&self, n: usize) -> (r: Bitboard16)
        requires
            n < 16,
        ensures
            r@ == translate(self@, -n, 0),
    {
        let mut rows = [0u16; 16];
        let mut i: usize = 0;
        while i < 16
            invariant
                i <= 16,
                n < 16,
                forall|j: int|
                    0 <= j < i ==> rows[j] == (if j + n < 16 { self.rows[j + n] } else { 0u16 }),
            decreases 16 - i,
        {
            if i < 16 - n {
                rows[i] = self.rows[i + n];
            } else {
                rows[i] = 0;
            }
            i += 1;
        }
        let r = Bitboard16 { rows };
        assert(r@ =~= translate(self@, -n, 0)) by {
            assert forall|p: (int, int)| in_grid(p) implies bit(r.rows[p.0], p.1) == self@.contains(
                (p.0 + n, p.1),
            ) by {
                lemma_bit_constants(p.1 as u16);
            }
        }
        r
    }

    /// Shifts the content of the bitboard down (increasing row indices of set bits).
    pub fn shift_down(&self, n: usize) -> (r: Bitboard16)
        requires
            n < 16,
        ensures
            r@ == translate(self@, n as int, 0),
    {
        let mut rows = [0u16; 16];
        let mut i: usize = 0;
        while i < 16
            invariant
                i <= 16,
                n < 16,
                forall|j: int| 0 <= j < i ==> rows[j] == (if j >= n { self.rows[j - n] } else { 0u16 }),
            decreases 16 - i,
        {
            if i >= n {
                rows[i] = self.rows[i - n];
            } else {
                rows[i] = 0;
            }
            i += 1;
        }
        let r = Bitboard16 { rows };
        assert(r@ =~= translate(self@, n as int, 0)) by {
            assert forall|p: (int, int)| in_grid(p) implies bit(r.rows[p.0], p.1) == self@.contains(
                (p.0 - n, p.1),
            ) by {
                lemma_bit_constants(p.1 as u16);
            }
        }
        r
    }
}

/// Dilation and flood fill
impl Bitboard16 {
    /// Runs a segment of flood filling, expanding only left.
    fn fill_left(&self, mask: &Bitboard16) -> (r: Bitboard16)
        requires
            self@.subset_of(mask@),
        ensures
            r@.subset_of(flood(self@, mask@)),
            self@.subset_of(r@),
            translate(self@, 0, -1).intersect(mask@).subset_of(r@),
    {
        let mut current = *self;
        let mut m = *mask;
        proof {
            lemma_flood_bounds(self@, mask@);
            assert(self@.intersect(mask@) =~= self@);
        }
        let ghost cur_before = current@;
        let ghost m_before = m@;
        current = current.union(&current.shift_left(1).intersection(&m));
        m = m.intersection(&m.shift_left(1));
        proof {
            lemma_fill_step_left(self@, mask@, cur_before, m_before, current@, m@, 1);
        }
        assert(translate(self@, 0, -1).intersect(mask@).subset_of(current@));
        let ghost cur_before = current@;
        let ghost m_before = m@;
        current = current.union(&current.shift_left(2).intersection(&m));
        m = m.intersection(&m.shift_left(2));
        proof {
            lemma_fill_step_left(self@, mask@, cur_before, m_before, current@, m@, 2);
        }
        let ghost cur_before = current@;
        let ghost m_before = m@;
        current = current.union(&current.shift_left(4).intersection(&m));
        m = m.intersection(&m.shift_left(4));
        proof {
            lemma_fill_step_left(self@, mask@, cur_before, m_before, current@, m@, 4);
        }
        let ghost cur_before = current@;
        let ghost m_before = m@;
        current = current.union(&current.shift_left(8).intersection(&m));
        proof {
            lemma_fill_step_left(self@, mask@, cur_before, m_before, current@, m_before.intersect(translate(m_before, 0, -(8))), 8);
        }
        current
    }

    /// Runs a segment of flood filling, expanding only right.
    fn fill_right(&self, mask: &Bitboard16) -> (r: Bitboard16)
        requires
            self@.subset_of(mask@),
        ensures
            r@.subset_of(flood(self@, mask@)),
            self@.subset_of(r@),
            translate(self@, 0, 1).intersect(mask@).subset_of(r@),
    {
        let mut current = *self;
        let mut m = *mask;
        proof {
            lemma_flood_bounds(self@, mask@);
            assert(self@.intersect(mask@) =~= self@);
        }
        let ghost cur_before = current@;
        let ghost m_before = m@;
        current = current.union(&current.shift_right(1).intersection(&m));
        m = m.intersection(&m.shift_right(1));
        proof {
            lemma_fill_step_right(self@, mask@, cur_before, m_before, current@, m@, 1);
        }
        assert(translate(self@, 0, 1).intersect(mask@).subset_of(current@));
        let ghost cur_before = current@;
        let ghost m_before = m@;
        current = current.union(&current.shift_right(2).intersection(&m));
        m = m.intersection(&m.shift_right(2));
        proof {
            lemma_fill_step_right(self@, mask@, cur_before, m_before, current@, m@, 2);
        }
        let ghost cur_before = current@;
        let ghost m_before = m@;
        current = current.union(&current.shift_right(4).intersection(&m));
        m = m.intersection(&m.shift_right(4));
        proof {
            lemma_fill_step_right(self@, mask@, cur_before, m_before, current@, m@, 4);
        }
        let ghost cur_before = current@;
        let ghost m_before = m@;
        current = current.union(&current.shift_right(8).intersection(&m));
        proof {
            lemma_fill_step_right(self@, mask@, cur_before, m_before, current@, m_before.intersect(translate(m_before, 0, 8)), 8);
        }
        current
    }

    /// Runs a segment of flood filling, expanding only up.
    fn fill_up(&self, mask: &Bitboard16) -> (r: Bitboard16)
        requires
            self@.subset_of(mask@),
        ensures
            r@.subset_of(flood(self@, mask@)),
            self@.subset_of(r@),
            translate(self@, -1, 0).intersect(mask@).subset_of(r@),
    {
        let mut current = *self;
        let mut m = *mask;
        proof {
            lemma_flood_bounds(self@, mask@);
            assert(self@.intersect(mask@) =~= self@);
        }
        let ghost cur_before = current@;
        let ghost m_before = m@;
        current = current.union(&current.shift_up(1).intersection(&m));
        m = m.intersection(&m.shift_up(1));
        proof {
            lemma_fill_step_up(self@, mask@, cur_before, m_before, current@, m@, 1);
        }
        assert(translate(self@, -1, 0).intersect(mask@).subset_of(current@));
        let ghost cur_before = current@;
        let ghost m_before = m@;
        current = current.union(&current.shift_up(2).intersection(&m));
        m = m.intersection(&m.shift_up(2));
        proof {
            lemma_fill_step_up(self@, mask@, cur_before, m_before, current@, m@, 2);
        }
        let ghost cur_before = current@;
        let ghost m_before = m@;
        current = current.union(&current.shift_up(4).intersection(&m));
        m = m.intersection(&m.shift_up(4));
        proof {
            lemma_fill_step_up(self@, mask@, cur_before, m_before, current@, m@, 4);
        }
        let ghost cur_before = current@;
        let ghost m_before = m@;
        current = current.union(&current.shift_up(8).intersection(&m));
        proof {
            lemma_fill_step_up(self@, mask@, cur_before, m_before, current@, m_before.intersect(translate(m_before, -(8), 0)), 8);
        }
        current
    }

    /// Runs a segment of flood filling, expanding only down.
    fn fill_down(&self, mask: &Bitboard16) -> (r: Bitboard16)
        requires
            self@.subset_of(mask@),
        ensures
            r@.subset_of(flood(self@, mask@)),
            self@.subset_of(r@),
            translate(self@, 1, 0).intersect(mask@).subset_of(r@),
    {
        let mut current = *self;
        let mut m = *mask;
        proof {
            lemma_flood_bounds(self@, mask@);
            assert(self@.intersect(mask@) =~= self@);
        }
        let ghost cur_before = current@;
        let ghost m_before = m@;
        current = current.union(&current.shift_down(1).intersection(&m));
        m = m.intersection(&m.shift_down(1));
        proof {
            lemma_fill_step_down(self@, mask@, cur_before, m_before, current@, m@, 1);
        }
        assert(translate(self@, 1, 0).intersect(mask@).subset_of(current@));
        let ghost cur_before = current@;
        let ghost m_before = m@;
        current = current.union(&current.shift_down(2).intersection(&m));
        m = m.intersection(&m.shift_down(2));
        proof {
            lemma_fill_step_down(self@, mask@, cur_before, m_before, current@, m@, 2);
        }
        let ghost cur_before = current@;
        let ghost m_before = m@;
        current = current.union(&current.shift_down(4).intersection(&m));
        m = m.intersection(&m.shift_down(4));
        proof {
            lemma_fill_step_down(self@, mask@, cur_before, m_before, current@, m@, 4);
        }
        let ghost cur_before = current@;
        let ghost m_before = m@;
        current = current.union(&current.shift_down(8).intersection(&m));
        proof {
            lemma_fill_step_down(self@, mask@, cur_before, m_before, current@, m_before.intersect(translate(m_before, 8, 0)), 8);
        }
        current
    }

}

impl Bitboard16 {
    /// Expands the bitboard four ways (left, right, up, down) by one position.
    pub fn dilate(&self) -> (r: Bitboard16)
        ensures
            r@ == dilation(self@),
    {
        let a = self.union(&self.shift_left(1));
        let b = a.union(&self.shift_right(1));
        let c = b.union(&self.shift_up(1));
        let r = c.union(&self.shift_down(1));
        assert(r@ =~= dilation(self@));
        r
    }

    /// Expands the bitboard in self to fill contiguous area within `mask`.
    /// Clips the seed to be inside mask first.
    pub fn flood_fill(&self, mask: Bitboard16) -> (r: Bitboard16)
        ensures
            r@ == flood(self@, mask@),
    {
        let mut current = self.intersection(&mask);
        proof {
            lemma_flood_bounds(self@, mask@);
        }
        loop
            invariant
                current@.subset_of(flood(self@, mask@)),
                self@.intersect(mask@).subset_of(current@),
                current@.subset_of(mask@),
            decreases 256 - cells(current@).len(),
        {
            let left = current.fill_left(&mask);
            let right = current.fill_right(&mask);
            let next = left.union(&right);
            proof {
                lemma_flood_absorbs(self@, current@, mask@);
                lemma_flood_bounds(current@, mask@);
                assert(current@.intersect(mask@) =~= current@);
                lemma_flood_bounds(self@, mask@);
            }
            let up = next.fill_up(&mask);
            let down = next.fill_down(&mask);
            proof {
                lemma_flood_absorbs(self@, next@, mask@);
                assert(next@.intersect(mask@) =~= next@);
            }
            let next2 = up.union(&down);
            proof {
                lemma_flood_step_facts(current@, mask@, left@, right@, next@, up@, down@, next2@);
            }
            if next2.same_cells(&current) {
                proof {
                    lemma_flood_least(self@, mask@, current@);
                    assert(current@ =~= flood(self@, mask@));
                }
                return current;
            }
            proof {
                lemma_cells_len_mono(current@, next2@);
                if forall|p: (int, int)| next2@.contains(p) == current@.contains(p) {
                    assert(current@ =~= next2@);
                }
                let p = choose|p: (int, int)| next2@.contains(p) != current@.contains(p);
                next2.lemma_view_in_grid();
                assert(in_grid(p) && next2@.contains(p) && !current@.contains(p));
            }
            current = next2;
        }
    }
}

impl vstd::std_specs::ops::BitOrSpecImpl<Bitboard16> for Bitboard16 {
    open spec fn obeys_bitor_spec() -> bool {
        true
    }

    open spec fn bitor_req(self, rhs: Bitboard16) -> bool {
        true
    }

    open spec fn bitor_spec(self, rhs: Bitboard16) -> Bitboard16 {
        Bitboard16::from_cells(self@.union(rhs@))
    }
}

impl core::ops::BitOr<Bitboard16> for Bitboard16 {
    type Output = Bitboard16;

    fn bitor(self, rhs: Bitboard16) -> (r: Bitboard16)
        ensures
            r@ == self@.union(rhs@),
    {
        let r = self.union(&rhs);
        proof {
            r.lemma_from_cells();
        }
        r
    }
}

impl<'b> vstd::std_specs::ops::BitOrSpecImpl<&'b Bitboard16> for Bitboard16 {
    open spec fn obeys_bitor_spec() -> bool {
        true
    }

    open spec fn bitor_req(self, rhs: &'b Bitboard16) -> bool {
        true
    }

    open spec fn bitor_spec(self, rhs: &'b Bitboard16) -> Bitboard16 {
        Bitboard16::from_cells(self@.union(rhs@))
    }
}

impl<'b> core::ops::BitOr<&'b Bitboard16> for Bitboard16 {
    type Output = Bitboard16;

    fn bitor(self, rhs: &'b Bitboard16) -> (r: Bitboard16)
        ensures
            r@ == self@.union(rhs@),
    {
        let r = self.union(rhs);
        proof {
            r.lemma_from_cells();
        }
        r
    }
}

impl<'a, 'b> vstd::std_specs::ops::BitOrSpecImpl<&'b Bitboard16> for &'a Bitboard16 {
    open spec fn obeys_bitor_spec() -> bool {
        true
    }

    open spec fn bitor_req(self, rhs: &'b Bitboard16) -> bool {
        true
    }

    open spec fn bitor_spec(self, rhs: &'b Bitboard16) -> Bitboard16 {
        Bitboard16::from_cells(self@.union(rhs@))
    }
}

impl<'a, 'b> core::ops::BitOr<&'b Bitboard16> for &'a Bitboard16 {
    type Output = Bitboard16;

    fn bitor(self, rhs: &'b Bitboard16) -> (r: Bitboard16)
        ensures
            r@ == self@.union(rhs@),
    {
        let r = self.union(rhs);
        proof {
            r.lemma_from_cells();
        }
        r
    }
}

impl<'a> vstd::std_specs::ops::BitOrSpecImpl<Bitboard16> for &'a Bitboard16 {
    open spec fn obeys_bitor_spec() -> bool {
        true
    }

    open spec fn bitor_req(self, rhs: Bitboard16) -> bool {
        true
    }

    open spec fn bitor_spec(self, rhs: Bitboard16) -> Bitboard16 {
        Bitboard16::from_cells(self@.union(rhs@))
    }
}

impl<'a> core::ops::BitOr<Bitboard16> for &'a Bitboard16 {
    type Output = Bitboard16;

    fn bitor(self, rhs: Bitboard16) -> (r: Bitboard16)
        ensures
            r@ == self@.union(rhs@),
    {
        let r = self.union(&rhs);
        proof {
            r.lemma_from_cells();
        }
        r
    }
}

impl vstd::std_specs::ops::BitAndSpecImpl<Bitboard16> for Bitboard16 {
    open spec fn obeys_bitand_spec() -> bool {
        true
    }

    open spec fn bitand_req(self, rhs: Bitboard16) -> bool {
        true
    }

    open spec fn bitand_spec(self, rhs: Bitboard16) -> Bitboard16 {
        Bitboard16::from_cells(self@.intersect(rhs@))
    }
}

impl core::ops::BitAnd<Bitboard16> for Bitboard16 {
    type Output = Bitboard16;

    fn bitand(self, rhs: Bitboard16) -> (r: Bitboard16)
        ensures
            r@ == self@.intersect(rhs@),
    {
        let r = self.intersection(&rhs);
        proof {
            r.lemma_from_cells();
        }
        r
    }
}

impl<'b> vstd::std_specs::ops::BitAndSpecImpl<&'b Bitboard16> for Bitboard16 {
    open spec fn obeys_bitand_spec() -> bool {
        true
    }

    open spec fn bitand_req(self, rhs: &'b Bitboard16) -> bool {
        true
    }

    open spec fn bitand_spec(self, rhs: &'b Bitboard16) -> Bitboard16 {
        Bitboard16::from_cells(self@.intersect(rhs@))
    }
}

impl<'b> core::ops::BitAnd<&'b Bitboard16> for Bitboard16 {
    type Output = Bitboard16;

    fn bitand(self, rhs: &'b Bitboard16) -> (r: Bitboard16)
        ensures
            r@ == self@.intersect(rhs@),
    {
        let r = self.intersection(rhs);
        proof {
            r.lemma_from_cells();
        }
        r
    }
}

impl<'a, 'b> vstd::std_specs::ops::BitAndSpecImpl<&'b Bitboard16> for &'a Bitboard16 {
    open spec fn obeys_bitand_spec() -> bool {
        true
    }

    open spec fn bitand_req(self, rhs: &'b Bitboard16) -> bool {
        true
    }

    open spec fn bitand_spec(self, rhs: &'b Bitboard16) -> Bitboard16 {
        Bitboard16::from_cells(self@.intersect(rhs@))
    }
}

impl<'a, 'b> core::ops::BitAnd<&'b Bitboard16> for &'a Bitboard16 {
    type Output = Bitboard16;

    fn bitand(self, rhs: &'b Bitboard16) -> (r: Bitboard16)
        ensures
            r@ == self@.intersect(rhs@),
    {
        let r = self.intersection(rhs);
        proof {
            r.lemma_from_cells();
        }
        r
    }
}

impl<'a> vstd::std_specs::ops::BitAndSpecImpl<Bitboard16> for &'a Bitboard16 {
    open spec fn obeys_bitand_spec() -> bool {
        true
    }

    open spec fn bitand_req(self, rhs: Bitboard16) -> bool {
        true
    }

    open spec fn bitand_spec(self, rhs: Bitboard16) -> Bitboard16 {
        Bitboard16::from_cells(self@.intersect(rhs@))
    }
}

impl<'a> core::ops::BitAnd<Bitboard16> for &'a Bitboard16 {
    type Output = Bitboard16;

    fn bitand(self, rhs: Bitboard16) -> (r: Bitboard16)
        ensures
            r@ == self@.intersect(rhs@),
    {
        let r = self.intersection(&rhs);
        proof {
            r.lemma_from_cells();
        }
        r
    }
}

impl vstd::std_specs::ops::NotSpecImpl for Bitboard16 {
    open spec fn obeys_not_spec() -> bool {
        true
    }

    open spec fn not_req(self) -> bool {
        true
    }

    open spec fn not_spec(self) -> Bitboard16 {
        Bitboard16::from_cells(grid().difference(self@))
    }
}

impl core::ops::Not for Bitboard16 {
    type Output = Bitboard16;

    fn not(self) -> (r: Bitboard16)
        ensures
            r@ == grid().difference(self@),
    {
        let r = self.complement();
        proof {
            r.lemma_from_cells();
        }
        r
    }
}

impl Bitboard16 {
    proof fn lemma_row_cells_columns(self, r: int, c: nat)
        requires
            0 <= r < 16,
            c <= 16,
        ensures
            row_cells(self@, r, c).len() == set_columns(self.rows[r], c).len(),
            forall|i: int|
                0 <= i < row_cells(self@, r, c).len() ==> #[trigger] row_cells(self@, r, c)[i] == (
                    r,
                    set_columns(self.rows[r], c)[i],
                ),
        decreases c,
    {
        if c > 0 {
            self.lemma_row_cells_columns(r, (c - 1) as nat);
            assert(self@.contains((r, c - 1)) == bit(self.rows[r], c - 1));
        }
    }

    /// Calculates the number of set bits in the bitboard.
    pub fn popcnt(&self) -> (n: usize)
        ensures
            n == cells(self@).len(),
            self@.finite(),
            n == self@.len(),
    {
        let mut count: usize = 0;
        let mut r: usize = 0;
        while r < 16
            invariant
                r <= 16,
                count == rows_cells(self@, r as nat).len(),
            decreases 16 - r,
        {
            let x = self.rows[r];
            let mut rc: usize = 0;
            let mut c: usize = 0;
            while c < 16
                invariant
                    r < 16,
                    c <= 16,
                    x == self.rows[r as int],
                    rc == row_cells(self@, r as int, c as nat).len(),
                    rc <= c,
                decreases 16 - c,
            {
                proof {
                    lemma_bit_is_zero_or_one(x, c as u16);
                    assert(self@.contains((r as int, c as int)) == bit(x, c as int));
                }
                if (x >> c as u16) & 1 != 0 {
                    rc += 1;
                }
                c += 1;
            }
            proof {
                lemma_rows_cells_mono(self@, self@, r as nat);
            }
            count += rc;
            r += 1;
        }
        proof {
            lemma_cells_props(self@);
            self.lemma_view_in_grid();
            assert(self@.intersect(grid()) =~= self@);
        }
        count
    }

    /// Returns the positions of set bits, in row-major order.
    pub fn iter_positions(self) -> (r: Vec<Position>)
        ensures
            r@.len() == cells(self@).len(),
            forall|i: int|
                0 <= i < r@.len() ==> (#[trigger] r@[i].row as int, r@[i].col as int) == cells(
                    self@,
                )[i],
    {
        let mut result: Vec<Position> = Vec::new();
        let mut r: usize = 0;
        while r < 16
            invariant
                r <= 16,
                result@.len() == rows_cells(self@, r as nat).len(),
                forall|i: int|
                    0 <= i < result@.len() ==> (#[trigger] result@[i].row as int, result@[i].col as int)
                        == rows_cells(self@, r as nat)[i],
            decreases 16 - r,
        {
            let columns = row_set_columns(self.rows[r]);
            proof {
                self.lemma_row_cells_columns(r as int, 16);
            }
            let ghost before = result@;
            let mut k: usize = 0;
            while k < columns.len()
                invariant
                    r < 16,
                    k <= columns@.len(),
                    columns@.len() == row_cells(self@, r as int, 16).len(),
                    forall|i: int|
                        0 <= i < columns@.len() ==> (r as int, columns@[i] as int) == #[trigger] row_cells(
                            self@,
                            r as int,
                            16,
                        )[i],
                    before.len() == rows_cells(self@, r as nat).len(),
                    forall|i: int|
                        0 <= i < before.len() ==> (#[trigger] before[i].row as int, before[i].col as int)
                            == rows_cells(self@, r as nat)[i],
                    result@.len() == before.len() + k,
                    forall|i: int| 0 <= i < before.len() ==> #[trigger] result@[i] == before[i],
                    forall|i: int|
                        0 <= i < k ==> (#[trigger] result@[before.len() + i].row as int, result@[before.len() + i].col as int)
                            == row_cells(self@, r as int, 16)[i],
                decreases columns@.len() - k,
            {
                result.push(Position::new(r, columns[k]));
                k += 1;
            }
            proof {
                let next = rows_cells(self@, (r + 1) as nat);
                assert(next == rows_cells(self@, r as nat) + row_cells(self@, r as int, 16));
                assert forall|i: int| 0 <= i < result@.len() implies (#[trigger] result@[i].row as int, result@[i].col as int)
                    == next[i] by {
                    if i < before.len() {
                        assert(result@[i] == before[i]);
                    } else {
                        let j = i - before.len();
                        assert(result@[before.len() + j] == result@[i]);
                    }
                }
            }
            r += 1;
        }
        result
    }
}

/// The cell that `arbitrary_set_bit` picks from a non-empty set: the first cell in
/// row-major order among those in the highest block of four rows holding a cell.
pub open spec fn is_picked_cell(s: Set<(int, int)>, p: (int, int)) -> bool {
    &&& s.contains(p)
    &&& forall|q: (int, int)| #[trigger] s.contains(q) ==> q.0 / 4 <= p.0 / 4
    &&& forall|q: (int, int)| #[trigger] s.contains(q) && q.0 / 4 == p.0 / 4 ==> cell_key(p) <= cell_key(q)
}

impl Bitboard16 {
    proof fn lemma_zero_row(self, r: int)
        requires
            0 <= r < 16,
            self.rows[r] == 0u16,
        ensures
            forall|c: int| !self@.contains((r, c)),
    {
        assert forall|c: int| !self@.contains((r, c)) by {
            if 0 <= c < 16 {
                lemma_bit_constants(c as u16);
            }
        }
    }

    /// Extracts a bitboard that is a subset of `self` and has a single bit set
    /// (unless `self` is empty, then result is empty too).
    pub fn arbitrary_set_bit(&self) -> (r: Bitboard16)
        ensures
            self@ == Set::<(int, int)>::empty() ==> r@ == Set::<(int, int)>::empty(),
            self@ != Set::<(int, int)>::empty() ==> exists|p: (int, int)|
                is_picked_cell(self@, p) && r@ == set![p],
    {
        // the last non-empty row
        let mut top: usize = 16;
        while top > 0
            invariant
                top <= 16,
                forall|j: int| top <= j < 16 ==> self.rows[j] == 0u16,
            ensures
                top <= 16,
                forall|j: int| top <= j < 16 ==> self.rows[j] == 0u16,
                top == 0 || self.rows[top - 1] != 0u16,
            decreases top,
        {
            if self.rows[top - 1] != 0 {
                break;
            }
            top -= 1;
        }
        if top == 0 {
            proof {
                assert forall|p: (int, int)| !self@.contains(p) by {
                    if in_grid(p) {
                        self.lemma_zero_row(p.0);
                    }
                }
                assert(self@ =~= Set::<(int, int)>::empty());
            }
            return Self::new();
        }
        let top = top - 1;
        assert(self.rows[top as int] != 0u16);
        assert forall|j: int| top < j < 16 implies self.rows[j] == 0u16 by {}
        let block = top / 4 * 4;
        // the first non-empty row of that block
        let mut row = block;
        while self.rows[row] == 0
            invariant
                block <= row <= top,
                top < 16,
                self.rows[top as int] != 0u16,
                forall|j: int| block <= j < row ==> self.rows[j] == 0u16,
            decreases top - row,
        {
            row += 1;
        }
        let x = self.rows[row];
        let mut col: usize = 0;
        while (x >> col as u16) & 1 == 0
            invariant
                col < 16,
                x != 0u16,
                forall|c: int| 0 <= c < col ==> !bit(x, c),
            decreases 16 - col,
        {
            proof {
                if col == 15 {
                    assert forall|c: int| 0 <= c < 16 implies bit(x, c) == bit(0u16, c) by {
                        lemma_bit_constants(c as u16);
                        if c == 15 {
                            lemma_bit_is_zero_or_one(x, 15);
                        }
                    }
                    lemma_row_ext(x, 0u16);
                }
            }
            col += 1;
        }
        proof {
            lemma_bit_is_zero_or_one(x, col as u16);
        }
        let r = Self::single(Position::new(row, col));
        proof {
            let p = (row as int, col as int);
            assert(self@.contains(p));
            assert forall|q: (int, int)| #[trigger] self@.contains(q) implies q.0 / 4 <= p.0 / 4 by {
                if q.0 > top {
                    self.lemma_zero_row(q.0);
                }
            }
            assert forall|q: (int, int)| #[trigger] self@.contains(q) && q.0 / 4 == p.0 / 4 implies cell_key(
                p,
            ) <= cell_key(q) by {
                if q.0 < row {
                    self.lemma_zero_row(q.0);
                } else if q.0 == row {
                    assert(bit(x, q.1));
                }
            }
            assert(is_picked_cell(self@, p));
            assert(self@ != Set::<(int, int)>::empty());
        }
        r
    }
}

/// There is a cell of minimal row-major index among the grid cells of `s` that
/// satisfy `pred`, as long as there is one such cell below index `n`.
proof fn lemma_min_key_exists(s: Set<(int, int)>, pred: spec_fn((int, int)) -> bool, n: int)
    requires
        s.subset_of(grid()),
        0 <= n,
        exists|q: (int, int)| s.contains(q) && pred(q) && cell_key(q) < n,
    ensures
        exists|p: (int, int)|
            s.contains(p) && pred(p) && forall|q: (int, int)|
                #[trigger] s.contains(q) && pred(q) && cell_key(q) < n ==> cell_key(p) <= cell_key(q),
    decreases n,
{
    if exists|q: (int, int)| s.contains(q) && pred(q) && cell_key(q) < n - 1 {
        lemma_min_key_exists(s, pred, n - 1);
        let p = choose|p: (int, int)|
            s.contains(p) && pred(p) && forall|q: (int, int)|
                #[trigger] s.contains(q) && pred(q) && cell_key(q) < n - 1 ==> cell_key(p) <= cell_key(q);
        assert forall|q: (int, int)| #[trigger] s.contains(q) && pred(q) && cell_key(q) < n implies cell_key(
            p,
        ) <= cell_key(q) by {
            if cell_key(q) < n - 1 {
            } else {
                assert(cell_key(p) < n - 1 || cell_key(p) <= cell_key(q));
            }
        }
    } else {
        let p = choose|q: (int, int)| s.contains(q) && pred(q) && cell_key(q) < n;
        assert forall|q: (int, int)| #[trigger] s.contains(q) && pred(q) && cell_key(q) < n implies cell_key(
            p,
        ) <= cell_key(q) by {
            assert(!(cell_key(q) < n - 1));
        }
    }
}

/// Every non-empty set of grid cells has a picked cell, and only one.
pub proof fn lemma_picked_cell(s: Set<(int, int)>)
    requires
        s.subset_of(grid()),
        s != Set::<(int, int)>::empty(),
    ensures
        exists|p: (int, int)| is_picked_cell(s, p),
        forall|p: (int, int), q: (int, int)| is_picked_cell(s, p) && is_picked_cell(s, q) ==> p == q,
{
    lemma_nonempty(s);
    let w = choose|w: (int, int)| s.contains(w);
    let top: int = if exists|q: (int, int)| #[trigger] s.contains(q) && q.0 / 4 == 3 {
        3
    } else if exists|q: (int, int)| #[trigger] s.contains(q) && q.0 / 4 == 2 {
        2
    } else if exists|q: (int, int)| #[trigger] s.contains(q) && q.0 / 4 == 1 {
        1
    } else {
        0
    };
    assert(s.contains(w));
    assert(in_grid(w));
    assert(exists|q: (int, int)| #[trigger] s.contains(q) && q.0 / 4 == top);
    assert forall|q: (int, int)| #[trigger] s.contains(q) implies q.0 / 4 <= top by {
        assert(in_grid(q));
    }
    let pred = |q: (int, int)| q.0 / 4 == top;
    let q0 = choose|q: (int, int)| #[trigger] s.contains(q) && q.0 / 4 == top;
    assert(s.contains(q0) && pred(q0) && cell_key(q0) < 256);
    lemma_min_key_exists(s, pred, 256);
    let p = choose|p: (int, int)|
        s.contains(p) && pred(p) && forall|q: (int, int)|
            #[trigger] s.contains(q) && pred(q) && cell_key(q) < 256 ==> cell_key(p) <= cell_key(q);
    assert forall|q: (int, int)| #[trigger] s.contains(q) && q.0 / 4 == p.0 / 4 implies cell_key(p)
        <= cell_key(q) by {
        assert(in_grid(q));
        assert(pred(q));
    }
    assert(is_picked_cell(s, p));
    assert forall|a: (int, int), b: (int, int)| is_picked_cell(s, a) && is_picked_cell(s, b) implies a
        == b by {
        assert(a.0 / 4 <= b.0 / 4 && b.0 / 4 <= a.0 / 4);
        assert(cell_key(a) <= cell_key(b) && cell_key(b) <= cell_key(a));
        assert(in_grid(a) && in_grid(b));
    }
}

/// The cell that `arbitrary_set_bit` picks from a non-empty set of grid cells.
pub open spec fn picked_cell(s: Set<(int, int)>) -> (int, int) {
    choose|p: (int, int)| is_picked_cell(s, p)
}

/// The groups that `iter_groups` hands out for `s`, with at most `fuel` of them:
/// repeatedly the 4-connected component of the picked cell, removed from what is left.
pub open spec fn groups_upto(s: Set<(int, int)>, fuel: nat) -> Seq<Set<(int, int)>>
    decreases fuel,
{
    if fuel == 0 || s == Set::<(int, int)>::empty() {
        Seq::empty()
    } else {
        let g = flood(set![picked_cell(s)], s);
        seq![g] + groups_upto(s.difference(g), (fuel - 1) as nat)
    }
}

/// The maximal 4-connected subsets of `s`, in the order `iter_groups` hands them out.
pub open spec fn groups(s: Set<(int, int)>) -> Seq<Set<(int, int)>> {
    groups_upto(s, 256)
}

/// The union of a sequence of sets.
pub open spec fn union_all(gs: Seq<Set<(int, int)>>) -> Set<(int, int)>
    decreases gs.len(),
{
    if gs.len() == 0 {
        Set::empty()
    } else {
        gs[0].union(union_all(gs.drop_first()))
    }
}

/// Flooding from a cell of a flood gives back the same flood.
pub proof fn lemma_flood_same_component(p: (int, int), x: (int, int), mask: Set<(int, int)>)
    requires
        mask.contains(p),
        flood(set![p], mask).contains(x),
    ensures
        flood(set![x], mask) == flood(set![p], mask),
{
    lemma_flood_bounds(set![p], mask);
    lemma_flood_absorbs(set![p], set![x], mask);
    lemma_flood_symmetric(p, x, mask);
    lemma_flood_bounds(set![x], mask);
    lemma_flood_absorbs(set![x], set![p], mask);
    assert(flood(set![x], mask) =~= flood(set![p], mask));
}

/// Removing a whole component from a mask leaves the other components as they were.
pub proof fn lemma_flood_without_component(p: (int, int), x: (int, int), mask: Set<(int, int)>)
    requires
        mask.contains(p),
        mask.contains(x),
        !flood(set![p], mask).contains(x),
    ensures
        flood(set![x], mask.difference(flood(set![p], mask))) == flood(set![x], mask),
{
    let g = flood(set![p], mask);
    let rest = mask.difference(g);
    lemma_flood_mono(set![x], rest, set![x], mask);
    assert forall|y: (int, int)| flood(set![x], mask).contains(y) implies rest.contains(y) by {
        lemma_flood_bounds(set![x], mask);
        if g.contains(y) {
            lemma_flood_same_component(p, y, mask);
            lemma_flood_same_component(x, y, mask);
            lemma_flood_bounds(set![x], mask);
            assert(flood(set![x], mask).contains(x));
        }
    }
    lemma_flood_within(set![x], mask, set![x], rest);
    assert(flood(set![x], rest) =~= flood(set![x], mask));
}

/// The groups of a set of grid cells partition it into its maximal 4-connected subsets.
pub proof fn lemma_groups_upto_partition(s: Set<(int, int)>, fuel: nat)
    requires
        s.subset_of(grid()),
        s.finite(),
        s.len() <= fuel,
    ensures
        union_all(groups_upto(s, fuel)) == s,
        forall|i: int|
            0 <= i < groups_upto(s, fuel).len() ==> (#[trigger] groups_upto(s, fuel)[i]).subset_of(s)
                && groups_upto(s, fuel)[i] != Set::<(int, int)>::empty(),
        forall|i: int, j: int|
            0 <= i < j < groups_upto(s, fuel).len() ==> (#[trigger] groups_upto(s, fuel)[i]).disjoint(
                #[trigger] groups_upto(s, fuel)[j],
            ),
        forall|i: int, x: (int, int)|
            0 <= i < groups_upto(s, fuel).len() && #[trigger] groups_upto(s, fuel)[i].contains(x)
                ==> groups_upto(s, fuel)[i] == flood(set![x], s),
    decreases fuel,
{
    if fuel == 0 || s == Set::<(int, int)>::empty() {
        if s != Set::<(int, int)>::empty() {
            lemma_nonempty(s);
            let w = choose|w: (int, int)| s.contains(w);
            assert(s.len() > 0);
        }
    } else {
        lemma_picked_cell(s);
        let p = picked_cell(s);
        assert(is_picked_cell(s, p));
        let g = flood(set![p], s);
        let rest = s.difference(g);
        lemma_flood_bounds(set![p], s);
        assert(g.contains(p));
        vstd::set_lib::lemma_len_difference(s, g);
        assert(rest.len() < s.len()) by {
            broadcast use vstd::set::group_set_axioms;
            assert(rest.subset_of(s.remove(p)));
            vstd::set_lib::lemma_len_subset(rest, s.remove(p));
        }
        lemma_groups_upto_partition(rest, (fuel - 1) as nat);
        let gs = groups_upto(s, fuel);
        let tail = groups_upto(rest, (fuel - 1) as nat);
        assert(gs == seq![g] + tail);
        assert(gs.drop_first() =~= tail);
        assert(union_all(gs) =~= s);
        assert forall|i: int| 0 <= i < gs.len() implies (#[trigger] gs[i]).subset_of(s) && gs[i]
            != Set::<(int, int)>::empty() by {
            if i > 0 {
                assert(gs[i] == tail[i - 1]);
            } else {
                assert(gs[i].contains(p));
            }
        }
        assert forall|i: int, j: int| 0 <= i < j < gs.len() implies (#[trigger] gs[i]).disjoint(
            #[trigger] gs[j],
        ) by {
            assert(gs[j] == tail[j - 1]);
            if i > 0 {
                assert(gs[i] == tail[i - 1]);
            }
        }
        assert forall|i: int, x: (int, int)| 0 <= i < gs.len() && #[trigger] gs[i].contains(x) implies gs[i]
            == flood(set![x], s) by {
            if i == 0 {
                lemma_flood_same_component(p, x, s);
            } else {
                assert(gs[i] == tail[i - 1]);
                assert(tail[i - 1] == flood(set![x], rest));
                assert(rest.contains(x));
                lemma_flood_without_component(p, x, s);
            }
        }
    }
}

impl Bitboard16 {
    /// Returns the maximal disjoint 4-connected subsets of `self`.
    /// Union of all groups is always equal to `self`.
    pub fn iter_groups(self) -> (r: Vec<Bitboard16>)
        ensures
            r@.len() == groups(self@).len(),
            forall|i: int| 0 <= i < r@.len() ==> #[trigger] r@[i]@ == groups(self@)[i],
    {
        let mut result: Vec<Bitboard16> = Vec::new();
        let mut bb = self;
        let ghost mut fuel: nat = 256;
        proof {
            lemma_cells_len_mono(self@, self@);
            lemma_cells_props(self@);
            self.lemma_view_in_grid();
            assert(self@.intersect(grid()) =~= self@);
        }
        while !bb.is_empty()
            invariant
                bb@.subset_of(grid()),
                bb@.finite(),
                bb@.len() <= fuel,
                result@.len() + fuel == 256,
                result@.len() + groups_upto(bb@, fuel).len() == groups(self@).len(),
                forall|i: int| 0 <= i < result@.len() ==> #[trigger] result@[i]@ == groups(self@)[i],
                forall|i: int|
                    0 <= i < groups_upto(bb@, fuel).len() ==> #[trigger] groups_upto(bb@, fuel)[i]
                        == groups(self@)[result@.len() + i],
            decreases fuel,
        {
            let bit = bb.arbitrary_set_bit();
            let group = bit.flood_fill(bb);
            let ghost before = bb@;
            let ghost old_len = result@.len();
            proof {
                lemma_picked_cell(bb@);
                let p = choose|p: (int, int)| is_picked_cell(bb@, p) && bit@ == set![p];
                assert(picked_cell(bb@) == p);
                if fuel == 0 {
                    lemma_nonempty(bb@);
                    let w = choose|w: (int, int)| bb@.contains(w);
                    assert(bb@.len() > 0);
                }
            }
            bb = bb.intersection(&group.complement());
            result.push(group);
            proof {
                let g = group@;
                let gs = groups_upto(before, fuel);
                assert(bb@ =~= before.difference(g));
                assert(gs == seq![g] + groups_upto(bb@, (fuel - 1) as nat));
                lemma_flood_bounds(bit@, before);
                let p = picked_cell(before);
                assert(g.contains(p));
                assert(gs[0] == g);
                assert(groups_upto(before, fuel)[0] == groups(self@)[old_len as int]);
                assert(result@[old_len as int]@ == groups(self@)[old_len as int]);
                broadcast use vstd::set::group_set_axioms;
                assert(bb@.subset_of(before.remove(p)));
                vstd::set_lib::lemma_len_subset(bb@, before.remove(p));
                fuel = (fuel - 1) as nat;
                assert forall|i: int| 0 <= i < groups_upto(bb@, fuel).len() implies #[trigger] groups_upto(
                    bb@,
                    fuel,
                )[i] == groups(self@)[result@.len() + i] by {
                    assert(gs[i + 1] == groups_upto(bb@, fuel)[i]);
                }
            }
        }
        proof {
            assert(groups_upto(bb@, fuel).len() == 0);
        }
        result
    }
}

/// Iterates over bits of a row, returning true for set positions and false for unset ones.
#[derive(Copy, Clone, Debug)]
pub struct RowIterator {
    bits: u16,
    pos: u16,
}

impl View for RowIterator {
    /// The row's bits, and the column read next.
    type V = (u16, u16);

    closed spec fn view(&self) -> (u16, u16) {
        (self.bits, self.pos)
    }
}

impl RowIterator {
    /// Returns the next bit of the row, or `None` after the sixteenth.
    pub fn next(&mut self) -> (r: Option<bool>)
        ensures
            old(self)@.1 < 16 ==> r == Some(bit(old(self)@.0, old(self)@.1 as int)) && final(self)@
                == (old(self)@.0, (old(self)@.1 + 1) as u16),
            old(self)@.1 >= 16 ==> r == None::<bool> && final(self)@ == old(self)@,
    {
        if self.pos < 16 {
            proof {
                lemma_bit_is_zero_or_one(self.bits, self.pos);
            }
            let v = (self.bits >> self.pos) & 1 != 0;
            self.pos += 1;
            Some(v)
        } else {
            None
        }
    }
}

impl Bitboard16 {
    /// Returns an iterator over the cells of each of the sixteen rows.
    pub fn iter_rows(self) -> (r: Vec<RowIterator>)
        ensures
            r@.len() == 16,
            forall|i: int| 0 <= i < 16 ==> (#[trigger] r@[i])@.1 == 0,
            forall|i: int, c: int|
                0 <= i < 16 && 0 <= c < 16 ==> #[trigger] bit(r@[i]@.0, c) == self@.contains((i, c)),
    {
        let mut result: Vec<RowIterator> = Vec::new();
        let mut i: usize = 0;
        while i < 16
            invariant
                i <= 16,
                result@.len() == i,
                forall|j: int| 0 <= j < i ==> (#[trigger] result@[j])@ == (self.rows[j], 0u16),
            decreases 16 - i,
        {
            result.push(RowIterator { bits: self.rows[i], pos: 0 });
            i += 1;
        }
        result
    }

    /// Builds a bitboard with the given positions set.
    /// Panics on a position outside the 16 by 16 grid.
    pub fn from_positions(positions: &Vec<Position>) -> (r: Bitboard16)
        requires
            forall|i: int|
                0 <= i < positions@.len() ==> (#[trigger] positions@[i]).row < 16 && positions@[i].col
                    < 16,
        ensures
            forall|p: (int, int)|
                #[trigger] r@.contains(p) <==> exists|i: int|
                    0 <= i < positions@.len() && p == (
                        #[trigger] positions@[i].row as int,
                        positions@[i].col as int,
                    ),
    {
        let mut bb = Bitboard16::new();
        let mut k: usize = 0;
        while k < positions.len()
            invariant
                k <= positions@.len(),
                forall|i: int|
                    0 <= i < positions@.len() ==> (#[trigger] positions@[i]).row < 16
                        && positions@[i].col < 16,
                forall|p: (int, int)|
                    #[trigger] bb@.contains(p) <==> exists|i: int|
                        0 <= i < k && p == (
                            #[trigger] positions@[i].row as int,
                            positions@[i].col as int,
                        ),
            decreases positions@.len() - k,
        {
            let pos = positions[k];
            bb.set(pos, true);
            proof {
                assert forall|p: (int, int)| #[trigger] bb@.contains(p) implies exists|i: int|
                    0 <= i < k + 1 && p == (
                        #[trigger] positions@[i].row as int,
                        positions@[i].col as int,
                    ) by {
                    if p == (pos.row as int, pos.col as int) {
                        assert(positions@[k as int] == pos);
                    }
                }
                assert forall|p: (int, int)|
                    (exists|i: int|
                        0 <= i < k + 1 && p == (
                            #[trigger] positions@[i].row as int,
                            positions@[i].col as int,
                        )) implies #[trigger] bb@.contains(p) by {
                    let i = choose|i: int|
                        0 <= i < k + 1 && p == (
                            #[trigger] positions@[i].row as int,
                            positions@[i].col as int,
                        );
                    if i < k {
                    }
                }
            }
            k += 1;
        }
        bb
    }
}

/// The grid of a set of cells as drawn by `format_ascii`: `'x'` for a set cell.
pub open spec fn marks(s: Set<(int, int)>) -> Seq<Seq<Option<char>>> {
    Seq::new(
        16,
        |r: int| Seq::new(16, |c: int| if s.contains((r, c)) { Some('x') } else { None }),
    )
}

impl Bitboard16 {
    /// Builds a bitboard from ascii representation, compatible with `Self::format_ascii`.
    /// Each line in text is a row in the bitboard, 'x' marks set position,
    /// any other char marks an unset position.
    /// Panics if any set position is outside the 16x16 boundary.
    pub fn from_ascii(s: &str) -> (bb: Bitboard16)
        requires
            marked_cells(s@, 'x').subset_of(grid()),
        ensures
            bb@ == marked_cells(s@, 'x'),
    {
        let mut bb = Bitboard16::new();
        let n = s.unicode_len();
        let mut i: usize = 0;
        let mut row: usize = 0;
        let mut col: usize = 0;
        while i < n
            invariant
                n == s@.len(),
                i <= n,
                marked_cells(s@, 'x').subset_of(grid()),
                (row as int, col as int) == crate::ascii::cursor(s@, i as nat),
                bb@ == marked_upto(s@, 'x', i as int),
            decreases n - i,
        {
            let (c, next_row, next_col) = step_cursor(s, i, row, col);
            if c == 'x' {
                proof {
                    assert(marked_cells(s@, 'x').contains((row as int, col as int)));
                }
                bb.set(Position::new(row, col), true);
            }
            proof {
                assert(bb@ =~= marked_upto(s@, 'x', i + 1));
            }
            row = next_row;
            col = next_col;
            i += 1;
        }
        assert(bb@ =~= marked_cells(s@, 'x'));
        bb
    }

    /// Generates a viewable string representation of the board, compatible with
    /// `Self::from_ascii`.
    /// Empty positions are drawn as `'.'` if within a `pad_to` by `pad_to` square,
    /// otherwise only if followed by a set position.
    /// Set cells are drawn as `'x'`.
    /// Panics on out of range `pad_to`.
    pub fn format_ascii(&self, pad_to: usize) -> (s: String)
        requires
            pad_to <= 16,
        ensures
            s@ == ascii_text(marks(self@), pad_to as int),
            pad_to == 0 ==> crate::ascii::lines_end_with(s@, 'x', 'x'),
    {
        proof {
            let rows = marks(self@);
            assert forall|r: int, c: int|
                0 <= r < rows.len() && 0 <= c < rows[r].len() && #[trigger] rows[r][c] is Some implies rows[r][c]
                    == Some('x') || rows[r][c] == Some('x') by {}
            crate::ascii::lemma_compact_text(rows, 'x', 'x');
        }
        let mut rows: Vec<Vec<Option<char>>> = Vec::new();
        let mut r: usize = 0;
        while r < 16
            invariant
                r <= 16,
                rows@.len() == r,
                forall|i: int| 0 <= i < r ==> (#[trigger] rows@[i])@ == marks(self@)[i],
            decreases 16 - r,
        {
            let mut line: Vec<Option<char>> = Vec::new();
            let mut c: usize = 0;
            while c < 16
                invariant
                    r < 16,
                    c <= 16,
                    line@.len() == c,
                    forall|j: int| 0 <= j < c ==> #[trigger] line@[j] == marks(self@)[r as int][j],
                decreases 16 - c,
            {
                if self.get(Position::new(r, c)) {
                    line.push(Some('x'));
                } else {
                    line.push(None);
                }
                c += 1;
            }
            assert(line@ =~= marks(self@)[r as int]);
            rows.push(line);
            r += 1;
        }
        assert(rows_of(rows@) =~= marks(self@));
        format_ascii_helper(&rows, pad_to)
    }
}

// ---------------------------------------------------------------------------
// Laws of dilation, flood filling and groups.
// ---------------------------------------------------------------------------

/// Dilation distributes over union.
pub proof fn lemma_dilation_distributes(a: Set<(int, int)>, b: Set<(int, int)>)
    ensures
        dilation(a.union(b)) == dilation(a).union(dilation(b)),
{
    assert(dilation(a.union(b)) =~= dilation(a).union(dilation(b)));
}

/// Dilation never clears a cell of the grid.
pub proof fn lemma_dilation_keeps(s: Set<(int, int)>)
    ensures
        s.intersect(grid()).subset_of(dilation(s)),
{
}

/// A flood does not depend on the part of the seed outside the mask.
pub proof fn lemma_flood_clips_seed(seed: Set<(int, int)>, mask: Set<(int, int)>)
    ensures
        flood(seed, mask) == flood(seed.intersect(mask), mask),
{
    lemma_flood_mono(seed.intersect(mask), mask, seed, mask);
    lemma_flood_bounds(seed.intersect(mask), mask);
    assert(seed.intersect(mask).intersect(mask) =~= seed.intersect(mask));
    lemma_flood_absorbs(seed.intersect(mask), seed, mask);
    assert(flood(seed, mask) =~= flood(seed.intersect(mask), mask));
}

/// Flooding a flood again within the same mask changes nothing.
pub proof fn lemma_flood_idempotent(seed: Set<(int, int)>, mask: Set<(int, int)>)
    ensures
        flood(flood(seed, mask), mask) == flood(seed, mask),
{
    let f = flood(seed, mask);
    lemma_flood_bounds(seed, mask);
    lemma_flood_absorbs(seed, f, mask);
    lemma_flood_bounds(f, mask);
    assert(f.intersect(mask) =~= f);
    assert(flood(f, mask) =~= f);
}

/// Flooding from a union of seeds is the union of the floods.
pub proof fn lemma_flood_distributes(a: Set<(int, int)>, b: Set<(int, int)>, mask: Set<(int, int)>)
    ensures
        flood(a.union(b), mask) == flood(a, mask).union(flood(b, mask)),
{
    let u = flood(a, mask).union(flood(b, mask));
    lemma_flood_mono(a, mask, a.union(b), mask);
    lemma_flood_mono(b, mask, a.union(b), mask);
    lemma_flood_bounds(a, mask);
    lemma_flood_bounds(b, mask);
    assert forall|q: (int, int)| mask.contains(q) && touches(u, q) implies #[trigger] u.contains(q) by {
        if touches(flood(a, mask), q) {
            lemma_flood_closed(a, mask, q);
        } else {
            lemma_flood_closed(b, mask, q);
        }
    }
    lemma_flood_least(a.union(b), mask, u);
    assert(flood(a.union(b), mask) =~= u);
}

/// Flooding from nothing gives nothing.
pub proof fn lemma_flood_empty_seed(mask: Set<(int, int)>)
    ensures
        flood(Set::<(int, int)>::empty(), mask) == Set::<(int, int)>::empty(),
{
    let e = Set::<(int, int)>::empty();
    assert forall|q: (int, int)| mask.contains(q) && touches(e, q) implies #[trigger] e.contains(q) by {
    }
    lemma_flood_least(e, mask, e);
    assert(flood(e, mask) =~= e);
}

/// The groups of a bitboard cover it, are pairwise disjoint and non-empty, and each is a
/// maximal 4-connected part: connected from each of its cells, and its dilation meets the
/// bitboard only in the group itself.
pub proof fn lemma_groups_partition(bb: Bitboard16)
    ensures
        union_all(groups(bb@)) == bb@,
        forall|i: int|
            0 <= i < groups(bb@).len() ==> (#[trigger] groups(bb@)[i]).subset_of(bb@) && groups(
                bb@,
            )[i] != Set::<(int, int)>::empty(),
        forall|i: int, j: int|
            0 <= i < j < groups(bb@).len() ==> (#[trigger] groups(bb@)[i]).disjoint(
                #[trigger] groups(bb@)[j],
            ),
        forall|i: int, x: (int, int)|
            0 <= i < groups(bb@).len() && #[trigger] groups(bb@)[i].contains(x) ==> groups(bb@)[i]
                == flood(set![x], bb@),
        forall|i: int|
            0 <= i < groups(bb@).len() ==> dilation(#[trigger] groups(bb@)[i]).intersect(bb@)
                == groups(bb@)[i],
{
    lemma_cells_props(bb@);
    lemma_cells_len_mono(bb@, bb@);
    bb.lemma_view_in_grid();
    assert(bb@.intersect(grid()) =~= bb@);
    lemma_groups_upto_partition(bb@, 256);
    let gs = groups(bb@);
    assert forall|i: int| 0 <= i < gs.len() implies dilation(#[trigger] gs[i]).intersect(bb@) == gs[i] by {
        let g = gs[i];
        lemma_nonempty(g);
        let x = choose|x: (int, int)| g.contains(x);
        assert(g == flood(set![x], bb@));
        assert forall|q: (int, int)| dilation(g).intersect(bb@).contains(q) implies g.contains(q) by {
            if !g.contains(q) {
                assert(touches(g, q));
                lemma_flood_closed(set![x], bb@, q);
            }
        }
        assert(dilation(g).intersect(bb@) =~= g);
    }
}

/// Reading back the text drawn for a bitboard gives the bitboard's cells.
pub proof fn lemma_ascii_roundtrip(s: Set<(int, int)>, pad_to: int)
    requires
        0 <= pad_to <= 16,
        s.subset_of(grid()),
    ensures
        marked_cells(ascii_text(marks(s), pad_to), 'x') == s,
{
    let rows = marks(s);
    assert forall|r: int| 0 <= r < rows.len() implies crate::ascii::line_len(#[trigger] rows[r], r, pad_to)
        <= rows[r].len() by {
        lemma_line_len_bound(rows[r], r, pad_to);
    }
    lemma_ascii_marks(rows, pad_to, 'x');
    assert forall|p: (int, int)| drawn_cells(rows, pad_to, 'x').contains(p) <==> s.contains(p) by {
        if s.contains(p) {
            assert(in_grid(p));
            lemma_line_covers(rows[p.0], p.0, pad_to, p.1);
        }
    }
    assert(drawn_cells(rows, pad_to, 'x') =~= s);
}

/// `s` mirrored along the main diagonal: rows become columns.
pub open spec fn transposed(s: Set<(int, int)>) -> Set<(int, int)> {
    Set::new(|p: (int, int)| s.contains((p.1, p.0)))
}

/// Moving and mirroring commute, with the offsets exchanged.
pub proof fn lemma_translate_transposed(s: Set<(int, int)>, dr: int, dc: int)
    ensures
        transposed(translate(s, dr, dc)) == translate(transposed(s), dc, dr),
{
    assert(transposed(translate(s, dr, dc)) =~= translate(transposed(s), dc, dr));
}

/// Dilation and mirroring commute.
pub proof fn lemma_dilation_transposed(s: Set<(int, int)>)
    ensures
        dilation(transposed(s)) == transposed(dilation(s)),
{
    assert(dilation(transposed(s)) =~= transposed(dilation(s)));
}

proof fn lemma_reach_transposed(seed: Set<(int, int)>, mask: Set<(int, int)>, n: nat)
    ensures
        reach(transposed(seed), transposed(mask), n) == transposed(reach(seed, mask, n)),
    decreases n,
{
    if n == 0 {
        assert(reach(transposed(seed), transposed(mask), 0) =~= transposed(reach(seed, mask, 0)));
    } else {
        lemma_reach_transposed(seed, mask, (n - 1) as nat);
        assert(reach(transposed(seed), transposed(mask), n) =~= transposed(reach(seed, mask, n)));
    }
}

/// Flood filling and mirroring commute.
pub proof fn lemma_flood_transposed(seed: Set<(int, int)>, mask: Set<(int, int)>)
    ensures
        flood(transposed(seed), transposed(mask)) == transposed(flood(seed, mask)),
{
    assert forall|p: (int, int)| flood(transposed(seed), transposed(mask)).contains(p) <==> transposed(
        flood(seed, mask),
    ).contains(p) by {
        if flood(transposed(seed), transposed(mask)).contains(p) {
            let n = choose|n: nat| #[trigger] reach(transposed(seed), transposed(mask), n).contains(p);
            lemma_reach_transposed(seed, mask, n);
            assert(reach(seed, mask, n).contains((p.1, p.0)));
        }
        if transposed(flood(seed, mask)).contains(p) {
            let n = choose|n: nat| #[trigger] reach(seed, mask, n).contains((p.1, p.0));
            lemma_reach_transposed(seed, mask, n);
            assert(reach(transposed(seed), transposed(mask), n).contains(p));
        }
    }
    assert(flood(transposed(seed), transposed(mask)) =~= transposed(flood(seed, mask)));
}

/// From a single cell, `arbitrary_set_bit` picks that cell.
pub proof fn lemma_picked_single(p: (int, int))
    ensures
        is_picked_cell(set![p], p),
{
}

/// The positions in row-major order are exactly the set cells, each once: setting them
/// one by one on an empty bitboard rebuilds the bitboard, clearing them empties it.
pub proof fn lemma_positions_cover(bb: Bitboard16)
    ensures
        cells(bb@).no_duplicates(),
        forall|p: (int, int)| bb@.contains(p) <==> #[trigger] cells(bb@).contains(p),
        cells(bb@).to_set() == bb@,
{
    lemma_cells_props(bb@);
    bb.lemma_view_in_grid();
    assert(bb@.intersect(grid()) =~= bb@);
    assert forall|p: (int, int)| #[trigger] cells(bb@).contains(p) implies bb@.contains(p) by {
        let i = choose|i: int| 0 <= i < cells(bb@).len() && cells(bb@)[i] == p;
    }
}

/// The drawn text of a bitboard has at least `pad_to` lines, the first `pad_to` of them at
/// least `pad_to` characters long; every line is empty or ends with a set cell when
/// nothing is padded, and then the last line is not empty.
pub proof fn lemma_ascii_layout(s: Set<(int, int)>, pad_to: int)
    requires
        0 <= pad_to <= 16,
    ensures
        crate::ascii::last_line(marks(s), pad_to) >= pad_to,
        forall|r: int|
            0 <= r < pad_to ==> #[trigger] crate::ascii::line(marks(s)[r], r, pad_to).len() >= pad_to,
        pad_to == 0 ==> forall|r: int|
            0 <= r < 16 && #[trigger] crate::ascii::line(marks(s)[r], r, 0).len() > 0 ==> crate::ascii::line(
                marks(s)[r],
                r,
                0,
            ).last() == 'x',
        pad_to == 0 && crate::ascii::last_line(marks(s), 0) > 0 ==> crate::ascii::line(
            marks(s)[crate::ascii::last_line(marks(s), 0) - 1],
            crate::ascii::last_line(marks(s), 0) - 1,
            0,
        ).len() > 0,
{
    let rows = marks(s);
    crate::ascii::lemma_last_line_props(rows, pad_to);
    if pad_to > 0 {
        assert(crate::ascii::line_len(rows[pad_to - 1], pad_to - 1, pad_to) > 0);
    }
    assert forall|r: int| 0 <= r < 16 && #[trigger] crate::ascii::line(rows[r], r, 0).len() > 0 && pad_to
        == 0 implies crate::ascii::line(rows[r], r, 0).last() == 'x' by {
        if pad_to == 0 {
            crate::ascii::lemma_last_filled_last(rows[r]);
            crate::ascii::lemma_last_filled(rows[r], 0);
            let len = crate::ascii::line_len(rows[r], r, 0);
            assert(len == crate::ascii::last_filled(rows[r]));
            assert(rows[r][len - 1] is Some);
            assert(rows[r][len - 1] == Some('x'));
            assert(crate::ascii::line(rows[r], r, 0).last() == crate::ascii::cell_char(rows[r][len - 1]));
        }
    }
}

/// A single cell dilates to itself and its neighbours inside the grid: five cells, or
/// fewer on the border.
pub proof fn lemma_dilation_single(p: (int, int))
    requires
        in_grid(p),
    ensures
        dilation(set![p]).finite(),
        dilation(set![p]).len() == 1 + (if p.0 == 0 || p.0 == 15 {
            1int
        } else {
            2int
        }) + (if p.1 == 0 || p.1 == 15 {
            1int
        } else {
            2int
        }),
{
    broadcast use vstd::set::group_set_axioms;

    let (r, c) = p;
    let s1 = set![p];
    let s2 = if r > 0 {
        s1.insert((r - 1, c))
    } else {
        s1
    };
    let s3 = if r < 15 {
        s2.insert((r + 1, c))
    } else {
        s2
    };
    let s4 = if c > 0 {
        s3.insert((r, c - 1))
    } else {
        s3
    };
    let s5 = if c < 15 {
        s4.insert((r, c + 1))
    } else {
        s4
    };
    assert(dilation(set![p]) =~= s5);
    assert(s1.len() == 1) by {
        assert(s1 =~= Set::<(int, int)>::empty().insert(p));
    }
    if r > 0 {
        assert(!s1.contains((r - 1, c)));
    }
    if r < 15 {
        assert(!s2.contains((r + 1, c)));
    }
    if c > 0 {
        assert(!s3.contains((r, c - 1)));
    }
    if c < 15 {
        assert(!s4.contains((r, c + 1)));
    }
}

/// Removing the picked cell leaves one cell fewer: removing picked cells one by one
/// empties a bitboard in as many steps as it has cells.
pub proof fn lemma_pick_removal(s: Set<(int, int)>)
    requires
        s.subset_of(grid()),
        s.finite(),
        s != Set::<(int, int)>::empty(),
    ensures
        is_picked_cell(s, picked_cell(s)),
        s.remove(picked_cell(s)).len() == s.len() - 1,
{
    lemma_picked_cell(s);
    vstd::set::axiom_set_remove_len(s, picked_cell(s));
}

} // verus!
