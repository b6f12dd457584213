use vstd::prelude::*;
use crate::types::Solution;
use crate::util::min3_spec;

verus! {

/// The cell `(y, x)` lies in the grid and holds the empty marker `e`.
pub open spec fn cell_empty(g: Seq<Seq<u8>>, e: u8, y: int, x: int) -> bool {
    0 <= y < g.len() && 0 <= x < g[y].len() && g[y][x] == e
}

/// Every cell of the square with top-left corner `(top, left)` and the given
/// side lies in the grid and is empty.
pub open spec fn square_empty(g: Seq<Seq<u8>>, e: u8, top: int, left: int, side: int) -> bool {
    forall|i: int, j: int|
        top <= i < top + side && left <= j < left + side ==> #[trigger] cell_empty(g, e, i, j)
}

/// The grid holds no empty cell.
pub open spec fn grid_full(g: Seq<Seq<u8>>, e: u8) -> bool {
    forall|y: int, x: int| !#[trigger] cell_empty(g, e, y, x)
}

/// `(y1, x1)` is `(y2, x2)` or comes before it, reading row by row.
pub open spec fn comes_before(y1: int, x1: int, y2: int, x2: int) -> bool {
    y1 < y2 || (y1 == y2 && x1 <= x2)
}

/// `sol` is the answer for the grid: a square of empty cells, as large as any
/// in the grid, and the first of that size (topmost, then leftmost).
pub open spec fn is_largest_first(g: Seq<Seq<u8>>, e: u8, sol: Solution) -> bool {
    &&& sol.score >= 1
    &&& square_empty(g, e, sol.y as int, sol.x as int, sol.score as int)
    &&& forall|top: int, left: int, side: int|
        side >= 1 && #[trigger] square_empty(g, e, top, left, side) ==> side <= sol.score
    &&& forall|top: int, left: int| #[trigger]
        square_empty(g, e, top, left, sol.score as int) ==> comes_before(
            sol.y as int,
            sol.x as int,
            top,
            left,
        )
}

/// The side of the largest square of empty cells whose bottom-right corner is
/// `(y, x)`, by the usual recurrence over the three neighbours above and to
/// the left.
pub open spec fn reach(g: Seq<Seq<u8>>, e: u8, y: int, x: int) -> int
    decreases y + x,
{
    if y < 0 || x < 0 || !cell_empty(g, e, y, x) {
        0
    } else if y == 0 || x == 0 {
        1
    } else {
        min3_spec(reach(g, e, y - 1, x), reach(g, e, y, x - 1), reach(g, e, y - 1, x - 1)) + 1
    }
}

/// The cell `(y, x)` has been visited when the sweep stands at `(cy, cx)`.
pub open spec fn scanned(cy: int, cx: int, y: int, x: int) -> bool {
    y < cy || (y == cy && x < cx)
}

/// `best` is the first largest square among those whose bottom-right corner
/// has been visited when the sweep stands at `(cy, cx)`.
pub open spec fn best_upto(g: Seq<Seq<u8>>, e: u8, best: Solution, cy: int, cx: int) -> bool {
    &&& forall|y: int, x: int| scanned(cy, cx, y, x) ==> #[trigger] reach(g, e, y, x) <= best.score
    &&& best.score > 0 ==> {
        &&& scanned(cy, cx, best.bottom(), best.right())
        &&& reach(g, e, best.bottom(), best.right()) == best.score
        &&& forall|y: int, x: int|
            scanned(cy, cx, y, x) && #[trigger] reach(g, e, y, x) == best.score ==> comes_before(
                best.bottom(),
                best.right(),
                y,
                x,
            )
    }
}

/// A square that `reach` promises is there.
pub proof fn lemma_reach_sound(g: Seq<Seq<u8>>, e: u8, y: int, x: int, s: int)
    requires
        1 <= s <= reach(g, e, y, x),
    ensures
        square_empty(g, e, y - s + 1, x - s + 1, s),
    decreases s,
{
    if s >= 2 {
        lemma_reach_sound(g, e, y - 1, x, s - 1);
        lemma_reach_sound(g, e, y, x - 1, s - 1);
        lemma_reach_sound(g, e, y - 1, x - 1, s - 1);
        assert forall|i: int, j: int|
            y - s + 1 <= i < y - s + 1 + s && x - s + 1 <= j < x - s + 1 + s implies #[trigger] cell_empty(
            g,
            e,
            i,
            j,
        ) by {
            if i < y && j < x {
                assert(y - 1 - (s - 1) + 1 <= i < y - 1 - (s - 1) + 1 + (s - 1));
            } else if i < y {
                assert(y - 1 - (s - 1) + 1 <= i < y - 1 - (s - 1) + 1 + (s - 1));
            } else if j < x {
                assert(x - 1 - (s - 1) + 1 <= j < x - 1 - (s - 1) + 1 + (s - 1));
            }
        }
    }
}

/// `reach` misses no square.
pub proof fn lemma_reach_complete(g: Seq<Seq<u8>>, e: u8, y: int, x: int, s: int)
    requires
        s >= 1,
        square_empty(g, e, y - s + 1, x - s + 1, s),
    ensures
        reach(g, e, y, x) >= s,
    decreases s,
{
    assert(cell_empty(g, e, y, x));
    if s >= 2 {
        assert(cell_empty(g, e, y - s + 1, x - s + 1));
        lemma_reach_complete(g, e, y - 1, x, s - 1);
        lemma_reach_complete(g, e, y, x - 1, s - 1);
        lemma_reach_complete(g, e, y - 1, x - 1, s - 1);
    } else {
        lemma_reach_bound(g, e, y, x);
    }
}

/// `reach` is never more than the distance to the grid's top or left edge.
pub proof fn lemma_reach_bound(g: Seq<Seq<u8>>, e: u8, y: int, x: int)
    ensures
        0 <= reach(g, e, y, x),
        reach(g, e, y, x) <= y + 1 || reach(g, e, y, x) == 0,
        reach(g, e, y, x) <= x + 1 || reach(g, e, y, x) == 0,
        reach(g, e, y, x) >= 1 <==> cell_empty(g, e, y, x),
    decreases y + x,
{
    if y > 0 && x > 0 && cell_empty(g, e, y, x) {
        lemma_reach_bound(g, e, y - 1, x);
        lemma_reach_bound(g, e, y, x - 1);
        lemma_reach_bound(g, e, y - 1, x - 1);
    }
    let r = reach(g, e, y, x);
    if r >= 1 {
        lemma_reach_sound(g, e, y, x, r);
        assert(cell_empty(g, e, y - r + 1, x - r + 1));
    }
}

/// A row added below changes nothing above it.
pub proof fn lemma_reach_prefix(g: Seq<Seq<u8>>, row: Seq<u8>, e: u8, y: int, x: int)
    requires
        y < g.len(),
    ensures
        reach(g.push(row), e, y, x) == reach(g, e, y, x),
    decreases y + x,
{
    if y >= 0 && x >= 0 {
        assert(g.push(row)[y] == g[y]);
        if y > 0 && x > 0 {
            lemma_reach_prefix(g, row, e, y - 1, x);
            lemma_reach_prefix(g, row, e, y, x - 1);
            lemma_reach_prefix(g, row, e, y - 1, x - 1);
        }
    }
}

/// What the sweep holds after the last row is the answer for the grid, or
/// the grid is full.
pub proof fn lemma_best_is_answer(g: Seq<Seq<u8>>, e: u8, best: Solution)
    requires
        best_upto(g, e, best, g.len() as int, 0),
    ensures
        best.score == 0 ==> grid_full(g, e),
        best.score > 0 ==> !grid_full(g, e) && is_largest_first(g, e, best),
{
    assert forall|y: int, x: int| cell_empty(g, e, y, x) implies best.score >= 1 by {
        lemma_reach_bound(g, e, y, x);
        assert(scanned(g.len() as int, 0, y, x));
    }
    if best.score > 0 {
        let by = best.bottom();
        let bx = best.right();
        lemma_reach_bound(g, e, by, bx);
        assert(cell_empty(g, e, by, bx));
        lemma_reach_sound(g, e, by, bx, best.score as int);
        assert forall|top: int, left: int, side: int|
            side >= 1 && #[trigger] square_empty(g, e, top, left, side) implies side
            <= best.score by {
            lemma_reach_complete(g, e, top + side - 1, left + side - 1, side);
            assert(cell_empty(g, e, top + side - 1, left + side - 1));
            assert(scanned(g.len() as int, 0, top + side - 1, left + side - 1));
        }
        assert forall|top: int, left: int| #[trigger]
            square_empty(g, e, top, left, best.score as int) implies comes_before(
            best.y as int,
            best.x as int,
            top,
            left,
        ) by {
            let s = best.score as int;
            lemma_reach_complete(g, e, top + s - 1, left + s - 1, s);
            assert(cell_empty(g, e, top + s - 1, left + s - 1));
            assert(scanned(g.len() as int, 0, top + s - 1, left + s - 1));
        }
    }
}

} // verus!
