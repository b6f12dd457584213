use vstd::prelude::*;
use crate::square::{
    best_upto, cell_empty, grid_full, is_largest_first, lemma_best_is_answer, lemma_reach_bound,
    lemma_reach_prefix, reach, square_empty,
};
use crate::types::{BSQError, Info, Solution};
use crate::util::{assert_error, min3};

verus! {

/// Every byte of the row is one of the two markers.
pub open spec fn row_valid(row: Seq<u8>, e: u8, f: u8) -> bool {
    forall|x: int| 0 <= x < row.len() ==> row[x] == e || row[x] == f
}

/// What the first line of the grid gives: the line holds the row's cells and
/// one byte more, which must be a newline. The cells are looked at first.
pub open spec fn first_row_outcome(line: Seq<u8>, info: Info) -> Result<(), BSQError> {
    if !row_valid(line.subrange(0, info.width as int), info.char_empty, info.char_full) {
        Err(BSQError::InvalidCharFirstLine)
    } else if line[info.width as int] != 10u8 {
        Err(BSQError::InvalidEndl)
    } else {
        Ok(())
    }
}

/// `res` is what a finished sweep over the grid `g` reports.
pub open spec fn answers(g: Seq<Seq<u8>>, e: u8, res: Result<Solution, BSQError>) -> bool {
    match res {
        Ok(sol) => !grid_full(g, e) && is_largest_first(g, e, sol),
        Err(err) => grid_full(g, e) && err == BSQError::MapFull,
    }
}

/// A grid without an empty cell has no answer but `MapFull`.
pub proof fn lemma_full_grid_is_refused(g: Seq<Seq<u8>>, e: u8, res: Result<Solution, BSQError>)
    requires
        grid_full(g, e),
        answers(g, e, res),
    ensures
        res == Err::<Solution, BSQError>(BSQError::MapFull),
{
}

/// The answer lies within the grid, holds empty cells only, and no square of
/// empty cells in the grid has a longer side.
pub proof fn lemma_answer_is_largest_square(g: Seq<Seq<u8>>, e: u8, sol: Solution)
    requires
        answers(g, e, Ok(sol)),
    ensures
        sol.score >= 1,
        sol.y + sol.score <= g.len(),
        forall|i: int| sol.y <= i < sol.y + sol.score ==> sol.x + sol.score <= (#[trigger] g[i]).len(),
        forall|i: int, j: int|
            sol.y <= i < sol.y + sol.score && sol.x <= j < sol.x + sol.score ==> #[trigger] g[i][j]
                == e,
        forall|top: int, left: int, side: int|
            side > sol.score ==> !#[trigger] square_empty(g, e, top, left, side),
{
    assert(cell_empty(g, e, sol.y + sol.score - 1, sol.x + sol.score - 1));
    assert forall|i: int| sol.y <= i < sol.y + sol.score implies sol.x + sol.score <= (
    #[trigger] g[i]).len() by {
        assert(cell_empty(g, e, i, sol.x + sol.score - 1));
    }
    assert forall|i: int, j: int|
        sol.y <= i < sol.y + sol.score && sol.x <= j < sol.x + sol.score implies #[trigger] g[i][j]
        == e by {
        assert(cell_empty(g, e, i, j));
    }
}

/// In a grid with exactly one empty cell the answer is that cell, as a square
/// of side one.
pub proof fn lemma_single_empty_cell(
    g: Seq<Seq<u8>>,
    e: u8,
    y: int,
    x: int,
    res: Result<Solution, BSQError>,
)
    requires
        cell_empty(g, e, y, x),
        forall|i: int, j: int| #[trigger] cell_empty(g, e, i, j) ==> i == y && j == x,
        answers(g, e, res),
    ensures
        res matches Ok(sol) && sol.y == y && sol.x == x && sol.score == 1,
{
    match res {
        Ok(sol) => {
            assert(cell_empty(g, e, sol.y as int, sol.x as int));
            if sol.score >= 2 {
                assert(cell_empty(g, e, sol.y + 1, sol.x as int));
            }
        },
        Err(_) => {},
    }
}

/// A grid has one answer.
pub proof fn lemma_answer_unique(
    g: Seq<Seq<u8>>,
    e: u8,
    a: Result<Solution, BSQError>,
    b: Result<Solution, BSQError>,
)
    requires
        answers(g, e, a),
        answers(g, e, b),
    ensures
        a == b,
{
}

/// The sweep over the rows of a grid, one row at a time. It keeps, for each
/// column, the side of the largest square of empty cells that ends there in
/// the last row seen, and the best square so far.
pub struct Scanner {
    info: Info,
    sizes: Vec<usize>,
    best: Solution,
    count: usize,
    rows: Ghost<Seq<Seq<u8>>>,
}

impl Scanner {
    /// The dimensions and markers the sweep was started with.
    pub closed spec fn info(&self) -> Info {
        self.info
    }

    /// The rows seen so far, in the order in which they were given.
    pub closed spec fn rows(&self) -> Seq<Seq<u8>> {
        self.rows@
    }

    /// The state describes the rows seen so far.
    pub closed spec fn wf(&self) -> bool {
        &&& self.info.wf()
        &&& self.sizes@.len() == self.info.width
        &&& self.count == self.rows@.len()
        &&& 1 <= self.count <= self.info.height
        &&& forall|y: int|
            0 <= y < self.rows@.len() ==> (#[trigger] self.rows@[y]).len() == self.info.width
        &&& forall|x: int|
            0 <= x < self.info.width ==> #[trigger] self.sizes@[x] == reach(
                self.rows@,
                self.info.char_empty,
                self.count - 1,
                x,
            )
        &&& best_upto(self.rows@, self.info.char_empty, self.best, self.count as int, 0)
    }

    /// Starts a sweep with the first line of the grid.
    pub fn start(info: Info, line: &[u8]) -> (res: Result<Scanner, BSQError>)
        requires
            info.wf(),
            line@.len() == info.width + 1,
        ensures
            match res {
                Ok(sc) => {
                    &&& first_row_outcome(line@, info) is Ok
                    &&& sc.wf()
                    &&& sc.info() == info
                    &&& sc.rows() == seq![line@.subrange(0, info.width as int)]
                },
                Err(err) => first_row_outcome(line@, info) == Err::<(), BSQError>(err),
            },
    {
        let ghost data = line@.subrange(0, info.width as int);
        let ghost g = seq![data];
        let ghost e = info.char_empty;
        let mut best = Solution::default();
        let mut sizes: Vec<usize> = Vec::with_capacity(info.width);
        let mut x: usize = 0;
        while x < info.width
            invariant
                x <= info.width,
                line@.len() == info.width + 1,
                data == line@.subrange(0, info.width as int),
                g == seq![data],
                e == info.char_empty,
                sizes@.len() == x,
                forall|j: int| 0 <= j < x ==> #[trigger] sizes@[j] == reach(g, e, 0, j),
                forall|j: int|
                    0 <= j < x ==> data[j] == info.char_empty || data[j] == info.char_full,
                best_upto(g, e, best, 0, x as int),
            decreases info.width - x,
        {
            let c = line[x];
            assert(c == data[x as int]);
            assert(g[0] == data);
            if c == info.char_empty {
                sizes.push(1);
                if best.score == 0 {
                    best = Solution::new(0, x, 1);
                }
            } else if c == info.char_full {
                sizes.push(0);
            } else {
                return Err(BSQError::InvalidCharFirstLine);
            }
            x += 1;
        }
        assert_error(line[info.width] == 10u8, BSQError::InvalidEndl)?;
        assert(g[0] == data);
        assert(best_upto(g, e, best, 1, 0));
        Ok(Scanner { info, sizes, best, count: 1, rows: Ghost(g) })
    }

    /// Takes the next row of the grid.
    ///
    /// A row with a byte that is neither marker is refused, and the sweep
    /// cannot go on after that.
    pub fn feed_row(&mut self, row: &[u8]) -> (res: Result<(), BSQError>)
        requires
            old(self).wf(),
            row@.len() == old(self).info().width,
            old(self).rows().len() < old(self).info().height,
        ensures
            final(self).info() == old(self).info(),
            row_valid(row@, old(self).info().char_empty, old(self).info().char_full) ==> {
                &&& res is Ok
                &&& final(self).wf()
                &&& final(self).rows() == old(self).rows().push(row@)
            },
            !row_valid(row@, old(self).info().char_empty, old(self).info().char_full) ==> res
                == Err::<(), BSQError>(BSQError::InvalidChar),
    {
        let ghost g0 = self.rows@;
        let ghost g = g0.push(row@);
        let ghost e = self.info.char_empty;
        let y = self.count;
        let width = self.info.width;
        proof {
            assert forall|yy: int, xx: int| yy < y implies reach(g, e, yy, xx) == reach(
                g0,
                e,
                yy,
                xx,
            ) by {
                lemma_reach_prefix(g0, row@, e, yy, xx);
            }
            assert(best_upto(g, e, self.best, y as int, 0));
        }
        let mut sc: usize = 0;
        let mut prev_up: usize = 0;
        let mut x: usize = 0;
        while x < width
            invariant
                self.info == old(self).info,
                self.count == old(self).count,
                self.rows == old(self).rows,
                self.info.wf(),
                width == self.info.width,
                e == self.info.char_empty,
                g0 == self.rows@,
                g == g0.push(row@),
                y == self.count,
                1 <= y == g0.len(),
                row@.len() == width,
                x <= width,
                self.sizes@.len() == width,
                forall|j: int| 0 <= j < x ==> #[trigger] self.sizes@[j] == reach(g, e, y as int, j),
                forall|j: int|
                    x <= j < width ==> #[trigger] self.sizes@[j] == reach(g, e, y - 1, j),
                sc == reach(g, e, y as int, x - 1),
                prev_up == reach(g, e, y - 1, x - 1),
                best_upto(g, e, self.best, y as int, x as int),
                forall|j: int|
                    0 <= j < x ==> row@[j] == self.info.char_empty || row@[j]
                        == self.info.char_full,
            decreases width - x,
        {
            let c = row[x];
            assert(g[y as int] == row@);
            if c == self.info.char_empty {
                let up = self.sizes[x];
                proof {
                    lemma_reach_bound(g, e, y as int, x - 1);
                    lemma_reach_bound(g, e, y as int, x as int);
                }
                sc = min3(sc, prev_up, up) + 1;
                self.sizes.set(x, sc);
                prev_up = up;
                if sc > self.best.score {
                    self.best = Solution::new(y, x, sc);
                }
            } else if c == self.info.char_full {
                prev_up = self.sizes[x];
                self.sizes.set(x, 0);
                sc = 0;
            } else {
                return Err(BSQError::InvalidChar);
            }
            x += 1;
        }
        self.count = y + 1;
        self.rows = Ghost(g);
        proof {
            assert(g[y as int] == row@);
            assert(best_upto(g, e, self.best, y + 1, 0));
        }
        Ok(())
    }

    /// Ends the sweep: the first largest square of empty cells among the rows
    /// seen, or `MapFull` where they hold no empty cell.
    pub fn finish(&self) -> (res: Result<Solution, BSQError>)
        requires
            self.wf(),
        ensures
            answers(self.rows(), self.info().char_empty, res),
    {
        proof {
            lemma_best_is_answer(self.rows@, self.info.char_empty, self.best);
        }
        if self.best.score == 0 {
            return Err(BSQError::MapFull);
        }
        Ok(self.best)
    }
}

} // verus!
