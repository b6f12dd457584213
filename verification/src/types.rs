use vstd::prelude::*;

verus! {

/// Why a map was rejected.
#[derive(Clone, Copy, Debug, PartialEq, Eq, Structural)]
pub enum BSQError {
    /// The input ended before a declared row, or its newline, was complete.
    IOError,
    /// The header's height is missing, zero or too large, or the header does
    /// not hold exactly four bytes after its digits.
    InvalidHeader,
    /// A row after the first holds a byte that is neither marker.
    InvalidChar,
    /// The first row holds a byte that is neither marker.
    InvalidCharFirstLine,
    /// A newline was expected and another byte was found.
    InvalidEndl,
    /// The first row holds no cell.
    EmptyLine,
    /// Bytes follow the last declared row.
    TrailingChars,
    /// The map is valid and holds no empty cell.
    MapFull,
}

/// A square of empty cells: its top-left corner and the length of its side.
/// A `score` of zero stands for "no square".
#[derive(Clone, Copy, Debug, PartialEq, Eq, Structural)]
pub struct Solution {
    pub y: usize,
    pub x: usize,
    pub score: usize,
}

/// What the header and the first row say of a map.
#[derive(Clone, Copy, Debug, PartialEq, Eq, Structural)]
pub struct Info {
    pub width: usize,
    pub height: usize,
    pub char_empty: u8,
    pub char_full: u8,
}

impl Solution {
    /// The square of side `score` whose bottom-right corner is the cell
    /// `(y, x)`, given by its top-left corner.
    pub fn new(y: usize, x: usize, score: usize) -> (s: Solution)
        requires
            1 <= score,
            score - 1 <= y,
            score - 1 <= x,
        ensures
            s.y == y - (score - 1),
            s.x == x - (score - 1),
            s.score == score,
    {
        Solution { y: y - (score - 1), x: x - (score - 1), score: score }
    }

    /// The row of the square's bottom-right corner.
    pub open spec fn bottom(self) -> int {
        self.y + self.score - 1
    }

    /// The column of the square's bottom-right corner.
    pub open spec fn right(self) -> int {
        self.x + self.score - 1
    }
}

impl Default for Solution {
    fn default() -> (s: Solution)
        ensures
            s == (Solution { y: 0, x: 0, score: 0 }),
    {
        Solution { y: 0, x: 0, score: 0 }
    }
}

impl Info {
    /// A map has at least one row and one column.
    pub open spec fn wf(self) -> bool {
        self.width >= 1 && self.height >= 1
    }
}

impl Default for Info {
    fn default() -> (i: Info)
        ensures
            i == (Info { width: 0, height: 0, char_empty: 0, char_full: 0 }),
    {
        Info { width: 0, height: 0, char_empty: 0, char_full: 0 }
    }
}

} // verus!
