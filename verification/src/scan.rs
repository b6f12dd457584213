use vstd::prelude::*;
use vstd::slice::slice_subrange;
use crate::header::{read_header, read_header_outcome};
use crate::scanner::{
    answers, first_row_outcome, lemma_answer_is_largest_square, lemma_single_empty_cell, row_valid,
    Scanner,
};
use crate::square::{cell_empty, grid_full, square_empty};
use crate::types::{BSQError, Info, Solution};

verus! {

/// The length of the line that starts at `from`, its newline included; the
/// last line of the input may lack one.
pub open spec fn line_len(s: Seq<u8>, from: int) -> int
    decreases s.len() - from,
{
    if from < 0 || from >= s.len() {
        0
    } else if s[from] == 10u8 {
        1
    } else {
        1 + line_len(s, from + 1)
    }
}

/// Where row `k` starts, in an input whose first row starts at `e0` and whose
/// rows hold `w` cells and a newline.
pub open spec fn row_start(e0: int, w: int, k: int) -> int {
    e0 + k * (w + 1)
}

/// The cells of row `k`.
pub open spec fn row_data(s: Seq<u8>, e0: int, w: int, k: int) -> Seq<u8> {
    s.subrange(row_start(e0, w, k), row_start(e0, w, k) + w)
}

/// What framing the row at `p` gives: the place after the row's newline, or
/// why there is none. The input must hold the row's `w` cells and one byte
/// more, and that byte must be a newline.
pub open spec fn row_frame(s: Seq<u8>, p: int, w: int) -> Result<usize, BSQError> {
    if p + w + 1 > s.len() {
        Err(BSQError::IOError)
    } else if s[p + w] != 10u8 {
        Err(BSQError::InvalidEndl)
    } else {
        Ok((p + w + 1) as usize)
    }
}

/// What is wrong with row `k`, if anything: the input ends before the row and
/// its newline are complete, the byte after the cells is no newline, or a
/// cell is neither marker; looked for in that order.
pub open spec fn row_error(s: Seq<u8>, info: Info, e0: int, k: int) -> Option<BSQError> {
    match row_frame(s, row_start(e0, info.width as int, k), info.width as int) {
        Err(err) => Some(err),
        Ok(_) => if !row_valid(
            row_data(s, e0, info.width as int, k),
            info.char_empty,
            info.char_full,
        ) {
            Some(BSQError::InvalidChar)
        } else {
            None
        },
    }
}

/// The first row from `k` on with something wrong, or the height where there
/// is none.
pub open spec fn first_bad_row(s: Seq<u8>, info: Info, e0: int, k: int) -> int
    decreases info.height - k,
{
    if k >= info.height {
        info.height as int
    } else if row_error(s, info, e0, k) is Some {
        k
    } else {
        first_bad_row(s, info, e0, k + 1)
    }
}

/// The grid that the input holds once its header and first row have been
/// accepted, or the first thing wrong with the rest: a row, taken in order,
/// then bytes after the last row.
pub open spec fn rows_outcome(s: Seq<u8>, info: Info, e0: int) -> Result<
    (Info, Seq<Seq<u8>>),
    BSQError,
> {
    let k = first_bad_row(s, info, e0, 1);
    if k < info.height {
        Err(row_error(s, info, e0, k).unwrap())
    } else if row_start(e0, info.width as int, info.height as int) < s.len() {
        Err(BSQError::TrailingChars)
    } else {
        Ok((info, Seq::new(info.height as nat, |y: int| row_data(s, e0, info.width as int, y))))
    }
}

/// The grid that the input holds, or the first thing wrong with it: the
/// header, the first row, the rows after it in order, then bytes after the
/// last row.
pub open spec fn grid_outcome(s: Seq<u8>) -> Result<(Info, Seq<Seq<u8>>), BSQError> {
    let e0 = line_len(s, 0);
    let header = s.subrange(0, e0);
    let first = s.subrange(e0, e0 + line_len(s, e0));
    match read_header_outcome(header, first) {
        Err(err) => Err(err),
        Ok(info) => match first_row_outcome(first, info) {
            Err(err) => Err(err),
            Ok(_) => rows_outcome(s, info, e0),
        },
    }
}

/// `res` is what scanning the input gives: the first thing wrong with it, or
/// the first largest square of empty cells of its grid, or `MapFull`.
pub open spec fn scan_outcome(s: Seq<u8>, res: Result<Solution, BSQError>) -> bool {
    match grid_outcome(s) {
        Err(err) => res == Err::<Solution, BSQError>(err),
        Ok((info, g)) => answers(g, info.char_empty, res),
    }
}

/// The end of the line that starts at `from`: the place after its newline, or
/// the end of the input.
pub fn read_line(data: &[u8], from: usize) -> (end: usize)
    requires
        from <= data@.len(),
    ensures
        end == from + line_len(data@, from as int),
        from <= end <= data@.len(),
{
    let mut i: usize = from;
    while i < data.len() && data[i] != 10u8
        invariant
            from <= i <= data@.len(),
            line_len(data@, from as int) == (i - from) + line_len(data@, i as int),
        decreases data@.len() - i,
    {
        i += 1;
    }
    if i < data.len() {
        i += 1;
    }
    i
}

/// Judges the byte found after a row's cells: `None` says that the input
/// ended there.
pub fn read_endl(next: Option<u8>) -> (res: Result<(), BSQError>)
    ensures
        res == (match next {
            None => Err::<(), BSQError>(BSQError::IOError),
            Some(c) => if c == 10u8 {
                Ok(())
            } else {
                Err(BSQError::InvalidEndl)
            },
        }),
{
    match next {
        None => Err(BSQError::IOError),
        Some(c) => if c == 10u8 {
            Ok(())
        } else {
            Err(BSQError::InvalidEndl)
        },
    }
}

/// Frames the row that starts at `pos`: `width` cells and a newline.
pub fn read_row(data: &[u8], pos: usize, width: usize) -> (res: Result<usize, BSQError>)
    requires
        pos <= data@.len(),
    ensures
        res == row_frame(data@, pos as int, width as int),
        res matches Ok(end) ==> end == pos + width + 1 && end <= data@.len(),
{
    if data.len() - pos < width {
        return Err(BSQError::IOError);
    }
    let end = pos + width;
    let next = if end < data.len() {
        Some(data[end])
    } else {
        None
    };
    read_endl(next)?;
    Ok(end + 1)
}

/// Judges what is left of the input after the last row.
pub fn check_eof(left: usize) -> (res: Result<(), BSQError>)
    ensures
        left == 0 ==> res is Ok,
        left != 0 ==> res == Err::<(), BSQError>(BSQError::TrailingChars),
{
    if left == 0 {
        Ok(())
    } else {
        Err(BSQError::TrailingChars)
    }
}

/// Each row starts one row's length after the one before it.
proof fn lemma_row_start_step(e0: int, w: int, k: int)
    ensures
        row_start(e0, w, k + 1) == row_start(e0, w, k) + w + 1,
        row_start(e0, w, 0) == e0,
{
    assert((k + 1) * (w + 1) == k * (w + 1) + (w + 1)) by (nonlinear_arith);
    assert(0 * (w + 1) == 0) by (nonlinear_arith);
}

/// Scans a whole map held in memory.
pub fn scan(data: &[u8]) -> (res: Result<Solution, BSQError>)
    ensures
        scan_outcome(data@, res),
{
    let e0 = read_line(data, 0);
    let e1 = read_line(data, e0);
    let header = slice_subrange(data, 0, e0);
    let first = slice_subrange(data, e0, e1);
    let info = match read_header(header, first) {
        Err(err) => {
            return Err(err);
        },
        Ok(info) => info,
    };
    let mut sc = match Scanner::start(info, first) {
        Err(err) => {
            return Err(err);
        },
        Ok(sc) => sc,
    };
    let width = info.width;
    let ghost s = data@;
    let ghost w = width as int;
    let mut y: usize = 1;
    let mut pos: usize = e1;
    proof {
        lemma_row_start_step(e0 as int, w, 0);
        assert(first@.subrange(0, w) =~= row_data(s, e0 as int, w, 0));
        assert(sc.rows() =~= Seq::new(1, |k: int| row_data(s, e0 as int, w, k)));
        assert(grid_outcome(s) == rows_outcome(s, info, e0 as int));
    }
    while y < info.height
        invariant
            s == data@,
            grid_outcome(s) == rows_outcome(s, info, e0 as int),
            w == width == info.width,
            info.wf(),
            1 <= y <= info.height,
            pos == row_start(e0 as int, w, y as int),
            pos <= data@.len(),
            sc.wf(),
            sc.info() == info,
            sc.rows() == Seq::new(y as nat, |k: int| row_data(s, e0 as int, w, k)),
            first_bad_row(s, info, e0 as int, 1) == first_bad_row(s, info, e0 as int, y as int),
        decreases info.height - y,
    {
        proof {
            lemma_row_start_step(e0 as int, w, y as int);
        }
        let end = match read_row(data, pos, width) {
            Err(err) => {
                return Err(err);
            },
            Ok(end) => end,
        };
        let row = slice_subrange(data, pos, end - 1);
        match sc.feed_row(row) {
            Err(err) => {
                return Err(err);
            },
            Ok(_) => {},
        }
        proof {
            assert(sc.rows() =~= Seq::new((y + 1) as nat, |k: int| row_data(s, e0 as int, w, k)));
        }
        pos = end;
        y += 1;
    }
    match check_eof(data.len() - pos) {
        Err(err) => {
            return Err(err);
        },
        Ok(_) => {},
    }
    sc.finish()
}

/// From `k` on no row before the first bad one has anything wrong.
proof fn lemma_rows_before_first_bad(s: Seq<u8>, info: Info, e0: int, k: int, j: int)
    requires
        k <= j < first_bad_row(s, info, e0, k),
    ensures
        j < info.height,
        row_error(s, info, e0, j) is None,
    decreases info.height - k,
{
    if k < info.height && row_error(s, info, e0, k) is None && k < j {
        lemma_rows_before_first_bad(s, info, e0, k + 1, j);
    }
}

/// The grid of an accepted input has the height that the header gives; its
/// rows are the input's rows in the order of the input, and each has the
/// width of the first and holds only the two markers.
pub proof fn lemma_grid_is_valid(s: Seq<u8>, info: Info, g: Seq<Seq<u8>>)
    requires
        grid_outcome(s) == Ok::<(Info, Seq<Seq<u8>>), BSQError>((info, g)),
    ensures
        info.wf(),
        g.len() == info.height,
        forall|y: int|
            0 <= y < g.len() ==> #[trigger] g[y] == row_data(
                s,
                line_len(s, 0),
                info.width as int,
                y,
            ),
        forall|y: int|
            0 <= y < g.len() ==> (#[trigger] g[y]).len() == info.width && row_valid(
                g[y],
                info.char_empty,
                info.char_full,
            ),
{
    let e0 = line_len(s, 0);
    let w = info.width as int;
    let first = s.subrange(e0, e0 + line_len(s, e0));
    lemma_line_len_bound(s, 0);
    lemma_line_len_bound(s, e0);
    assert forall|y: int| 0 <= y < g.len() implies (#[trigger] g[y]).len() == info.width
        && row_valid(g[y], info.char_empty, info.char_full) by {
        if y == 0 {
            lemma_row_start_step(e0, w, 0);
            assert(g[0] =~= first.subrange(0, w));
        } else {
            lemma_rows_before_first_bad(s, info, e0, 1, y);
            lemma_row_start_nonneg(e0, w, y);
        }
    }
}

/// Bytes added after a line's newline do not change the line.
proof fn lemma_line_len_append(s: Seq<u8>, t: Seq<u8>, from: int)
    requires
        0 <= from <= s.len(),
        line_len(s, from) > 0,
        s[from + line_len(s, from) - 1] == 10u8,
    ensures
        line_len(s + t, from) == line_len(s, from),
    decreases s.len() - from,
{
    lemma_line_len_bound(s, from);
    assert((s + t)[from] == s[from]);
    if s[from] != 10u8 {
        lemma_line_len_append(s, t, from + 1);
    }
}

/// Where no row from `k` on has anything wrong, there is no first bad row.
proof fn lemma_no_bad_rows(s: Seq<u8>, info: Info, e0: int, k: int)
    requires
        forall|j: int| k <= j < info.height ==> row_error(s, info, e0, j) is None,
    ensures
        first_bad_row(s, info, e0, k) >= info.height,
    decreases info.height - k,
{
    if k < info.height {
        lemma_no_bad_rows(s, info, e0, k + 1);
    }
}

/// An accepted input is used up to its last byte: with anything added after
/// it, it is refused for its trailing bytes. (Both inputs are byte buffers,
/// so their lengths fit a `usize`.)
pub proof fn lemma_trailing_bytes_refused(s: Seq<u8>, t: Seq<u8>)
    requires
        grid_outcome(s) is Ok,
        t.len() > 0,
        s.len() + t.len() <= usize::MAX,
    ensures
        grid_outcome(s + t) == Err::<(Info, Seq<Seq<u8>>), BSQError>(BSQError::TrailingChars),
{
    let (info, g) = grid_outcome(s)->Ok_0;
    let e0 = line_len(s, 0);
    let l1 = line_len(s, e0);
    let w = info.width as int;
    let s2 = s + t;
    lemma_line_len_bound(s, 0);
    lemma_line_len_bound(s, e0);
    let header = s.subrange(0, e0);
    let first = s.subrange(e0, e0 + l1);
    assert(header[e0 - 1] == s[e0 - 1]);
    lemma_line_len_append(s, t, 0);
    assert(first.len() == l1);
    assert(read_header_outcome(header, first) == Ok::<Info, BSQError>(info));
    assert(first_row_outcome(first, info) is Ok);
    assert(w == l1 - 1);
    assert(first[w] == s[e0 + w]);
    lemma_line_len_append(s, t, e0);
    assert(s2.subrange(0, e0) =~= header);
    assert(s2.subrange(e0, e0 + l1) =~= first);
    assert forall|j: int| 1 <= j < info.height implies row_error(s2, info, e0, j) is None by {
        lemma_rows_before_first_bad(s, info, e0, 1, j);
        lemma_row_start_nonneg(e0, w, j);
        assert(row_data(s2, e0, w, j) =~= row_data(s, e0, w, j));
        assert(s2[row_start(e0, w, j) + w] == s[row_start(e0, w, j) + w]);
    }
    lemma_no_bad_rows(s2, info, e0, 1);
    lemma_row_start_step(e0, w, info.height - 1);
    if info.height >= 2 {
        lemma_rows_before_first_bad(s, info, e0, 1, info.height - 1);
    }
    assert(row_start(e0, w, info.height as int) == s.len());
}

/// The square that scanning gives lies within the grid that the input holds,
/// covers empty cells only, and no square of empty cells in that grid has a
/// longer side.
pub proof fn lemma_scan_gives_largest_square(
    s: Seq<u8>,
    info: Info,
    g: Seq<Seq<u8>>,
    sol: Solution,
)
    requires
        grid_outcome(s) == Ok::<(Info, Seq<Seq<u8>>), BSQError>((info, g)),
        scan_outcome(s, Ok(sol)),
    ensures
        sol.score >= 1,
        sol.y + sol.score <= info.height,
        sol.x + sol.score <= info.width,
        square_empty(g, info.char_empty, sol.y as int, sol.x as int, sol.score as int),
        forall|top: int, left: int, side: int|
            side > sol.score ==> !#[trigger] square_empty(g, info.char_empty, top, left, side),
{
    lemma_grid_is_valid(s, info, g);
    lemma_answer_is_largest_square(g, info.char_empty, sol);
    assert(g[sol.y as int].len() == info.width);
}

/// An input whose grid holds no empty cell is refused as full.
pub proof fn lemma_scan_refuses_full_grid(
    s: Seq<u8>,
    info: Info,
    g: Seq<Seq<u8>>,
    res: Result<Solution, BSQError>,
)
    requires
        grid_outcome(s) == Ok::<(Info, Seq<Seq<u8>>), BSQError>((info, g)),
        grid_full(g, info.char_empty),
        scan_outcome(s, res),
    ensures
        res == Err::<Solution, BSQError>(BSQError::MapFull),
{
}

/// For an input whose grid holds exactly one empty cell, scanning gives that
/// cell as a square of side one.
pub proof fn lemma_scan_single_empty_cell(
    s: Seq<u8>,
    info: Info,
    g: Seq<Seq<u8>>,
    y: int,
    x: int,
    res: Result<Solution, BSQError>,
)
    requires
        grid_outcome(s) == Ok::<(Info, Seq<Seq<u8>>), BSQError>((info, g)),
        cell_empty(g, info.char_empty, y, x),
        forall|i: int, j: int| #[trigger] cell_empty(g, info.char_empty, i, j) ==> i == y && j == x,
        scan_outcome(s, res),
    ensures
        res matches Ok(sol) && sol.y == y && sol.x == x && sol.score == 1,
{
    lemma_single_empty_cell(g, info.char_empty, y, x, res);
}

/// Scanning is a function of the input's bytes: what it gives for an input,
/// it gives each time.
pub proof fn lemma_scan_is_function(
    s: Seq<u8>,
    a: Result<Solution, BSQError>,
    b: Result<Solution, BSQError>,
)
    requires
        scan_outcome(s, a),
        scan_outcome(s, b),
    ensures
        a == b,
{
}

/// A line ends within the input.
proof fn lemma_line_len_bound(s: Seq<u8>, from: int)
    requires
        0 <= from <= s.len(),
    ensures
        0 <= line_len(s, from) <= s.len() - from,
    decreases s.len() - from,
{
    if from < s.len() && s[from] != 10u8 {
        lemma_line_len_bound(s, from + 1);
    }
}

/// No row starts before the first.
proof fn lemma_row_start_nonneg(e0: int, w: int, k: int)
    requires
        0 <= e0,
        0 <= w,
        0 <= k,
    ensures
        e0 <= row_start(e0, w, k),
{
    assert(0 <= k * (w + 1)) by (nonlinear_arith)
        requires
            0 <= k,
            0 <= w,
    ;
}

} // verus!
