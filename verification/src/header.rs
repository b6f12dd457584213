use vstd::prelude::*;
use crate::types::{BSQError, Info};
use crate::util::assert_error;

verus! {

/// The byte is an ASCII decimal digit.
pub open spec fn is_digit(c: u8) -> bool {
    48 <= c <= 57
}

/// The length of the run of digits that starts at `from`.
pub open spec fn digit_run(s: Seq<u8>, from: int) -> int
    decreases s.len() - from,
{
    if 0 <= from < s.len() && is_digit(s[from]) {
        1 + digit_run(s, from + 1)
    } else {
        0
    }
}

/// The number that the first `n` bytes spell in decimal.
pub open spec fn decimal(s: Seq<u8>, n: int) -> int
    decreases n,
{
    if n <= 0 {
        0
    } else {
        decimal(s, n - 1) * 10 + (s[n - 1] - 48)
    }
}

/// What the header line gives: the height and the two markers, with the width
/// still unknown (zero). After the digits the line holds exactly the empty
/// marker, the full marker, a display marker and a newline. The height is
/// positive and fits a `usize`.
pub open spec fn header_outcome(line: Seq<u8>) -> Result<Info, BSQError> {
    let len = digit_run(line, 0);
    let val = decimal(line, len);
    if !(0 < val <= usize::MAX && len == line.len() - 4) {
        Err(BSQError::InvalidHeader)
    } else if line[len + 3] != 10u8 {
        Err(BSQError::InvalidEndl)
    } else {
        Ok(Info { width: 0, height: val as usize, char_empty: line[len], char_full: line[len + 1] })
    }
}

/// What the header line and the first line of the grid give together: the
/// width is the first line's length without its newline.
pub open spec fn read_header_outcome(header: Seq<u8>, first: Seq<u8>) -> Result<Info, BSQError> {
    match header_outcome(header) {
        Err(err) => Err(err),
        Ok(info) => if first.len() <= 1 {
            Err(BSQError::EmptyLine)
        } else {
            Ok(
                Info {
                    width: (first.len() - 1) as usize,
                    height: info.height,
                    char_empty: info.char_empty,
                    char_full: info.char_full,
                },
            )
        },
    }
}

/// Reads the header line, newline included.
pub fn parse_header(line: &[u8]) -> (res: Result<Info, BSQError>)
    ensures
        res == header_outcome(line@),
{
    let mut val: usize = 0;
    let mut too_large = false;
    let mut len: usize = 0;
    while len < line.len() && line[len] >= 48u8 && line[len] <= 57u8
        invariant
            len <= line@.len(),
            digit_run(line@, 0) == len + digit_run(line@, len as int),
            !too_large ==> val == decimal(line@, len as int),
            too_large ==> decimal(line@, len as int) > usize::MAX,
            decimal(line@, len as int) >= 0,
        decreases line@.len() - len,
    {
        let d: usize = (line[len] - 48u8) as usize;
        assert(decimal(line@, len + 1) == decimal(line@, len as int) * 10 + d);
        if !too_large {
            if val > (usize::MAX - d) / 10 {
                too_large = true;
            } else {
                val = val * 10 + d;
            }
        }
        len += 1;
    }
    assert_error(
        !too_large && val > 0 && line.len() >= 4 && len == line.len() - 4,
        BSQError::InvalidHeader,
    )?;
    assert_error(line[len + 3] == 10u8, BSQError::InvalidEndl)?;
    Ok(Info { width: 0, height: val, char_empty: line[len], char_full: line[len + 1] })
}

/// Reads the header line and takes the width from the first line of the grid.
pub fn read_header(header: &[u8], first: &[u8]) -> (res: Result<Info, BSQError>)
    ensures
        res == read_header_outcome(header@, first@),
        res matches Ok(info) ==> info.wf(),
{
    let parsed = parse_header(header);
    match parsed {
        Err(err) => Err(err),
        Ok(info) => {
            assert_error(first.len() > 1, BSQError::EmptyLine)?;
            Ok(
                Info {
                    width: first.len() - 1,
                    height: info.height,
                    char_empty: info.char_empty,
                    char_full: info.char_full,
                },
            )
        },
    }
}

} // verus!
