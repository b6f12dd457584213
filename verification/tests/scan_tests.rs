use bsq::{scan, BSQError, Solution};

fn sol(y: usize, x: usize, score: usize) -> Solution {
    Solution { y, x, score }
}

/// The first largest square of `empty` cells, found by trying every square.
fn brute_force(rows: &[Vec<u8>], empty: u8) -> Option<Solution> {
    let height = rows.len();
    let width = rows[0].len();
    let mut side = if height < width { height } else { width };
    while side >= 1 {
        for top in 0..=(height - side) {
            for left in 0..=(width - side) {
                let mut all = true;
                for i in top..top + side {
                    for j in left..left + side {
                        if rows[i][j] != empty {
                            all = false;
                        }
                    }
                }
                if all {
                    return Some(sol(top, left, side));
                }
            }
        }
        side -= 1;
    }
    None
}

fn encode(rows: &[Vec<u8>]) -> Vec<u8> {
    let mut out = format!("{}.ox\n", rows.len()).into_bytes();
    for r in rows {
        out.extend_from_slice(r);
        out.push(b'\n');
    }
    out
}

#[test]
fn all_empty_four_by_four() {
    assert_eq!(scan(b"4.o#\n....\n....\n....\n....\n"), Ok(sol(0, 0, 4)));
}

#[test]
fn one_empty_column() {
    assert_eq!(scan(b"4.o#\n.ooo\n.ooo\n.ooo\n.ooo\n"), Ok(sol(0, 0, 1)));
}

#[test]
fn full_grid_is_map_full() {
    assert_eq!(scan(b"3.o#\nooo\nooo\nooo\n"), Err(BSQError::MapFull));
    assert_eq!(scan(b"1.o#\no\n"), Err(BSQError::MapFull));
}

#[test]
fn single_empty_cell() {
    assert_eq!(scan(b"3.o#\noooo\noo.o\noooo\n"), Ok(sol(1, 2, 1)));
    assert_eq!(scan(b"2.o#\noo\no.\n"), Ok(sol(1, 1, 1)));
    assert_eq!(scan(b"1.o#\n.\n"), Ok(sol(0, 0, 1)));
}

#[test]
fn zero_height_is_invalid_header() {
    assert_eq!(scan(b"0ab\n"), Err(BSQError::InvalidHeader));
    assert_eq!(scan(b"0.ox\n..\n"), Err(BSQError::InvalidHeader));
}

#[test]
fn missing_digits_is_invalid_header() {
    assert_eq!(scan(b""), Err(BSQError::InvalidHeader));
    assert_eq!(scan(b"\n"), Err(BSQError::InvalidHeader));
    assert_eq!(scan(b".ox\n..\n"), Err(BSQError::InvalidHeader));
    assert_eq!(scan(b"2.o\n..\n..\n"), Err(BSQError::InvalidHeader));
    assert_eq!(scan(b"2.oxyz\n..\n..\n"), Err(BSQError::InvalidHeader));
}

#[test]
fn height_too_large_is_invalid_header() {
    assert_eq!(
        scan(b"99999999999999999999999999999999999.ox\n..\n"),
        Err(BSQError::InvalidHeader)
    );
}

#[test]
fn header_without_newline_is_invalid_endl() {
    assert_eq!(scan(b"2.oxy"), Err(BSQError::InvalidEndl));
}

#[test]
fn missing_first_row_is_empty_line() {
    assert_eq!(scan(b"2.ox\n"), Err(BSQError::EmptyLine));
    assert_eq!(scan(b"2.ox\n\n..\n"), Err(BSQError::EmptyLine));
    assert_eq!(scan(b"2.ox\n."), Err(BSQError::EmptyLine));
}

#[test]
fn third_byte_in_first_row() {
    assert_eq!(scan(b"2.ox\n.a\n..\n"), Err(BSQError::InvalidCharFirstLine));
    assert_eq!(scan(b"2.ox\n.x\n..\n"), Err(BSQError::InvalidCharFirstLine));
}

#[test]
fn third_byte_in_later_row() {
    assert_eq!(scan(b"2.ox\n..\n.a\n"), Err(BSQError::InvalidChar));
    assert_eq!(scan(b"3.ox\n..\n..\na.\n"), Err(BSQError::InvalidChar));
}

#[test]
fn first_row_without_newline_is_invalid_endl() {
    assert_eq!(scan(b"1.ox\n..."), Err(BSQError::InvalidEndl));
}

#[test]
fn first_row_cells_are_judged_before_its_newline() {
    assert_eq!(scan(b"1.ox\n.a."), Err(BSQError::InvalidCharFirstLine));
}

#[test]
fn long_row_is_invalid_endl() {
    assert_eq!(scan(b"2.ox\n..\n...\n"), Err(BSQError::InvalidEndl));
}

#[test]
fn row_newline_is_judged_before_its_cells() {
    assert_eq!(scan(b"2.ox\n..\na..\n"), Err(BSQError::InvalidEndl));
}

#[test]
fn short_row_at_end_of_input_is_io_error() {
    assert_eq!(scan(b"2.ox\n...\n.."), Err(BSQError::IOError));
    assert_eq!(scan(b"2.ox\n...\n..."), Err(BSQError::IOError));
    assert_eq!(scan(b"3.ox\n...\n...\n"), Err(BSQError::IOError));
}

#[test]
fn earlier_row_error_comes_first() {
    assert_eq!(scan(b"3.ox\n..\n.a\n."), Err(BSQError::InvalidChar));
}

#[test]
fn trailing_bytes() {
    assert_eq!(scan(b"2.ox\n..\n..\n\n"), Err(BSQError::TrailingChars));
    assert_eq!(scan(b"2.ox\n..\n..\n..\n"), Err(BSQError::TrailingChars));
    assert_eq!(scan(b"1.ox\n..\nx"), Err(BSQError::TrailingChars));
}

#[test]
fn trailing_bytes_come_before_map_full() {
    assert_eq!(scan(b"1.ox\noo\n."), Err(BSQError::TrailingChars));
}

#[test]
fn first_of_equal_squares_is_kept() {
    // Two squares of side 2: rows 0-1 at column 3, rows 1-2 at column 0.
    assert_eq!(scan(b"3.ox\no.o..\n..o..\n..ooo\n"), Ok(sol(0, 3, 2)));
    // Same row of top-left corners: the leftmost.
    assert_eq!(scan(b"2.ox\n..o..\n..o..\n"), Ok(sol(0, 0, 2)));
    assert_eq!(scan(b"1.ox\no.o.\n"), Ok(sol(0, 1, 1)));
}

#[test]
fn diagonal_neighbour_after_full_cell() {
    // The square of side 2 at rows 1-2, columns 1-2 is found only if the
    // value above a full cell is kept for the next column.
    assert_eq!(scan(b"3.ox\n.o..\no...\no...\n"), Ok(sol(0, 2, 2)));
    assert_eq!(scan(b"3.ox\n....\no...\no...\n"), Ok(sol(0, 1, 3)));
    assert_eq!(scan(b"3.ox\n...\n.o.\n...\n"), Ok(sol(0, 0, 1)));
    assert_eq!(scan(b"4.ox\no...\n.o..\n...o\n....\n"), Ok(sol(0, 2, 2)));
}

#[test]
fn equal_markers_make_every_cell_empty() {
    assert_eq!(scan(b"2..x\n..\n..\n"), Ok(sol(0, 0, 2)));
}

#[test]
fn multi_digit_height() {
    let mut rows: Vec<Vec<u8>> = Vec::new();
    for y in 0..12 {
        let mut r = vec![b'.'; 15];
        if y == 2 {
            r[7] = b'o';
        }
        rows.push(r);
    }
    let input = encode(&rows);
    assert_eq!(scan(&input), Ok(sol(3, 0, 9)));
    assert_eq!(brute_force(&rows, b'.'), Some(sol(3, 0, 9)));
}

#[test]
fn agrees_with_brute_force_on_small_grids() {
    for height in 1..=4usize {
        for width in 1..=4usize {
            if height * width > 12 {
                continue;
            }
            for bits in 0..(1u32 << (height * width)) {
                let mut rows: Vec<Vec<u8>> = Vec::new();
                for y in 0..height {
                    let mut r = Vec::new();
                    for x in 0..width {
                        let full = (bits >> (y * width + x)) & 1 == 1;
                        r.push(if full { b'o' } else { b'.' });
                    }
                    rows.push(r);
                }
                let expected = match brute_force(&rows, b'.') {
                    Some(s) => Ok(s),
                    None => Err(BSQError::MapFull),
                };
                assert_eq!(scan(&encode(&rows)), expected);
            }
        }
    }
}

#[test]
fn answer_lies_in_grid_and_is_empty() {
    let input = b"5.ox\n.o....\n......\n..o...\n......\no.....\n";
    let s = scan(input).unwrap();
    assert_eq!(s, sol(0, 3, 3));
    assert!(s.y + s.score <= 5 && s.x + s.score <= 6);
    let rows: Vec<&[u8]> = input[5..].split(|&c| c == b'\n').collect();
    for i in s.y..s.y + s.score {
        for j in s.x..s.x + s.score {
            assert_eq!(rows[i][j], b'.');
        }
    }
}

#[test]
fn scanning_twice_gives_the_same() {
    let inputs: [&[u8]; 4] = [
        b"3.ox\no.o..\n..o..\n..ooo\n",
        b"3.o#\nooo\nooo\nooo\n",
        b"2.ox\n..\n.a\n",
        b"0ab\n",
    ];
    for input in inputs {
        assert_eq!(scan(input), scan(input));
    }
}
