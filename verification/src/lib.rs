//! Largest square of empty cells in an ASCII map.
//!
//! A map is a header line (`<height><empty><full><display>\n`) followed by
//! `height` rows of equal width, each made of the two marker bytes and ended by
//! a newline. The library parses such a map and finds the largest square that
//! holds only empty cells, keeping one row of state at a time.

pub mod types;
pub mod util;
pub mod square;
pub mod header;
pub mod scanner;
pub mod scan;

pub use header::{parse_header, read_header};
pub use scan::{check_eof, read_endl, read_line, read_row, scan};
pub use scanner::Scanner;
pub use types::{BSQError, Info, Solution};
pub use util::{assert_error, min3};
