//! A verified loader for Sudoku grid files.
//!
//! A grid file is line-oriented text: each line holds whitespace-separated
//! tokens, where a token is either the single character `.` (a blank cell)
//! or a base-10 integer in the range of `i8` (a given cell). A well-formed
//! file describes a square grid whose side length is a perfect square.
//!
//! The library parses the bytes of such a file into a [`grid::Grid`] or a
//! descriptive [`grid::ParseError`]; reading the file itself is left to the
//! caller.

pub mod grid;
pub mod load;
pub mod num;
pub mod render;
pub mod scan;
