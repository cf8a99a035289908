//! The value types of the library: cells, grids, and load failures.

use vstd::prelude::*;

verus! {

/// One board position: either a given numeral from the input file
/// (`fixed == true`) or a blank awaiting a solver (`fixed == false`,
/// `val == 0`).
#[derive(Clone, Copy, Debug, PartialEq, Eq, Structural)]
pub struct Cell {
    pub fixed: bool,
    pub val: i8,
}

/// A validated square grid: `size` rows of `size` cells each, with
/// `block_size * block_size == size`.
#[derive(Debug)]
pub struct Grid {
    pub size: usize,
    pub block_size: usize,
    pub data: Vec<Vec<Cell>>,
}

impl Grid {
    /// The cells of the grid, row-major, as a mathematical value.
    pub open spec fn rows(self) -> Seq<Seq<Cell>> {
        self.data@.map_values(|r: Vec<Cell>| r@)
    }

    /// The structural invariant every loaded grid satisfies: the data is
    /// square with side `size`, and `block_size` is its exact square root.
    pub open spec fn wf(self) -> bool {
        &&& self.data@.len() == self.size
        &&& forall|i: int| 0 <= i < self.data@.len() ==> (#[trigger] self.data@[i])@.len() == self.size
        &&& self.block_size * self.block_size == self.size
    }
}

/// Why a grid file failed to load.
#[derive(Debug, PartialEq, Eq)]
pub enum ParseError {
    /// The file could not be opened or read. Produced only by callers that
    /// perform the file read; parsing bytes already in memory never yields it.
    IoError { path: String, reason: String },
    /// A token was neither `.` nor an integer in the range of `i8`.
    /// Carries the bytes of the first such token, in row-major order.
    CellParseError { token: Vec<u8> },
    /// Some row has a different number of tokens than the first row.
    ShapeError,
    /// The dimensions are invalid: either the number of rows differs from
    /// the number of columns (`height` by `width`), or the grid is square
    /// but its side length is not a perfect square (`height == width`).
    DimensionError { height: usize, width: usize },
}

} // verus!
