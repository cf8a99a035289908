//! The grid loader: from the bytes of a file to a validated grid.

use crate::grid::{Cell, Grid, ParseError};
use crate::num::{int_sqrt, parse_i8, spec_parse_i8};
use crate::scan::{byte_rows, lines_of, split_lines, split_tokens, tokens_of};
use vstd::prelude::*;

verus! {

/// The cell a token denotes: `.` is a blank cell, an `i8` literal a given
/// cell, and anything else no cell at all.
pub open spec fn token_cell(t: Seq<u8>) -> Option<Cell> {
    if t == seq![0x2eu8] {
        Some(Cell { fixed: false, val: 0 })
    } else {
        match spec_parse_i8(t) {
            Some(v) => Some(Cell { fixed: true, val: v }),
            None => None,
        }
    }
}

/// The token rows of a file: each line that holds at least one byte
/// contributes its tokens as one row; empty lines contribute nothing.
pub open spec fn token_rows_of_lines(ls: Seq<Seq<u8>>) -> Seq<Seq<Seq<u8>>>
    decreases ls.len(),
{
    if ls.len() == 0 {
        Seq::<Seq<Seq<u8>>>::empty()
    } else {
        let rest = token_rows_of_lines(ls.drop_last());
        if ls.last().len() > 0 {
            rest.push(tokens_of(ls.last()))
        } else {
            rest
        }
    }
}

/// The token rows of a whole file.
pub open spec fn token_rows(s: Seq<u8>) -> Seq<Seq<Seq<u8>>> {
    token_rows_of_lines(lines_of(s))
}

/// The first token of a row that denotes no cell, if any.
pub open spec fn row_first_bad(row: Seq<Seq<u8>>) -> Option<Seq<u8>>
    decreases row.len(),
{
    if row.len() == 0 {
        None
    } else if token_cell(row.first()) is None {
        Some(row.first())
    } else {
        row_first_bad(row.drop_first())
    }
}

/// The first token of a token grid, in row-major order, that denotes no
/// cell, if any.
pub open spec fn grid_first_bad(rows: Seq<Seq<Seq<u8>>>) -> Option<Seq<u8>>
    decreases rows.len(),
{
    if rows.len() == 0 {
        None
    } else if row_first_bad(rows.first()) is Some {
        row_first_bad(rows.first())
    } else {
        grid_first_bad(rows.drop_first())
    }
}

/// The cells of a row of tokens that all denote cells.
pub open spec fn row_cells(row: Seq<Seq<u8>>) -> Seq<Cell> {
    row.map_values(|t: Seq<u8>| token_cell(t).unwrap())
}

/// The cells of a token grid without bad tokens.
pub open spec fn grid_cells(rows: Seq<Seq<Seq<u8>>>) -> Seq<Seq<Cell>> {
    rows.map_values(|r: Seq<Seq<u8>>| row_cells(r))
}

/// Whether some row has a different number of tokens than the first row.
pub open spec fn is_ragged(rows: Seq<Seq<Seq<u8>>>) -> bool {
    exists|i: int| 0 <= i < rows.len() && (#[trigger] rows[i]).len() != rows[0].len()
}

pub open spec fn is_perfect_square(n: int) -> bool {
    exists|r: int| 0 <= r && #[trigger] (r * r) == n
}

/// What loading a given sequence of file bytes must produce.
pub enum LoadOutcome {
    /// Some token denotes no cell; `token` is the first such token in
    /// row-major order.
    BadToken { token: Seq<u8> },
    /// Every token denotes a cell but the rows differ in length.
    Ragged,
    /// The rows agree in length but the dimensions are wrong: the height
    /// differs from the width, or the side is not a perfect square (then
    /// `height == width`).
    BadDimensions { height: int, width: int },
    /// The file denotes a valid grid.
    Loaded { size: int, cells: Seq<Seq<Cell>> },
}

/// The outcome of loading the file bytes `s`, checked in the loader's
/// order: bad tokens first, then ragged rows, then the dimensions.
pub open spec fn load_spec(s: Seq<u8>) -> LoadOutcome {
    let rows = token_rows(s);
    if grid_first_bad(rows) is Some {
        LoadOutcome::BadToken { token: grid_first_bad(rows).unwrap() }
    } else if is_ragged(rows) {
        LoadOutcome::Ragged
    } else {
        let height = rows.len() as int;
        let width = if rows.len() > 0 {
            rows[0].len() as int
        } else {
            0
        };
        if height != width {
            LoadOutcome::BadDimensions { height, width }
        } else if !is_perfect_square(height) {
            LoadOutcome::BadDimensions { height, width: height }
        } else {
            LoadOutcome::Loaded { size: height, cells: grid_cells(rows) }
        }
    }
}

/// How a loader result realises an outcome: the same case, carrying the
/// same values, and a well-formed grid on success.
pub open spec fn load_matches(r: Result<Grid, ParseError>, o: LoadOutcome) -> bool {
    match o {
        LoadOutcome::BadToken { token } => r matches Err(ParseError::CellParseError { token: t })
            && t@ == token,
        LoadOutcome::Ragged => r matches Err(ParseError::ShapeError),
        LoadOutcome::BadDimensions { height, width } => r matches Err(
            ParseError::DimensionError { height: h, width: w },
        ) && h == height && w == width,
        LoadOutcome::Loaded { size, cells } => r matches Ok(g) && g.wf() && g.size == size
            && g.rows() == cells,
    }
}

/// The blank token `.` always denotes a blank cell: not fixed, value zero.
pub proof fn lemma_blank_token()
    ensures
        token_cell(seq![0x2eu8]) == Some(Cell { fixed: false, val: 0 }),
{
}

/// A token that parses as an `i8` always denotes a given cell carrying
/// exactly the parsed value.
pub proof fn lemma_numeric_token(t: Seq<u8>)
    requires
        spec_parse_i8(t) is Some,
    ensures
        token_cell(t) == Some(Cell { fixed: true, val: spec_parse_i8(t).unwrap() }),
{
    if t == seq![0x2eu8] {
        assert(!crate::num::all_digits(t)) by {
            assert(!crate::num::is_digit(t[0]));
        }
        assert(spec_parse_i8(t) is None);
    }
}

/// Whenever every token denotes a cell but some row's token count differs
/// from the first row's, loading is rejected as a shape failure, whatever
/// the tokens are.
pub proof fn lemma_ragged_rejected(s: Seq<u8>, i: int)
    requires
        grid_first_bad(token_rows(s)) is None,
        0 <= i < token_rows(s).len(),
        token_rows(s)[i].len() != token_rows(s)[0].len(),
    ensures
        load_spec(s) == LoadOutcome::Ragged,
{
    assert(is_ragged(token_rows(s)));
}

/// A well-tokenised grid whose height differs from its width is always
/// rejected with a dimension failure naming that height and width.
pub proof fn lemma_unequal_dimensions_rejected(s: Seq<u8>)
    requires
        grid_first_bad(token_rows(s)) is None,
        !is_ragged(token_rows(s)),
        token_rows(s).len() > 0,
        token_rows(s).len() != token_rows(s)[0].len(),
    ensures
        load_spec(s) == (LoadOutcome::BadDimensions {
            height: token_rows(s).len() as int,
            width: token_rows(s)[0].len() as int,
        }),
{
}

/// A square grid whose side is not a perfect square is always rejected
/// with a dimension failure naming the side twice.
pub proof fn lemma_nonsquare_side_rejected(s: Seq<u8>)
    requires
        grid_first_bad(token_rows(s)) is None,
        !is_ragged(token_rows(s)),
        token_rows(s).len() > 0 ==> token_rows(s)[0].len() == token_rows(s).len(),
        !is_perfect_square(token_rows(s).len() as int),
    ensures
        load_spec(s) == (LoadOutcome::BadDimensions {
            height: token_rows(s).len() as int,
            width: token_rows(s).len() as int,
        }),
{
}

proof fn lemma_row_has_bad(row: Seq<Seq<u8>>, c: int)
    requires
        0 <= c < row.len(),
        token_cell(row[c]) is None,
    ensures
        row_first_bad(row) is Some,
    decreases c,
{
    if token_cell(row.first()) is None {
    } else {
        assert(row.first() == row[0]);
        assert(row.drop_first()[c - 1] == row[c]);
        lemma_row_has_bad(row.drop_first(), c - 1);
    }
}

proof fn lemma_grid_has_bad(rows: Seq<Seq<Seq<u8>>>, r: int)
    requires
        0 <= r < rows.len(),
        row_first_bad(rows[r]) is Some,
    ensures
        grid_first_bad(rows) is Some,
    decreases r,
{
    if row_first_bad(rows.first()) is Some {
    } else {
        assert(rows.first() == rows[0]);
        assert(rows.drop_first()[r - 1] == rows[r]);
        lemma_grid_has_bad(rows.drop_first(), r - 1);
    }
}

proof fn lemma_row_first_bad_is_bad(row: Seq<Seq<u8>>)
    requires
        row_first_bad(row) is Some,
    ensures
        token_cell(row_first_bad(row).unwrap()) is None,
    decreases row.len(),
{
    if row.len() > 0 && token_cell(row.first()) is Some {
        lemma_row_first_bad_is_bad(row.drop_first());
    }
}

proof fn lemma_grid_first_bad_is_bad(rows: Seq<Seq<Seq<u8>>>)
    requires
        grid_first_bad(rows) is Some,
    ensures
        token_cell(grid_first_bad(rows).unwrap()) is None,
    decreases rows.len(),
{
    if rows.len() > 0 {
        if row_first_bad(rows.first()) is Some {
            lemma_row_first_bad_is_bad(rows.first());
        } else {
            lemma_grid_first_bad_is_bad(rows.drop_first());
        }
    }
}

/// A grid holding any token that denotes no cell is always rejected with
/// a cell failure, and the token it names is itself one that denotes no
/// cell — never a well-formed one.
pub proof fn lemma_malformed_token_rejected(s: Seq<u8>, r: int, c: int)
    requires
        0 <= r < token_rows(s).len(),
        0 <= c < token_rows(s)[r].len(),
        token_cell(token_rows(s)[r][c]) is None,
    ensures
        (load_spec(s) matches LoadOutcome::BadToken { token } && token_cell(token) is None),
{
    lemma_row_has_bad(token_rows(s)[r], c);
    lemma_grid_has_bad(token_rows(s), r);
    lemma_grid_first_bad_is_bad(token_rows(s));
}

proof fn lemma_row_first_bad_at(row: Seq<Seq<u8>>, c: int)
    requires
        0 <= c < row.len(),
        forall|k: int| 0 <= k < c ==> token_cell(#[trigger] row[k]) is Some,
        token_cell(row[c]) is None,
    ensures
        row_first_bad(row) == Some(row[c]),
    decreases c,
{
    if c == 0 {
        assert(row.first() == row[0]);
    } else {
        assert(row.first() == row[0]);
        assert forall|k: int| 0 <= k < c - 1 implies token_cell(
            #[trigger] row.drop_first()[k],
        ) is Some by {
            assert(row.drop_first()[k] == row[k + 1]);
        }
        assert(row.drop_first()[c - 1] == row[c]);
        lemma_row_first_bad_at(row.drop_first(), c - 1);
    }
}

pub(crate) proof fn lemma_row_first_bad_none(row: Seq<Seq<u8>>)
    requires
        forall|k: int| 0 <= k < row.len() ==> token_cell(#[trigger] row[k]) is Some,
    ensures
        row_first_bad(row) is None,
    decreases row.len(),
{
    if row.len() > 0 {
        assert(row.first() == row[0]);
        assert forall|k: int| 0 <= k < row.len() - 1 implies token_cell(
            #[trigger] row.drop_first()[k],
        ) is Some by {
            assert(row.drop_first()[k] == row[k + 1]);
        }
        lemma_row_first_bad_none(row.drop_first());
    }
}

proof fn lemma_grid_first_bad_at(rows: Seq<Seq<Seq<u8>>>, r: int)
    requires
        0 <= r < rows.len(),
        forall|j: int| 0 <= j < r ==> row_first_bad(#[trigger] rows[j]) is None,
        row_first_bad(rows[r]) is Some,
    ensures
        grid_first_bad(rows) == row_first_bad(rows[r]),
    decreases r,
{
    if r == 0 {
        assert(rows.first() == rows[0]);
    } else {
        assert(rows.first() == rows[0]);
        assert forall|j: int| 0 <= j < r - 1 implies row_first_bad(
            #[trigger] rows.drop_first()[j],
        ) is None by {
            assert(rows.drop_first()[j] == rows[j + 1]);
        }
        assert(rows.drop_first()[r - 1] == rows[r]);
        lemma_grid_first_bad_at(rows.drop_first(), r - 1);
    }
}

pub(crate) proof fn lemma_grid_first_bad_none(rows: Seq<Seq<Seq<u8>>>)
    requires
        forall|j: int| 0 <= j < rows.len() ==> row_first_bad(#[trigger] rows[j]) is None,
    ensures
        grid_first_bad(rows) is None,
    decreases rows.len(),
{
    if rows.len() > 0 {
        assert(rows.first() == rows[0]);
        assert forall|j: int| 0 <= j < rows.len() - 1 implies row_first_bad(
            #[trigger] rows.drop_first()[j],
        ) is None by {
            assert(rows.drop_first()[j] == rows[j + 1]);
        }
        lemma_grid_first_bad_none(rows.drop_first());
    }
}

/// The token grid a vector of token rows stands for.
pub open spec fn token_grid_view(v: Seq<Vec<Vec<u8>>>) -> Seq<Seq<Seq<u8>>> {
    v.map_values(|r: Vec<Vec<u8>>| byte_rows(r@))
}

/// Splits the bytes of a file into its token rows, one row per line that
/// holds at least one byte.
pub fn tokenize(input: &[u8]) -> (rows: Vec<Vec<Vec<u8>>>)
    ensures
        token_grid_view(rows@) == token_rows(input@),
{
    let lines = split_lines(input);
    let mut rows: Vec<Vec<Vec<u8>>> = Vec::new();
    let mut i: usize = 0;
    while i < lines.len()
        invariant
            i <= lines.len(),
            byte_rows(lines@) == lines_of(input@),
            token_grid_view(rows@) == token_rows_of_lines(lines_of(input@).take(i as int)),
        decreases lines.len() - i,
    {
        let ghost lv = lines_of(input@);
        let ghost pre = lv.take(i as int);
        let ghost post = lv.take(i as int + 1);
        proof {
            assert(post.drop_last() =~= pre);
            assert(post.last() == lv[i as int]);
            assert(lv[i as int] == lines@[i as int]@);
        }
        let line = &lines[i];
        if line.len() > 0 {
            let toks = split_tokens(line.as_slice());
            let ghost old_rows = rows@;
            rows.push(toks);
            proof {
                assert(token_grid_view(old_rows.push(toks)) =~= token_grid_view(old_rows).push(
                    byte_rows(toks@),
                ));
            }
        }
        i += 1;
    }
    proof {
        assert(lines_of(input@).take(i as int) =~= lines_of(input@));
    }
    rows
}

/// The cell a token stands for, exactly as `token_cell` describes.
pub fn parse_token(t: &[u8]) -> (r: Option<Cell>)
    ensures
        r == token_cell(t@),
{
    if t.len() == 1 && t[0] == 0x2e {
        proof {
            assert(t@ =~= seq![0x2eu8]);
        }
        Some(Cell { fixed: false, val: 0 })
    } else {
        proof {
            if t@ == seq![0x2eu8] {
                assert(t@.len() == 1 && t@[0] == 0x2e);
            }
        }
        match parse_i8(t) {
            Some(v) => Some(Cell { fixed: true, val: v }),
            None => None,
        }
    }
}

fn copy_bytes(src: &Vec<u8>) -> (r: Vec<u8>)
    ensures
        r@ == src@,
{
    let mut r: Vec<u8> = Vec::new();
    let mut i: usize = 0;
    while i < src.len()
        invariant
            i <= src.len(),
            r@ == src@.take(i as int),
        decreases src.len() - i,
    {
        r.push(src[i]);
        proof {
            assert(src@.take(i as int + 1) =~= src@.take(i as int).push(src@[i as int]));
        }
        i += 1;
    }
    proof {
        assert(src@.take(i as int) =~= src@);
    }
    r
}

proof fn lemma_no_square_between(n: int, r: int)
    requires
        0 <= r,
        r * r <= n < (r + 1) * (r + 1),
        r * r != n,
    ensures
        !is_perfect_square(n),
{
    assert forall|q: int| 0 <= q implies #[trigger] (q * q) != n by {
        if q <= r {
            assert(q * q <= r * r) by (nonlinear_arith)
                requires
                    0 <= q <= r,
            ;
        } else {
            assert(q * q >= (r + 1) * (r + 1)) by (nonlinear_arith)
                requires
                    q >= r + 1,
                    r >= 0,
            ;
        }
    }
}

/// Parses the bytes of a grid file into a validated grid.
///
/// Every outcome is pinned by `load_spec`: the first malformed token, in
/// row-major order, is reported as `CellParseError`; otherwise rows of
/// unequal length are `ShapeError`; otherwise a height that differs from
/// the width, or a side that is not a perfect square, is `DimensionError`;
/// otherwise the returned grid holds exactly the cells the tokens denote.
pub fn parse_grid(input: &[u8]) -> (res: Result<Grid, ParseError>)
    ensures
        load_matches(res, load_spec(input@)),
{
    let rows_tokens = tokenize(input);
    let ghost trows = token_rows(input@);
    let mut data: Vec<Vec<Cell>> = Vec::new();
    let mut r: usize = 0;
    while r < rows_tokens.len()
        invariant
            r <= rows_tokens.len(),
            token_grid_view(rows_tokens@) == trows,
            trows == token_rows(input@),
            data@.len() == r,
            trows.len() == rows_tokens@.len(),
            forall|j: int| 0 <= j < r ==> row_first_bad(#[trigger] trows[j]) is None,
            forall|j: int| 0 <= j < r ==> (#[trigger] data@[j])@ == row_cells(trows[j]),
        decreases rows_tokens.len() - r,
    {
        let row = &rows_tokens[r];
        let ghost trow = trows[r as int];
        proof {
            assert(trow == byte_rows(row@));
        }
        let mut cells: Vec<Cell> = Vec::new();
        let mut c: usize = 0;
        while c < row.len()
            invariant
                c <= row.len(),
                trow == byte_rows(row@),
                r < rows_tokens@.len(),
                trows.len() == rows_tokens@.len(),
                trow == trows[r as int],
                trows == token_rows(input@),
                forall|j: int| 0 <= j < r ==> row_first_bad(#[trigger] trows[j]) is None,
                cells@.len() == c,
                forall|k: int| 0 <= k < c ==> token_cell(#[trigger] trow[k]) is Some,
                forall|k: int| 0 <= k < c ==> cells@[k] == token_cell(#[trigger] trow[k]).unwrap(),
            decreases row.len() - c,
        {
            let tok = &row[c];
            proof {
                assert(trow[c as int] == tok@);
            }
            match parse_token(tok.as_slice()) {
                Some(cell) => {
                    cells.push(cell);
                },
                None => {
                    proof {
                        lemma_row_first_bad_at(trow, c as int);
                        lemma_grid_first_bad_at(trows, r as int);
                    }
                    let token = copy_bytes(tok);
                    return Err(ParseError::CellParseError { token });
                },
            }
            c += 1;
        }
        proof {
            lemma_row_first_bad_none(trow);
            assert(cells@ =~= row_cells(trow));
        }
        data.push(cells);
        r += 1;
    }
    proof {
        lemma_grid_first_bad_none(trows);
    }
    let height = data.len();
    let width: usize = if height > 0 {
        proof {
            assert(data@[0]@ == row_cells(trows[0]));
        }
        data[0].len()
    } else {
        0
    };
    let mut k: usize = 1;
    while k < height
        invariant
            1 <= k,
            data@.len() == height,
            trows.len() == height,
            trows == token_rows(input@),
            grid_first_bad(trows) is None,
            height > 0 ==> width == trows[0].len(),
            forall|j: int| 0 <= j < height ==> (#[trigger] data@[j])@ == row_cells(trows[j]),
            forall|j: int| 0 <= j < k && j < height ==> (#[trigger] trows[j]).len() == width,
        decreases height - k,
    {
        proof {
            assert(data@[k as int]@ == row_cells(trows[k as int]));
        }
        if data[k].len() != width {
            proof {
                assert(trows[k as int].len() != trows[0].len());
                assert(is_ragged(trows));
            }
            return Err(ParseError::ShapeError);
        }
        k += 1;
    }
    proof {
        assert(!is_ragged(trows));
    }
    if height != width {
        return Err(ParseError::DimensionError { height, width });
    }
    let root = int_sqrt(height);
    if root * root != height {
        proof {
            lemma_no_square_between(height as int, root as int);
        }
        return Err(ParseError::DimensionError { height, width: height });
    }
    let g = Grid { size: height, block_size: root, data };
    proof {
        assert(is_perfect_square(height as int)) by {
            assert(0 <= root as int && (root as int) * (root as int) == height as int);
        }
        assert(g.rows() =~= grid_cells(trows));
        assert(g.wf());
    }
    Ok(g)
}

} // verus!
