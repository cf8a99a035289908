//! Serialising a token grid back to file bytes, and the round trip law:
//! rendering a square grid of well-formed tokens and loading the rendered
//! bytes yields exactly that grid.

use crate::load::{
    grid_cells, is_perfect_square, is_ragged, lemma_grid_first_bad_none,
    lemma_row_first_bad_none, load_spec, token_cell, token_rows, token_rows_of_lines, LoadOutcome,
};
use crate::scan::{is_space, lines_of, tokens_of};
use vstd::prelude::*;

verus! {

/// A token that survives rendering: at least one byte, none of which is
/// whitespace or a line feed.
pub open spec fn wf_token(t: Seq<u8>) -> bool {
    &&& t.len() > 0
    &&& forall|i: int| 0 <= i < t.len() ==> !is_space(#[trigger] t[i]) && t[i] != 0x0a
}

/// A token grid that survives rendering: every row holds at least one
/// token and every token is well formed.
pub open spec fn wf_rows(rows: Seq<Seq<Seq<u8>>>) -> bool {
    &&& forall|r: int| 0 <= r < rows.len() ==> (#[trigger] rows[r]).len() > 0
    &&& forall|r: int, c: int|
        0 <= r < rows.len() && 0 <= c < rows[r].len() ==> wf_token(#[trigger] rows[r][c])
}

/// One rendered line: the row's tokens joined by single spaces.
pub open spec fn render_row(row: Seq<Seq<u8>>) -> Seq<u8>
    decreases row.len(),
{
    if row.len() == 0 {
        Seq::<u8>::empty()
    } else if row.len() == 1 {
        row[0]
    } else {
        render_row(row.drop_last()) + seq![0x20u8] + row.last()
    }
}

/// The rendered file: each row's line followed by a line feed.
pub open spec fn render_rows(rows: Seq<Seq<Seq<u8>>>) -> Seq<u8>
    decreases rows.len(),
{
    if rows.len() == 0 {
        Seq::<u8>::empty()
    } else {
        render_rows(rows.drop_last()) + render_row(rows.last()) + seq![0x0au8]
    }
}

proof fn lemma_tokens_space(s: Seq<u8>)
    ensures
        tokens_of(s + seq![0x20u8]) == tokens_of(s),
{
    let u = s + seq![0x20u8];
    assert(u.drop_last() =~= s);
    assert(u.last() == 0x20);
}

proof fn lemma_tokens_append_token(s: Seq<u8>, t: Seq<u8>)
    requires
        t.len() > 0,
        forall|i: int| 0 <= i < t.len() ==> !is_space(#[trigger] t[i]),
        s.len() == 0 || is_space(s.last()),
    ensures
        tokens_of(s + t) == tokens_of(s).push(t),
    decreases t.len(),
{
    let u = s + t;
    if t.len() == 1 {
        assert(u.drop_last() =~= s);
        assert(u.last() == t[0]);
        if s.len() > 0 {
            assert(u[u.len() - 2] == s.last());
        }
        assert(tokens_of(u) == tokens_of(s).push(seq![t[0]]));
        assert(seq![t[0]] =~= t);
    } else {
        lemma_tokens_append_token(s, t.drop_last());
        let u1 = s + t.drop_last();
        assert(u.drop_last() =~= u1);
        assert(u.last() == t.last());
        assert(u.len() >= 2);
        assert(u[u.len() - 2] == t[t.len() - 2]);
        let prev = tokens_of(u1);
        assert(prev == tokens_of(s).push(t.drop_last()));
        assert(prev.last() == t.drop_last());
        assert(prev.update(prev.len() - 1, t.drop_last().push(t.last())) =~= tokens_of(s).push(
            t.drop_last().push(t.last()),
        ));
        assert(t.drop_last().push(t.last()) =~= t);
    }
}

proof fn lemma_render_row(row: Seq<Seq<u8>>)
    requires
        row.len() > 0,
        forall|c: int| 0 <= c < row.len() ==> wf_token(#[trigger] row[c]),
    ensures
        tokens_of(render_row(row)) == row,
        render_row(row).len() > 0,
        forall|i: int|
            0 <= i < render_row(row).len() ==> #[trigger] render_row(row)[i] != 0x0a,
    decreases row.len(),
{
    if row.len() == 1 {
        assert(wf_token(row[0]));
        lemma_tokens_append_token(Seq::<u8>::empty(), row[0]);
        assert(Seq::<u8>::empty() + row[0] =~= row[0]);
        assert(tokens_of(Seq::<u8>::empty()).push(row[0]) =~= row);
    } else {
        assert forall|c: int| 0 <= c < row.len() - 1 implies wf_token(
            #[trigger] row.drop_last()[c],
        ) by {
            assert(row.drop_last()[c] == row[c]);
        }
        lemma_render_row(row.drop_last());
        let a = render_row(row.drop_last());
        let b = a + seq![0x20u8];
        lemma_tokens_space(a);
        assert(wf_token(row.last()));
        assert(b.last() == 0x20);
        lemma_tokens_append_token(b, row.last());
        assert(render_row(row) == b + row.last());
        assert(tokens_of(render_row(row)) == tokens_of(b).push(row.last()));
        assert(tokens_of(b).push(row.last()) =~= row) by {
            assert(tokens_of(b) == row.drop_last());
        }
        assert forall|i: int| 0 <= i < render_row(row).len() implies #[trigger] render_row(
            row,
        )[i] != 0x0a by {
            if i < a.len() {
                assert(render_row(row)[i] == a[i]);
            } else if i == a.len() {
                assert(render_row(row)[i] == 0x20);
            } else {
                assert(render_row(row)[i] == row.last()[i - a.len() - 1]);
            }
        }
    }
}

proof fn lemma_lines_extend(s: Seq<u8>, l: Seq<u8>)
    requires
        forall|i: int| 0 <= i < l.len() ==> #[trigger] l[i] != 0x0a,
    ensures
        lines_of(s + l) == lines_of(s).update(
            lines_of(s).len() - 1,
            lines_of(s).last() + l,
        ),
    decreases l.len(),
{
    crate::scan::lemma_lines_of_nonempty(s);
    let big = lines_of(s);
    let k = big.len() - 1;
    if l.len() == 0 {
        assert(s + l =~= s);
        assert(big.last() + l =~= big.last());
        assert(big.update(k, big.last()) =~= big);
    } else {
        assert forall|i: int| 0 <= i < l.len() - 1 implies #[trigger] l.drop_last()[i]
            != 0x0a by {
            assert(l.drop_last()[i] == l[i]);
        }
        lemma_lines_extend(s, l.drop_last());
        let u = s + l;
        let u1 = s + l.drop_last();
        assert(u.drop_last() =~= u1);
        assert(u.last() == l.last());
        let prev = lines_of(u1);
        assert(prev == big.update(k, big.last() + l.drop_last()));
        assert(prev.len() == big.len());
        assert(prev.last() == big.last() + l.drop_last());
        assert(prev.update(prev.len() - 1, prev.last().push(l.last())) =~= big.update(
            k,
            big.last() + l,
        )) by {
            assert((big.last() + l.drop_last()).push(l.last()) =~= big.last() + l);
        }
    }
}

proof fn lemma_lines_of_render(rows: Seq<Seq<Seq<u8>>>)
    requires
        wf_rows(rows),
    ensures
        lines_of(render_rows(rows)) == rows.map_values(|r: Seq<Seq<u8>>| render_row(r)).push(
            Seq::<u8>::empty(),
        ),
    decreases rows.len(),
{
    let rl = rows.map_values(|r: Seq<Seq<u8>>| render_row(r));
    if rows.len() == 0 {
        assert(lines_of(render_rows(rows)) =~= rl.push(Seq::<u8>::empty()));
    } else {
        assert(wf_rows(rows.drop_last())) by {
            assert forall|r: int| 0 <= r < rows.len() - 1 implies (#[trigger] rows.drop_last()[r]).len() > 0 by {
                assert(rows.drop_last()[r] == rows[r]);
            }
            assert forall|r: int, c: int|
                0 <= r < rows.len() - 1 && 0 <= c < rows.drop_last()[r].len() implies wf_token(
                #[trigger] rows.drop_last()[r][c],
            ) by {
                assert(rows.drop_last()[r] == rows[r]);
            }
        }
        lemma_lines_of_render(rows.drop_last());
        let s0 = render_rows(rows.drop_last());
        let line = render_row(rows.last());
        assert(rows.last() == rows[rows.len() - 1]);
        assert forall|c: int| 0 <= c < rows.last().len() implies wf_token(
            #[trigger] rows.last()[c],
        ) by {}
        lemma_render_row(rows.last());
        lemma_lines_extend(s0, line);
        let big = lines_of(s0);
        let rl0 = rows.drop_last().map_values(|r: Seq<Seq<u8>>| render_row(r));
        assert(big == rl0.push(Seq::<u8>::empty()));
        assert(big.last() =~= Seq::<u8>::empty());
        assert(big.last() + line =~= line);
        assert(lines_of(s0 + line) == big.update(big.len() - 1, big.last() + line));
        assert(big.update(big.len() - 1, big.last() + line) =~= rl0.push(line));
        let u = s0 + line + seq![0x0au8];
        assert(render_rows(rows) == u);
        assert(u.drop_last() =~= s0 + line);
        assert(u.last() == 0x0a);
        assert(lines_of(u) == lines_of(s0 + line).push(Seq::<u8>::empty()));
        assert(rl0.push(line).push(Seq::<u8>::empty()) =~= rl.push(Seq::<u8>::empty())) by {
            assert(rl =~= rl0.push(line));
        }
    }
}

proof fn lemma_token_rows_of_rendered_lines(rows: Seq<Seq<Seq<u8>>>)
    requires
        wf_rows(rows),
    ensures
        token_rows_of_lines(rows.map_values(|r: Seq<Seq<u8>>| render_row(r))) == rows,
    decreases rows.len(),
{
    let rl = rows.map_values(|r: Seq<Seq<u8>>| render_row(r));
    if rows.len() == 0 {
        assert(rl.len() == 0);
        assert(token_rows_of_lines(rl) =~= rows);
    } else {
        assert(wf_rows(rows.drop_last())) by {
            assert forall|r: int| 0 <= r < rows.len() - 1 implies (#[trigger] rows.drop_last()[r]).len() > 0 by {
                assert(rows.drop_last()[r] == rows[r]);
            }
            assert forall|r: int, c: int|
                0 <= r < rows.len() - 1 && 0 <= c < rows.drop_last()[r].len() implies wf_token(
                #[trigger] rows.drop_last()[r][c],
            ) by {
                assert(rows.drop_last()[r] == rows[r]);
            }
        }
        lemma_token_rows_of_rendered_lines(rows.drop_last());
        let rl0 = rows.drop_last().map_values(|r: Seq<Seq<u8>>| render_row(r));
        assert(rl.drop_last() =~= rl0);
        assert(rl.last() == render_row(rows.last()));
        assert(rows.last() == rows[rows.len() - 1]);
        lemma_render_row(rows.last());
        assert(rl.last().len() > 0);
        assert(token_rows_of_lines(rl) == token_rows_of_lines(rl0).push(tokens_of(rl.last())));
        assert(token_rows_of_lines(rl0).push(tokens_of(rl.last())) =~= rows) by {
            assert(tokens_of(rl.last()) == rows.last());
        }
    }
}

/// Rendering a well-formed token grid and splitting the rendered bytes
/// back into token rows recovers the grid exactly.
pub proof fn lemma_render_parse(rows: Seq<Seq<Seq<u8>>>)
    requires
        wf_rows(rows),
    ensures
        token_rows(render_rows(rows)) == rows,
{
    lemma_lines_of_render(rows);
    lemma_token_rows_of_rendered_lines(rows);
    let rl = rows.map_values(|r: Seq<Seq<u8>>| render_row(r));
    let ls = rl.push(Seq::<u8>::empty());
    assert(ls.last().len() == 0);
    assert(ls.drop_last() =~= rl);
    assert(token_rows_of_lines(ls) == token_rows_of_lines(rl));
}

/// The round trip law: any square token grid — side a perfect square,
/// every token well formed and denoting a cell — renders to bytes that
/// load back as a valid grid of the same side, holding exactly the cells
/// its tokens denote. With `parse_grid`'s contract this pins the loaded
/// grid's `size` to the side and `block_size` to its exact square root.
pub proof fn lemma_round_trip(rows: Seq<Seq<Seq<u8>>>, n: int)
    requires
        wf_rows(rows),
        rows.len() == n,
        forall|r: int| 0 <= r < rows.len() ==> (#[trigger] rows[r]).len() == n,
        is_perfect_square(n),
        forall|r: int, c: int|
            0 <= r < rows.len() && 0 <= c < rows[r].len() ==> token_cell(
                #[trigger] rows[r][c],
            ) is Some,
    ensures
        load_spec(render_rows(rows)) == (LoadOutcome::Loaded {
            size: n,
            cells: grid_cells(rows),
        }),
{
    lemma_render_parse(rows);
    assert forall|r: int| 0 <= r < rows.len() implies crate::load::row_first_bad(
        #[trigger] rows[r],
    ) is None by {
        assert forall|k: int| 0 <= k < rows[r].len() implies token_cell(
            #[trigger] rows[r][k],
        ) is Some by {}
        lemma_row_first_bad_none(rows[r]);
    }
    lemma_grid_first_bad_none(rows);
    assert(!is_ragged(rows));
}

} // verus!
