//! Splitting the bytes of a grid file into lines, and a line into tokens.
//!
//! Lines are separated by the line feed byte; within a line, tokens are the
//! maximal runs of bytes that are not ASCII whitespace.

use vstd::prelude::*;

verus! {

/// ASCII whitespace bytes that separate tokens within a line: space,
/// horizontal tab, vertical tab, form feed and carriage return. The line
/// feed is not among them; it separates lines.
pub open spec fn is_space(b: u8) -> bool {
    b == 0x20 || b == 0x09 || b == 0x0b || b == 0x0c || b == 0x0d
}

/// The segments of `s` between line feed bytes. A line feed ends the
/// current segment and opens a new, empty one, so the result always holds
/// at least one segment, and input ending in a line feed ends in an empty
/// segment.
pub open spec fn lines_of(s: Seq<u8>) -> Seq<Seq<u8>>
    decreases s.len(),
{
    if s.len() == 0 {
        seq![Seq::<u8>::empty()]
    } else if s.last() == 0x0a {
        lines_of(s.drop_last()).push(Seq::<u8>::empty())
    } else {
        let prev = lines_of(s.drop_last());
        prev.update(prev.len() - 1, prev.last().push(s.last()))
    }
}

pub(crate) proof fn lemma_lines_of_nonempty(s: Seq<u8>)
    ensures
        lines_of(s).len() >= 1,
    decreases s.len(),
{
    if s.len() > 0 {
        lemma_lines_of_nonempty(s.drop_last());
    }
}

/// The maximal runs of non-whitespace bytes of `s`, in order. Empty runs do
/// not occur: a line of whitespace alone has no tokens.
pub open spec fn tokens_of(s: Seq<u8>) -> Seq<Seq<u8>>
    decreases s.len(),
{
    if s.len() == 0 {
        Seq::<Seq<u8>>::empty()
    } else {
        let prev = tokens_of(s.drop_last());
        let b = s.last();
        if is_space(b) {
            prev
        } else if s.len() >= 2 && !is_space(s[s.len() - 2]) {
            prev.update(prev.len() - 1, prev.last().push(b))
        } else {
            prev.push(seq![b])
        }
    }
}

/// The views of a sequence of byte vectors.
pub open spec fn byte_rows(v: Seq<Vec<u8>>) -> Seq<Seq<u8>> {
    v.map_values(|x: Vec<u8>| x@)
}

proof fn lemma_byte_rows_push(v: Seq<Vec<u8>>, x: Vec<u8>)
    ensures
        byte_rows(v.push(x)) == byte_rows(v).push(x@),
{
    assert(byte_rows(v.push(x)) =~= byte_rows(v).push(x@));
}

/// Splits the bytes of a whole file into its lines, in order.
pub fn split_lines(input: &[u8]) -> (lines: Vec<Vec<u8>>)
    ensures
        byte_rows(lines@) == lines_of(input@),
{
    let mut lines: Vec<Vec<u8>> = Vec::new();
    let mut cur: Vec<u8> = Vec::new();
    let mut i: usize = 0;
    while i < input.len()
        invariant
            i <= input.len(),
            lines_of(input@.take(i as int)) == byte_rows(lines@).push(cur@),
        decreases input.len() - i,
    {
        let ghost pre = input@.take(i as int);
        let ghost post = input@.take(i as int + 1);
        proof {
            assert(post.drop_last() =~= pre);
            assert(post.last() == input@[i as int]);
        }
        let b = input[i];
        if b == 0x0a {
            let ghost old_lines = lines@;
            lines.push(cur);
            cur = Vec::new();
            proof {
                lemma_byte_rows_push(old_lines, lines@.last());
                assert(cur@ =~= Seq::<u8>::empty());
            }
        } else {
            let ghost old_cur = cur@;
            cur.push(b);
            proof {
                let prev = lines_of(pre);
                assert(prev == byte_rows(lines@).push(old_cur));
                assert(prev.last() == old_cur);
                assert(prev.update(prev.len() - 1, old_cur.push(b)) =~= byte_rows(
                    lines@,
                ).push(old_cur.push(b)));
            }
        }
        i += 1;
    }
    proof {
        assert(input@.take(i as int) =~= input@);
    }
    let ghost old_lines = lines@;
    lines.push(cur);
    proof {
        lemma_byte_rows_push(old_lines, lines@.last());
    }
    lines
}

/// Splits one line into its tokens, in order.
pub fn split_tokens(line: &[u8]) -> (tokens: Vec<Vec<u8>>)
    ensures
        byte_rows(tokens@) == tokens_of(line@),
{
    let mut tokens: Vec<Vec<u8>> = Vec::new();
    let mut cur: Vec<u8> = Vec::new();
    let mut i: usize = 0;
    while i < line.len()
        invariant
            i <= line.len(),
            cur@.len() == 0 ==> (i == 0 || is_space(line@[i as int - 1])) && tokens_of(
                line@.take(i as int),
            ) == byte_rows(tokens@),
            cur@.len() > 0 ==> i > 0 && !is_space(line@[i as int - 1]) && tokens_of(
                line@.take(i as int),
            ) == byte_rows(tokens@).push(cur@),
        decreases line.len() - i,
    {
        let ghost pre = line@.take(i as int);
        let ghost post = line@.take(i as int + 1);
        proof {
            assert(post.drop_last() =~= pre);
            assert(post.last() == line@[i as int]);
            if i > 0 {
                assert(post[post.len() - 2] == line@[i as int - 1]);
            }
        }
        let b = line[i];
        if b == 0x20 || b == 0x09 || b == 0x0b || b == 0x0c || b == 0x0d {
            if cur.len() > 0 {
                let ghost old_tokens = tokens@;
                tokens.push(cur);
                cur = Vec::new();
                proof {
                    lemma_byte_rows_push(old_tokens, tokens@.last());
                    assert(cur@ =~= Seq::<u8>::empty());
                }
            }
        } else {
            let ghost old_cur = cur@;
            cur.push(b);
            proof {
                let prev = tokens_of(pre);
                if old_cur.len() > 0 {
                    assert(prev == byte_rows(tokens@).push(old_cur));
                    assert(prev.last() == old_cur);
                    assert(prev.update(prev.len() - 1, old_cur.push(b)) =~= byte_rows(
                        tokens@,
                    ).push(old_cur.push(b)));
                } else {
                    assert(tokens_of(post) == prev.push(seq![b]));
                    assert(cur@ =~= seq![b]);
                }
            }
        }
        i += 1;
    }
    proof {
        assert(line@.take(i as int) =~= line@);
    }
    if cur.len() > 0 {
        let ghost old_tokens = tokens@;
        tokens.push(cur);
        proof {
            lemma_byte_rows_push(old_tokens, tokens@.last());
        }
    }
    tokens
}

} // verus!
