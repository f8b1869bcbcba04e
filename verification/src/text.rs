use vstd::prelude::*;
use vstd::string::StringSliceAdditionalSpecFns;

verus! {

/// The bytes that `u8::is_ascii_whitespace` accepts: space, tab, line feed, form feed and
/// carriage return.
pub open spec fn is_space(b: u8) -> bool {
    b == 32 || b == 9 || b == 10 || b == 12 || b == 13
}

pub fn is_space_byte(b: u8) -> (r: bool)
    ensures
        r == is_space(b),
{
    b == 32 || b == 9 || b == 10 || b == 12 || b == 13
}

/// The length of the run of whitespace at the start of `s`.
pub open spec fn space_run(s: Seq<u8>) -> nat
    decreases s.len(),
{
    if s.len() > 0 && is_space(s[0]) {
        1 + space_run(s.skip(1))
    } else {
        0
    }
}

/// The length of the run of non-whitespace at the start of `s`.
pub open spec fn word_run(s: Seq<u8>) -> nat
    decreases s.len(),
{
    if s.len() > 0 && !is_space(s[0]) {
        1 + word_run(s.skip(1))
    } else {
        0
    }
}

/// The length of the first piece of a line: a run of whitespace followed by a run of
/// non-whitespace.
pub open spec fn piece_len(s: Seq<u8>) -> nat {
    space_run(s) + word_run(s.skip(space_run(s) as int))
}

pub proof fn lemma_space_run_bound(s: Seq<u8>)
    ensures
        space_run(s) <= s.len(),
    decreases s.len(),
{
    if s.len() > 0 && is_space(s[0]) {
        lemma_space_run_bound(s.skip(1));
    }
}

pub proof fn lemma_word_run_bound(s: Seq<u8>)
    ensures
        word_run(s) <= s.len(),
        s.len() > 0 && !is_space(s[0]) ==> word_run(s) > 0,
    decreases s.len(),
{
    if s.len() > 0 && !is_space(s[0]) {
        lemma_word_run_bound(s.skip(1));
    }
}

pub proof fn lemma_piece_len(s: Seq<u8>)
    ensures
        piece_len(s) <= s.len(),
        s.len() > 0 ==> piece_len(s) > 0,
{
    lemma_space_run_bound(s);
    let w = space_run(s);
    lemma_word_run_bound(s.skip(w as int));
    if s.len() > 0 && w == 0 {
        assert(!is_space(s[0]));
        assert(s.skip(0) =~= s);
    }
}

/// The pieces of a line: each a run of whitespace with the word after it, and a last
/// piece of whitespace alone where the line ends in whitespace.
pub open spec fn line_pieces(s: Seq<u8>) -> Seq<Seq<u8>>
    decreases s.len(),
{
    if s.len() == 0 {
        Seq::empty()
    } else {
        let n = piece_len(s);
        if 0 < n <= s.len() {
            seq![s.take(n as int)] + line_pieces(s.skip(n as int))
        } else {
            Seq::empty()
        }
    }
}

/// The pieces of a line put back together give the line; no piece is empty.
pub proof fn lemma_line_pieces_partition(s: Seq<u8>)
    ensures
        line_pieces(s).flatten() == s,
        forall|i: int| 0 <= i < line_pieces(s).len() ==> #[trigger] line_pieces(s)[i].len() > 0,
    decreases s.len(),
{
    if s.len() > 0 {
        lemma_piece_len(s);
        let n = piece_len(s);
        lemma_line_pieces_partition(s.skip(n as int));
        let rest = line_pieces(s.skip(n as int));
        assert(line_pieces(s) == seq![s.take(n as int)] + rest);
        assert((seq![s.take(n as int)] + rest).drop_first() =~= rest);
        assert(s.take(n as int) + s.skip(n as int) =~= s);
        assert forall|i: int| 0 <= i < line_pieces(s).len() implies #[trigger] line_pieces(
            s,
        )[i].len() > 0 by {
            if i > 0 {
                assert(line_pieces(s)[i] == rest[i - 1]);
            }
        }
    } else {
        assert(line_pieces(s).flatten() =~= s);
    }
}

/// Splits a line into pieces, each a run of whitespace followed by a word; a run of
/// whitespace at the end of the line is a piece of its own.
pub fn split_line_tokens(line: &[u8]) -> (out: Vec<Vec<u8>>)
    ensures
        out@.len() == line_pieces(line@).len(),
        forall|i: int| 0 <= i < out@.len() ==> #[trigger] out@[i]@ == line_pieces(line@)[i],
{
    let mut out: Vec<Vec<u8>> = Vec::new();
    let n = line.len();
    let mut i: usize = 0;
    assert(line@.skip(0) =~= line@);
    while i < n
        invariant
            n == line@.len(),
            i <= n,
            out@.len() + line_pieces(line@.skip(i as int)).len() == line_pieces(line@).len(),
            forall|j: int| 0 <= j < out@.len() ==> #[trigger] out@[j]@ == line_pieces(line@)[j],
            forall|j: int|
                0 <= j < line_pieces(line@.skip(i as int)).len() ==> line_pieces(line@)[out@.len()
                    + j] == #[trigger] line_pieces(line@.skip(i as int))[j],
        decreases n - i,
    {
        let ghost rest = line@.skip(i as int);
        let ws_start = i;
        while i < n && is_space_byte(line[i])
            invariant
                n == line@.len(),
                ws_start <= i <= n,
                rest == line@.skip(ws_start as int),
                (i - ws_start) + space_run(line@.skip(i as int)) == space_run(rest),
            decreases n - i,
        {
            assert(line@.skip(i as int).skip(1) =~= line@.skip(i + 1));
            i = i + 1;
        }
        assert(space_run(line@.skip(i as int)) == 0);
        let word_start = i;
        while i < n && !is_space_byte(line[i])
            invariant
                n == line@.len(),
                word_start <= i <= n,
                (i - word_start) + word_run(line@.skip(i as int)) == word_run(
                    line@.skip(word_start as int),
                ),
            decreases n - i,
        {
            assert(line@.skip(i as int).skip(1) =~= line@.skip(i + 1));
            i = i + 1;
        }
        assert(word_run(line@.skip(i as int)) == 0);
        let ghost len = (i - ws_start) as nat;
        assert(rest.skip(space_run(rest) as int) =~= line@.skip(word_start as int));
        assert(len == piece_len(rest));
        proof {
            lemma_piece_len(rest);
        }
        let mut tok: Vec<u8> = Vec::with_capacity(i - ws_start);
        let mut k = ws_start;
        while k < i
            invariant
                ws_start <= k <= i <= n,
                n == line@.len(),
                tok@ =~= line@.subrange(ws_start as int, k as int),
            decreases i - k,
        {
            tok.push(line[k]);
            k = k + 1;
        }
        assert(tok@ =~= rest.take(len as int));
        assert(rest.skip(len as int) =~= line@.skip(i as int));
        let ghost before = out@;
        let ghost tail = line_pieces(line@.skip(i as int));
        assert(line_pieces(rest) == seq![rest.take(len as int)] + tail);
        out.push(tok);
        assert forall|j: int| 0 <= j < out@.len() implies #[trigger] out@[j]@ == line_pieces(
            line@,
        )[j] by {
            if j == before.len() {
                assert(line_pieces(rest)[0] == rest.take(len as int));
            }
        }
        assert forall|j: int| 0 <= j < tail.len() implies line_pieces(line@)[out@.len() + j]
            == #[trigger] tail[j] by {
            assert(line_pieces(rest)[j + 1] == tail[j]);
        }
    }
    out
}

/// A line without a carriage return at its end.
pub open spec fn trimmed(line: Seq<u8>) -> Seq<u8> {
    if line.len() > 0 && line[line.len() - 1] == 13 {
        line.drop_last()
    } else {
        line
    }
}

/// Drops one carriage return from the end of the line, if it ends in one.
pub fn trim_line_end(line: &[u8]) -> (out: &[u8])
    ensures
        out@ == trimmed(line@),
{
    let n = line.len();
    if n > 0 && line[n - 1] == 13 {
        let r = &line[0..n - 1];
        assert(r@ =~= line@.drop_last());
        r
    } else {
        line
    }
}

/// Whether two byte strings are equal.
pub fn bytes_equal(x: &[u8], y: &[u8]) -> (r: bool)
    ensures
        r == (x@ == y@),
{
    if x.len() != y.len() {
        return false;
    }
    let mut i: usize = 0;
    while i < x.len()
        invariant
            x@.len() == y@.len(),
            i <= x@.len(),
            forall|j: int| 0 <= j < i ==> x@[j] == y@[j],
        decreases x@.len() - i,
    {
        if x[i] != y[i] {
            return false;
        }
        i = i + 1;
    }
    assert(x@ =~= y@);
    true
}

/// The UTF-8 bytes of a string, as an owned vector.
pub fn bytes_of(s: &str) -> (out: Vec<u8>)
    ensures
        out@ == s.spec_bytes(),
{
    let b = s.as_bytes();
    let mut out: Vec<u8> = Vec::with_capacity(b.len());
    let mut i: usize = 0;
    while i < b.len()
        invariant
            i <= b@.len(),
            out@ == b@.take(i as int),
        decreases b@.len() - i,
    {
        out.push(b[i]);
        i = i + 1;
        assert(out@ =~= b@.take(i as int));
    }
    assert(b@.take(b@.len() as int) =~= b@);
    out
}

} // verus!
