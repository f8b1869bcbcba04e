use std::collections::HashMap;
use vstd::prelude::*;

use crate::pairs::word_sum;
use crate::specials::{only_special_tokens, only_tokens, table_keys, table_view};
use crate::trainer::TrainingFile;
use crate::specials::BYTE_TOKEN_START;
use crate::pairs::{positive_freqs, WordView};
use crate::stats::{symbols_below, words_view, WordEntry, lemma_word_sum_prefix};
use crate::text::{trim_line_end, line_pieces, lemma_piece_len, lemma_line_pieces_partition, split_line_tokens, trimmed};
use crate::text::bytes_equal;

verus! {

broadcast use vstd::std_specs::hash::group_hash_axioms;

/// The FNV-1a offset basis.
pub const FNV_OFFSET: u64 = 1469598103934665603;

/// The FNV-1a prime.
pub const FNV_PRIME: u64 = 1099511628211;

/// One FNV-1a step: mix in a byte, then multiply by the prime modulo 2^64.
pub open spec fn fnv_step(h: u64, b: u8) -> u64 {
    (h ^ (b as u64)).wrapping_mul(FNV_PRIME)
}

/// FNV-1a continued from the state `h` over the bytes of `s`.
pub open spec fn fnv_extend(h: u64, s: Seq<u8>) -> u64
    decreases s.len(),
{
    if s.len() == 0 {
        h
    } else {
        fnv_step(fnv_extend(h, s.drop_last()), s.last())
    }
}

/// Continues FNV-1a from `h` over `bytes`.
pub fn fnv_extend_bytes(h: u64, bytes: &[u8]) -> (r: u64)
    ensures
        r == fnv_extend(h, bytes@),
{
    let mut acc = h;
    let mut i: usize = 0;
    while i < bytes.len()
        invariant
            i <= bytes@.len(),
            acc == fnv_extend(h, bytes@.take(i as int)),
        decreases bytes@.len() - i,
    {
        assert(bytes@.take(i + 1).drop_last() =~= bytes@.take(i as int));
        acc = (acc ^ (bytes[i] as u64)).wrapping_mul(FNV_PRIME);
        i = i + 1;
    }
    assert(bytes@.take(bytes@.len() as int) =~= bytes@);
    acc
}

/// The tally of a token: its entry's weight increased, or a new entry appended.
pub open spec fn tally_add(t: Seq<(Seq<u8>, i64)>, tok: Seq<u8>, w: i64) -> Seq<(Seq<u8>, i64)> {
    if exists|i: int| 0 <= i < t.len() && t[i].0 == tok {
        let i = choose|i: int| 0 <= i < t.len() && t[i].0 == tok;
        t.update(i, (tok, (t[i].1 + w) as i64))
    } else {
        t.push((tok, w))
    }
}

/// The tally `t` extended by the weighted tokens of `stream`, in order.
pub open spec fn tally_extend(t: Seq<(Seq<u8>, i64)>, stream: Seq<(Seq<u8>, i64)>) -> Seq<(Seq<u8>, i64)>
    decreases stream.len(),
{
    if stream.len() == 0 {
        t
    } else {
        tally_add(tally_extend(t, stream.drop_last()), stream.last().0, stream.last().1)
    }
}

/// The weighted tokens tallied in order of first appearance.
pub open spec fn tally(stream: Seq<(Seq<u8>, i64)>) -> Seq<(Seq<u8>, i64)> {
    tally_extend(Seq::empty(), stream)
}

pub proof fn lemma_tally_extend_append(
    t: Seq<(Seq<u8>, i64)>,
    a: Seq<(Seq<u8>, i64)>,
    b: Seq<(Seq<u8>, i64)>,
)
    ensures
        tally_extend(t, a + b) == tally_extend(tally_extend(t, a), b),
    decreases b.len(),
{
    if b.len() == 0 {
        assert(a + b =~= a);
    } else {
        lemma_tally_extend_append(t, a, b.drop_last());
        assert((a + b).drop_last() =~= a + b.drop_last());
        assert((a + b).last() == b.last());
    }
}

/// No token occurs twice in the tally.
pub open spec fn distinct_tokens(t: Seq<(Seq<u8>, i64)>) -> bool {
    forall|i: int, j: int| 0 <= i < j < t.len() ==> #[trigger] t[i].0 != #[trigger] t[j].0
}

/// A tally of weighted tokens: the tokens in order of first appearance, with a hash index.
pub struct WordTable {
    tokens: Vec<Vec<u8>>,
    weights: Vec<i64>,
    buckets: HashMap<u64, Vec<usize>>,
}

impl WordTable {
    pub closed spec fn view(&self) -> Seq<(Seq<u8>, i64)> {
        Seq::new(self.tokens@.len(), |i: int| (self.tokens@[i]@, self.weights@[i]))
    }

    /// The tokens are distinct and each is listed in the bucket of its hash.
    pub closed spec fn wf(&self) -> bool {
        &&& self.tokens@.len() == self.weights@.len()
        &&& distinct_tokens(self.view())
        &&& forall|i: int|
            0 <= i < self.tokens@.len() ==> {
                let h = fnv_extend(FNV_OFFSET, #[trigger] self.tokens@[i]@);
                &&& self.buckets@.contains_key(h)
                &&& self.buckets@[h]@.contains(i as usize)
            }
        &&& forall|h: u64, j: int|
            #![trigger self.buckets@[h]@[j]]
            self.buckets@.contains_key(h) && 0 <= j < self.buckets@[h]@.len() ==> {
                let x = self.buckets@[h]@[j];
                &&& x < self.tokens@.len()
                &&& fnv_extend(FNV_OFFSET, self.tokens@[x as int]@) == h
            }
    }

    pub fn new() -> (t: Self)
        ensures
            t.wf(),
            t.view() == Seq::<(Seq<u8>, i64)>::empty(),
    {
        let t = WordTable { tokens: Vec::new(), weights: Vec::new(), buckets: HashMap::new() };
        assert(t.view() =~= Seq::<(Seq<u8>, i64)>::empty());
        t
    }

    pub fn len(&self) -> (n: usize)
        requires
            self.wf(),
        ensures
            n == self.view().len(),
    {
        self.tokens.len()
    }

    /// The token and weight of entry `i`.
    pub fn entry(&self, i: usize) -> (e: (&Vec<u8>, i64))
        requires
            self.wf(),
            i < self.view().len(),
        ensures
            e.0@ == self.view()[i as int].0,
            e.1 == self.view()[i as int].1,
    {
        (&self.tokens[i], self.weights[i])
    }

    /// Adds the weight to the token's entry, appending an entry for a new token; answers false
    /// and changes nothing where the entry's sum would leave the range of `i64`.
    pub fn try_add(&mut self, tok: Vec<u8>, w: i64) -> (r: bool)
        requires
            old(self).wf(),
        ensures
            final(self).wf(),
            r == add_fits(old(self).view(), (tok@, w)),
            r ==> final(self).view() == tally_add(old(self).view(), tok@, w),
            !r ==> final(self).view() == old(self).view(),
    {
        let ghost t0 = self.view();
        let ntok = self.tokens.len();
        let h = fnv_extend_bytes(FNV_OFFSET, tok.as_slice());
        let mut found: Option<usize> = None;
        match self.buckets.get(&h) {
            Some(list) => {
                let mut j: usize = 0;
                while j < list.len()
                    invariant_except_break
                        found is None,
                    invariant
                        self.wf(),
                        self.buckets@.contains_key(h),
                        self.buckets@[h] == *list,
                        ntok == t0.len(),
                        j <= list@.len(),
                        forall|x: int| 0 <= x < j ==> t0[list@[x] as int].0 != tok@,
                        t0 == self.view(),
                    ensures
                        found matches Some(i) ==> i < t0.len() && t0[i as int].0 == tok@,
                        found is None ==> forall|x: int|
                            0 <= x < list@.len() ==> t0[list@[x] as int].0 != tok@,
                    decreases list@.len() - j,
                {
                    let idx = list[j];
                    assert(idx < self.tokens@.len()) by {
                        assert(self.buckets@[h]@[j as int] == idx);
                    }
                    if bytes_equal(self.tokens[idx].as_slice(), tok.as_slice()) {
                        found = Some(idx);
                        break ;
                    }
                    j = j + 1;
                }
                proof {
                    if found is None {
                        assert forall|x: int| 0 <= x < t0.len() implies t0[x].0 != tok@ by {
                            if t0[x].0 == tok@ {
                                assert(self.tokens@[x]@ == tok@);
                                assert(x < self.tokens@.len());
                                assert((x as usize) as int == x);
                                assert(fnv_extend(FNV_OFFSET, self.tokens@[x]@) == h);
                                assert(self.buckets@[h]@.contains(x as usize));
                                let jj = choose|jj: int| 0 <= jj < list@.len() && list@[jj] == x as usize;
                                assert(t0[list@[jj] as int].0 != tok@);
                            }
                        }
                    }
                }
            },
            None => {
                proof {
                    assert forall|x: int| 0 <= x < t0.len() implies t0[x].0 != tok@ by {
                        if t0[x].0 == tok@ {
                            assert(self.tokens@[x]@ == tok@);
                        }
                    }
                }
            },
        }
        match found {
            Some(i) => {
                proof {
                    assert forall|k: int| 0 <= k < t0.len() && t0[k].0 == tok@ implies k == i by {
                        if k != i {
                            if k < i {
                                assert(t0[k].0 != t0[i as int].0);
                            } else {
                                assert(t0[i as int].0 != t0[k].0);
                            }
                        }
                    }
                }
                let old_w = self.weights[i];
                match old_w.checked_add(w) {
                    None => {
                        return false;
                    },
                    Some(nw) => {
                        self.weights.set(i, nw);
                        proof {
                            let c = choose|x: int| 0 <= x < t0.len() && t0[x].0 == tok@;
                            assert(c == i);
                            assert(self.view() =~= t0.update(i as int, (tok@, nw)));
                        }
                    },
                }
            },
            None => {
                let n = self.tokens.len();
                let ghost tk = tok@;
                self.tokens.push(tok);
                self.weights.push(w);
                let mut list: Vec<usize> = match self.buckets.remove(&h) {
                    Some(l) => l,
                    None => Vec::new(),
                };
                let ghost l0 = list@;
                list.push(n);
                self.buckets.insert(h, list);
                proof {
                    assert(self.view() =~= t0.push((tk, w)));
                    assert forall|i: int|
                        0 <= i < self.tokens@.len() implies {
                        let hh = fnv_extend(FNV_OFFSET, #[trigger] self.tokens@[i]@);
                        &&& self.buckets@.contains_key(hh)
                        &&& self.buckets@[hh]@.contains(i as usize)
                    } by {
                        let hh = fnv_extend(FNV_OFFSET, self.tokens@[i]@);
                        if i == n {
                            assert(self.buckets@[h]@[l0.len() as int] == n);
                        } else if hh == h {
                            let x = choose|x: int| 0 <= x < l0.len() && l0[x] == i as usize;
                            assert(self.buckets@[h]@[x] == i as usize);
                        }
                    }
                    assert forall|hh: u64, j: int|
                        #![trigger self.buckets@[hh]@[j]]
                        self.buckets@.contains_key(hh) && 0 <= j < self.buckets@[hh]@.len() implies {
                        let x = self.buckets@[hh]@[j];
                        &&& x < self.tokens@.len()
                        &&& fnv_extend(FNV_OFFSET, self.tokens@[x as int]@) == hh
                    } by {
                        if hh == h && j < l0.len() {
                            assert(self.buckets@[hh]@[j] == l0[j]);
                        }
                    }
                }
            },
        }
        true
    }
}

/// Adding the weighted token to the tally keeps its entry's sum within `i64`.
pub open spec fn add_fits(t: Seq<(Seq<u8>, i64)>, e: (Seq<u8>, i64)) -> bool {
    forall|i: int| 0 <= i < t.len() && t[i].0 == e.0 ==> i64::MIN <= #[trigger] t[i].1 + e.1 <= i64::MAX
}

/// Tallying the stream onto `t` never takes a sum out of the range of `i64`.
pub open spec fn tally_fits(t: Seq<(Seq<u8>, i64)>, stream: Seq<(Seq<u8>, i64)>) -> bool
    decreases stream.len(),
{
    stream.len() == 0 || (tally_fits(t, stream.drop_last()) && add_fits(
        tally_extend(t, stream.drop_last()),
        stream.last(),
    ))
}

/// A stream fits exactly when its first part fits and the rest fits after it.
pub proof fn lemma_tally_fits_append(t: Seq<(Seq<u8>, i64)>, a: Seq<(Seq<u8>, i64)>, b: Seq<(Seq<u8>, i64)>)
    ensures
        tally_fits(t, a + b) == (tally_fits(t, a) && tally_fits(tally_extend(t, a), b)),
    decreases b.len(),
{
    if b.len() == 0 {
        assert(a + b =~= a);
    } else {
        lemma_tally_fits_append(t, a, b.drop_last());
        assert((a + b).drop_last() =~= a + b.drop_last());
        assert((a + b).last() == b.last());
        lemma_tally_extend_append(t, a, b.drop_last());
    }
}

/// In a stream that fits, each single addition fits.
pub proof fn lemma_tally_fits_step(t: Seq<(Seq<u8>, i64)>, s: Seq<(Seq<u8>, i64)>, j: int)
    requires
        tally_fits(t, s),
        0 <= j < s.len(),
    ensures
        add_fits(tally_extend(t, s.take(j)), s[j]),
    decreases s.len(),
{
    if j == s.len() - 1 {
        assert(s.take(j) =~= s.drop_last());
    } else {
        lemma_tally_fits_step(t, s.drop_last(), j);
        assert(s.drop_last().take(j) =~= s.take(j));
    }
}

/// The pieces of a line, each carrying the line's weight.
pub open spec fn weighted_pieces(line: Seq<u8>, w: i64) -> Seq<(Seq<u8>, i64)> {
    Seq::new(line_pieces(line).len(), |i: int| (line_pieces(line)[i], w))
}

/// A line is trained on when it is not empty and is not made of special tokens only.
pub open spec fn line_loaded(keys: Seq<Seq<u8>>, line: Seq<u8>) -> bool {
    line.len() > 0 && !only_tokens(keys, line)
}

/// The total length of a sequence of byte strings.
pub open spec fn total_len(ps: Seq<Seq<u8>>) -> int {
    word_sum(ps, |p: Seq<u8>| p.len() as int)
}

proof fn lemma_total_len_prepend(x: Seq<u8>, rest: Seq<Seq<u8>>)
    ensures
        total_len(seq![x] + rest) == x.len() + total_len(rest),
    decreases rest.len(),
{
    let s = seq![x] + rest;
    if rest.len() == 0 {
        assert(s.drop_last() =~= Seq::<Seq<u8>>::empty());
        assert(s.last() == x);
        assert(total_len(s) == total_len(s.drop_last()) + x.len());
    } else {
        lemma_total_len_prepend(x, rest.drop_last());
        assert(s.drop_last() =~= seq![x] + rest.drop_last());
        assert(s.last() == rest.last());
        assert(total_len(s) == total_len(s.drop_last()) + rest.last().len());
        assert(total_len(rest) == total_len(rest.drop_last()) + rest.last().len());
    }
}

/// The pieces of a line are as long as the line together.
pub proof fn lemma_pieces_total_len(s: Seq<u8>)
    ensures
        total_len(line_pieces(s)) == s.len(),
        s.len() > 0 ==> line_pieces(s).len() > 0,
    decreases s.len(),
{
    if s.len() > 0 {
        lemma_piece_len(s);
        let n = crate::text::piece_len(s);
        lemma_pieces_total_len(s.skip(n as int));
        lemma_total_len_prepend(s.take(n as int), line_pieces(s.skip(n as int)));
    }
}

/// The weighted pieces that a line adds to the tally: none when it is skipped.
pub open spec fn line_stream(keys: Seq<Seq<u8>>, line: Seq<u8>, w: i64) -> Seq<(Seq<u8>, i64)> {
    if line_loaded(keys, line) {
        weighted_pieces(line, w)
    } else {
        Seq::empty()
    }
}

/// Tallies the pieces of one line if the line is trained on; answers whether it is, or `None`
/// where a sum of the tally would leave the range of `i64`.
pub fn ingest_line(specials: &Vec<(Vec<u8>, u16)>, table: &mut WordTable, line: &[u8], w: i64) -> (r: Option<bool>)
    requires
        old(table).wf(),
    ensures
        final(table).wf(),
        r is Some <==> tally_fits(old(table).view(), line_stream(table_keys(table_view(specials@)), line@, w)),
        r matches Some(loaded) ==> {
            &&& loaded == line_loaded(table_keys(table_view(specials@)), line@)
            &&& final(table).view() == tally_extend(
                old(table).view(),
                line_stream(table_keys(table_view(specials@)), line@, w),
            )
        },
{
    let ghost t0 = table.view();
    if line.len() == 0 {
        return Some(false);
    }
    if only_special_tokens(specials, line) {
        return Some(false);
    }
    let pieces = split_line_tokens(line);
    proof {
        lemma_pieces_total_len(line@);
        lemma_line_pieces_partition(line@);
    }
    if pieces.len() == 0 {
        return Some(false);
    }
    let ghost wp = weighted_pieces(line@, w);
    let ghost lens = line_pieces(line@);
    let np = pieces.len();
    let mut j: usize = 0;
    proof {
        assert(wp.take(0) =~= Seq::<(Seq<u8>, i64)>::empty());
        assert(line_stream(table_keys(table_view(specials@)), line@, w) == wp);
    }
    while j < np
        invariant
            line_stream(table_keys(table_view(specials@)), line@, w) == wp,
            t0 == old(table).view(),
            np == pieces@.len(),
            np == lens.len(),
            lens == line_pieces(line@),
            wp == weighted_pieces(line@, w),
            forall|i: int| 0 <= i < np ==> #[trigger] pieces@[i]@ == lens[i],
            j <= np,
            table.wf(),
            table.view() == tally_extend(t0, wp.take(j as int)),
            tally_fits(t0, wp.take(j as int)),
        decreases np - j,
    {
        let ghost tok = lens[j as int];
        proof {
            assert(wp.take(j + 1).drop_last() =~= wp.take(j as int));
            assert(wp.take(j + 1).last() == (tok, w));
            assert(wp[j as int] == (tok, w));
        }
        let tok_vec = pieces[j].clone();
        assert(tok_vec@ == tok);
        let ghost before = table.view();
        if !table.try_add(tok_vec, w) {
            proof {
                assert(!add_fits(before, wp[j as int]));
                if tally_fits(t0, wp) {
                    lemma_tally_fits_step(t0, wp, j as int);
                }
            }
            return None;
        }
        proof {
            assert(add_fits(before, wp[j as int]));
            assert(tally_fits(t0, wp.take(j + 1)));
        }
        j = j + 1;
    }
    assert(wp.take(np as int) =~= wp);
    Some(true)
}

/// The position of the first line feed in `s`, or -1 when there is none.
pub open spec fn first_newline(s: Seq<u8>) -> int
    decreases s.len(),
{
    if s.len() == 0 {
        -1
    } else if s[0] == 10 {
        0
    } else {
        let r = first_newline(s.skip(1));
        if r < 0 {
            -1
        } else {
            r + 1
        }
    }
}

pub proof fn lemma_first_newline(s: Seq<u8>, k: int)
    requires
        0 <= k <= s.len(),
        forall|j: int| 0 <= j < k ==> s[j] != 10,
        k == s.len() || s[k] == 10,
    ensures
        first_newline(s) == if k == s.len() {
            -1
        } else {
            k
        },
    decreases s.len(),
{
    if s.len() > 0 && k > 0 {
        lemma_first_newline(s.skip(1), k - 1);
    }
}

/// The lines of a byte string: the pieces between line feeds, the last one after the last
/// line feed (possibly empty).
pub open spec fn blob_lines(s: Seq<u8>) -> Seq<Seq<u8>>
    decreases s.len(),
{
    let p = first_newline(s);
    if 0 <= p < s.len() {
        seq![s.take(p)] + blob_lines(s.skip(p + 1))
    } else {
        seq![s]
    }
}

/// Lines without their carriage return, each with the weight of its file.
pub open spec fn weighted_lines(lines: Seq<Seq<u8>>, w: i64) -> Seq<(Seq<u8>, i64)> {
    Seq::new(lines.len(), |i: int| (trimmed(lines[i]), w))
}

/// The lines of all files, in order, each with its file's weight.
pub open spec fn corpus_lines(input: Seq<(Seq<u8>, i64)>) -> Seq<(Seq<u8>, i64)>
    decreases input.len(),
{
    if input.len() == 0 {
        Seq::empty()
    } else {
        corpus_lines(input.drop_last()) + weighted_lines(blob_lines(input.last().0), input.last().1)
    }
}

/// The number of lines trained on.
pub open spec fn count_loaded(keys: Seq<Seq<u8>>, lines: Seq<(Seq<u8>, i64)>) -> nat
    decreases lines.len(),
{
    if lines.len() == 0 {
        0
    } else {
        count_loaded(keys, lines.drop_last()) + if line_loaded(keys, lines.last().0) {
            1nat
        } else {
            0nat
        }
    }
}

/// The number of lines skipped: empty, or made of special tokens only.
pub open spec fn count_skipped(keys: Seq<Seq<u8>>, lines: Seq<(Seq<u8>, i64)>) -> nat
    decreases lines.len(),
{
    if lines.len() == 0 {
        0
    } else {
        count_skipped(keys, lines.drop_last()) + if line_loaded(keys, lines.last().0) {
            0nat
        } else {
            1nat
        }
    }
}

/// The total length of the lines trained on.
pub open spec fn loaded_bytes(keys: Seq<Seq<u8>>, lines: Seq<(Seq<u8>, i64)>) -> nat
    decreases lines.len(),
{
    if lines.len() == 0 {
        0
    } else {
        loaded_bytes(keys, lines.drop_last()) + if line_loaded(keys, lines.last().0) {
            lines.last().0.len()
        } else {
            0nat
        }
    }
}

/// The weighted pieces of the lines trained on, in order.
pub open spec fn piece_stream(keys: Seq<Seq<u8>>, lines: Seq<(Seq<u8>, i64)>) -> Seq<(Seq<u8>, i64)>
    decreases lines.len(),
{
    if lines.len() == 0 {
        Seq::empty()
    } else {
        piece_stream(keys, lines.drop_last()) + if line_loaded(keys, lines.last().0) {
            weighted_pieces(lines.last().0, lines.last().1)
        } else {
            Seq::empty()
        }
    }
}

pub proof fn lemma_line_stats_append(
    keys: Seq<Seq<u8>>,
    a: Seq<(Seq<u8>, i64)>,
    b: Seq<(Seq<u8>, i64)>,
)
    ensures
        count_loaded(keys, a + b) == count_loaded(keys, a) + count_loaded(keys, b),
        count_skipped(keys, a + b) == count_skipped(keys, a) + count_skipped(keys, b),
        loaded_bytes(keys, a + b) == loaded_bytes(keys, a) + loaded_bytes(keys, b),
        piece_stream(keys, a + b) == piece_stream(keys, a) + piece_stream(keys, b),
    decreases b.len(),
{
    if b.len() == 0 {
        assert(a + b =~= a);
        assert(piece_stream(keys, a) + piece_stream(keys, b) =~= piece_stream(keys, a));
    } else {
        lemma_line_stats_append(keys, a, b.drop_last());
        assert((a + b).drop_last() =~= a + b.drop_last());
        assert((a + b).last() == b.last());
        let extra = if line_loaded(keys, b.last().0) {
            weighted_pieces(b.last().0, b.last().1)
        } else {
            Seq::empty()
        };
        assert(piece_stream(keys, a) + piece_stream(keys, b.drop_last()) + extra =~= piece_stream(
            keys,
            a,
        ) + (piece_stream(keys, b.drop_last()) + extra));
    }
}

/// The size of the input counted as its bytes plus one per file.
pub open spec fn input_size(input: Seq<(Seq<u8>, i64)>) -> int {
    word_sum(input, |e: (Seq<u8>, i64)| e.0.len() + 1int)
}

/// The lines of two runs of lines, weighted alike, are those of the first then the second.
proof fn lemma_weighted_lines_append(x: Seq<Seq<u8>>, y: Seq<Seq<u8>>, w: i64)
    ensures
        weighted_lines(x + y, w) == weighted_lines(x, w) + weighted_lines(y, w),
{
    assert(weighted_lines(x + y, w) =~= weighted_lines(x, w) + weighted_lines(y, w));
}

/// Tallies the pieces of every line of one file's contents that is trained on; answers
/// the numbers of lines trained on and skipped, and the bytes of the lines trained on, or
/// `None` where a sum of the tally would leave the range of `i64`.
pub fn ingest_blob(specials: &Vec<(Vec<u8>, u16)>, table: &mut WordTable, blob: &[u8], w: i64) -> (r: Option<(
    usize,
    usize,
    usize,
)>)
    requires
        old(table).wf(),
        blob@.len() < usize::MAX,
    ensures
        final(table).wf(),
        r is Some <==> tally_fits(
            old(table).view(),
            piece_stream(table_keys(table_view(specials@)), weighted_lines(blob_lines(blob@), w)),
        ),
        r matches Some(c) ==> {
            let keys = table_keys(table_view(specials@));
            let lines = weighted_lines(blob_lines(blob@), w);
            &&& final(table).view() == tally_extend(old(table).view(), piece_stream(keys, lines))
            &&& c.0 == count_loaded(keys, lines)
            &&& c.1 == count_skipped(keys, lines)
            &&& c.2 == loaded_bytes(keys, lines)
            &&& c.0 + c.1 <= blob@.len() + 1
            &&& c.2 <= blob@.len()
        },
{
    let ghost keys = table_keys(table_view(specials@));
    let ghost t0 = table.view();
    let ghost full = piece_stream(keys, weighted_lines(blob_lines(blob@), w));
    let n = blob.len();
    let mut start: usize = 0;
    let mut loaded: usize = 0;
    let mut skipped: usize = 0;
    let mut bytes: usize = 0;
    let ghost mut done: Seq<Seq<u8>> = Seq::empty();
    assert(blob@.skip(0) =~= blob@);
    assert(weighted_lines(done, w) =~= Seq::<(Seq<u8>, i64)>::empty());
    loop
        invariant_except_break
            start <= n,
            blob_lines(blob@) == done + blob_lines(blob@.skip(start as int)),
            loaded + skipped <= start,
            bytes <= start,
        invariant
            n == blob@.len(),
            keys == table_keys(table_view(specials@)),
            full == piece_stream(keys, weighted_lines(blob_lines(blob@), w)),
            t0 == old(table).view(),
            table.wf(),
            table.view() == tally_extend(t0, piece_stream(keys, weighted_lines(done, w))),
            tally_fits(t0, piece_stream(keys, weighted_lines(done, w))),
            loaded == count_loaded(keys, weighted_lines(done, w)),
            skipped == count_skipped(keys, weighted_lines(done, w)),
            bytes == loaded_bytes(keys, weighted_lines(done, w)),
            n < usize::MAX,
        ensures
            blob_lines(blob@) == done,
            loaded + skipped <= n + 1,
            bytes <= n,
        decreases n + 1 - start,
    {
        let mut end = start;
        while end < n && blob[end] != 10
            invariant
                start <= end <= n,
                n == blob@.len(),
                forall|j: int| start <= j < end ==> blob@[j] != 10,
            decreases n - end,
        {
            end = end + 1;
        }
        let raw = &blob[start..end];
        let ghost rest = blob@.skip(start as int);
        proof {
            assert(raw@ =~= rest.take(end - start));
            lemma_first_newline(rest, end - start);
            if end < n {
                assert(rest.skip(end - start + 1) =~= blob@.skip(end + 1));
            } else {
                assert(raw@ =~= rest);
            }
        }
        let line = trim_line_end(raw);
        let ghost lines0 = weighted_lines(done, w);
        let ghost one = seq![(line@, w)];
        let ghost later: Seq<Seq<u8>> = if end < n {
            blob_lines(blob@.skip(end + 1))
        } else {
            Seq::empty()
        };
        proof {
            if end < n {
                assert(blob_lines(rest) == seq![rest.take(end - start)] + blob_lines(rest.skip(end - start + 1)));
            } else {
                assert(blob_lines(rest) == seq![rest]);
            }
            assert(blob_lines(rest) =~= seq![raw@] + later);
            assert(weighted_lines(seq![raw@] + later, w) =~= one + weighted_lines(later, w));
            lemma_line_stats_append(keys, one, weighted_lines(later, w));
            lemma_tally_fits_append(table.view(), piece_stream(keys, one), piece_stream(keys, weighted_lines(later, w)));
            lemma_weighted_lines_append(done, blob_lines(rest), w);
            lemma_line_stats_append(keys, lines0, weighted_lines(blob_lines(rest), w));
            lemma_tally_fits_append(t0, piece_stream(keys, lines0), piece_stream(keys, weighted_lines(blob_lines(rest), w)));
            assert(one.drop_last() =~= Seq::<(Seq<u8>, i64)>::empty());
            assert(one.last() == (line@, w));
            assert(piece_stream(keys, one.drop_last()) == Seq::<(Seq<u8>, i64)>::empty());
            assert(piece_stream(keys, one) == piece_stream(keys, one.drop_last()) + line_stream(keys, line@, w));
            assert(piece_stream(keys, one) =~= line_stream(keys, line@, w));
        }
        let ghost view_before = table.view();
        let is_loaded = match ingest_line(specials, table, line, w) {
            Some(l) => l,
            None => {
                proof {
                    assert(weighted_lines(blob_lines(rest), w) == one + weighted_lines(later, w));
                    assert(weighted_lines(blob_lines(blob@), w) == lines0 + weighted_lines(blob_lines(rest), w));
                    assert(!tally_fits(view_before, line_stream(keys, line@, w)));
                    assert(piece_stream(keys, one) == line_stream(keys, line@, w));
                    assert(piece_stream(keys, weighted_lines(blob_lines(rest), w)) == piece_stream(keys, one)
                        + piece_stream(keys, weighted_lines(later, w)));
                    assert(!tally_fits(view_before, piece_stream(keys, weighted_lines(blob_lines(rest), w))));
                    assert(view_before == tally_extend(t0, piece_stream(keys, lines0)));
                    assert(piece_stream(keys, weighted_lines(blob_lines(blob@), w)) == piece_stream(keys, lines0)
                        + piece_stream(keys, weighted_lines(blob_lines(rest), w)));
                    assert(!tally_fits(t0, full));
                }
                return None;
            },
        };
        proof {
            lemma_line_stats_append(keys, lines0, one);
            assert(weighted_lines(done.push(raw@), w) =~= lines0 + one);
            assert(count_loaded(keys, one.drop_last()) == 0);
            assert(count_skipped(keys, one.drop_last()) == 0);
            assert(loaded_bytes(keys, one.drop_last()) == 0);
            assert(one.last().0.len() == line@.len());
            assert(line_loaded(keys, one.last().0) == is_loaded);
            assert(count_loaded(keys, one) == if is_loaded { 1nat } else { 0nat });
            assert(count_skipped(keys, one) == if is_loaded { 0nat } else { 1nat });
            assert(loaded_bytes(keys, one) == if is_loaded { line@.len() } else { 0nat });
            lemma_tally_extend_append(t0, piece_stream(keys, lines0), piece_stream(keys, one));
            lemma_tally_fits_append(t0, piece_stream(keys, lines0), piece_stream(keys, one));
            assert(table.view() == tally_extend(view_before, piece_stream(keys, one)));
        }
        if is_loaded {
            loaded = loaded + 1;
            bytes = bytes + line.len();
        } else {
            skipped = skipped + 1;
        }
        proof {
            done = done.push(raw@);
        }
        if end == n {
            proof {
                assert(blob_lines(rest) == seq![rest]);
                assert(blob_lines(blob@) == done);
            }
            break ;
        }
        proof {
            assert(blob_lines(rest) == seq![rest.take(end - start)] + blob_lines(rest.skip(end - start + 1)));
            assert(blob_lines(blob@) =~= done + blob_lines(blob@.skip(end + 1)));
        }
        start = end + 1;
    }
    Some((loaded, skipped, bytes))
}

/// The contents of the training files, each with its file's weight.
pub open spec fn corpus_input(files: Seq<TrainingFile>, contents: Seq<Vec<u8>>) -> Seq<(Seq<u8>, i64)> {
    Seq::new(files.len(), |i: int| (contents[i]@, files[i].weight_scaled))
}

/// The lines of the first `k` files followed by the lines of the others are the lines of all.
pub proof fn lemma_corpus_lines_split(input: Seq<(Seq<u8>, i64)>, k: int)
    requires
        0 <= k <= input.len(),
    ensures
        corpus_lines(input) == corpus_lines(input.take(k)) + corpus_lines(input.skip(k)),
    decreases input.len(),
{
    if k == input.len() {
        assert(input.take(k) =~= input);
        assert(input.skip(k) =~= Seq::<(Seq<u8>, i64)>::empty());
        assert(corpus_lines(input) + Seq::<(Seq<u8>, i64)>::empty() =~= corpus_lines(input));
    } else {
        let d = input.drop_last();
        lemma_corpus_lines_split(d, k);
        assert(d.take(k) =~= input.take(k));
        assert(input.skip(k).drop_last() =~= d.skip(k));
        assert(input.skip(k).last() == input.last());
        let wl = weighted_lines(blob_lines(input.last().0), input.last().1);
        assert(corpus_lines(input.take(k)) + corpus_lines(d.skip(k)) + wl =~= corpus_lines(input.take(k))
            + (corpus_lines(d.skip(k)) + wl));
    }
}

/// Tallies the pieces of all lines of all files that are trained on; answers the tally and
/// the numbers of lines trained on and skipped, and the bytes of the lines trained on, or
/// `None` where a sum of the tally would leave the range of `i64`.
pub fn ingest(
    specials: &Vec<(Vec<u8>, u16)>,
    files: &[TrainingFile],
    contents: &[Vec<u8>],
) -> (r: Option<(WordTable, usize, usize, usize)>)
    requires
        files@.len() == contents@.len(),
        input_size(corpus_input(files@, contents@)) <= usize::MAX,
    ensures
        r is Some <==> tally_fits(
            Seq::empty(),
            piece_stream(table_keys(table_view(specials@)), corpus_lines(corpus_input(files@, contents@))),
        ),
        r matches Some(c) ==> {
            let keys = table_keys(table_view(specials@));
            let lines = corpus_lines(corpus_input(files@, contents@));
            &&& c.0.wf()
            &&& c.0.view() == tally(piece_stream(keys, lines))
            &&& c.1 == count_loaded(keys, lines)
            &&& c.2 == count_skipped(keys, lines)
            &&& c.3 == loaded_bytes(keys, lines)
        },
{
    let ghost keys = table_keys(table_view(specials@));
    let ghost input = corpus_input(files@, contents@);
    let mut table = WordTable::new();
    let mut loaded: usize = 0;
    let mut skipped: usize = 0;
    let mut bytes: usize = 0;
    let nf = files.len();
    let mut fi: usize = 0;
    proof {
        assert(input.take(0) =~= Seq::<(Seq<u8>, i64)>::empty());
        assert(input.skip(0) =~= input);
        let f = |e: (Seq<u8>, i64)| e.0.len() + 1int;
        assert forall|j: int| 0 <= j < input.len() implies f(#[trigger] input[j]) >= 0 by {}
        lemma_word_sum_prefix(input, 0, f);
    }
    while fi < nf
        invariant
            nf == files@.len(),
            nf == contents@.len(),
            fi <= nf,
            input == corpus_input(files@, contents@),
            input_size(input) <= usize::MAX,
            keys == table_keys(table_view(specials@)),
            table.wf(),
            table.view() == tally(piece_stream(keys, corpus_lines(input.take(fi as int)))),
            tally_fits(Seq::empty(), piece_stream(keys, corpus_lines(input.take(fi as int)))),
            loaded == count_loaded(keys, corpus_lines(input.take(fi as int))),
            skipped == count_skipped(keys, corpus_lines(input.take(fi as int))),
            bytes == loaded_bytes(keys, corpus_lines(input.take(fi as int))),
            loaded + skipped <= input_size(input.take(fi as int)),
            bytes <= input_size(input.take(fi as int)),
            input_size(input.take(fi as int)) <= input_size(input),
        decreases nf - fi,
    {
        let ghost before = input.take(fi as int);
        let ghost after = input.take(fi + 1);
        let w = files[fi].weight_scaled;
        let ghost fl = weighted_lines(blob_lines(contents@[fi as int]@), w);
        proof {
            assert(after.drop_last() =~= before);
            assert(after.last() == input[fi as int]);
            let f = |e: (Seq<u8>, i64)| e.0.len() + 1int;
            assert forall|j: int| 0 <= j < input.len() implies f(#[trigger] input[j]) >= 0 by {}
            lemma_word_sum_prefix(input, fi + 1, f);
            assert(input_size(after) == input_size(before) + contents@[fi as int]@.len() + 1);
            let rest = input.skip(fi as int);
            lemma_corpus_lines_split(rest, 1);
            assert(rest.take(1).drop_last() =~= Seq::<(Seq<u8>, i64)>::empty());
            assert(rest.take(1).last() == input[fi as int]);
            assert(input[fi as int] == (contents@[fi as int]@, w));
            assert(corpus_lines(rest.take(1).drop_last()) == Seq::<(Seq<u8>, i64)>::empty());
            assert(corpus_lines(rest.take(1)) =~= fl);
            assert(rest.skip(1) =~= input.skip(fi + 1));
            lemma_line_stats_append(keys, fl, corpus_lines(input.skip(fi + 1)));
            lemma_tally_fits_append(table.view(), piece_stream(keys, fl), piece_stream(keys, corpus_lines(input.skip(fi + 1))));
            lemma_corpus_lines_split(input, fi as int);
            lemma_line_stats_append(keys, corpus_lines(before), corpus_lines(rest));
            lemma_tally_fits_append(Seq::empty(), piece_stream(keys, corpus_lines(before)), piece_stream(keys, corpus_lines(rest)));
            assert(contents@[fi as int]@.len() < usize::MAX);
        }
        let (l, k, b) = match ingest_blob(specials, &mut table, contents[fi].as_slice(), w) {
            Some(c) => c,
            None => {
                return None;
            },
        };
        proof {
            lemma_tally_fits_append(Seq::empty(), piece_stream(keys, corpus_lines(before)), piece_stream(keys, fl));
            assert(corpus_lines(after) == corpus_lines(before) + fl);
            lemma_line_stats_append(keys, corpus_lines(before), fl);
            lemma_tally_extend_append(
                Seq::empty(),
                piece_stream(keys, corpus_lines(before)),
                piece_stream(keys, fl),
            );
        }
        loaded = loaded + l;
        skipped = skipped + k;
        bytes = bytes + b;
        fi = fi + 1;
    }
    proof {
        assert(input.take(nf as int) =~= input);
    }
    Some((table, loaded, skipped, bytes))
}

/// The symbols of a token: each byte `b` becomes the byte token `20 + b`.
pub open spec fn to_symbols(b: Seq<u8>) -> Seq<u16> {
    Seq::new(b.len(), |i: int| (b[i] as int + 20) as u16)
}

/// The tallied tokens with a positive weight, as training words, in tally order.
pub open spec fn table_words(t: Seq<(Seq<u8>, i64)>) -> Seq<WordView>
    decreases t.len(),
{
    if t.len() == 0 {
        Seq::empty()
    } else {
        let r = table_words(t.drop_last());
        let e = t.last();
        if e.0.len() > 0 && e.1 > 0 {
            r.push((to_symbols(e.0), e.1))
        } else {
            r
        }
    }
}

/// The training words of a tally have positive weights and byte-token symbols, and there are
/// no more of them than tally entries.
pub proof fn lemma_table_words_shape(t: Seq<(Seq<u8>, i64)>)
    ensures
        positive_freqs(table_words(t)),
        symbols_below(table_words(t), 276),
        table_words(t).len() <= t.len(),
    decreases t.len(),
{
    if t.len() > 0 {
        let d = t.drop_last();
        lemma_table_words_shape(d);
        let r = table_words(d);
        let e = t.last();
        if e.0.len() > 0 && e.1 > 0 {
            let u = r.push((to_symbols(e.0), e.1));
            assert forall|i: int, j: int|
                0 <= i < u.len() && 0 <= j < u[i].0.len() implies #[trigger] u[i].0[j] < 276 by {
                if i < r.len() {
                    assert(u[i] == r[i]);
                }
            }
        }
    }
}

/// The tallied tokens with a positive weight, as training words.
pub fn training_words(table: &WordTable) -> (words: Vec<WordEntry>)
    requires
        table.wf(),
    ensures
        words_view(words@) == table_words(table.view()),
{
    let ghost t = table.view();
    let mut words: Vec<WordEntry> = Vec::new();
    let n = table.len();
    let mut i: usize = 0;
    assert(words_view(words@) =~= table_words(t.take(0)));
    while i < n
        invariant
            n == t.len(),
            t == table.view(),
            table.wf(),
            i <= n,
            words_view(words@) == table_words(t.take(i as int)),
        decreases n - i,
    {
        let (tok, freq) = table.entry(i);
        assert(t.take(i + 1).drop_last() =~= t.take(i as int));
        assert(t.take(i + 1).last() == t[i as int]);
        if tok.len() > 0 && freq > 0 {
            let mut symbols: Vec<u16> = Vec::with_capacity(tok.len());
            let mut j: usize = 0;
            while j < tok.len()
                invariant
                    j <= tok@.len(),
                    symbols@ == to_symbols(tok@).take(j as int),
                decreases tok@.len() - j,
            {
                symbols.push(BYTE_TOKEN_START + tok[j] as u16);
                j = j + 1;
                assert(symbols@ =~= to_symbols(tok@).take(j as int));
            }
            assert(to_symbols(tok@).take(tok@.len() as int) =~= to_symbols(tok@));
            let ghost before = words_view(words@);
            words.push(WordEntry { symbols, freq });
            assert(words_view(words@) =~= before.push((to_symbols(tok@), freq)));
        }
        i = i + 1;
    }
    assert(t.take(n as int) =~= t);
    words
}

/// FNV-1a over two byte strings in a row is FNV-1a over the second, continued from the first.
pub proof fn lemma_fnv_extend_append(h: u64, a: Seq<u8>, b: Seq<u8>)
    ensures
        fnv_extend(h, a + b) == fnv_extend(fnv_extend(h, a), b),
    decreases b.len(),
{
    if b.len() == 0 {
        assert(a + b =~= a);
    } else {
        lemma_fnv_extend_append(h, a, b.drop_last());
        assert((a + b).drop_last() =~= a + b.drop_last());
        assert((a + b).last() == b.last());
    }
}

} // verus!
