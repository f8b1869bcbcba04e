use vstd::prelude::*;

use crate::bpe::{bpe_run, lemma_best_symbols, merged_words, BpeMerge, BPE_TOKEN_START};
use crate::corpus::{
    add_fits, corpus_input, count_loaded, count_skipped, lemma_table_words_shape, tally, tally_add,
    tally_fits, table_words,
};
use crate::pairs::{pair_count, positive_freqs, WordView};
use crate::specials::{apply_specials, base_vocab, lemma_apply_specials_len, special_defs};
use crate::stats::{best_pair, is_best, symbols_below, trainable};
use crate::symbols::{
    key_left, key_right, lemma_occurrences_front, lemma_replaced_first, lemma_pair_key_injective, lemma_pair_key_roundtrip,
    lemma_replaced_symbols,
    pair_occurrences, replaced_pairs, spec_pair_key,
};
use crate::trainer::{corpus_tally, corpus_training, initial_vocab, merge_budget, TrainConfig, TrainingFile};

verus! {

/// Training depends on the contents of the files and their weights alone: two runs on the
/// same contents with the same weights learn the same vocabulary and merges, whatever the
/// files' paths and tiers.
pub proof fn law_training_is_deterministic(
    files1: Seq<TrainingFile>,
    contents1: Seq<Vec<u8>>,
    files2: Seq<TrainingFile>,
    contents2: Seq<Vec<u8>>,
    config: TrainConfig,
)
    requires
        corpus_input(files1, contents1) == corpus_input(files2, contents2),
    ensures
        corpus_tally(files1, contents1) == corpus_tally(files2, contents2),
        corpus_training(files1, contents1, config) == corpus_training(files2, contents2, config),
{
}

/// The vocabulary and merges are well formed: the merges are numbered from the first learned
/// id on, one token each, and each merged token's bytes are those of its two parts, both of
/// lower id.
pub open spec fn merges_well_formed(vocab: Seq<Seq<u8>>, merges: Seq<BpeMerge>) -> bool {
    &&& vocab.len() == BPE_TOKEN_START + merges.len()
    &&& forall|i: int|
        0 <= i < merges.len() ==> {
            let m = #[trigger] merges[i];
            &&& m.merged == BPE_TOKEN_START + i
            &&& m.a < m.merged
            &&& m.b < m.merged
            &&& vocab[m.merged as int] == vocab[m.a as int] + vocab[m.b as int]
        }
}

pub proof fn lemma_merged_words_keep(words: Seq<WordView>, a: u16, b: u16, m: u16, bound: int)
    requires
        positive_freqs(words),
        symbols_below(words, bound),
        m < bound,
    ensures
        positive_freqs(merged_words(words, a, b, m)),
        symbols_below(merged_words(words, a, b, m), bound),
{
    let u = merged_words(words, a, b, m);
    assert forall|i: int, j: int| 0 <= i < u.len() && 0 <= j < u[i].0.len() implies #[trigger] u[i].0[j] < bound by {
        lemma_replaced_symbols(words[i].0, a, b, m);
        if u[i].0[j] != m {
            let k = choose|k: int| 0 <= k < words[i].0.len() && words[i].0[k] == u[i].0[j];
            assert(words[i].0[k] < bound);
        }
    }
}

/// Each step of training adds one token and one merge, numbered in order, whose bytes are
/// those of the merged pair; what was there before stays, and at most `steps` merges are
/// learned.
pub proof fn law_training_builds_merges(
    words: Seq<WordView>,
    vocab: Seq<Seq<u8>>,
    merges: Seq<BpeMerge>,
    next: u16,
    steps: nat,
    min_count: int,
)
    requires
        positive_freqs(words),
        symbols_below(words, next as int),
        next as int == vocab.len(),
        merges_well_formed(vocab, merges),
    ensures
        ({
            let out = bpe_run(words, vocab, merges, next, steps, min_count);
            &&& merges_well_formed(out.0, out.1)
            &&& merges.len() <= out.1.len() <= merges.len() + steps
            &&& out.1.take(merges.len() as int) == merges
            &&& out.0.take(vocab.len() as int) == vocab
        }),
    decreases steps,
{
    let out = bpe_run(words, vocab, merges, next, steps, min_count);
    if steps == 0 {
        assert(merges.take(merges.len() as int) =~= merges);
        assert(vocab.take(vocab.len() as int) =~= vocab);
    } else {
        match best_pair(words) {
            None => {
                assert(merges.take(merges.len() as int) =~= merges);
                assert(vocab.take(vocab.len() as int) =~= vocab);
            },
            Some(k) => {
                if k == 0 || pair_count(words, k) < min_count || next == u16::MAX {
                    assert(merges.take(merges.len() as int) =~= merges);
                    assert(vocab.take(vocab.len() as int) =~= vocab);
                } else {
                    let a = key_left(k);
                    let b = key_right(k);
                    assert(is_best(words, choose|x: u64| is_best(words, x)));
                    lemma_best_symbols(words, k, next as int);
                    let v2 = vocab.push(vocab[a as int] + vocab[b as int]);
                    let m2 = merges.push(BpeMerge { a, b, merged: next });
                    lemma_merged_words_keep(words, a, b, next, next + 1);
                    assert(merges_well_formed(v2, m2)) by {
                        assert forall|i: int| 0 <= i < m2.len() implies {
                            let m = #[trigger] m2[i];
                            &&& m.merged == BPE_TOKEN_START + i
                            &&& m.a < m.merged
                            &&& m.b < m.merged
                            &&& v2[m.merged as int] == v2[m.a as int] + v2[m.b as int]
                        } by {
                            if i < merges.len() {
                                assert(m2[i] == merges[i]);
                            }
                        }
                    }
                    law_training_builds_merges(
                        merged_words(words, a, b, next),
                        v2,
                        m2,
                        (next + 1) as u16,
                        (steps - 1) as nat,
                        min_count,
                    );
                    let rest = bpe_run(merged_words(words, a, b, next), v2, m2, (next + 1) as u16, (steps - 1) as nat, min_count);
                    assert(rest.1.take(merges.len() as int) =~= rest.1.take(m2.len() as int).take(merges.len() as int));
                    assert(m2.take(merges.len() as int) =~= merges);
                    assert(rest.0.take(vocab.len() as int) =~= rest.0.take(v2.len() as int).take(vocab.len() as int));
                    assert(v2.take(vocab.len() as int) =~= vocab);
                }
            },
        }
    }
}

/// Training on a corpus gives a vocabulary of the 276 tokens of a fresh trainer followed by
/// one token per learned merge, numbered in order, each made of the bytes of its two parts; no
/// more merges are learned than the vocabulary size leaves room for, no merge joins a reserved
/// token, no pair is merged twice, and the vocabulary has at most 65535 tokens.
pub proof fn law_corpus_training_shape(files: Seq<TrainingFile>, contents: Seq<Vec<u8>>, config: TrainConfig)
    ensures
        ({
            let out = corpus_training(files, contents, config);
            &&& merges_well_formed(out.0, out.1)
            &&& out.0.take(BPE_TOKEN_START as int) == initial_vocab()
            &&& out.1.len() <= merge_budget(config)
            &&& merges_fresh(out.1)
            &&& out.0.len() <= u16::MAX
        }),
{
    let t = corpus_tally(files, contents);
    lemma_table_words_shape(t);
    lemma_apply_specials_len(special_defs(), (base_vocab(), Seq::empty()));
    assert(merges_well_formed(initial_vocab(), Seq::empty()));
    law_training_builds_merges(
        table_words(t),
        initial_vocab(),
        Seq::empty(),
        BPE_TOKEN_START,
        merge_budget(config),
        crate::trainer::min_count(config),
    );
    lemma_table_words_from(t);
    law_merges_are_fresh(
        table_words(t),
        initial_vocab(),
        Seq::empty(),
        BPE_TOKEN_START,
        merge_budget(config),
        crate::trainer::min_count(config),
    );
}

proof fn lemma_table_words_from(t: Seq<(Seq<u8>, i64)>)
    ensures
        symbols_from(table_words(t), 20),
    decreases t.len(),
{
    if t.len() > 0 {
        lemma_table_words_from(t.drop_last());
        let r = table_words(t.drop_last());
        let e = t.last();
        if e.0.len() > 0 && e.1 > 0 {
            let u = r.push((crate::corpus::to_symbols(e.0), e.1));
            assert forall|i: int, j: int| 0 <= i < u.len() && 0 <= j < u[i].0.len() implies #[trigger] u[i].0[j] >= 20 by {
                if i < r.len() {
                    assert(u[i] == r[i]);
                }
            }
        }
    }
}

/// After a merge, the merged pair no longer occurs: the scan from the left leaves no `a`
/// directly before a `b`, as long as the new symbol is neither of them.
pub proof fn law_merged_pair_disappears(s: Seq<u16>, a: u16, b: u16, m: u16)
    requires
        m != a,
        m != b,
    ensures
        pair_occurrences(replaced_pairs(s, a, b, m), spec_pair_key(a, b)) == 0,
    decreases s.len(),
{
    let k = spec_pair_key(a, b);
    let r = replaced_pairs(s, a, b, m);
    if s.len() > 0 {
        let merged_here = s.len() >= 2 && s[0] == a && s[1] == b;
        let rest = if merged_here {
            s.skip(2)
        } else {
            s.skip(1)
        };
        law_merged_pair_disappears(rest, a, b, m);
        let rr = replaced_pairs(rest, a, b, m);
        assert(r == seq![r[0]] + rr);
        assert(r.skip(1) =~= rr);
        lemma_occurrences_front(r, k);
        if r.len() >= 2 {
            lemma_replaced_first(rest, a, b, m);
            lemma_pair_key_injective(r[0], r[1], a, b);
            if !merged_here && s[0] == a {
                assert(rest.len() >= 1);
                assert(rest[0] == s[1]);
            }
        }
    }
}

/// Replacing a pair never creates an absent pair that does not involve the new symbol.
proof fn lemma_replaced_keeps_absent(s: Seq<u16>, a: u16, b: u16, m: u16, k: u64)
    requires
        pair_occurrences(s, k) == 0,
        key_left(k) != m,
        key_right(k) != m,
    ensures
        pair_occurrences(replaced_pairs(s, a, b, m), k) == 0,
    decreases s.len(),
{
    let r = replaced_pairs(s, a, b, m);
    if s.len() > 0 {
        lemma_occurrences_front(s, k);
        let merged_here = s.len() >= 2 && s[0] == a && s[1] == b;
        let rest = if merged_here {
            s.skip(2)
        } else {
            s.skip(1)
        };
        if merged_here {
            lemma_occurrences_front(s.skip(1), k);
            assert(s.skip(1).skip(1) =~= s.skip(2));
        }
        lemma_replaced_keeps_absent(rest, a, b, m, k);
        let rr = replaced_pairs(rest, a, b, m);
        assert(r == seq![r[0]] + rr);
        assert(r.skip(1) =~= rr);
        lemma_occurrences_front(r, k);
        if r.len() >= 2 {
            lemma_replaced_first(rest, a, b, m);
            lemma_pair_key_roundtrip(r[0], r[1]);
            if !merged_here {
                assert(rest[0] == s[1]);
            }
        }
    }
}

/// Every symbol of every word is at least `lo`.
pub open spec fn symbols_from(words: Seq<WordView>, lo: int) -> bool {
    forall|i: int, j: int| 0 <= i < words.len() && 0 <= j < words[i].0.len() ==> #[trigger] words[i].0[j] >= lo
}

/// Merges join tokens other than the reserved ones, and no pair is merged twice.
pub open spec fn merges_fresh(merges: Seq<BpeMerge>) -> bool {
    &&& forall|i: int| 0 <= i < merges.len() ==> (#[trigger] merges[i]).a >= 20 && merges[i].b >= 20
    &&& forall|i: int, j: int|
        0 <= i < j < merges.len() ==> spec_pair_key((#[trigger] merges[i]).a, merges[i].b) != spec_pair_key(
            (#[trigger] merges[j]).a,
            merges[j].b,
        )
}

/// No merged pair occurs in the words any more.
pub open spec fn merged_pairs_absent(words: Seq<WordView>, merges: Seq<BpeMerge>) -> bool {
    forall|i: int| 0 <= i < merges.len() ==> pair_count(words, spec_pair_key((#[trigger] merges[i]).a, merges[i].b)) == 0
}

proof fn lemma_count_zero_each(words: Seq<WordView>, k: u64, i: int)
    requires
        positive_freqs(words),
        pair_count(words, k) == 0,
        0 <= i < words.len(),
    ensures
        pair_occurrences(words[i].0, k) == 0,
{
    let f = |w: WordView| pair_occurrences(w.0, k) * w.1;
    assert forall|j: int| 0 <= j < words.len() implies f(#[trigger] words[j]) >= 0 by {
        let o = pair_occurrences(words[j].0, k) as int;
        let q = words[j].1 as int;
        assert(words[j].1 > 0);
        assert(o * q >= 0) by (nonlinear_arith)
            requires
                o >= 0,
                q > 0,
        ;
    }
    crate::pairs::lemma_word_sum_nonneg_term(words, i, f);
    let o = pair_occurrences(words[i].0, k) as int;
    let q = words[i].1 as int;
    assert(words[i].1 > 0);
    assert(o == 0) by (nonlinear_arith)
        requires
            o >= 0,
            q > 0,
            o * q <= 0,
    ;
}

proof fn lemma_absent_after_merge(words: Seq<WordView>, a: u16, b: u16, m: u16, k: u64)
    requires
        positive_freqs(words),
        pair_count(words, k) == 0 || k == spec_pair_key(a, b),
        key_left(k) != m,
        key_right(k) != m,
        a != m,
        b != m,
    ensures
        pair_count(merged_words(words, a, b, m), k) == 0,
{
    let u = merged_words(words, a, b, m);
    assert forall|i: int| 0 <= i < u.len() implies pair_occurrences(#[trigger] u[i].0, k) == 0 by {
        if k == spec_pair_key(a, b) {
            law_merged_pair_disappears(words[i].0, a, b, m);
        } else {
            lemma_count_zero_each(words, k, i);
            lemma_replaced_keeps_absent(words[i].0, a, b, m, k);
        }
    }
    lemma_merged_words_keep(words, a, b, m, 0x10000);
    crate::pairs::lemma_pair_count_facts(u, k);
}

proof fn lemma_pair_symbols_from(words: Seq<WordView>, key: u64, lo: int)
    requires
        symbols_from(words, lo),
        positive_freqs(words),
        pair_count(words, key) > 0,
    ensures
        key_left(key) >= lo,
        key_right(key) >= lo,
{
    crate::pairs::lemma_pair_count_facts(words, key);
    let w = choose|w: int| 0 <= w < words.len() && pair_occurrences(#[trigger] words[w].0, key) > 0;
    let s = words[w].0;
    crate::symbols::lemma_occurrences_positive(s, key);
    let j = choose|j: int| 0 <= j < s.len() - 1 && #[trigger] spec_pair_key(s[j], s[j + 1]) == key;
    lemma_pair_key_roundtrip(s[j], s[j + 1]);
    assert(words[w].0[j] >= lo);
    assert(words[w].0[j + 1] >= lo);
}

/// Training never merges a reserved token, never merges the same pair twice, and the
/// vocabulary stays within the ids of `u16`.
pub proof fn law_merges_are_fresh(
    words: Seq<WordView>,
    vocab: Seq<Seq<u8>>,
    merges: Seq<BpeMerge>,
    next: u16,
    steps: nat,
    min_count: int,
)
    requires
        positive_freqs(words),
        symbols_below(words, next as int),
        symbols_from(words, 20),
        next >= 20,
        vocab.len() == next,
        merges_fresh(merges),
        merged_pairs_absent(words, merges),
        forall|i: int| 0 <= i < merges.len() ==> (#[trigger] merges[i]).a < next && merges[i].b < next,
    ensures
        ({
            let out = bpe_run(words, vocab, merges, next, steps, min_count);
            &&& merges_fresh(out.1)
            &&& out.0.len() <= u16::MAX
        }),
    decreases steps,
{
    if steps > 0 {
        match best_pair(words) {
            None => {},
            Some(k) => {
                if !(k == 0 || pair_count(words, k) < min_count || next == u16::MAX) {
                    let a = key_left(k);
                    let b = key_right(k);
                    assert(is_best(words, choose|x: u64| is_best(words, x)));
                    lemma_best_symbols(words, k, next as int);
                    lemma_pair_symbols_from(words, k, 20);
                    let m2 = merges.push(BpeMerge { a, b, merged: next });
                    let w2 = merged_words(words, a, b, next);
                    let v2 = vocab.push(vocab[a as int] + vocab[b as int]);
                    lemma_merged_words_keep(words, a, b, next, next + 1);
                    assert(symbols_from(w2, 20)) by {
                        assert forall|i: int, j: int| 0 <= i < w2.len() && 0 <= j < w2[i].0.len() implies #[trigger] w2[i].0[j]
                            >= 20 by {
                            lemma_replaced_symbols(words[i].0, a, b, next);
                            if w2[i].0[j] != next {
                                let q = choose|q: int| 0 <= q < words[i].0.len() && words[i].0[q] == w2[i].0[j];
                                assert(words[i].0[q] >= 20);
                            }
                        }
                    }
                    assert(merges_fresh(m2)) by {
                        assert forall|i: int, j: int| 0 <= i < j < m2.len() implies spec_pair_key(
                            (#[trigger] m2[i]).a,
                            m2[i].b,
                        ) != spec_pair_key((#[trigger] m2[j]).a, m2[j].b) by {
                            if j == merges.len() {
                                assert(m2[i] == merges[i]);
                                assert(pair_count(words, spec_pair_key(merges[i].a, merges[i].b)) == 0);
                            } else {
                                assert(m2[i] == merges[i]);
                                assert(m2[j] == merges[j]);
                            }
                        }
                        assert forall|i: int| 0 <= i < m2.len() implies (#[trigger] m2[i]).a >= 20 && m2[i].b >= 20 by {
                            if i < merges.len() {
                                assert(m2[i] == merges[i]);
                            }
                        }
                    }
                    assert(merged_pairs_absent(w2, m2)) by {
                        assert forall|i: int| 0 <= i < m2.len() implies pair_count(
                            w2,
                            spec_pair_key((#[trigger] m2[i]).a, m2[i].b),
                        ) == 0 by {
                            let ki = spec_pair_key(m2[i].a, m2[i].b);
                            lemma_pair_key_roundtrip(m2[i].a, m2[i].b);
                            if i < merges.len() {
                                assert(m2[i] == merges[i]);
                            }
                            lemma_absent_after_merge(words, a, b, next, ki);
                        }
                    }
                    assert forall|i: int| 0 <= i < m2.len() implies (#[trigger] m2[i]).a < next + 1 && m2[i].b < next + 1 by {
                        if i < merges.len() {
                            assert(m2[i] == merges[i]);
                        }
                    }
                    law_merges_are_fresh(w2, v2, m2, (next + 1) as u16, (steps - 1) as nat, min_count);
                }
            },
        }
    }
}

/// Each `m` of the sequence written back as the pair `(a, b)`.
pub open spec fn expand_pair(s: Seq<u16>, a: u16, b: u16, m: u16) -> Seq<u16>
    decreases s.len(),
{
    if s.len() == 0 {
        Seq::empty()
    } else if s[0] == m {
        seq![a, b] + expand_pair(s.skip(1), a, b, m)
    } else {
        seq![s[0]] + expand_pair(s.skip(1), a, b, m)
    }
}

/// Replacing a pair by a symbol that the sequence does not hold loses nothing: writing the
/// symbol back as the pair gives the sequence again.
pub proof fn law_replace_pair_round_trip(s: Seq<u16>, a: u16, b: u16, m: u16)
    requires
        !s.contains(m),
    ensures
        expand_pair(replaced_pairs(s, a, b, m), a, b, m) == s,
    decreases s.len(),
{
    let r = replaced_pairs(s, a, b, m);
    if s.len() > 0 {
        let merged_here = s.len() >= 2 && s[0] == a && s[1] == b;
        let rest = if merged_here {
            s.skip(2)
        } else {
            s.skip(1)
        };
        assert forall|x: int| 0 <= x < rest.len() implies rest[x] != m by {
            if merged_here {
                assert(rest[x] == s[x + 2]);
            } else {
                assert(rest[x] == s[x + 1]);
            }
        }
        law_replace_pair_round_trip(rest, a, b, m);
        let rr = replaced_pairs(rest, a, b, m);
        assert(r.skip(1) =~= rr);
        if merged_here {
            assert(r[0] == m);
            assert(seq![a, b] + rest =~= s);
        } else {
            assert(s[0] != m);
            assert(r[0] == s[0]);
            assert(seq![s[0]] + rest =~= s);
        }
    }
}

/// Every line of the corpus is either trained on or skipped, and counted once.
pub proof fn law_lines_counted_once(keys: Seq<Seq<u8>>, lines: Seq<(Seq<u8>, i64)>)
    ensures
        count_loaded(keys, lines) + count_skipped(keys, lines) == lines.len(),
    decreases lines.len(),
{
    if lines.len() > 0 {
        law_lines_counted_once(keys, lines.drop_last());
    }
}

/// The number of line feeds in the bytes.
pub open spec fn newline_count(s: Seq<u8>) -> nat
    decreases s.len(),
{
    if s.len() == 0 {
        0
    } else {
        (if s[0] == 10 {
            1nat
        } else {
            0nat
        }) + newline_count(s.skip(1))
    }
}

proof fn lemma_first_newline_found(s: Seq<u8>)
    requires
        0 <= crate::corpus::first_newline(s) < s.len(),
    ensures
        s[crate::corpus::first_newline(s)] == 10,
        newline_count(s) == 1 + newline_count(s.skip(crate::corpus::first_newline(s) + 1)),
    decreases s.len(),
{
    if s[0] != 10 {
        let t = s.skip(1);
        lemma_first_newline_found(t);
        assert(t.skip(crate::corpus::first_newline(t) + 1) =~= s.skip(crate::corpus::first_newline(s) + 1));
    }
}

proof fn lemma_no_newline(s: Seq<u8>)
    requires
        crate::corpus::first_newline(s) < 0,
    ensures
        newline_count(s) == 0,
    decreases s.len(),
{
    if s.len() > 0 {
        lemma_no_newline(s.skip(1));
    }
}

/// A file's contents have one line more than line feeds.
pub proof fn law_lines_are_newlines_plus_one(s: Seq<u8>)
    ensures
        crate::corpus::blob_lines(s).len() == newline_count(s) + 1,
    decreases s.len(),
{
    let p = crate::corpus::first_newline(s);
    if 0 <= p < s.len() {
        lemma_first_newline_found(s);
        law_lines_are_newlines_plus_one(s.skip(p + 1));
    } else {
        if p >= 0 {
            assert(false) by {
                lemma_first_newline_bound(s);
            }
        }
        lemma_no_newline(s);
    }
}

proof fn lemma_first_newline_bound(s: Seq<u8>)
    ensures
        crate::corpus::first_newline(s) < s.len(),
    decreases s.len(),
{
    if s.len() > 0 {
        lemma_first_newline_bound(s.skip(1));
    }
}

/// Every line of every file is counted once, as trained on or as skipped: their numbers add up
/// to the line feeds of all files plus one line per file.
pub proof fn law_lines_counted_per_file(keys: Seq<Seq<u8>>, input: Seq<(Seq<u8>, i64)>)
    ensures
        count_loaded(keys, crate::corpus::corpus_lines(input)) + count_skipped(keys, crate::corpus::corpus_lines(input))
            == crate::pairs::word_sum(input, |e: (Seq<u8>, i64)| newline_count(e.0) + 1int),
    decreases input.len(),
{
    law_lines_counted_once(keys, crate::corpus::corpus_lines(input));
    lemma_corpus_lines_len(input);
}

proof fn lemma_corpus_lines_len(input: Seq<(Seq<u8>, i64)>)
    ensures
        crate::corpus::corpus_lines(input).len() == crate::pairs::word_sum(
            input,
            |e: (Seq<u8>, i64)| newline_count(e.0) + 1int,
        ),
    decreases input.len(),
{
    if input.len() > 0 {
        lemma_corpus_lines_len(input.drop_last());
        law_lines_are_newlines_plus_one(input.last().0);
    }
}

/// The sum of the weights with which a token occurs in the stream.
pub open spec fn weight_total(stream: Seq<(Seq<u8>, i64)>, tok: Seq<u8>) -> int
    decreases stream.len(),
{
    if stream.len() == 0 {
        0
    } else {
        weight_total(stream.drop_last(), tok) + if stream.last().0 == tok {
            stream.last().1 as int
        } else {
            0
        }
    }
}

/// Whether a token occurs anywhere in the stream.
pub open spec fn occurs(stream: Seq<(Seq<u8>, i64)>, tok: Seq<u8>) -> bool
    decreases stream.len(),
{
    stream.len() > 0 && (occurs(stream.drop_last(), tok) || stream.last().0 == tok)
}

/// Whether the tally has an entry for a token.
pub open spec fn listed(t: Seq<(Seq<u8>, i64)>, tok: Seq<u8>) -> bool {
    exists|i: int| 0 <= i < t.len() && t[i].0 == tok
}

/// The tally is a faithful summary of the stream: one entry per token that occurs, each with
/// the sum of the weights with which its token occurs.
pub open spec fn tally_summarizes(t: Seq<(Seq<u8>, i64)>, stream: Seq<(Seq<u8>, i64)>) -> bool {
    &&& crate::corpus::distinct_tokens(t)
    &&& forall|i: int| 0 <= i < t.len() ==> (#[trigger] t[i]).1 == weight_total(stream, t[i].0)
    &&& forall|tok: Seq<u8>| #[trigger] listed(t, tok) <==> occurs(stream, tok)
}

proof fn lemma_absent_weighs_nothing(stream: Seq<(Seq<u8>, i64)>, tok: Seq<u8>)
    requires
        !occurs(stream, tok),
    ensures
        weight_total(stream, tok) == 0,
    decreases stream.len(),
{
    if stream.len() > 0 {
        lemma_absent_weighs_nothing(stream.drop_last(), tok);
    }
}

proof fn lemma_step_weights_update(t: Seq<(Seq<u8>, i64)>, stream: Seq<(Seq<u8>, i64)>, i: int)
    requires
        stream.len() > 0,
        0 <= i < t.len(),
        crate::corpus::distinct_tokens(t),
        forall|x: int| 0 <= x < t.len() ==> (#[trigger] t[x]).1 == weight_total(stream.drop_last(), t[x].0),
        t[i].0 == stream.last().0,
        i64::MIN <= weight_total(stream, stream.last().0) <= i64::MAX,
    ensures
        forall|x: int| 0 <= x < t.len() ==> (#[trigger] t.update(i, (stream.last().0, (t[i].1 + stream.last().1) as i64))[x]).1
            == weight_total(stream, t[x].0),
{
    let e = stream.last();
    let u = t.update(i, (e.0, (t[i].1 + e.1) as i64));
    assert forall|x: int| 0 <= x < t.len() implies (#[trigger] u[x]).1 == weight_total(stream, t[x].0) by {
        if x != i {
            assert(t[x].0 != t[i].0);
        }
    }
}

proof fn lemma_step_listed_update(t: Seq<(Seq<u8>, i64)>, stream: Seq<(Seq<u8>, i64)>, i: int)
    requires
        stream.len() > 0,
        0 <= i < t.len(),
        t[i].0 == stream.last().0,
        forall|tok: Seq<u8>| #[trigger] listed(t, tok) <==> occurs(stream.drop_last(), tok),
    ensures
        forall|tok: Seq<u8>| #[trigger] listed(t.update(i, (stream.last().0, (t[i].1 + stream.last().1) as i64)), tok)
            <==> occurs(stream, tok),
{
    let e = stream.last();
    let u = t.update(i, (e.0, (t[i].1 + e.1) as i64));
    assert forall|tok: Seq<u8>| #[trigger] listed(u, tok) <==> occurs(stream, tok) by {
        if listed(t, tok) {
            let x = choose|x: int| 0 <= x < t.len() && t[x].0 == tok;
            assert(u[x].0 == tok);
        }
        if listed(u, tok) {
            let x = choose|x: int| 0 <= x < u.len() && u[x].0 == tok;
            assert(t[x].0 == tok);
        }
        if tok == e.0 {
            assert(listed(t, tok));
        }
    }
}

proof fn lemma_step_weights_push(t: Seq<(Seq<u8>, i64)>, stream: Seq<(Seq<u8>, i64)>)
    requires
        stream.len() > 0,
        forall|x: int| 0 <= x < t.len() ==> (#[trigger] t[x]).1 == weight_total(stream.drop_last(), t[x].0),
        forall|x: int| 0 <= x < t.len() ==> (#[trigger] t[x]).0 != stream.last().0,
        !occurs(stream.drop_last(), stream.last().0),
    ensures
        forall|x: int| 0 <= x < t.len() + 1 ==> (#[trigger] t.push(stream.last())[x]).1
            == weight_total(stream, t.push(stream.last())[x].0),
{
    let e = stream.last();
    let u = t.push(e);
    lemma_absent_weighs_nothing(stream.drop_last(), e.0);
    assert forall|x: int| 0 <= x < t.len() + 1 implies (#[trigger] u[x]).1 == weight_total(stream, u[x].0) by {
        if x < t.len() {
            assert(u[x] == t[x]);
        }
    }
}

proof fn lemma_step_listed_push(t: Seq<(Seq<u8>, i64)>, stream: Seq<(Seq<u8>, i64)>)
    requires
        stream.len() > 0,
        forall|tok: Seq<u8>| #[trigger] listed(t, tok) <==> occurs(stream.drop_last(), tok),
    ensures
        forall|tok: Seq<u8>| #[trigger] listed(t.push(stream.last()), tok) <==> occurs(stream, tok),
{
    let e = stream.last();
    let u = t.push(e);
    assert forall|tok: Seq<u8>| #[trigger] listed(u, tok) <==> occurs(stream, tok) by {
        if listed(t, tok) {
            let x = choose|x: int| 0 <= x < t.len() && t[x].0 == tok;
            assert(u[x].0 == tok);
        }
        if listed(u, tok) {
            let x = choose|x: int| 0 <= x < u.len() && u[x].0 == tok;
            if x < t.len() {
                assert(t[x].0 == tok);
            }
        }
        if tok == e.0 {
            assert(u[t.len() as int].0 == tok);
        }
    }
}

/// The tally lists exactly the tokens that occur in the stream, each once, with the sum of the
/// weights with which it occurs.
pub proof fn law_tally_sums_weights(stream: Seq<(Seq<u8>, i64)>)
    requires
        tally_fits(Seq::empty(), stream),
    ensures
        tally_summarizes(tally(stream), stream),
    decreases stream.len(),
{
    if stream.len() == 0 {
        assert(tally(stream) =~= Seq::<(Seq<u8>, i64)>::empty());
        assert forall|tok: Seq<u8>| #[trigger] listed(tally(stream), tok) <==> occurs(stream, tok) by {}
    } else {
        let d = stream.drop_last();
        let e = stream.last();
        law_tally_sums_weights(d);
        let t = tally(d);
        assert(tally(stream) == tally_add(t, e.0, e.1));
        if exists|i: int| 0 <= i < t.len() && t[i].0 == e.0 {
            let i = choose|i: int| 0 <= i < t.len() && t[i].0 == e.0;
            assert(add_fits(t, e));
            assert(i64::MIN <= t[i].1 + e.1 <= i64::MAX);
            lemma_step_weights_update(t, stream, i);
            lemma_step_listed_update(t, stream, i);
            let u = t.update(i, (e.0, (t[i].1 + e.1) as i64));
            assert forall|x: int, y: int| 0 <= x < y < u.len() implies #[trigger] u[x].0 != #[trigger] u[y].0 by {
                assert(t[x].0 != t[y].0);
            }
        } else {
            assert(!listed(t, e.0));
            assert(e == (e.0, e.1));
            lemma_step_weights_push(t, stream);
            lemma_step_listed_push(t, stream);
            let u = t.push(e);
            assert forall|x: int, y: int| 0 <= x < y < u.len() implies #[trigger] u[x].0 != #[trigger] u[y].0 by {
                if y < t.len() {
                    assert(t[x].0 != t[y].0);
                }
            }
        }
    }
}

} // verus!
