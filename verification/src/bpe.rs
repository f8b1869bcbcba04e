use std::collections::HashMap;
use vstd::prelude::*;

use crate::pairs::{lemma_pair_count_facts, pair_count, positive_freqs, WordView};
use crate::stats::{
    best_pair, is_best, symbols_below, trainable, words_view, PairStats, WordEntry,
};
use crate::symbols::{
    key_left, key_right, lemma_occurrences_positive, lemma_pair_key_roundtrip,
    lemma_replaced_absent, pair_occurrences, replaced_pairs, spec_pair_key, split_pair_key,
};

verus! {

broadcast use {vstd::std_specs::hash::group_hash_axioms, vstd::string::group_string_axioms};

/// The id that the first learned token gets: 20 reserved ids and 256 byte tokens come first.
pub const BPE_TOKEN_START: u16 = 276;

/// A learned merge: the pair `(a, b)` became the token `merged`.
#[derive(Clone, Copy, Debug)]
pub struct BpeMerge {
    pub a: u16,
    pub b: u16,
    pub merged: u16,
}

/// The byte strings of a vocabulary.
pub open spec fn vocab_view(v: Seq<Vec<u8>>) -> Seq<Seq<u8>> {
    Seq::new(v.len(), |i: int| v[i]@)
}

/// The words after the pair `(a, b)` is replaced by `m` in each of them.
pub open spec fn merged_words(words: Seq<WordView>, a: u16, b: u16, m: u16) -> Seq<WordView> {
    Seq::new(words.len(), |i: int| (replaced_pairs(words[i].0, a, b, m), words[i].1))
}

/// The lookup from a merged pair's key to its token, as the merges fill it in order.
pub open spec fn lookup_of(merges: Seq<BpeMerge>) -> Map<u64, u16>
    decreases merges.len(),
{
    if merges.len() == 0 {
        Map::empty()
    } else {
        lookup_of(merges.drop_last()).insert(
            spec_pair_key(merges.last().a, merges.last().b),
            merges.last().merged,
        )
    }
}

/// Byte-pair training from the given state for at most `steps` merges: each step merges the
/// best pair into a new token whose bytes are those of its two parts, and training stops
/// early when no pair occurs, the best pair has key 0, or its count is below `min_count`.
/// The last component is true when training stopped because the token ids ran out.
pub open spec fn bpe_run(
    words: Seq<WordView>,
    vocab: Seq<Seq<u8>>,
    merges: Seq<BpeMerge>,
    next: u16,
    steps: nat,
    min_count: int,
) -> (Seq<Seq<u8>>, Seq<BpeMerge>, bool)
    decreases steps,
{
    if steps == 0 {
        (vocab, merges, false)
    } else {
        match best_pair(words) {
            None => (vocab, merges, false),
            Some(k) => {
                if k == 0 || pair_count(words, k) < min_count {
                    (vocab, merges, false)
                } else if next == u16::MAX {
                    (vocab, merges, true)
                } else {
                    let a = key_left(k);
                    let b = key_right(k);
                    bpe_run(
                        merged_words(words, a, b, next),
                        vocab.push(vocab[a as int] + vocab[b as int]),
                        merges.push(BpeMerge { a, b, merged: next }),
                        (next + 1) as u16,
                        (steps - 1) as nat,
                        min_count,
                    )
                }
            },
        }
    }
}

/// The bytes of `x` followed by those of `y`.
fn concat_bytes(x: &Vec<u8>, y: &Vec<u8>) -> (out: Vec<u8>)
    ensures
        out@ == x@ + y@,
{
    let mut out: Vec<u8> = Vec::with_capacity(x.len());
    let mut i: usize = 0;
    while i < x.len()
        invariant
            i <= x@.len(),
            out@ == x@.take(i as int),
        decreases x@.len() - i,
    {
        out.push(x[i]);
        i = i + 1;
        assert(out@ =~= x@.take(i as int));
    }
    let mut j: usize = 0;
    while j < y.len()
        invariant
            j <= y@.len(),
            out@ == x@ + y@.take(j as int),
        decreases y@.len() - j,
    {
        out.push(y[j]);
        j = j + 1;
        assert(out@ =~= x@ + y@.take(j as int));
    }
    assert(out@ =~= x@ + y@);
    out
}

/// A pair with a positive count is made of symbols that occur in the words.
pub proof fn lemma_best_symbols(words: Seq<WordView>, key: u64, bound: int)
    requires
        positive_freqs(words),
        symbols_below(words, bound),
        pair_count(words, key) > 0,
    ensures
        key_left(key) < bound,
        key_right(key) < bound,
        spec_pair_key(key_left(key), key_right(key)) == key,
        exists|w: int| 0 <= w < words.len() && pair_occurrences(#[trigger] words[w].0, key) > 0,
{
    lemma_pair_count_facts(words, key);
    let w = choose|w: int| 0 <= w < words.len() && pair_occurrences(#[trigger] words[w].0, key) > 0;
    let s = words[w].0;
    lemma_occurrences_positive(s, key);
    let j = choose|j: int| 0 <= j < s.len() - 1 && #[trigger] spec_pair_key(s[j], s[j + 1]) == key;
    lemma_pair_key_roundtrip(s[j], s[j + 1]);
    assert(words[w].0[j] < bound);
    assert(words[w].0[j + 1] < bound);
}

/// Learns up to `total_merges` merges from the words: repeatedly takes the best pair, adds its
/// token to the vocabulary, records the merge and replaces the pair in every word.
pub fn run_merges(
    words: &mut Vec<WordEntry>,
    vocab: &mut Vec<Vec<u8>>,
    merges: &mut Vec<BpeMerge>,
    merge_lookup: &mut HashMap<u64, u16>,
    total_merges: usize,
    min_count: i64,
) -> (r: Result<(), String>)
    requires
        trainable(words_view(old(words)@)),
        symbols_below(words_view(old(words)@), BPE_TOKEN_START as int),
        old(vocab)@.len() == BPE_TOKEN_START,
        old(merge_lookup)@ == lookup_of(old(merges)@),
    ensures
        ({
            let out = bpe_run(
                words_view(old(words)@),
                vocab_view(old(vocab)@),
                old(merges)@,
                BPE_TOKEN_START,
                total_merges as nat,
                min_count as int,
            );
            &&& vocab_view(final(vocab)@) == out.0
            &&& final(merges)@ == out.1
            &&& final(merge_lookup)@ == lookup_of(out.1)
            &&& if out.2 {
                r is Err && r->Err_0@ == "Vocabulary exhausted u16 range."@
            } else {
                r is Ok
            }
        }),
{
    let ghost goal = bpe_run(
        words_view(words@),
        vocab_view(vocab@),
        merges@,
        BPE_TOKEN_START,
        total_merges as nat,
        min_count as int,
    );
    let mut stats = PairStats::build(words);
    let mut next: u16 = BPE_TOKEN_START;
    let mut merge_idx: usize = 0;
    while merge_idx < total_merges
        invariant_except_break
            stats.tracks(words_view(words@), None),
        invariant
            merge_idx <= total_merges,
            trainable(words_view(words@)),
            symbols_below(words_view(words@), next as int),
            vocab@.len() == next,
            next >= BPE_TOKEN_START,
            merge_lookup@ == lookup_of(merges@),
            goal == bpe_run(
                words_view(old(words)@),
                vocab_view(old(vocab)@),
                old(merges)@,
                BPE_TOKEN_START,
                total_merges as nat,
                min_count as int,
            ),
            goal == bpe_run(
                words_view(words@),
                vocab_view(vocab@),
                merges@,
                next,
                (total_merges - merge_idx) as nat,
                min_count as int,
            ),
        ensures
            merge_lookup@ == lookup_of(merges@),
            goal == (vocab_view(vocab@), merges@, false),
        decreases total_merges - merge_idx,
    {
        let ghost w0 = words_view(words@);
        let ghost v0 = vocab_view(vocab@);
        let ghost m0 = merges@;
        let (best_key, best_count) = stats.pop_best(Ghost(w0));
        if best_key == 0 || best_count < min_count {
            proof {
                if best_count == 0 {
                    assert(best_pair(w0) is None);
                }
                assert(goal == (v0, m0, false));
            }
            break ;
        }
        if next == u16::MAX {
            let msg = "Vocabulary exhausted u16 range.".to_string();
            proof {
                assert(goal == (v0, m0, true));
                assert(msg@ == "Vocabulary exhausted u16 range."@);
            }
            return Err(msg);
        }
        proof {
            lemma_best_symbols(w0, best_key, next as int);
        }
        let (a, b) = split_pair_key(best_key);
        let merged_token = concat_bytes(&vocab[a as usize], &vocab[b as usize]);
        vocab.push(merged_token);
        merge_lookup.insert(best_key, next);
        merges.push(BpeMerge { a, b, merged: next });
        proof {
            assert(vocab_view(vocab@) =~= v0.push(v0[a as int] + v0[b as int]));
            assert(merges@.drop_last() =~= m0);
        }
        let affected = stats.words_with(best_key, Ghost(w0), Ghost(Some(best_key)));
        let ghost target = merged_words(w0, a, b, next);
        if affected.len() == 0 {
            proof {
                let w = choose|w: int| 0 <= w < w0.len() && pair_occurrences(#[trigger] w0[w].0, best_key) > 0;
                assert(pair_occurrences(w0[(w as u32) as int].0, best_key) > 0);
                assert(affected@.contains(w as u32));
            }
            stats.drop_pair(best_key);
            merge_idx = merge_idx + 1;
            continue ;
        }
        let mut merged_count: usize = 0;
        let na = affected.len();
        let mut i: usize = 0;
        while i < na
            invariant
                na == affected@.len(),
                i <= na,
                affected@.no_duplicates(),
                forall|w: u32|
                    #[trigger] affected@.contains(w) <==> (w < w0.len() && pair_occurrences(
                        w0[w as int].0,
                        best_key,
                    ) > 0),
                words@.len() == w0.len(),
                forall|w: int|
                    0 <= w < w0.len() ==> #[trigger] words_view(words@)[w] == if affected@.take(
                        i as int,
                    ).contains(w as u32) {
                        target[w]
                    } else {
                        w0[w]
                    },
                target == merged_words(w0, a, b, next),
                spec_pair_key(a, b) == best_key,
                w0.len() <= u32::MAX,
                stats.tracks(words_view(words@), Some(best_key)),
                trainable(words_view(words@)),
                symbols_below(words_view(words@), next + 1),
                symbols_below(w0, next as int),
                next < u16::MAX,
                merged_count <= i,
                merged_count == 0 ==> forall|w: u32|
                    #[trigger] affected@.take(i as int).contains(w) ==> w < w0.len()
                        && pair_occurrences(w0[w as int].0, best_key) == 0,
            decreases na - i,
        {
            let wid = affected[i] as usize;
            let ghost before = affected@.take(i as int);
            let ghost after = affected@.take(i + 1);
            assert(after =~= before.push(affected@[i as int]));
            if wid >= words.len() {
                assert(affected@.contains(affected@[i as int]));
                i = i + 1;
                continue ;
            }
            assert(!before.contains(wid as u32)) by {
                if before.contains(wid as u32) {
                    let x = choose|x: int| 0 <= x < before.len() && before[x] == wid as u32;
                    assert(affected@[x] == affected@[i as int]);
                }
            }
            let ghost wc = words_view(words@);
            assert(wc[wid as int] == w0[wid as int]);
            proof {
                assert forall|j: int| 0 <= j < words@[wid as int].symbols@.len() implies #[trigger] words@[wid
                    as int].symbols@[j] < next by {
                    assert(wc[wid as int].0 == words@[wid as int].symbols@);
                    assert(w0[wid as int].0[j] < next);
                }
            }
            match stats.merge_word(words, wid, a, b, next, Ghost(best_key), Ghost(next + 1)) {
                Ok(changed) => {
                    if changed {
                        merged_count = merged_count + 1;
                    }
                    proof {
                        if !changed {
                            lemma_replaced_absent(w0[wid as int].0, a, b, next);
                        }
                    }
                },
                Err(e) => {
                    return Err(e);
                },
            }
            proof {
                assert forall|w: u32| #[trigger] after.contains(w) <==> (before.contains(w) || w
                    == wid as u32) by {
                    if after.contains(w) {
                        let x = choose|x: int| 0 <= x < after.len() && after[x] == w;
                        if x < before.len() {
                            assert(before[x] == w);
                        }
                    }
                    if before.contains(w) {
                        let x = choose|x: int| 0 <= x < before.len() && before[x] == w;
                        assert(after[x] == w);
                    }
                    if w == wid as u32 {
                        assert(after[i as int] == w);
                    }
                }
                assert forall|w: int|
                    0 <= w < w0.len() implies #[trigger] words_view(words@)[w] == if after.contains(
                    w as u32,
                ) {
                    target[w]
                } else {
                    w0[w]
                } by {
                    if w != wid {
                        assert(words_view(words@)[w] == wc[w]);
                        assert(after.contains(w as u32) == before.contains(w as u32));
                    }
                }
            }
            i = i + 1;
        }
        assert(affected@.take(na as int) =~= affected@);
        proof {
            assert(words_view(words@) =~= target) by {
                assert forall|w: int| 0 <= w < w0.len() implies #[trigger] words_view(words@)[w]
                    == target[w] by {
                    if !affected@.contains(w as u32) {
                        lemma_replaced_absent(w0[w].0, a, b, next);
                    }
                }
            }
        }
        if merged_count == 0 {
            proof {
                let w = choose|w: int| 0 <= w < w0.len() && pair_occurrences(#[trigger] w0[w].0, best_key) > 0;
                assert(pair_occurrences(w0[(w as u32) as int].0, best_key) > 0);
                assert(affected@.contains(w as u32));
            }
            stats.drop_pair(best_key);
            merge_idx = merge_idx + 1;
            continue ;
        }
        stats.requeue(best_key, Ghost(words_view(words@)));
        proof {
            assert(lookup_of(merges@) == lookup_of(m0).insert(best_key, next));
        }
        next = next + 1;
        merge_idx = merge_idx + 1;
    }
    Ok(())
}

} // verus!
