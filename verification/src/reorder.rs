use vstd::multiset::Multiset;
use vstd::prelude::*;

use crate::bpe::{bpe_run, merged_words, BpeMerge, BPE_TOKEN_START};
use crate::corpus::{
    blob_lines, corpus_input, corpus_lines, count_loaded, count_skipped, lemma_line_stats_append,
    loaded_bytes, piece_stream, table_words, tally, tally_fits, to_symbols, weighted_lines,
};
use crate::laws::{law_tally_sums_weights, listed, occurs, tally_summarizes, weight_total};
use crate::trainer::{
    corpus_stream, corpus_training, initial_vocab, merge_budget, min_count, special_keys, TrainConfig,
    TrainingFile,
};
use crate::pairs::{pair_count, word_sum, WordView};
use crate::stats::{best_pair, is_best, lemma_best_unique};
use crate::symbols::{key_left, key_right};

verus! {

broadcast use vstd::seq_lib::group_to_multiset_ensures;

/// A sum over a sequence is the sum without one element, plus that element's term.
pub proof fn lemma_word_sum_remove<A>(t: Seq<A>, i: int, f: spec_fn(A) -> int)
    requires
        0 <= i < t.len(),
    ensures
        word_sum(t, f) == word_sum(t.remove(i), f) + f(t[i]),
    decreases t.len(),
{
    if i == t.len() - 1 {
        assert(t.remove(i) =~= t.drop_last());
    } else {
        lemma_word_sum_remove(t.drop_last(), i, f);
        assert(t.remove(i).drop_last() =~= t.drop_last().remove(i));
        assert(t.remove(i).last() == t.last());
    }
}

proof fn lemma_multiset_put_back<A>(m: Multiset<A>, x: A)
    requires
        m.count(x) > 0,
    ensures
        m.remove(x).insert(x) == m,
{
    assert(m.remove(x).insert(x) =~= m);
}

/// A sum does not depend on the order of the elements.
pub proof fn lemma_word_sum_reorder<A>(s: Seq<A>, t: Seq<A>, f: spec_fn(A) -> int)
    requires
        s.to_multiset() == t.to_multiset(),
    ensures
        word_sum(s, f) == word_sum(t, f),
    decreases s.len(),
{
    if s.len() == 0 {
        assert(s.to_multiset().len() == 0);
        assert(t.to_multiset().len() == t.len());
        assert(t.len() == 0);
    } else {
        let x = s.last();
        let d = s.drop_last();
        assert(s =~= d.push(x));
        assert(s.to_multiset() == d.to_multiset().insert(x));
        assert(t.to_multiset().count(x) > 0);
        assert(t.contains(x));
        let i = choose|i: int| 0 <= i < t.len() && t[i] == x;
        let tr = t.remove(i);
        assert(tr.to_multiset() == t.to_multiset().remove(x));
        assert(d.to_multiset() =~= tr.to_multiset());
        lemma_word_sum_reorder(d, tr, f);
        lemma_word_sum_remove(t, i, f);
    }
}

/// Replacing a pair in every word does not depend on the order of the words.
proof fn lemma_merged_words_reorder(w1: Seq<WordView>, w2: Seq<WordView>, a: u16, b: u16, m: u16)
    requires
        w1.to_multiset() == w2.to_multiset(),
    ensures
        merged_words(w1, a, b, m).to_multiset() == merged_words(w2, a, b, m).to_multiset(),
    decreases w1.len(),
{
    if w1.len() == 0 {
        assert(w1.to_multiset().len() == 0);
        assert(w2.to_multiset().len() == w2.len());
        assert(w2.len() == 0);
        assert(merged_words(w1, a, b, m) =~= merged_words(w2, a, b, m));
    } else {
        let x = w1.last();
        let d = w1.drop_last();
        assert(w1 =~= d.push(x));
        assert(w1.to_multiset() == d.to_multiset().insert(x));
        assert(w2.to_multiset().count(x) > 0);
        assert(w2.contains(x));
        let i = choose|i: int| 0 <= i < w2.len() && w2[i] == x;
        let tr = w2.remove(i);
        assert(tr.to_multiset() == w2.to_multiset().remove(x));
        assert(d.to_multiset() =~= tr.to_multiset());
        lemma_merged_words_reorder(d, tr, a, b, m);
        let gx = (crate::symbols::replaced_pairs(x.0, a, b, m), x.1);
        let m1 = merged_words(w1, a, b, m);
        let m2 = merged_words(w2, a, b, m);
        assert(m1 =~= merged_words(d, a, b, m).push(gx));
        assert(merged_words(tr, a, b, m) =~= m2.remove(i));
        assert(m2[i] == gx);
        assert(m2.remove(i).to_multiset() == m2.to_multiset().remove(gx));
        assert(m2.contains(gx));
        lemma_multiset_put_back(m2.to_multiset(), gx);
        assert(m1.to_multiset() == merged_words(d, a, b, m).to_multiset().insert(gx));
    }
}

/// Training depends on the words and their weights, not on the order in which they are listed.
pub proof fn law_training_ignores_word_order(
    w1: Seq<WordView>,
    w2: Seq<WordView>,
    vocab: Seq<Seq<u8>>,
    merges: Seq<BpeMerge>,
    next: u16,
    steps: nat,
    min_count: int,
)
    requires
        w1.to_multiset() == w2.to_multiset(),
    ensures
        bpe_run(w1, vocab, merges, next, steps, min_count) == bpe_run(w2, vocab, merges, next, steps, min_count),
    decreases steps,
{
    assert forall|k: u64| #[trigger] pair_count(w1, k) == pair_count(w2, k) by {
        lemma_word_sum_reorder(w1, w2, |w: WordView| crate::symbols::pair_occurrences(w.0, k) * w.1);
    }
    assert forall|k: u64| #[trigger] is_best(w1, k) == is_best(w2, k) by {
        assert(pair_count(w1, k) == pair_count(w2, k));
        if is_best(w1, k) {
            assert forall|j: u64| #[trigger] pair_count(w2, j) > 0 implies pair_count(w2, k) > pair_count(w2, j)
                || (pair_count(w2, k) == pair_count(w2, j) && k <= j) by {
                assert(pair_count(w1, j) == pair_count(w2, j));
            }
        }
        if is_best(w2, k) {
            assert forall|j: u64| #[trigger] pair_count(w1, j) > 0 implies pair_count(w1, k) > pair_count(w1, j)
                || (pair_count(w1, k) == pair_count(w1, j) && k <= j) by {
                assert(pair_count(w1, j) == pair_count(w2, j));
            }
        }
    }
    if steps > 0 {
        if exists|k: u64| is_best(w1, k) {
            let k1 = choose|k: u64| is_best(w1, k);
            let k2 = choose|k: u64| is_best(w2, k);
            assert(is_best(w2, k1));
            lemma_best_unique(w2, k1, k2);
            assert(best_pair(w1) == Some(k1));
            assert(best_pair(w2) == Some(k1));
            let a = key_left(k1);
            let b = key_right(k1);
            lemma_merged_words_reorder(w1, w2, a, b, next);
            law_training_ignores_word_order(
                merged_words(w1, a, b, next),
                merged_words(w2, a, b, next),
                vocab.push(vocab[a as int] + vocab[b as int]),
                merges.push(BpeMerge { a, b, merged: next }),
                (next + 1) as u16,
                (steps - 1) as nat,
                min_count,
            );
        } else {
            if exists|k: u64| is_best(w2, k) {
                let k2 = choose|k: u64| is_best(w2, k);
                assert(is_best(w1, k2));
            }
            assert(best_pair(w1) == None::<u64>);
            assert(best_pair(w2) == None::<u64>);
        }
    }
}

/// The lines of one file of the input, each with the file's weight.
pub open spec fn file_lines(e: (Seq<u8>, i64)) -> Seq<(Seq<u8>, i64)> {
    weighted_lines(blob_lines(e.0), e.1)
}

proof fn lemma_weight_total_append(a: Seq<(Seq<u8>, i64)>, b: Seq<(Seq<u8>, i64)>, tok: Seq<u8>)
    ensures
        weight_total(a + b, tok) == weight_total(a, tok) + weight_total(b, tok),
        occurs(a + b, tok) == (occurs(a, tok) || occurs(b, tok)),
    decreases b.len(),
{
    if b.len() == 0 {
        assert(a + b =~= a);
    } else {
        lemma_weight_total_append(a, b.drop_last(), tok);
        assert((a + b).drop_last() =~= a + b.drop_last());
        assert((a + b).last() == b.last());
    }
}

proof fn lemma_stats_by_file(keys: Seq<Seq<u8>>, input: Seq<(Seq<u8>, i64)>, tok: Seq<u8>)
    ensures
        count_loaded(keys, corpus_lines(input)) == word_sum(input, |e: (Seq<u8>, i64)| count_loaded(keys, file_lines(e)) as int),
        count_skipped(keys, corpus_lines(input)) == word_sum(input, |e: (Seq<u8>, i64)| count_skipped(keys, file_lines(e)) as int),
        loaded_bytes(keys, corpus_lines(input)) == word_sum(input, |e: (Seq<u8>, i64)| loaded_bytes(keys, file_lines(e)) as int),
        weight_total(piece_stream(keys, corpus_lines(input)), tok) == word_sum(
            input,
            |e: (Seq<u8>, i64)| weight_total(piece_stream(keys, file_lines(e)), tok),
        ),
        occurs(piece_stream(keys, corpus_lines(input)), tok) == (word_sum(
            input,
            |e: (Seq<u8>, i64)| if occurs(piece_stream(keys, file_lines(e)), tok) { 1int } else { 0int },
        ) > 0),
    decreases input.len(),
{
    if input.len() > 0 {
        let d = input.drop_last();
        lemma_stats_by_file(keys, d, tok);
        let fl = file_lines(input.last());
        assert(corpus_lines(input) == corpus_lines(d) + fl);
        lemma_line_stats_append(keys, corpus_lines(d), fl);
        lemma_weight_total_append(piece_stream(keys, corpus_lines(d)), piece_stream(keys, fl), tok);
        let ind = |e: (Seq<u8>, i64)| if occurs(piece_stream(keys, file_lines(e)), tok) { 1int } else { 0int };
        assert forall|j: int| 0 <= j < d.len() implies ind(#[trigger] d[j]) >= 0 by {}
        crate::pairs::lemma_word_sum_nonneg(d, ind);
    }
}

/// Two tallies that summarize streams with the same tokens and the same weight totals hold the
/// same entries.
proof fn lemma_tallies_agree(
    t1: Seq<(Seq<u8>, i64)>,
    s1: Seq<(Seq<u8>, i64)>,
    t2: Seq<(Seq<u8>, i64)>,
    s2: Seq<(Seq<u8>, i64)>,
)
    requires
        tally_summarizes(t1, s1),
        tally_summarizes(t2, s2),
        forall|tok: Seq<u8>| #[trigger] occurs(s1, tok) == occurs(s2, tok),
        forall|tok: Seq<u8>| #[trigger] weight_total(s1, tok) == weight_total(s2, tok),
    ensures
        t1.to_multiset() == t2.to_multiset(),
{
    assert(t1.no_duplicates());
    assert(t2.no_duplicates());
    t1.lemma_multiset_has_no_duplicates();
    t2.lemma_multiset_has_no_duplicates();
    assert forall|x: (Seq<u8>, i64)| #[trigger] t1.contains(x) == t2.contains(x) by {
        if t1.contains(x) {
            let i = choose|i: int| 0 <= i < t1.len() && t1[i] == x;
            assert(listed(t1, x.0));
            assert(occurs(s2, x.0));
            assert(listed(t2, x.0));
            let j = choose|j: int| 0 <= j < t2.len() && t2[j].0 == x.0;
            assert(weight_total(s1, x.0) == weight_total(s2, x.0));
            assert(t2[j] == x);
        }
        if t2.contains(x) {
            let j = choose|j: int| 0 <= j < t2.len() && t2[j] == x;
            assert(listed(t2, x.0));
            assert(occurs(s1, x.0));
            assert(listed(t1, x.0));
            let i = choose|i: int| 0 <= i < t1.len() && t1[i].0 == x.0;
            assert(weight_total(s1, x.0) == weight_total(s2, x.0));
            assert(t1[i] == x);
        }
    }
    assert forall|x: (Seq<u8>, i64)| #[trigger] t1.to_multiset().count(x) == t2.to_multiset().count(x) by {
        assert(t1.contains(x) == t2.contains(x));
    }
    assert(t1.to_multiset() =~= t2.to_multiset());
}

proof fn lemma_table_words_remove(t: Seq<(Seq<u8>, i64)>, i: int)
    requires
        0 <= i < t.len(),
    ensures
        table_words(t).to_multiset() == if t[i].0.len() > 0 && t[i].1 > 0 {
            table_words(t.remove(i)).to_multiset().insert((to_symbols(t[i].0), t[i].1))
        } else {
            table_words(t.remove(i)).to_multiset()
        },
    decreases t.len(),
{
    if i == t.len() - 1 {
        assert(t.remove(i) =~= t.drop_last());
    } else {
        let d = t.drop_last();
        lemma_table_words_remove(d, i);
        assert(t.remove(i).drop_last() =~= d.remove(i));
        assert(t.remove(i).last() == t.last());
        assert(d[i] == t[i]);
    }
}

proof fn lemma_table_words_reorder(t1: Seq<(Seq<u8>, i64)>, t2: Seq<(Seq<u8>, i64)>)
    requires
        t1.to_multiset() == t2.to_multiset(),
    ensures
        table_words(t1).to_multiset() == table_words(t2).to_multiset(),
    decreases t1.len(),
{
    if t1.len() == 0 {
        assert(t1.to_multiset().len() == 0);
        assert(t2.to_multiset().len() == t2.len());
        assert(t2.len() == 0);
        assert(t1 =~= t2);
    } else {
        let x = t1.last();
        let d = t1.drop_last();
        assert(t1 =~= d.push(x));
        assert(t1.to_multiset() == d.to_multiset().insert(x));
        assert(t2.to_multiset().count(x) > 0);
        assert(t2.contains(x));
        let i = choose|i: int| 0 <= i < t2.len() && t2[i] == x;
        let tr = t2.remove(i);
        assert(tr.to_multiset() == t2.to_multiset().remove(x));
        assert(d.to_multiset() =~= tr.to_multiset());
        lemma_table_words_reorder(d, tr);
        lemma_table_words_remove(t2, i);
        lemma_table_words_remove(t1, t1.len() - 1);
        assert(t1.remove(t1.len() - 1) =~= d);
    }
}

/// Training does not depend on the order of the files: files listed in another order, with the
/// same contents and weights, give the same vocabulary, the same merges and the same line
/// statistics (as long as no sum of the tally leaves `i64` in either order).
pub proof fn law_training_ignores_file_order(
    files1: Seq<TrainingFile>,
    contents1: Seq<Vec<u8>>,
    files2: Seq<TrainingFile>,
    contents2: Seq<Vec<u8>>,
    config: TrainConfig,
)
    requires
        corpus_input(files1, contents1).to_multiset() == corpus_input(files2, contents2).to_multiset(),
        tally_fits(Seq::empty(), corpus_stream(files1, contents1)),
        tally_fits(Seq::empty(), corpus_stream(files2, contents2)),
    ensures
        corpus_training(files1, contents1, config) == corpus_training(files2, contents2, config),
        ({
            let keys = special_keys();
            let l1 = corpus_lines(corpus_input(files1, contents1));
            let l2 = corpus_lines(corpus_input(files2, contents2));
            &&& count_loaded(keys, l1) == count_loaded(keys, l2)
            &&& count_skipped(keys, l1) == count_skipped(keys, l2)
            &&& loaded_bytes(keys, l1) == loaded_bytes(keys, l2)
        }),
{
    let keys = special_keys();
    let i1 = corpus_input(files1, contents1);
    let i2 = corpus_input(files2, contents2);
    let s1 = corpus_stream(files1, contents1);
    let s2 = corpus_stream(files2, contents2);
    let e = Seq::<u8>::empty();
    lemma_stats_by_file(keys, i1, e);
    lemma_stats_by_file(keys, i2, e);
    lemma_word_sum_reorder(i1, i2, |x: (Seq<u8>, i64)| count_loaded(keys, file_lines(x)) as int);
    lemma_word_sum_reorder(i1, i2, |x: (Seq<u8>, i64)| count_skipped(keys, file_lines(x)) as int);
    lemma_word_sum_reorder(i1, i2, |x: (Seq<u8>, i64)| loaded_bytes(keys, file_lines(x)) as int);
    assert forall|tok: Seq<u8>| #[trigger] occurs(s1, tok) == occurs(s2, tok) by {
        lemma_stats_by_file(keys, i1, tok);
        lemma_stats_by_file(keys, i2, tok);
        lemma_word_sum_reorder(
            i1,
            i2,
            |x: (Seq<u8>, i64)| if occurs(piece_stream(keys, file_lines(x)), tok) { 1int } else { 0int },
        );
    }
    assert forall|tok: Seq<u8>| #[trigger] weight_total(s1, tok) == weight_total(s2, tok) by {
        lemma_stats_by_file(keys, i1, tok);
        lemma_stats_by_file(keys, i2, tok);
        lemma_word_sum_reorder(i1, i2, |x: (Seq<u8>, i64)| weight_total(piece_stream(keys, file_lines(x)), tok));
    }
    law_tally_sums_weights(s1);
    law_tally_sums_weights(s2);
    lemma_tallies_agree(tally(s1), s1, tally(s2), s2);
    lemma_table_words_reorder(tally(s1), tally(s2));
    law_training_ignores_word_order(
        table_words(tally(s1)),
        table_words(tally(s2)),
        initial_vocab(),
        Seq::empty(),
        BPE_TOKEN_START,
        merge_budget(config),
        min_count(config),
    );
}

} // verus!
