use std::collections::HashMap;
use vstd::prelude::*;

use crate::decimal::{append_decimal, append_signed_decimal, decimal, signed_decimal};

use crate::queue::{PairCandidate, PairQueue};
use crate::symbols::pair_occurrences;

verus! {

broadcast use vstd::std_specs::hash::group_hash_axioms;

/// A word as training sees it: its symbols and its weighted frequency.
pub type WordView = (Seq<u16>, i64);

/// The sum of `f` over the words.
pub open spec fn word_sum<A>(words: Seq<A>, f: spec_fn(A) -> int) -> int
    decreases words.len(),
{
    if words.len() == 0 {
        0
    } else {
        word_sum(words.drop_last(), f) + f(words.last())
    }
}

/// How often the pair occurs in the words, each occurrence weighted by its word's frequency.
pub open spec fn pair_count(words: Seq<WordView>, key: u64) -> int {
    word_sum(words, |w: WordView| pair_occurrences(w.0, key) * w.1)
}

/// The symbols of all words, each weighted by its word's frequency.
pub open spec fn word_mass(words: Seq<WordView>) -> int {
    word_sum(words, |w: WordView| w.0.len() * w.1)
}

/// The pair count splits into that of all words but the last, and the last word's share.
pub proof fn lemma_pair_count_last(words: Seq<WordView>, key: u64)
    requires
        words.len() > 0,
    ensures
        pair_count(words, key) == pair_count(words.drop_last(), key) + pair_occurrences(
            words.last().0,
            key,
        ) * words.last().1,
{
}

/// Replacing one word changes a pair count by the difference of the two words' shares.
pub proof fn lemma_pair_count_update(words: Seq<WordView>, i: int, w: WordView, key: u64)
    requires
        0 <= i < words.len(),
    ensures
        pair_count(words.update(i, w), key) == pair_count(words, key) - pair_occurrences(
            words[i].0,
            key,
        ) * words[i].1 + pair_occurrences(w.0, key) * w.1,
{
    lemma_word_sum_update(words, i, w, |v: WordView| pair_occurrences(v.0, key) * v.1);
}

/// Replacing one word changes the word mass by the difference of the two words' shares.
pub proof fn lemma_word_mass_update(words: Seq<WordView>, i: int, w: WordView)
    requires
        0 <= i < words.len(),
    ensures
        word_mass(words.update(i, w)) == word_mass(words) - words[i].0.len() * words[i].1
            + w.0.len() * w.1,
{
    lemma_word_sum_update(words, i, w, |v: WordView| v.0.len() * v.1);
}

/// Every word has a positive frequency.
pub open spec fn positive_freqs(words: Seq<WordView>) -> bool {
    forall|i: int| 0 <= i < words.len() ==> #[trigger] words[i].1 > 0
}

pub proof fn lemma_word_sum_update<A>(words: Seq<A>, i: int, w: A, f: spec_fn(A) -> int)
    requires
        0 <= i < words.len(),
    ensures
        word_sum(words.update(i, w), f) == word_sum(words, f) - f(words[i]) + f(w),
    decreases words.len(),
{
    let u = words.update(i, w);
    if i == words.len() - 1 {
        assert(u.drop_last() =~= words.drop_last());
    } else {
        lemma_word_sum_update(words.drop_last(), i, w, f);
        assert(u.drop_last() =~= words.drop_last().update(i, w));
    }
}

pub proof fn lemma_word_sum_nonneg_term<A>(words: Seq<A>, i: int, f: spec_fn(A) -> int)
    requires
        0 <= i < words.len(),
        forall|j: int| 0 <= j < words.len() ==> f(#[trigger] words[j]) >= 0,
    ensures
        0 <= f(words[i]) <= word_sum(words, f),
    decreases words.len(),
{
    lemma_word_sum_nonneg(words.drop_last(), f);
    if i < words.len() - 1 {
        lemma_word_sum_nonneg_term(words.drop_last(), i, f);
    }
}

pub proof fn lemma_word_sum_nonneg<A>(words: Seq<A>, f: spec_fn(A) -> int)
    requires
        forall|j: int| 0 <= j < words.len() ==> f(#[trigger] words[j]) >= 0,
    ensures
        word_sum(words, f) >= 0,
    decreases words.len(),
{
    if words.len() > 0 {
        lemma_word_sum_nonneg(words.drop_last(), f);
    }
}

pub proof fn lemma_word_sum_positive_witness<A>(words: Seq<A>, f: spec_fn(A) -> int)
    requires
        forall|j: int| 0 <= j < words.len() ==> f(#[trigger] words[j]) >= 0,
        word_sum(words, f) > 0,
    ensures
        exists|j: int| 0 <= j < words.len() && f(#[trigger] words[j]) > 0,
    decreases words.len(),
{
    if words.len() > 0 {
        if f(words.last()) > 0 {
            assert(f(words[words.len() - 1]) > 0);
        } else {
            lemma_word_sum_positive_witness(words.drop_last(), f);
            let j = choose|j: int| 0 <= j < words.len() - 1 && f(#[trigger] words.drop_last()[j]) > 0;
            assert(words[j] == words.drop_last()[j]);
        }
    }
}

pub proof fn lemma_word_sum_mono<A>(words: Seq<A>, f: spec_fn(A) -> int, g: spec_fn(A) -> int)
    requires
        forall|j: int| 0 <= j < words.len() ==> f(#[trigger] words[j]) <= g(words[j]),
    ensures
        word_sum(words, f) <= word_sum(words, g),
    decreases words.len(),
{
    if words.len() > 0 {
        lemma_word_sum_mono(words.drop_last(), f, g);
        assert(f(words[words.len() - 1]) <= g(words[words.len() - 1]));
    }
}

/// Pair counts are never negative, never above the word mass, and a positive count
/// comes from some word in which the pair occurs.
pub proof fn lemma_pair_count_facts(words: Seq<WordView>, key: u64)
    requires
        positive_freqs(words),
    ensures
        0 <= pair_count(words, key) <= word_mass(words),
        pair_count(words, key) > 0 ==> exists|j: int|
            0 <= j < words.len() && pair_occurrences(#[trigger] words[j].0, key) > 0,
        (forall|j: int| 0 <= j < words.len() ==> pair_occurrences(#[trigger] words[j].0, key) == 0)
            ==> pair_count(words, key) == 0,
{
    let f = |w: WordView| pair_occurrences(w.0, key) * w.1;
    let g = |w: WordView| w.0.len() * w.1;
    assert forall|j: int| 0 <= j < words.len() implies f(#[trigger] words[j]) >= 0 && f(words[j])
        <= g(words[j]) by {
        crate::symbols::lemma_occurrences_bound(words[j].0, key);
        let o = pair_occurrences(words[j].0, key) as int;
        let l = words[j].0.len() as int;
        let q = words[j].1 as int;
        assert(0 <= o * q <= l * q) by (nonlinear_arith)
            requires
                0 <= o <= l,
                q > 0,
        ;
    }
    lemma_word_sum_nonneg(words, f);
    lemma_word_sum_mono(words, f, g);
    if pair_count(words, key) > 0 {
        lemma_word_sum_positive_witness(words, f);
        let j = choose|j: int| 0 <= j < words.len() && f(#[trigger] words[j]) > 0;
        assert(pair_occurrences(words[j].0, key) > 0);
    }
    if forall|j: int| 0 <= j < words.len() ==> pair_occurrences(#[trigger] words[j].0, key) == 0 {
        assert forall|j: int| 0 <= j < words.len() implies f(#[trigger] words[j]) <= 0 by {
            assert(pair_occurrences(words[j].0, key) == 0);
        }
        lemma_word_sum_mono(words, f, |w: WordView| 0int);
        lemma_word_sum_zero(words);
    }
}

pub proof fn lemma_word_sum_zero(words: Seq<WordView>)
    ensures
        word_sum(words, |w: WordView| 0int) == 0,
    decreases words.len(),
{
    if words.len() > 0 {
        lemma_word_sum_zero(words.drop_last());
    }
}

/// One word's share of the word mass is at most the whole mass.
pub proof fn lemma_word_mass_term(words: Seq<WordView>, i: int)
    requires
        positive_freqs(words),
        0 <= i < words.len(),
    ensures
        words[i].0.len() * words[i].1 <= word_mass(words),
{
    let g = |w: WordView| w.0.len() * w.1;
    assert forall|j: int| 0 <= j < words.len() implies g(#[trigger] words[j]) >= 0 by {
        let l = words[j].0.len() as int;
        let q = words[j].1 as int;
        assert(l * q >= 0) by (nonlinear_arith)
            requires
                l >= 0,
                q > 0,
        ;
    }
    lemma_word_sum_nonneg_term(words, i, g);
}

/// The stored count of a key, 0 when absent.
pub open spec fn count_of(counts: Map<u64, i64>, key: u64) -> int {
    if counts.contains_key(key) {
        counts[key] as int
    } else {
        0
    }
}

/// The error text for a decrease of a key that has no count.
pub open spec fn underflow_message(key: u64, delta: i64) -> Seq<char> {
    "Pair count underflow on missing key="@ + decimal(key as nat) + ", delta="@ + signed_decimal(
        delta as int,
    )
}

/// The error text for a count that would become negative.
pub open spec fn negative_message(key: u64, old: i64, delta: i64, new: i64) -> Seq<char> {
    "Negative pair count key="@ + decimal(key as nat) + ", old="@ + signed_decimal(old as int)
        + ", delta="@ + signed_decimal(delta as int) + ", new="@ + signed_decimal(new as int)
}

/// Builds the underflow message.
fn format_underflow(key: u64, delta: i64) -> (s: String)
    ensures
        s@ == underflow_message(key, delta),
{
    let mut s = "Pair count underflow on missing key=".to_owned();
    append_decimal(&mut s, key);
    s.append(", delta=");
    append_signed_decimal(&mut s, delta);
    s
}

/// Builds the negative-count message.
fn format_negative(key: u64, old: i64, delta: i64, new: i64) -> (s: String)
    ensures
        s@ == negative_message(key, old, delta, new),
{
    let mut s = "Negative pair count key=".to_owned();
    append_decimal(&mut s, key);
    s.append(", old=");
    append_signed_decimal(&mut s, old);
    s.append(", delta=");
    append_signed_decimal(&mut s, delta);
    s.append(", new=");
    append_signed_decimal(&mut s, new);
    s
}

/// Adds `delta` to the count of `key`. A count that reaches 0 is removed; a count that
/// becomes positive is stored and queued. A decrease of an absent key, or one that would
/// leave a negative count, is an error and changes nothing.
pub fn update_pair_count(
    pair_counts: &mut HashMap<u64, i64>,
    heap: &mut PairQueue,
    key: u64,
    delta: i64,
) -> (r: Result<(), String>)
    requires
        old(heap).wf(),
        i64::MIN <= count_of(old(pair_counts)@, key) + delta <= i64::MAX,
    ensures
        final(heap).wf(),
        ({
            let prev = count_of(old(pair_counts)@, key);
            let next = prev + delta;
            if delta == 0 {
                &&& r is Ok
                &&& final(pair_counts)@ == old(pair_counts)@
                &&& *final(heap) == *old(heap)
            } else if prev == 0 && delta < 0 {
                &&& r is Err
                &&& r->Err_0@ == underflow_message(key, delta)
                &&& final(pair_counts)@ == old(pair_counts)@
                &&& *final(heap) == *old(heap)
            } else if next < 0 {
                &&& r is Err
                &&& r->Err_0@ == negative_message(key, prev as i64, delta, next as i64)
                &&& final(pair_counts)@ == old(pair_counts)@
                &&& *final(heap) == *old(heap)
            } else if next == 0 {
                &&& r is Ok
                &&& final(pair_counts)@ == old(pair_counts)@.remove(key)
                &&& *final(heap) == *old(heap)
            } else {
                &&& r is Ok
                &&& final(pair_counts)@ == old(pair_counts)@.insert(key, next as i64)
                &&& final(heap).len() == old(heap).len() + 1
                &&& final(heap).contents() == old(heap).contents().insert(PairCandidate { count: next as i64, key })
                &&& forall|x: PairCandidate| #[trigger] final(heap).holds(x) <==> (old(heap).holds(
                    x,
                ) || x == PairCandidate { count: next as i64, key })
            }
        }),
{
    if delta == 0 {
        return Ok(());
    }
    let prev: i64 = match pair_counts.get(&key) {
        Some(v) => *v,
        None => 0,
    };
    if prev == 0 && delta < 0 {
        return Err(format_underflow(key, delta));
    }
    let next = prev + delta;
    if next < 0 {
        return Err(format_negative(key, prev, delta, next));
    }
    if next == 0 {
        pair_counts.remove(&key);
        return Ok(());
    }
    pair_counts.insert(key, next);
    heap.push(PairCandidate { count: next, key });
    Ok(())
}

} // verus!
