use std::collections::{HashMap, HashSet};
use vstd::prelude::*;
use vstd::std_specs::iter::IteratorSpec;

use crate::pairs::{
    count_of, lemma_pair_count_facts, lemma_pair_count_last, lemma_pair_count_update,
    lemma_word_mass_update, lemma_word_mass_term, lemma_word_sum_nonneg_term,
    lemma_word_sum_update, pair_count, positive_freqs, update_pair_count, word_mass, word_sum,
    WordView,
};
use crate::queue::{outranks, PairCandidate, PairQueue};
use crate::symbols::{
    count_pairs_in_symbols, lemma_occurrences_bound, lemma_occurrences_positive,
    lemma_replaced_len, lemma_replaced_symbols, pair_histogram, pair_key, pair_occurrences,
    replace_pair, replaced_pairs, spec_pair_key, pairs_fit_i32, lemma_replaced_fits,
};

verus! {

broadcast use vstd::std_specs::hash::group_hash_axioms;

/// The most that the weighted symbol total of the training words may reach: every pair count,
/// and every change of one, is at most that total, which merging never makes larger.
pub const MASS_LIMIT: i64 = 0x7fff_ffff_ffff_ffff;

/// A distinct word of the corpus, as a sequence of symbols, with its weighted frequency.
pub struct WordEntry {
    pub symbols: Vec<u16>,
    pub freq: i64,
}

pub open spec fn words_view(ws: Seq<WordEntry>) -> Seq<WordView> {
    Seq::new(ws.len(), |i: int| (ws[i].symbols@, ws[i].freq))
}

/// Every symbol of every word is below `bound`.
pub open spec fn symbols_below(words: Seq<WordView>, bound: int) -> bool {
    forall|i: int, j: int|
        0 <= i < words.len() && 0 <= j < words[i].0.len() ==> #[trigger] words[i].0[j] < bound
}

/// The words can be trained on without an overflow of a count or an id.
pub open spec fn trainable(words: Seq<WordView>) -> bool {
    &&& positive_freqs(words)
    &&& word_mass(words) <= MASS_LIMIT
    &&& words.len() <= u32::MAX
    &&& forall|i: int| 0 <= i < words.len() ==> pairs_fit_i32(#[trigger] words[i].0)
}

/// The pair is the one that training merges next: it has a positive count, and every other
/// pair with a positive count has a lower count, or the same count and a larger key.
pub open spec fn is_best(words: Seq<WordView>, key: u64) -> bool {
    &&& pair_count(words, key) > 0
    &&& forall|k: u64|
        #![trigger pair_count(words, k)]
        pair_count(words, k) > 0 ==> pair_count(words, key) > pair_count(words, k) || (
        pair_count(words, key) == pair_count(words, k) && key <= k)
}

/// The pair that training merges next, if any pair occurs at all.
pub open spec fn best_pair(words: Seq<WordView>) -> Option<u64> {
    if exists|k: u64| is_best(words, k) {
        Some(choose|k: u64| is_best(words, k))
    } else {
        None
    }
}

/// There is at most one best pair.
pub proof fn lemma_best_unique(words: Seq<WordView>, k1: u64, k2: u64)
    requires
        is_best(words, k1),
        is_best(words, k2),
    ensures
        k1 == k2,
{
    assert(pair_count(words, k2) > 0);
    assert(pair_count(words, k1) > 0);
}

/// Holds the pair counts of a set of words, the words in which each pair occurs, and a
/// queue from which the most frequent pair is taken.
pub struct PairStats {
    counts: HashMap<u64, i64>,
    words_of: HashMap<u64, HashSet<u32>>,
    queue: PairQueue,
}

pub open spec fn indexed(words_of: Map<u64, HashSet<u32>>, key: u64, w: u32) -> bool {
    words_of.contains_key(key) && words_of[key]@.contains(w)
}

impl PairStats {
    pub closed spec fn counts(&self) -> Map<u64, i64> {
        self.counts@
    }

    pub closed spec fn index(&self) -> Map<u64, HashSet<u32>> {
        self.words_of@
    }

    /// The stored counts are the pair counts of the words, every stored pair is queued with
    /// its count (but `missing`), and the word index lists exactly the words in which each
    /// pair occurs.
    pub closed spec fn tracks(&self, words: Seq<WordView>, missing: Option<u64>) -> bool {
        &&& self.queue.wf()
        &&& forall|k: u64| #[trigger] count_of(self.counts@, k) == pair_count(words, k)
        &&& forall|k: u64| #[trigger] self.counts@.contains_key(k) ==> self.counts@[k] != 0
        &&& forall|k: u64|
            #[trigger] self.counts@.contains_key(k) && missing != Some(k) ==> self.queue.holds(
                PairCandidate { count: self.counts@[k], key: k },
            )
        &&& forall|k: u64, w: u32|
            #![trigger indexed(self.words_of@, k, w)]
            #![trigger pair_occurrences(words[w as int].0, k)]
            (w < words.len() && pair_occurrences(words[w as int].0, k) > 0) <==> indexed(
                self.words_of@,
                k,
                w,
            )
    }
}

pub proof fn lemma_occurrences_prefix(s: Seq<u16>, n: int, key: u64)
    requires
        0 <= n <= s.len(),
    ensures
        pair_occurrences(s.take(n), key) <= pair_occurrences(s, key),
    decreases s.len(),
{
    if n < s.len() {
        lemma_occurrences_prefix(s.drop_last(), n, key);
        assert(s.drop_last().take(n) =~= s.take(n));
    } else {
        assert(s.take(n) =~= s);
    }
}

pub proof fn lemma_word_sum_prefix<A>(words: Seq<A>, n: int, f: spec_fn(A) -> int)
    requires
        0 <= n <= words.len(),
        forall|j: int| 0 <= j < words.len() ==> f(#[trigger] words[j]) >= 0,
    ensures
        word_sum(words.take(n), f) <= word_sum(words, f),
    decreases words.len(),
{
    if n < words.len() {
        lemma_word_sum_prefix(words.drop_last(), n, f);
        assert(words.drop_last().take(n) =~= words.take(n));
        lemma_word_sum_nonneg_term(words, words.len() - 1, f);
    } else {
        assert(words.take(n) =~= words);
    }
}

pub proof fn lemma_push_contains(s: Seq<u64>, x: u64, k: u64)
    ensures
        s.push(x).contains(k) == (s.contains(k) || k == x),
{
    if s.push(x).contains(k) {
        let i = choose|i: int| 0 <= i < s.push(x).len() && s.push(x)[i] == k;
        if i < s.len() {
            assert(s[i] == k);
        }
    }
    if s.contains(k) {
        let i = choose|i: int| 0 <= i < s.len() && s[i] == k;
        assert(s.push(x)[i] == k);
    }
    if k == x {
        assert(s.push(x)[s.len() as int] == k);
    }
}

/// Extends a key set, kept as a vector without repeats, by the keys of the adjacent pairs of `s`.
fn collect_pair_keys(s: &Vec<u16>, seen: &mut HashSet<u64>, keys: &mut Vec<u64>)
    requires
        forall|k: u64| #[trigger] old(keys)@.contains(k) <==> old(seen)@.contains(k),
        old(keys)@.no_duplicates(),
    ensures
        forall|k: u64| #[trigger] final(keys)@.contains(k) <==> final(seen)@.contains(k),
        final(keys)@.no_duplicates(),
        forall|k: u64| old(keys)@.contains(k) ==> #[trigger] final(keys)@.contains(k),
        forall|k: u64|
            final(keys)@.contains(k) && !old(keys)@.contains(k) ==> pair_occurrences(s@, k) > 0,
        forall|k: u64| pair_occurrences(s@, k) > 0 ==> #[trigger] final(keys)@.contains(k),
{
    let n = s.len();
    let ghost keys0 = keys@;
    if n < 2 {
        assert forall|k: u64| pair_occurrences(s@, k) > 0 implies #[trigger] keys@.contains(k) by {}
        return ;
    }
    let mut j: usize = 0;
    while j < n - 1
        invariant
            n == s@.len(),
            n >= 2,
            j <= n - 1,
            forall|k: u64| #[trigger] keys@.contains(k) <==> seen@.contains(k),
            keys@.no_duplicates(),
            forall|k: u64| keys0.contains(k) ==> #[trigger] keys@.contains(k),
            forall|k: u64|
                keys@.contains(k) && !keys0.contains(k) ==> pair_occurrences(s@, k) > 0,
            forall|i: int| 0 <= i < j ==> #[trigger] keys@.contains(spec_pair_key(s@[i], s@[i + 1])),
        decreases n - 1 - j,
    {
        let key = pair_key(s[j], s[j + 1]);
        proof {
            lemma_occurrences_positive(s@, key);
            assert(spec_pair_key(s@[j as int], s@[j + 1]) == key);
        }
        let ghost before = keys@;
        if seen.insert(key) {
            keys.push(key);
            proof {
                assert(!before.contains(key));
                assert forall|x: int, y: int|
                    0 <= x < keys@.len() && 0 <= y < keys@.len() && x != y implies keys@[x]
                    != keys@[y] by {
                    if x == before.len() {
                        assert(before.contains(keys@[y]));
                    } else if y == before.len() {
                        assert(before.contains(keys@[x]));
                    } else {
                        assert(before[x] == keys@[x] && before[y] == keys@[y]);
                    }
                }
                assert forall|k: u64| #[trigger] keys@.contains(k) <==> (before.contains(k) || k == key) by {
                    if keys@.contains(k) {
                        let i = choose|i: int| 0 <= i < keys@.len() && keys@[i] == k;
                        if i < before.len() {
                            assert(before[i] == k);
                        }
                    }
                    if before.contains(k) {
                        let i = choose|i: int| 0 <= i < before.len() && before[i] == k;
                        assert(keys@[i] == k);
                    }
                    if k == key {
                        assert(keys@[before.len() as int] == k);
                    }
                }
            }
        }
        j = j + 1;
    }
    proof {
        assert forall|k: u64| pair_occurrences(s@, k) > 0 implies #[trigger] keys@.contains(k) by {
            lemma_occurrences_positive(s@, k);
            let i = choose|i: int| 0 <= i < s@.len() - 1 && #[trigger] spec_pair_key(s@[i], s@[i + 1]) == k;
            assert(keys@.contains(spec_pair_key(s@[i], s@[i + 1])));
        }
    }
}

impl PairStats {
    /// Counts the pairs of all words and queues each pair that occurs.
    #[verifier::rlimit(40)]
    pub fn build(words: &Vec<WordEntry>) -> (st: Self)
        requires
            trainable(words_view(words@)),
        ensures
            st.tracks(words_view(words@), None),
    {
        let ghost ww = words_view(words@);
        let mut counts: HashMap<u64, i64> = HashMap::new();
        let mut words_of: HashMap<u64, HashSet<u32>> = HashMap::new();
        let mut keys: Vec<u64> = Vec::new();
        let nw = words.len();
        let mut wid: usize = 0;
        proof {
            assert(ww.take(0) =~= Seq::<WordView>::empty());
        }
        while wid < nw
            invariant
                nw == words@.len(),
                ww == words_view(words@),
                trainable(ww),
                wid <= nw,
                forall|k: u64| #[trigger] count_of(counts@, k) == pair_count(ww.take(wid as int), k),
                forall|k: u64| #[trigger] counts@.contains_key(k) ==> counts@[k] > 0,
                forall|k: u64| #[trigger] counts@.contains_key(k) ==> keys@.contains(k),
                forall|k: u64, w: u32|
                    #![trigger indexed(words_of@, k, w)]
                    #![trigger pair_occurrences(ww[w as int].0, k)]
                    (w < wid && pair_occurrences(ww[w as int].0, k) > 0) <==> indexed(
                        words_of@,
                        k,
                        w,
                    ),
            decreases nw - wid,
        {
            let f = words[wid].freq;
            let n = words[wid].symbols.len();
            let ghost sym = ww[wid as int].0;
            let ghost done = ww.take(wid as int);
            let ghost next = ww.take(wid + 1);
            assert(next.drop_last() =~= done);
            assert(next.last() == ww[wid as int]);
            proof {
                lemma_word_sum_prefix(ww, wid + 1, |w: WordView| w.0.len() * w.1);
                assert forall|j: int| 0 <= j < ww.len() implies (|w: WordView| w.0.len() * w.1)(
                    #[trigger] ww[j],
                ) >= 0 by {
                    lemma_word_mass_term(ww, j);
                    let l = ww[j].0.len() as int;
                    let q = ww[j].1 as int;
                    assert(l * q >= 0) by (nonlinear_arith)
                        requires
                            l >= 0,
                            q > 0,
                    ;
                }
                lemma_word_sum_prefix(ww, wid + 1, |w: WordView| w.0.len() * w.1);
                assert(positive_freqs(next));
            }
            if n >= 2 {
                let mut j: usize = 0;
                assert(sym.take(1) =~= seq![sym[0]]);
                assert forall|k: u64| #[trigger] pair_occurrences(sym.take(1), k) == 0 by {}
                while j < n - 1
                    invariant
                        nw == words@.len(),
                        ww == words_view(words@),
                        trainable(ww),
                        wid < nw,
                        n == sym.len(),
                        n >= 2,
                        sym == ww[wid as int].0,
                        f == ww[wid as int].1,
                        done == ww.take(wid as int),
                        next == ww.take(wid + 1),
                        next.drop_last() == done,
                        next.last() == ww[wid as int],
                        positive_freqs(next),
                        word_mass(next) <= word_mass(ww),
                        j <= n - 1,
                        words@[wid as int].symbols@ == sym,
                        forall|k: u64| #[trigger]
                            count_of(counts@, k) == pair_count(done, k) + pair_occurrences(
                                sym.take(j + 1),
                                k,
                            ) * f,
                        forall|k: u64| #[trigger] counts@.contains_key(k) ==> counts@[k] > 0,
                        forall|k: u64| #[trigger] counts@.contains_key(k) ==> keys@.contains(k),
                        forall|k: u64, w: u32|
                            #![trigger indexed(words_of@, k, w)]
                            #![trigger pair_occurrences(ww[w as int].0, k)]
                            ((w < wid && pair_occurrences(ww[w as int].0, k) > 0) || (w == wid
                                && pair_occurrences(sym.take(j + 1), k) > 0)) <==> indexed(
                                words_of@,
                                k,
                                w,
                            ),
                    decreases n - 1 - j,
                {
                    let key = pair_key(words[wid].symbols[j], words[wid].symbols[j + 1]);
                    let ghost pre = sym.take(j + 1);
                    let ghost post = sym.take(j + 2);
                    assert(post.drop_last() =~= pre);
                    assert(post[post.len() - 2] == sym[j as int]);
                    assert(post[post.len() - 1] == sym[j + 1]);
                    proof {
                        lemma_occurrences_prefix(sym, j + 2, key);
                        lemma_pair_count_facts(next, key);
                        lemma_pair_count_last(next, key);
                        assert(pair_count(next, key) == pair_count(done, key) + pair_occurrences(
                            sym,
                            key,
                        ) * f);
                        let o = pair_occurrences(post, key) as int;
                        let o2 = pair_occurrences(sym, key) as int;
                        assert(o * f <= o2 * f) by (nonlinear_arith)
                            requires
                                o <= o2,
                                f > 0,
                        ;
                        lemma_pair_count_facts(done, key);
                        assert(positive_freqs(done));
                    }
                    let ghost c0 = counts@;
                    let prev: i64 = match counts.get(&key) {
                        Some(v) => *v,
                        None => 0,
                    };
                    assert(prev == count_of(c0, key));
                    assert(prev == pair_count(done, key) + pair_occurrences(pre, key) * f);
                    proof {
                        let o = pair_occurrences(pre, key) as int;
                        assert(pair_occurrences(post, key) == o + 1);
                        assert((o + 1) * f == o * f + f) by (nonlinear_arith);
                        assert(prev + f <= pair_count(next, key));
                    }
                    let ghost keys0 = keys@;
                    if prev == 0 {
                        keys.push(key);
                    }
                    counts.insert(key, prev + f);
                    let ghost ix0 = words_of@;
                    let mut set: HashSet<u32> = match words_of.remove(&key) {
                        Some(st) => st,
                        None => HashSet::new(),
                    };
                    let ghost s0 = set@;
                    assert(forall|w: u32| #[trigger] s0.contains(w) == indexed(ix0, key, w));
                    set.insert(wid as u32);
                    words_of.insert(key, set);
                    assert forall|w: u32| #[trigger] indexed(words_of@, key, w) == (indexed(ix0, key, w)
                        || w == wid as u32) by {}
                    assert forall|k: u64, w: u32| k != key implies #[trigger] indexed(words_of@, k, w)
                        == indexed(ix0, k, w) by {}
                    j = j + 1;
                    proof {
                        assert forall|k: u64| #[trigger] count_of(counts@, k) == pair_count(done, k)
                            + pair_occurrences(sym.take(j + 1), k) * f by {
                            assert(count_of(c0, k) == pair_count(done, k) + pair_occurrences(pre, k) * f);
                            if k != key {
                                assert(pair_occurrences(post, k) == pair_occurrences(pre, k));
                                assert(count_of(counts@, k) == count_of(c0, k));
                            } else {
                                let o = pair_occurrences(pre, k) as int;
                                assert(pair_occurrences(post, k) == o + 1);
                                assert((o + 1) * f == o * f + f) by (nonlinear_arith);
                            }
                        }
                        assert forall|k: u64| #[trigger] counts@.contains_key(k) implies keys@.contains(
                            k,
                        ) by {
                            if k == key && prev == 0 {
                                assert(keys@[keys@.len() - 1] == key);
                            } else if k != key {
                                assert(c0.contains_key(k));
                                assert(keys0.contains(k));
                                let x = choose|x: int| 0 <= x < keys0.len() && keys0[x] == k;
                                assert(keys@[x] == k);
                            } else {
                                assert(keys0.contains(k));
                            }
                        }
                        assert forall|k: u64, w: u32|
                            #![trigger indexed(words_of@, k, w)]
                            #![trigger pair_occurrences(ww[w as int].0, k)]
                            ((w < wid && pair_occurrences(ww[w as int].0, k) > 0) || (w == wid
                                && pair_occurrences(sym.take(j + 1), k) > 0)) <==> indexed(
                                words_of@,
                                k,
                                w,
                            ) by {
                            if k != key {
                                assert(pair_occurrences(post, k) == pair_occurrences(pre, k));
                                assert(indexed(words_of@, k, w) == indexed(ix0, k, w));
                            } else {
                                assert(pair_occurrences(post, k) > 0);
                            }
                        }
                    }
                }
                assert(sym.take(n as int) =~= sym);
                assert forall|k: u64| #[trigger] count_of(counts@, k) == pair_count(next, k) by {
                    lemma_pair_count_last(next, k);
                }
            } else {
                proof {
                    assert forall|k: u64| #[trigger] pair_occurrences(sym, k) == 0 by {}
                    assert forall|k: u64| #[trigger] count_of(counts@, k) == pair_count(next, k) by {
                        lemma_pair_count_last(next, k);
                        assert(pair_occurrences(sym, k) == 0);
                    }
                }
            }
            proof {
                assert forall|k: u64, w: u32|
                    #![trigger indexed(words_of@, k, w)]
                    #![trigger pair_occurrences(ww[w as int].0, k)]
                    (w < wid + 1 && pair_occurrences(ww[w as int].0, k) > 0) <==> indexed(
                        words_of@,
                        k,
                        w,
                    ) by {
                    if n < 2 {
                        assert(pair_occurrences(sym, k) == 0);
                    }
                }
            }
            wid = wid + 1;
        }
        assert(ww.take(nw as int) =~= ww);
        let mut queue = PairQueue::new();
        let nk = keys.len();
        let mut i: usize = 0;
        while i < nk
            invariant
                nk == keys@.len(),
                i <= nk,
                queue.wf(),
                forall|k: u64| #[trigger] counts@.contains_key(k) ==> keys@.contains(k),
                forall|x: int|
                    0 <= x < i && counts@.contains_key(keys@[x]) ==> #[trigger] queue.holds(
                        PairCandidate { count: counts@[keys@[x]], key: keys@[x] },
                    ),
            decreases nk - i,
        {
            let k = keys[i];
            match counts.get(&k) {
                Some(c) => {
                    queue.push(PairCandidate { count: *c, key: k });
                },
                None => {},
            }
            i = i + 1;
        }
        let st = PairStats { counts, words_of, queue };
        proof {
            assert forall|k: u64| #[trigger] st.counts@.contains_key(k) implies st.queue.holds(
                PairCandidate { count: st.counts@[k], key: k },
            ) by {
                let x = choose|x: int| 0 <= x < keys@.len() && keys@[x] == k;
                assert(counts@.contains_key(keys@[x]));
            }
        }
        st
    }
}

impl PairStats {
    /// Takes from the queue the best pair of the words with its count, skipping queued
    /// candidates whose count is out of date; `(0, 0)` when no pair occurs.
    pub fn pop_best(&mut self, Ghost(words): Ghost<Seq<WordView>>) -> (r: (u64, i64))
        requires
            old(self).tracks(words, None),
            positive_freqs(words),
        ensures
            final(self).counts() == old(self).counts(),
            final(self).index() == old(self).index(),
            r.1 == 0 ==> r.0 == 0 && best_pair(words) is None && final(self).tracks(words, None),
            r.1 != 0 ==> is_best(words, r.0) && r.1 == pair_count(words, r.0) && best_pair(words)
                == Some(r.0) && final(self).tracks(words, Some(r.0)),
    {
        let mut best_key: u64 = 0;
        let mut best_count: i64 = 0;
        loop
            invariant_except_break
                best_count == 0,
                best_key == 0,
                forall|k: u64|
                    #[trigger] self.counts@.contains_key(k) ==> self.queue.holds(
                        PairCandidate { count: self.counts@[k], key: k },
                    ),
            invariant
                self.counts == old(self).counts,
                self.words_of == old(self).words_of,
                self.queue.wf(),
                old(self).tracks(words, None),
                positive_freqs(words),
            ensures
                self.counts == old(self).counts,
                self.words_of == old(self).words_of,
                self.queue.wf(),
                best_count == 0 ==> best_key == 0 && forall|k: u64| !self.counts@.contains_key(k),
                best_count == 0 ==> forall|k: u64|
                    #[trigger] self.counts@.contains_key(k) ==> self.queue.holds(
                        PairCandidate { count: self.counts@[k], key: k },
                    ),
                best_count != 0 ==> {
                    &&& self.counts@.contains_key(best_key)
                    &&& self.counts@[best_key] == best_count
                    &&& forall|k: u64|
                        #[trigger] self.counts@.contains_key(k) ==> outranks(
                            PairCandidate { count: best_count, key: best_key },
                            PairCandidate { count: self.counts@[k], key: k },
                        )
                    &&& forall|k: u64|
                        #[trigger] self.counts@.contains_key(k) && k != best_key ==> self.queue.holds(
                            PairCandidate { count: self.counts@[k], key: k },
                        )
                },
            decreases self.queue.len(),
        {
            let ghost q0 = self.queue;
            match self.queue.pop() {
                None => {
                    proof {
                        assert forall|k: u64| !self.counts@.contains_key(k) by {
                            if self.counts@.contains_key(k) {
                                assert(q0.holds(PairCandidate { count: self.counts@[k], key: k }));
                            }
                        }
                    }
                    break ;
                },
                Some(top) => {
                    let current: i64 = match self.counts.get(&top.key) {
                        Some(v) => *v,
                        None => 0,
                    };
                    if current == 0 || current != top.count {
                        proof {
                            assert forall|k: u64| #[trigger] self.counts@.contains_key(k) implies self.queue.holds(
                                PairCandidate { count: self.counts@[k], key: k },
                            ) by {
                                let c = PairCandidate { count: self.counts@[k], key: k };
                                assert(q0.holds(c));
                                assert(c != top);
                            }
                        }
                        continue ;
                    }
                    best_key = top.key;
                    best_count = top.count;
                    proof {
                        assert forall|k: u64| #[trigger] self.counts@.contains_key(k) implies outranks(
                            PairCandidate { count: best_count, key: best_key },
                            PairCandidate { count: self.counts@[k], key: k },
                        ) by {
                            assert(q0.holds(PairCandidate { count: self.counts@[k], key: k }));
                        }
                        assert forall|k: u64| #[trigger] self.counts@.contains_key(k) && k != best_key implies self.queue.holds(
                            PairCandidate { count: self.counts@[k], key: k },
                        ) by {
                            assert(q0.holds(PairCandidate { count: self.counts@[k], key: k }));
                        }
                    }
                    break ;
                },
            }
        }
        proof {
            if best_count == 0 {
                assert forall|k: u64| !is_best(words, k) by {
                    assert(count_of(self.counts@, k) == pair_count(words, k));
                }
            } else {
                assert(count_of(self.counts@, best_key) == pair_count(words, best_key));
                assert forall|k: u64| #[trigger] pair_count(words, k) > 0 implies pair_count(
                    words,
                    best_key,
                ) > pair_count(words, k) || (pair_count(words, best_key) == pair_count(words, k)
                    && best_key <= k) by {
                    assert(count_of(self.counts@, k) == pair_count(words, k));
                    assert(self.counts@.contains_key(k));
                }
                lemma_pair_count_facts(words, best_key);
                assert(is_best(words, best_key));
                if best_pair(words) != Some(best_key) {
                    lemma_best_unique(words, best_key, choose|k: u64| is_best(words, k));
                }
            }
        }
        (best_key, best_count)
    }
}

/// The occurrences of a pair in word `w` while word `wid` is being brought up to date: the
/// keys in `done` already count `new_sym` for word `wid`.
pub open spec fn occ_during(
    words: Seq<WordView>,
    wid: int,
    new_sym: Seq<u16>,
    done: Seq<u64>,
    w: int,
    k: u64,
) -> nat {
    if w == wid && done.contains(k) {
        pair_occurrences(new_sym, k)
    } else {
        pair_occurrences(words[w].0, k)
    }
}

/// The words after replacing the pair in word `wid`.
pub open spec fn merged_at(words: Seq<WordView>, wid: int, a: u16, b: u16, m: u16) -> Seq<WordView> {
    words.update(wid, (replaced_pairs(words[wid].0, a, b, m), words[wid].1))
}

impl PairStats {
    /// Replaces the pair `(a, b)` by `merged` in word `wid`, if the pair occurs there, and
    /// brings the counts, the queue and the word index up to date. Answers whether the word
    /// changed.
    #[verifier::rlimit(40)]
    pub fn merge_word(
        &mut self,
        words: &mut Vec<WordEntry>,
        wid: usize,
        a: u16,
        b: u16,
        merged: u16,
        Ghost(best): Ghost<u64>,
        Ghost(bound): Ghost<int>,
    ) -> (r: Result<bool, String>)
        requires
            old(self).tracks(words_view(old(words)@), Some(best)),
            trainable(words_view(old(words)@)),
            symbols_below(words_view(old(words)@), bound),
            merged < bound,
            wid < old(words)@.len(),
            forall|j: int|
                0 <= j < old(words)@[wid as int].symbols@.len() ==> #[trigger] old(words)@[wid as int].symbols@[j]
                    < merged,
        ensures
            r is Ok,
            ({
                let w0 = words_view(old(words)@);
                let present = pair_occurrences(w0[wid as int].0, spec_pair_key(a, b)) > 0;
                &&& r == Ok::<bool, String>(present)
                &&& words_view(final(words)@) == if present {
                    merged_at(w0, wid as int, a, b, merged)
                } else {
                    w0
                }
            }),
            final(self).tracks(words_view(final(words)@), Some(best)),
            trainable(words_view(final(words)@)),
            symbols_below(words_view(final(words)@), bound),
    {
        let ghost w0 = words_view(words@);
        let ghost old_sym = w0[wid as int].0;
        proof {
            assert(words@[wid as int].symbols@ == old_sym);
        }
        let old_counts = count_pairs_in_symbols(words[wid].symbols.as_slice());
        let bk = pair_key(a, b);
        let present = match old_counts.get(&bk) {
            Some(c) => *c != 0,
            None => false,
        };
        if !present {
            proof {
                assert(pairs_fit_i32(w0[wid as int].0));
                assert(pair_occurrences(old_sym, bk) <= i32::MAX);
            }
            return Ok(false);
        }
        proof {
            lemma_occurrences_bound(old_sym, bk);
        }
        let freq = words[wid].freq;
        let new_symbols = replace_pair(words[wid].symbols.as_slice(), a, b, merged);
        let ghost new_sym = new_symbols@;
        let ghost w1 = w0.update(wid as int, (new_sym, freq));
        proof {
            lemma_replaced_len(old_sym, a, b, merged);
            lemma_replaced_symbols(old_sym, a, b, merged);
            lemma_word_mass_update(w0, wid as int, (new_sym, freq));
            let lo = old_sym.len() as int;
            let ln = new_sym.len() as int;
            assert(ln * freq <= lo * freq) by (nonlinear_arith)
                requires
                    ln <= lo,
                    freq > 0,
            ;
            lemma_word_mass_term(w0, wid as int);
            assert(positive_freqs(w1));
            assert(pairs_fit_i32(w0[wid as int].0));
            assert forall|j: int| 0 <= j < old_sym.len() implies #[trigger] old_sym[j] != merged by {
                assert(words@[wid as int].symbols@[j] < merged);
            }
            lemma_replaced_fits(old_sym, a, b, merged);
        }
        let new_counts = count_pairs_in_symbols(new_symbols.as_slice());
        let mut seen: HashSet<u64> = HashSet::new();
        let mut touched: Vec<u64> = Vec::new();
        collect_pair_keys(&words[wid].symbols, &mut seen, &mut touched);
        collect_pair_keys(&new_symbols, &mut seen, &mut touched);
        let wid32 = wid as u32;
        let nt = touched.len();
        let mut i: usize = 0;
        proof {
            assert forall|k: u64, w: u32|
                #![trigger indexed(self.words_of@, k, w)]
                #![trigger occ_during(w0, wid as int, new_sym, touched@.take(0), w as int, k)]
                (w < w0.len() && occ_during(w0, wid as int, new_sym, touched@.take(0), w as int, k)
                    > 0) <==> indexed(self.words_of@, k, w) by {
                assert(!touched@.take(0).contains(k));
                if w < w0.len() {
                    assert(pair_occurrences(w0[w as int].0, k) == occ_during(
                        w0,
                        wid as int,
                        new_sym,
                        touched@.take(0),
                        w as int,
                        k,
                    ));
                }
            }
        }
        while i < nt
            invariant
                nt == touched@.len(),
                i <= nt,
                touched@.no_duplicates(),
                forall|k: u64|
                    pair_occurrences(old_sym, k) > 0 || pair_occurrences(new_sym, k) > 0
                        ==> #[trigger] touched@.contains(k),
                old_counts@ == pair_histogram(old_sym),
                new_counts@ == pair_histogram(new_sym),
                pairs_fit_i32(old_sym),
                pairs_fit_i32(new_sym),
                w0 == words_view(words@),
                wid < w0.len(),
                wid32 == wid,
                old_sym == w0[wid as int].0,
                freq == w0[wid as int].1,
                w1 == w0.update(wid as int, (new_sym, freq)),
                new_sym.len() <= old_sym.len(),
                trainable(w0),
                positive_freqs(w1),
                word_mass(w1) <= word_mass(w0),
                self.queue.wf(),
                forall|k: u64|
                    #[trigger] count_of(self.counts@, k) == if touched@.take(i as int).contains(k) {
                        pair_count(w1, k)
                    } else {
                        pair_count(w0, k)
                    },
                forall|k: u64| #[trigger] self.counts@.contains_key(k) ==> self.counts@[k] != 0,
                forall|k: u64|
                    #[trigger] self.counts@.contains_key(k) && Some(best) != Some(k)
                        ==> self.queue.holds(PairCandidate { count: self.counts@[k], key: k }),
                forall|k: u64, w: u32|
                    #![trigger indexed(self.words_of@, k, w)]
                    #![trigger occ_during(w0, wid as int, new_sym, touched@.take(i as int), w as int, k)]
                    (w < w0.len() && occ_during(
                        w0,
                        wid as int,
                        new_sym,
                        touched@.take(i as int),
                        w as int,
                        k,
                    ) > 0) <==> indexed(self.words_of@, k, w),
            decreases nt - i,
        {
            let key = touched[i];
            let ghost before = touched@.take(i as int);
            let ghost after = touched@.take(i + 1);
            assert(after =~= before.push(key));
            proof {
                assert forall|k: u64| #[trigger] after.contains(k) == (before.contains(k) || k == key) by {
                    lemma_push_contains(before, key, k);
                }
            }
            assert(!before.contains(key)) by {
                if before.contains(key) {
                    let x = choose|x: int| 0 <= x < before.len() && before[x] == key;
                    assert(touched@[x] == touched@[i as int]);
                }
            }
            let old_occ: i32 = match old_counts.get(&key) {
                Some(c) => *c,
                None => 0,
            };
            let new_occ: i32 = match new_counts.get(&key) {
                Some(c) => *c,
                None => 0,
            };
            let ghost po = pair_occurrences(old_sym, key) as int;
            let ghost pn = pair_occurrences(new_sym, key) as int;
            proof {
                lemma_occurrences_bound(old_sym, key);
                lemma_occurrences_bound(new_sym, key);
                assert(pair_occurrences(old_sym, key) <= i32::MAX);
                assert(pair_occurrences(new_sym, key) <= i32::MAX);
                assert(old_occ == po);
                assert(new_occ == pn);
                lemma_pair_count_update(w0, wid as int, (new_sym, freq), key);
                lemma_pair_count_facts(w1, key);
                lemma_pair_count_facts(w0, key);
                lemma_word_mass_term(w0, wid as int);
                let lo = old_sym.len() as int;
                assert(-(lo * freq) <= (pn - po) * freq <= lo * freq) by (nonlinear_arith)
                    requires
                        0 <= po <= lo,
                        0 <= pn <= lo,
                        freq > 0,
                ;
                assert((pn - po) * freq == pn * freq - po * freq) by (nonlinear_arith);
            }
            let delta: i64 = (new_occ - old_occ) as i64 * freq;
            let ghost c0 = self.counts@;
            let ghost q0 = self.queue;
            assert(count_of(c0, key) == pair_count(w0, key));
            assert(count_of(c0, key) + delta == pair_count(w1, key));
            if delta != 0 {
                match update_pair_count(&mut self.counts, &mut self.queue, key, delta) {
                    Ok(()) => {},
                    Err(e) => {
                        return Err(e);
                    },
                }
            }
            proof {
                if delta == 0 {
                    assert(pair_count(w1, key) == pair_count(w0, key));
                }
                assert(count_of(self.counts@, key) == pair_count(w1, key));
                assert forall|k: u64| #[trigger] count_of(self.counts@, k) == if after.contains(k) {
                    pair_count(w1, k)
                } else {
                    pair_count(w0, k)
                } by {
                    if k != key {
                        assert(count_of(self.counts@, k) == count_of(c0, k));
                        assert(after.contains(k) == before.contains(k));
                    }
                }
                assert forall|k: u64|
                    #[trigger] self.counts@.contains_key(k) && Some(best) != Some(k)
                        implies self.queue.holds(PairCandidate { count: self.counts@[k], key: k }) by {
                    if k != key || delta == 0 {
                        assert(c0.contains_key(k));
                        assert(q0.holds(PairCandidate { count: c0[k], key: k }));
                    }
                }
            }
            let ghost ix0 = self.words_of@;
            if old_occ > 0 && new_occ == 0 {
                match self.words_of.remove(&key) {
                    Some(mut set) => {
                        let ghost s0 = set@;
                        assert(s0 == ix0[key]@);
                        set.remove(&wid32);
                        assert(set@ == s0.remove(wid32));
                        if !set.is_empty() {
                            self.words_of.insert(key, set);
                        } else {
                            assert forall|w: u32| w != wid32 implies !s0.contains(w) by {
                                assert(!set@.contains(w));
                            }
                        }
                        assert forall|w: u32| w != wid32 implies indexed(self.words_of@, key, w)
                            == #[trigger] indexed(ix0, key, w) by {}
                    },
                    None => {},
                }
            } else if old_occ == 0 && new_occ > 0 {
                let mut set = match self.words_of.remove(&key) {
                    Some(st) => st,
                    None => HashSet::new(),
                };
                let ghost s0 = set@;
                assert(forall|w: u32| #[trigger] s0.contains(w) == indexed(ix0, key, w));
                set.insert(wid32);
                self.words_of.insert(key, set);
                assert forall|w: u32| w != wid32 implies indexed(self.words_of@, key, w)
                    == #[trigger] indexed(ix0, key, w) by {}
            }
            proof {
                assert forall|k: u64, w: u32|
                    #![trigger indexed(self.words_of@, k, w)]
                    #![trigger occ_during(w0, wid as int, new_sym, after, w as int, k)]
                    (w < w0.len() && occ_during(w0, wid as int, new_sym, after, w as int, k) > 0)
                        <==> indexed(self.words_of@, k, w) by {
                    assert(after.contains(k) == (before.contains(k) || k == key));
                    assert((w < w0.len() && occ_during(w0, wid as int, new_sym, before, w as int, k)
                        > 0) <==> indexed(ix0, k, w));
                    if k == key && w != wid32 {
                        assert(indexed(self.words_of@, k, w) == indexed(ix0, k, w));
                    }
                    if k != key {
                        assert(indexed(self.words_of@, k, w) == indexed(ix0, k, w));
                    }
                }
            }
            i = i + 1;
        }
        words.set(wid, WordEntry { symbols: new_symbols, freq });
        proof {
            let wv = words_view(words@);
            assert(wv =~= w1);
            assert(touched@.take(nt as int) =~= touched@);
            assert forall|k: u64| #[trigger] count_of(self.counts@, k) == pair_count(w1, k) by {
                if !touched@.contains(k) {
                    lemma_pair_count_update(w0, wid as int, (new_sym, freq), k);
                }
            }
            assert forall|k: u64, w: u32|
                #![trigger indexed(self.words_of@, k, w)]
                #![trigger pair_occurrences(w1[w as int].0, k)]
                (w < w1.len() && pair_occurrences(w1[w as int].0, k) > 0) <==> indexed(
                    self.words_of@,
                    k,
                    w,
                ) by {
                assert((w < w0.len() && occ_during(w0, wid as int, new_sym, touched@, w as int, k)
                    > 0) <==> indexed(self.words_of@, k, w));
                if w < w1.len() {
                    assert(occ_during(w0, wid as int, new_sym, touched@, w as int, k)
                        == pair_occurrences(w1[w as int].0, k));
                }
            }
            assert forall|i: int| 0 <= i < w1.len() implies pairs_fit_i32(#[trigger] w1[i].0) by {
                assert(pairs_fit_i32(w0[i].0));
            }
            assert(symbols_below(w1, bound)) by {
                assert forall|x: int, y: int|
                    0 <= x < w1.len() && 0 <= y < w1[x].0.len() implies #[trigger] w1[x].0[y]
                    < bound by {
                    if x == wid {
                        if new_sym[y] != merged {
                            let z = choose|z: int| 0 <= z < old_sym.len() && old_sym[z] == new_sym[y];
                            assert(w0[x].0[z] < bound);
                        }
                    } else {
                        assert(w0[x].0[y] < bound);
                    }
                }
            }
        }
        Ok(true)
    }
}

impl PairStats {
    /// The ids of the words in which the pair occurs, without repeats.
    pub fn words_with(
        &self,
        key: u64,
        Ghost(words): Ghost<Seq<WordView>>,
        Ghost(missing): Ghost<Option<u64>>,
    ) -> (ids: Vec<u32>)
        requires
            self.tracks(words, missing),
        ensures
            ids@.no_duplicates(),
            forall|w: u32|
                #[trigger] ids@.contains(w) <==> (w < words.len() && pair_occurrences(
                    words[w as int].0,
                    key,
                ) > 0),
    {
        let mut ids: Vec<u32> = Vec::new();
        match self.words_of.get(&key) {
            Some(set) => {
                let ghost sq = vstd::std_specs::hash::spec_hash_keys_iter(set).remaining();
                for x in it: set.iter()
                    invariant
                        it.seq() == sq,
                        self.words_of@.contains_key(key),
                        self.words_of@[key] == *set,
                        ids@.len() == it.index(),
                        forall|i: int| 0 <= i < ids@.len() ==> ids@[i] == *it.seq()[i],
                {
                    ids.push(*x);
                }
                assert(ids@.len() == sq.len());
                proof {
                    assert(sq.take(sq.len() as int) =~= sq);
                    assert(sq.unref() =~= ids@);
                    assert(sq.unref().to_set() == set@);
                    assert forall|w: u32| #[trigger] ids@.contains(w) <==> indexed(self.index(), key, w) by {
                        assert(ids@.to_set().contains(w) == ids@.contains(w));
                    }
                    assert forall|w: u32|
                        #[trigger] ids@.contains(w) <==> (w < words.len() && pair_occurrences(
                            words[w as int].0,
                            key,
                        ) > 0) by {
                        assert(indexed(self.index(), key, w) == indexed(self.words_of@, key, w));
                    }
                    assert(ids@.no_duplicates()) by {
                        assert forall|i: int, j: int| 0 <= i < ids@.len() && 0 <= j < ids@.len() && i != j implies ids@[i] != ids@[j] by {
                            assert(sq[i] != sq[j]);
                        }
                    }
                }
            },
            None => {
                proof {
                    assert forall|w: u32|
                        #[trigger] ids@.contains(w) <==> (w < words.len() && pair_occurrences(
                            words[w as int].0,
                            key,
                        ) > 0) by {
                        assert(!indexed(self.words_of@, key, w));
                    }
                }
            },
        }
        ids
    }
}

impl PairStats {
    /// Queues the pair again with its current count, if it still occurs.
    pub fn requeue(&mut self, key: u64, Ghost(words): Ghost<Seq<WordView>>)
        requires
            old(self).tracks(words, Some(key)),
            positive_freqs(words),
        ensures
            final(self).tracks(words, None),
            final(self).counts() == old(self).counts(),
    {
        let ghost q0 = self.queue;
        match self.counts.get(&key) {
            Some(remaining) => {
                if *remaining > 0 {
                    self.queue.push(PairCandidate { count: *remaining, key });
                } else {
                    proof {
                        assert(count_of(self.counts@, key) == pair_count(words, key));
                        lemma_pair_count_facts(words, key);
                    }
                }
            },
            None => {},
        }
        proof {
            assert forall|k: u64| #[trigger] self.counts@.contains_key(k) && None::<u64> != Some(k) implies self.queue.holds(
                PairCandidate { count: self.counts@[k], key: k },
            ) by {
                if k != key {
                    assert(q0.holds(PairCandidate { count: self.counts@[k], key: k }));
                }
            }
        }
    }

    /// Forgets the pair: its count and its word list.
    pub fn drop_pair(&mut self, key: u64)
        ensures
            final(self).counts() == old(self).counts().remove(key),
            final(self).index() == old(self).index().remove(key),
    {
        self.counts.remove(&key);
        self.words_of.remove(&key);
    }
}

} // verus!
