use vstd::prelude::*;

use crate::bpe::{bpe_run, lemma_best_symbols, merged_words, BPE_TOKEN_START};
use crate::corpus::{tally, tally_fits, table_words, to_symbols};
use crate::laws::{law_tally_sums_weights, listed, occurs};
use crate::pairs::{positive_freqs, pair_count, WordView};
use crate::specials::{apply_specials, base_vocab, special_defs};
use crate::stats::{best_pair, is_best, symbols_below};
use crate::symbols::{
    key_left, key_right, lemma_occurrences_positive, lemma_pair_key_roundtrip, pair_occurrences,
    replaced_pairs, spec_pair_key,
};
use crate::trainer::{corpus_stream, corpus_training, initial_vocab, merge_budget, min_count, TrainConfig, TrainingFile};

verus! {

/// The bytes that the symbols stand for in the vocabulary.
pub open spec fn decode(s: Seq<u16>, vocab: Seq<Seq<u8>>) -> Seq<u8>
    decreases s.len(),
{
    if s.len() == 0 {
        Seq::empty()
    } else {
        vocab[s[0] as int] + decode(s.skip(1), vocab)
    }
}

/// `x` stands at some position of `y`.
pub open spec fn is_infix(x: Seq<u8>, y: Seq<u8>) -> bool {
    exists|p: int| 0 <= p && p + x.len() <= y.len() && #[trigger] y.subrange(p, p + x.len()) == x
}

proof fn lemma_decode_same_vocab(s: Seq<u16>, vocab: Seq<Seq<u8>>, v2: Seq<Seq<u8>>)
    requires
        forall|j: int| 0 <= j < s.len() ==> (#[trigger] s[j]) < vocab.len(),
        vocab.len() <= v2.len(),
        forall|x: int| 0 <= x < vocab.len() ==> #[trigger] v2[x] == vocab[x],
    ensures
        decode(s, v2) == decode(s, vocab),
    decreases s.len(),
{
    if s.len() > 0 {
        assert(s[0] < vocab.len());
        lemma_decode_same_vocab(s.skip(1), vocab, v2);
    }
}

proof fn lemma_decode_replaced(s: Seq<u16>, vocab: Seq<Seq<u8>>, a: u16, b: u16, m: u16)
    requires
        m == vocab.len(),
        a < m,
        b < m,
        forall|j: int| 0 <= j < s.len() ==> (#[trigger] s[j]) < m,
    ensures
        decode(replaced_pairs(s, a, b, m), vocab.push(vocab[a as int] + vocab[b as int])) == decode(s, vocab),
    decreases s.len(),
{
    let v2 = vocab.push(vocab[a as int] + vocab[b as int]);
    let r = replaced_pairs(s, a, b, m);
    if s.len() > 0 {
        let merged_here = s.len() >= 2 && s[0] == a && s[1] == b;
        let rest = if merged_here {
            s.skip(2)
        } else {
            s.skip(1)
        };
        assert forall|j: int| 0 <= j < rest.len() implies (#[trigger] rest[j]) < m by {
            if merged_here {
                assert(rest[j] == s[j + 2]);
            } else {
                assert(rest[j] == s[j + 1]);
            }
        }
        lemma_decode_replaced(rest, vocab, a, b, m);
        let rr = replaced_pairs(rest, a, b, m);
        assert(r.skip(1) =~= rr);
        if merged_here {
            assert(r[0] == m);
            assert(s.skip(1).skip(1) =~= s.skip(2));
            assert(s.skip(1)[0] == b);
            assert(decode(s, vocab) == vocab[s[0] as int] + decode(s.skip(1), vocab));
            assert(decode(s.skip(1), vocab) == vocab[s.skip(1)[0] as int] + decode(s.skip(1).skip(1), vocab));
            assert(decode(s, vocab) == vocab[a as int] + (vocab[b as int] + decode(s.skip(2), vocab)));
            assert(decode(r, v2) == v2[m as int] + decode(rr, v2));
            assert(v2[m as int] + decode(s.skip(2), vocab) =~= vocab[a as int] + (vocab[b as int] + decode(
                s.skip(2),
                vocab,
            )));
        } else {
            assert(r[0] == s[0]);
            assert(v2[s[0] as int] == vocab[s[0] as int]);
        }
    }
}

proof fn lemma_decode_pair_infix(s: Seq<u16>, vocab: Seq<Seq<u8>>, j: int)
    requires
        0 <= j < s.len() - 1,
    ensures
        is_infix(vocab[s[j] as int] + vocab[s[j + 1] as int], decode(s, vocab)),
    decreases j,
{
    let x = vocab[s[j] as int] + vocab[s[j + 1] as int];
    let d = decode(s, vocab);
    if j == 0 {
        assert(s.skip(1).skip(1) =~= s.skip(2));
        assert(s.skip(1)[0] == s[1]);
        assert(d == vocab[s[0] as int] + decode(s.skip(1), vocab));
        assert(decode(s.skip(1), vocab) == vocab[s.skip(1)[0] as int] + decode(s.skip(1).skip(1), vocab));
        assert(d == vocab[s[0] as int] + (vocab[s[1] as int] + decode(s.skip(2), vocab)));
        assert(d.subrange(0int, 0int + x.len()) =~= x);
    } else {
        let t = s.skip(1);
        assert(t[j - 1] == s[j]);
        assert(t[j] == s[j + 1]);
        lemma_decode_pair_infix(t, vocab, j - 1);
        let dt = decode(t, vocab);
        let p = choose|p: int| 0 <= p && p + x.len() <= dt.len() && #[trigger] dt.subrange(p, p + x.len()) == x;
        let h = vocab[s[0] as int];
        assert(d == h + dt);
        let q = h.len() + p;
        assert(d.subrange(q, q + x.len()) =~= dt.subrange(p, p + x.len()));
    }
}

/// Each token learned while training stands inside one of the tokens that the words spell;
/// what was in the vocabulary before stays.
pub proof fn law_learned_tokens_within_words(
    words: Seq<WordView>,
    vocab: Seq<Seq<u8>>,
    merges: Seq<crate::bpe::BpeMerge>,
    next: u16,
    steps: nat,
    min_count: int,
    toks: Seq<Seq<u8>>,
)
    requires
        positive_freqs(words),
        symbols_below(words, next as int),
        vocab.len() == next,
        words.len() == toks.len(),
        forall|i: int| 0 <= i < words.len() ==> decode(#[trigger] words[i].0, vocab) == toks[i],
    ensures
        ({
            let out = bpe_run(words, vocab, merges, next, steps, min_count);
            &&& vocab.len() <= out.0.len()
            &&& out.0.take(vocab.len() as int) == vocab
            &&& forall|t: int|
                vocab.len() <= t < out.0.len() ==> exists|i: int|
                    0 <= i < toks.len() && is_infix(#[trigger] out.0[t], toks[i])
        }),
    decreases steps,
{
    let out = bpe_run(words, vocab, merges, next, steps, min_count);
    if steps == 0 {
        assert(vocab.take(vocab.len() as int) =~= vocab);
    } else {
        match best_pair(words) {
            None => {
                assert(vocab.take(vocab.len() as int) =~= vocab);
            },
            Some(k) => {
                if k == 0 || pair_count(words, k) < min_count || next == u16::MAX {
                    assert(vocab.take(vocab.len() as int) =~= vocab);
                } else {
                    let a = key_left(k);
                    let b = key_right(k);
                    assert(is_best(words, choose|x: u64| is_best(words, x)));
                    lemma_best_symbols(words, k, next as int);
                    let w = choose|w: int| 0 <= w < words.len() && pair_occurrences(#[trigger] words[w].0, k) > 0;
                    let s = words[w].0;
                    lemma_occurrences_positive(s, k);
                    let j = choose|j: int| 0 <= j < s.len() - 1 && #[trigger] spec_pair_key(s[j], s[j + 1]) == k;
                    lemma_pair_key_roundtrip(s[j], s[j + 1]);
                    lemma_decode_pair_infix(s, vocab, j);
                    let v2 = vocab.push(vocab[a as int] + vocab[b as int]);
                    let w2 = merged_words(words, a, b, next);
                    assert forall|i: int| 0 <= i < w2.len() implies decode(#[trigger] w2[i].0, v2) == toks[i] by {
                        assert forall|q: int| 0 <= q < words[i].0.len() implies (#[trigger] words[i].0[q]) < next by {}
                        lemma_decode_replaced(words[i].0, vocab, a, b, next);
                    }
                    crate::laws::lemma_merged_words_keep(words, a, b, next, next + 1);
                    law_learned_tokens_within_words(w2, v2, merges.push(crate::bpe::BpeMerge { a, b, merged: next }), (next + 1) as u16, (steps - 1) as nat, min_count, toks);
                    assert(out.0.take(vocab.len() as int) =~= out.0.take(v2.len() as int).take(vocab.len() as int));
                    assert(v2.take(vocab.len() as int) =~= vocab);
                    assert(out.0[vocab.len() as int] == out.0.take(v2.len() as int)[vocab.len() as int]);
                    assert(is_infix(out.0[vocab.len() as int], toks[w]));
                }
            },
        }
    }
}

/// The tokens behind the training words of a tally, in the same order.
pub open spec fn table_tokens(t: Seq<(Seq<u8>, i64)>) -> Seq<Seq<u8>>
    decreases t.len(),
{
    if t.len() == 0 {
        Seq::empty()
    } else {
        let r = table_tokens(t.drop_last());
        let e = t.last();
        if e.0.len() > 0 && e.1 > 0 {
            r.push(e.0)
        } else {
            r
        }
    }
}

proof fn lemma_table_tokens(t: Seq<(Seq<u8>, i64)>)
    ensures
        table_tokens(t).len() == table_words(t).len(),
        forall|i: int| 0 <= i < table_tokens(t).len() ==> #[trigger] table_words(t)[i].0 == to_symbols(table_tokens(t)[i]),
        forall|i: int| 0 <= i < table_tokens(t).len() ==> listed(t, #[trigger] table_tokens(t)[i]),
    decreases t.len(),
{
    if t.len() > 0 {
        let d = t.drop_last();
        lemma_table_tokens(d);
        let e = t.last();
        let tk = table_tokens(t);
        assert forall|i: int| 0 <= i < tk.len() implies listed(t, #[trigger] tk[i]) by {
            if i < table_tokens(d).len() {
                assert(tk[i] == table_tokens(d)[i]);
                assert(listed(d, tk[i]));
                let k = choose|k: int| 0 <= k < d.len() && d[k].0 == tk[i];
                assert(t[k] == d[k]);
            } else {
                assert(t[t.len() - 1] == e);
            }
        }
        assert forall|i: int| 0 <= i < tk.len() implies #[trigger] table_words(t)[i].0 == to_symbols(tk[i]) by {
            if i < table_tokens(d).len() {
                assert(tk[i] == table_tokens(d)[i]);
                assert(table_words(t)[i] == table_words(d)[i]);
            }
        }
    }
}

proof fn lemma_apply_specials_keep(defs: Seq<(&'static str, u16)>, state: (Seq<Seq<u8>>, Seq<(Seq<u8>, u16)>), x: int)
    requires
        forall|i: int| 0 <= i < defs.len() ==> (#[trigger] defs[i]).1 < 20,
        20 <= x < state.0.len(),
    ensures
        apply_specials(defs, state).0.len() == state.0.len(),
        apply_specials(defs, state).0[x] == state.0[x],
    decreases defs.len(),
{
    if defs.len() > 0 {
        let d = defs.drop_last();
        assert forall|i: int| 0 <= i < d.len() implies (#[trigger] d[i]).1 < 20 by {
            assert(d[i] == defs[i]);
        }
        lemma_apply_specials_keep(d, state, x);
        assert(defs[defs.len() - 1].1 < 20);
    }
}

proof fn lemma_initial_byte_tokens()
    ensures
        initial_vocab().len() == 276,
        forall|b: u8| #[trigger] initial_vocab()[b + 20] == seq![b],
{
    assert forall|i: int| 0 <= i < special_defs().len() implies (#[trigger] special_defs()[i]).1 < 20 by {}
    assert forall|b: u8| #[trigger] initial_vocab()[b + 20] == seq![b] by {
        lemma_apply_specials_keep(special_defs(), (base_vocab(), Seq::empty()), b + 20);
        assert(base_vocab()[b + 20] == seq![((b + 20) - 20) as u8]);
    }
    lemma_apply_specials_keep(special_defs(), (base_vocab(), Seq::empty()), 20);
}

proof fn lemma_decode_bytes(p: Seq<u8>)
    requires
        initial_vocab().len() == 276,
        forall|b: u8| #[trigger] initial_vocab()[b + 20] == seq![b],
    ensures
        decode(to_symbols(p), initial_vocab()) == p,
    decreases p.len(),
{
    if p.len() > 0 {
        lemma_decode_bytes(p.skip(1));
        assert(to_symbols(p).skip(1) =~= to_symbols(p.skip(1)));
        assert(to_symbols(p)[0] == p[0] + 20);
        assert(initial_vocab()[p[0] + 20] == seq![p[0]]);
        assert(seq![p[0]] + p.skip(1) =~= p);
    }
}

proof fn lemma_occurs_at(stream: Seq<(Seq<u8>, i64)>, tok: Seq<u8>)
    requires
        occurs(stream, tok),
    ensures
        exists|j: int| 0 <= j < stream.len() && #[trigger] stream[j].0 == tok,
    decreases stream.len(),
{
    if occurs(stream.drop_last(), tok) {
        lemma_occurs_at(stream.drop_last(), tok);
        let j = choose|j: int| 0 <= j < stream.len() - 1 && #[trigger] stream.drop_last()[j].0 == tok;
        assert(stream[j] == stream.drop_last()[j]);
    } else {
        assert(stream[stream.len() - 1] == stream.last());
    }
}

/// Each token that training learns stands inside one piece of a corpus line that is trained
/// on: no learned token spans two pieces.
pub proof fn law_learned_tokens_within_pieces(files: Seq<TrainingFile>, contents: Seq<Vec<u8>>, config: TrainConfig)
    requires
        tally_fits(Seq::empty(), corpus_stream(files, contents)),
    ensures
        ({
            let out = corpus_training(files, contents, config);
            let stream = corpus_stream(files, contents);
            forall|t: int|
                BPE_TOKEN_START <= t < out.0.len() ==> exists|j: int|
                    0 <= j < stream.len() && is_infix(#[trigger] out.0[t], stream[j].0)
        }),
{
    let stream = corpus_stream(files, contents);
    let tl = tally(stream);
    let words = table_words(tl);
    let toks = table_tokens(tl);
    let out = corpus_training(files, contents, config);
    lemma_table_tokens(tl);
    crate::corpus::lemma_table_words_shape(tl);
    lemma_initial_byte_tokens();
    assert forall|i: int| 0 <= i < words.len() implies decode(#[trigger] words[i].0, initial_vocab()) == toks[i] by {
        lemma_decode_bytes(toks[i]);
    }
    law_learned_tokens_within_words(
        words,
        initial_vocab(),
        Seq::empty(),
        BPE_TOKEN_START,
        merge_budget(config),
        min_count(config),
        toks,
    );
    law_tally_sums_weights(stream);
    assert forall|t: int| BPE_TOKEN_START <= t < out.0.len() implies exists|j: int|
        0 <= j < stream.len() && is_infix(#[trigger] out.0[t], stream[j].0) by {
        let i = choose|i: int| 0 <= i < toks.len() && is_infix(out.0[t], toks[i]);
        assert(listed(tl, toks[i]));
        lemma_occurs_at(stream, toks[i]);
    }
}

} // verus!
