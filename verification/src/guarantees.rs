use vstd::prelude::*;
use vstd::string::StringSliceAdditionalSpecFns;

use crate::bpe::{bpe_run, BpeMerge};
use crate::digest::{hex16, hex_digits, le16, le32, merges_file, merges_stream, nibble, vocab_file, vocab_records};
use crate::pairs::word_sum;
use crate::corpus::{
    blob_lines, corpus_lines, count_loaded, count_skipped, first_newline, loaded_bytes, piece_stream,
    table_words, to_symbols,
};
use crate::paths::{bytes_contain, corpus_extension, lower_bytes};
use crate::text::trimmed;
use crate::trainer::{initial_vocab, merge_budget, min_count, TrainConfig};
use crate::specials::apply_specials;
use crate::pairs::{pair_count, WordView};
use crate::stats::{best_pair, is_best, lemma_best_unique};
use crate::symbols::{key_left, key_right, pair_occurrences, replaced_pairs, spec_pair_key};
use crate::decimal::{decimal, signed_decimal};
use crate::paths::{allow_patterns, file_patterns, skip_patterns, tier_of, training_choice};
use crate::specials::special_defs;
use crate::specials::{lemma_longest_token_bound, longest_token_at, only_tokens, starts_with_token};
use crate::text::{
    is_space, lemma_line_pieces_partition, lemma_piece_len, line_pieces, piece_len, space_run, word_run,
};

verus! {

/// A step of training merges the most frequent pair (the smaller key among equally frequent
/// ones) exactly when its weighted count reaches `min_count`: a count equal to the threshold
/// is merged, a smaller one stops training with nothing learned. The merge takes the next id.
pub proof fn law_threshold_is_inclusive(
    words: Seq<WordView>,
    vocab: Seq<Seq<u8>>,
    merges: Seq<BpeMerge>,
    next: u16,
    steps: nat,
    min_count: int,
    k: u64,
)
    requires
        steps > 0,
        k != 0,
        pair_count(words, k) > 0,
        forall|j: u64|
            pair_count(words, j) > 0 ==> #[trigger] pair_count(words, k) > pair_count(words, j) || (
            pair_count(words, k) == pair_count(words, j) && k <= j),
    ensures
        ({
            let out = bpe_run(words, vocab, merges, next, steps, min_count);
            &&& (pair_count(words, k) >= min_count && next < u16::MAX) ==> {
                &&& out.1.len() > merges.len()
                &&& out.1[merges.len() as int] == (BpeMerge { a: key_left(k), b: key_right(k), merged: next })
            }
            &&& pair_count(words, k) < min_count ==> out == (vocab, merges, false)
        }),
{
    assert(is_best(words, k));
    let c = choose|x: u64| is_best(words, x);
    lemma_best_unique(words, k, c);
    assert(best_pair(words) == Some(k));
    let out = bpe_run(words, vocab, merges, next, steps, min_count);
    if pair_count(words, k) >= min_count && next < u16::MAX {
        let a = key_left(k);
        let b = key_right(k);
        let m2 = merges.push(BpeMerge { a, b, merged: next });
        let rest = bpe_run(
            crate::bpe::merged_words(words, a, b, next),
            vocab.push(vocab[a as int] + vocab[b as int]),
            m2,
            (next + 1) as u16,
            (steps - 1) as nat,
            min_count,
        );
        assert(out == rest);
        lemma_run_keeps_merges(
            crate::bpe::merged_words(words, a, b, next),
            vocab.push(vocab[a as int] + vocab[b as int]),
            m2,
            (next + 1) as u16,
            (steps - 1) as nat,
            min_count,
        );
        assert(rest.1[merges.len() as int] == m2[merges.len() as int]);
    }
}

/// Training only adds merges after those it starts with.
proof fn lemma_run_keeps_merges(
    words: Seq<WordView>,
    vocab: Seq<Seq<u8>>,
    merges: Seq<BpeMerge>,
    next: u16,
    steps: nat,
    min_count: int,
)
    ensures
        ({
            let out = bpe_run(words, vocab, merges, next, steps, min_count);
            &&& out.1.len() >= merges.len()
            &&& forall|i: int| 0 <= i < merges.len() ==> #[trigger] out.1[i] == merges[i]
        }),
    decreases steps,
{
    if steps > 0 {
        match best_pair(words) {
            None => {},
            Some(k) => {
                if !(k == 0 || pair_count(words, k) < min_count || next == u16::MAX) {
                    let a = key_left(k);
                    let b = key_right(k);
                    let m2 = merges.push(BpeMerge { a, b, merged: next });
                    lemma_run_keeps_merges(
                        crate::bpe::merged_words(words, a, b, next),
                        vocab.push(vocab[a as int] + vocab[b as int]),
                        m2,
                        (next + 1) as u16,
                        (steps - 1) as nat,
                        min_count,
                    );
                    assert forall|i: int| 0 <= i < merges.len() implies m2[i] == merges[i] by {}
                }
            },
        }
    }
}

proof fn lemma_space_run_facts(s: Seq<u8>)
    ensures
        space_run(s) <= s.len(),
        forall|j: int| 0 <= j < space_run(s) ==> is_space(#[trigger] s[j]),
        space_run(s) < s.len() ==> !is_space(s[space_run(s) as int]),
    decreases s.len(),
{
    if s.len() > 0 && is_space(s[0]) {
        lemma_space_run_facts(s.skip(1));
        assert forall|j: int| 0 <= j < space_run(s) implies is_space(#[trigger] s[j]) by {
            if j > 0 {
                assert(s[j] == s.skip(1)[j - 1]);
            }
        }
    }
}

proof fn lemma_word_run_facts(s: Seq<u8>)
    ensures
        word_run(s) <= s.len(),
        forall|j: int| 0 <= j < word_run(s) ==> !is_space(#[trigger] s[j]),
        word_run(s) < s.len() ==> is_space(s[word_run(s) as int]),
    decreases s.len(),
{
    if s.len() > 0 && !is_space(s[0]) {
        lemma_word_run_facts(s.skip(1));
        assert forall|j: int| 0 <= j < word_run(s) implies !is_space(#[trigger] s[j]) by {
            if j > 0 {
                assert(s[j] == s.skip(1)[j - 1]);
            }
        }
    }
}

/// The first piece of a non-empty line: whitespace, then non-whitespace; when the line goes
/// on, the piece ends in non-whitespace and the rest starts with whitespace.
proof fn lemma_first_piece(s: Seq<u8>)
    requires
        s.len() > 0,
    ensures
        0 < piece_len(s) <= s.len(),
        forall|j: int, l: int|
            0 <= j < l < piece_len(s) && !is_space(#[trigger] s[j]) ==> !is_space(#[trigger] s[l]),
        piece_len(s) < s.len() ==> is_space(s[piece_len(s) as int]) && !is_space(s[piece_len(s) - 1]),
{
    lemma_piece_len(s);
    lemma_space_run_facts(s);
    let w = space_run(s);
    let t = s.skip(w as int);
    lemma_word_run_facts(t);
    let n = piece_len(s);
    assert forall|j: int| w <= j < n implies !is_space(#[trigger] s[j]) by {
        assert(s[j] == t[j - w]);
    }
    if n < s.len() {
        assert(s[n as int] == t[word_run(t) as int]);
        if word_run(t) == 0 {
            assert(t[0] == s[w as int]);
        }
    }
}

/// How a line is cut into pieces, with whitespace meaning exactly the five ASCII whitespace
/// bytes (space, tab, line feed, form feed, carriage return): the pieces, put together, give
/// the line; none is empty; within a piece no whitespace follows a non-whitespace byte; every
/// piece after the first starts with whitespace; and every piece before the last ends in a
/// non-whitespace byte.
pub proof fn law_pieces_split_at_ascii_whitespace(s: Seq<u8>)
    ensures
        ({
            let p = line_pieces(s);
            &&& p.flatten() == s
            &&& forall|i: int| 0 <= i < p.len() ==> (#[trigger] p[i]).len() > 0
            &&& forall|i: int, j: int, l: int|
                #![trigger p[i][j], p[i][l]]
                0 <= i < p.len() && 0 <= j < l < p[i].len() && !(p[i][j] == 32 || p[i][j] == 9
                    || p[i][j] == 10 || p[i][j] == 12 || p[i][j] == 13) ==> !(p[i][l] == 32
                    || p[i][l] == 9 || p[i][l] == 10 || p[i][l] == 12 || p[i][l] == 13)
            &&& forall|i: int|
                0 < i < p.len() ==> ((#[trigger] p[i])[0] == 32 || p[i][0] == 9 || p[i][0] == 10
                    || p[i][0] == 12 || p[i][0] == 13)
            &&& forall|i: int|
                0 <= i < p.len() - 1 ==> !((#[trigger] p[i]).last() == 32 || p[i].last() == 9
                    || p[i].last() == 10 || p[i].last() == 12 || p[i].last() == 13)
        }),
    decreases s.len(),
{
    lemma_line_pieces_partition(s);
    let p = line_pieces(s);
    if s.len() > 0 {
        lemma_first_piece(s);
        let n = piece_len(s);
        let r = s.skip(n as int);
        law_pieces_split_at_ascii_whitespace(r);
        let q = line_pieces(r);
        assert(p == seq![s.take(n as int)] + q);
        assert forall|i: int, j: int, l: int|
            #![trigger p[i][j], p[i][l]]
            0 <= i < p.len() && 0 <= j < l < p[i].len() && !(p[i][j] == 32 || p[i][j] == 9 || p[i][j]
                == 10 || p[i][j] == 12 || p[i][j] == 13) implies !(p[i][l] == 32 || p[i][l]
            == 9 || p[i][l] == 10 || p[i][l] == 12 || p[i][l] == 13) by {
            if i == 0 {
                assert(p[0][j] == s[j]);
                assert(p[0][l] == s[l]);
                assert(!is_space(s[j]));
            } else {
                assert(p[i] == q[i - 1]);
            }
        }
        assert forall|i: int| 0 < i < p.len() implies ((#[trigger] p[i])[0] == 32 || p[i][0] == 9
            || p[i][0] == 10 || p[i][0] == 12 || p[i][0] == 13) by {
            assert(p[i] == q[i - 1]);
            if i == 1 {
                lemma_line_pieces_partition(r);
                lemma_first_piece(r);
                assert(q[0] == r.take(piece_len(r) as int));
                assert(q[0][0] == r[0]);
                assert(r[0] == s[n as int]);
            }
        }
        assert forall|i: int| 0 <= i < p.len() - 1 implies !((#[trigger] p[i]).last() == 32
            || p[i].last() == 9 || p[i].last() == 10 || p[i].last() == 12 || p[i].last() == 13) by {
            if i == 0 {
                assert(q.len() > 0);
                assert(r.len() > 0);
                assert(p[0].last() == s[n - 1]);
            } else {
                assert(p[i] == q[i - 1]);
            }
        }
    }
}

/// Key `i` stands at the start of the line, and no key that stands there is longer.
pub open spec fn longest_key_at_start(keys: Seq<Seq<u8>>, line: Seq<u8>, i: int) -> bool {
    &&& 0 <= i < keys.len()
    &&& keys[i].len() > 0
    &&& keys[i].len() <= line.len()
    &&& line.subrange(0, keys[i].len() as int) == keys[i]
    &&& forall|j: int|
        0 <= j < keys.len() && #[trigger] keys[j].len() <= line.len() && line.subrange(0, keys[j].len() as int)
            == keys[j] ==> keys[j].len() <= keys[i].len()
}

proof fn lemma_longest_token_facts(keys: Seq<Seq<u8>>, line: Seq<u8>)
    ensures
        longest_token_at(keys, line) > 0 ==> exists|i: int|
            0 <= i < keys.len() && #[trigger] keys[i].len() == longest_token_at(keys, line)
                && keys[i].len() <= line.len() && line.subrange(0, keys[i].len() as int) == keys[i],
        forall|j: int|
            0 <= j < keys.len() && #[trigger] keys[j].len() <= line.len() && line.subrange(0, keys[j].len() as int)
                == keys[j] ==> keys[j].len() <= longest_token_at(keys, line),
    decreases keys.len(),
{
    if keys.len() > 0 {
        let d = keys.drop_last();
        lemma_longest_token_facts(d, line);
        let n = longest_token_at(keys, line);
        let k = keys.last();
        if k.len() > longest_token_at(d, line) && starts_with_token(line, k) {
            assert(keys[keys.len() - 1] == k);
            assert(line.take(k.len() as int) == line.subrange(0, k.len() as int));
        } else if n > 0 {
            let i = choose|i: int|
                0 <= i < d.len() && #[trigger] d[i].len() == longest_token_at(d, line) && d[i].len()
                    <= line.len() && line.subrange(0, d[i].len() as int) == d[i];
            assert(keys[i] == d[i]);
        }
        assert forall|j: int|
            0 <= j < keys.len() && #[trigger] keys[j].len() <= line.len() && line.subrange(0, keys[j].len() as int)
                == keys[j] implies keys[j].len() <= longest_token_at(keys, line) by {
            if j < d.len() {
                assert(keys[j] == d[j]);
            } else {
                assert(line.take(k.len() as int) == line.subrange(0, k.len() as int));
            }
        }
    }
}

/// A line counts as made of special tokens only exactly when it is empty, or a key stands at
/// its start such that no longer key does, and the rest after that key again counts as made of
/// special tokens only. So such a line is the keys it was read as, one after the other, each
/// the longest that fits: no byte is passed over.
pub proof fn law_special_only_is_greedy_concatenation(keys: Seq<Seq<u8>>, line: Seq<u8>)
    ensures
        only_tokens(keys, line) <==> (line.len() == 0 || exists|i: int|
            longest_key_at_start(keys, line, i) && only_tokens(keys, line.skip(keys[i].len() as int))),
{
    lemma_longest_token_facts(keys, line);
    lemma_longest_token_bound(keys, line);
    if line.len() > 0 {
        let n = longest_token_at(keys, line);
        if n > 0 {
            let i = choose|i: int|
                0 <= i < keys.len() && #[trigger] keys[i].len() == n && keys[i].len() <= line.len()
                    && line.subrange(0, keys[i].len() as int) == keys[i];
            assert(longest_key_at_start(keys, line, i));
        }
        if exists|i: int| longest_key_at_start(keys, line, i) && only_tokens(keys, line.skip(keys[i].len() as int)) {
            let i = choose|i: int| longest_key_at_start(keys, line, i) && only_tokens(keys, line.skip(keys[i].len() as int));
            assert(keys[i].len() <= n);
            assert(n > 0);
            let i2 = choose|i: int|
                0 <= i < keys.len() && #[trigger] keys[i].len() == n && keys[i].len() <= line.len()
                    && line.subrange(0, keys[i].len() as int) == keys[i];
            assert(keys[i2].len() <= keys[i].len());
        }
    }
}

/// A line made of special tokens only holds no byte that no special token holds: with keys
/// free of spaces, a line with a space in it is never made of special tokens only.
pub proof fn law_special_only_lines_hold_key_bytes_only(keys: Seq<Seq<u8>>, line: Seq<u8>, b: u8)
    requires
        only_tokens(keys, line),
        forall|i: int| 0 <= i < keys.len() ==> !(#[trigger] keys[i]).contains(b),
    ensures
        !line.contains(b),
    decreases line.len(),
{
    if line.len() > 0 {
        lemma_longest_token_facts(keys, line);
        let n = longest_token_at(keys, line);
        let i = choose|i: int|
            0 <= i < keys.len() && #[trigger] keys[i].len() == n && keys[i].len() <= line.len()
                && line.subrange(0, keys[i].len() as int) == keys[i];
        let rest = line.skip(n as int);
        law_special_only_lines_hold_key_bytes_only(keys, rest, b);
        if line.contains(b) {
            let p = choose|p: int| 0 <= p < line.len() && line[p] == b;
            if p < n {
                assert(keys[i][p] == line.subrange(0, n as int)[p]);
                assert(keys[i].contains(b));
            } else {
                assert(rest[p - n] == line[p]);
                assert(rest.contains(b));
            }
        }
    }
}

/// The corpus file rules: a path holding an allow fragment is never skipped; otherwise one
/// holding a skip fragment is; and the first name fragment that the file's name or path holds
/// gives its tier.
pub proof fn law_corpus_file_rules()
    ensures
        allow_patterns() == seq!["wikitext_extracted", "bookcorpus_sampled"],
        skip_patterns() == seq![
            "bookcorpus/",
            "bookcorpus\\",
            "/wikitext/",
            "\\wikitext\\",
            ".parquet",
            ".json",
            "_degradation.txt",
            "_stats.json",
            "corpus_manifest",
            "wikitext_manifest",
        ],
        file_patterns() == seq![
            ("_annotated.md", "identity"),
            ("blu.txt", "identity"),
            ("echo.txt", "identity"),
            ("resonance.txt", "identity"),
            ("anchors.txt", "identity"),
            ("_anchors.txt", "identity"),
            ("_ctxon.txt", "identity"),
            ("_ctxoff.txt", "identity"),
            ("wikitext_extracted", "foundation"),
            ("bookcorpus_sampled", "foundation"),
            ("Scripture of", "scripture"),
            ("CAIROS_chat", "scripture"),
            ("Iteration_", "scripture"),
        ],
{
}

/// A file that is trained on is weighted by its tier: identity files 5000, scripture files
/// 3000, foundation files 1000.
pub proof fn law_tier_weights(path: Seq<u8>, name: Seq<u8>)
    ensures
        training_choice(path, name) matches Some((t, w)) ==> (t == "identity"@ && w == 5000) || (t
            == "scripture"@ && w == 3000) || (t == "foundation"@ && w == 1000),
{
    if training_choice(path, name) is Some {
        let t = tier_of(file_patterns(), name, path);
        lemma_tier_is_listed(file_patterns(), name, path);
    }
}

proof fn lemma_tier_is_listed(pats: Seq<(&'static str, &'static str)>, name: Seq<u8>, path: Seq<u8>)
    ensures
        tier_of(pats, name, path).len() == 0 || exists|i: int| 0 <= i < pats.len() && tier_of(pats, name, path)
            == (#[trigger] pats[i]).1@,
    decreases pats.len(),
{
    if pats.len() > 0 {
        lemma_tier_is_listed(pats.skip(1), name, path);
        if tier_of(pats, name, path) != tier_of(pats.skip(1), name, path) {
            assert(tier_of(pats, name, path) == pats[0].1@);
        } else if tier_of(pats, name, path).len() != 0 {
            let i = choose|i: int| 0 <= i < pats.skip(1).len() && tier_of(pats.skip(1), name, path)
                == (#[trigger] pats.skip(1)[i]).1@;
            assert(pats.skip(1)[i] == pats[i + 1]);
        }
    }
}

/// The special tokens and their ids.
pub proof fn law_special_token_table()
    ensures
        special_defs() == seq![
            ("<PAD>", 0u16),
            ("<UNK>", 1u16),
            ("<BOS>", 2u16),
            ("<EOS>", 3u16),
            ("<KAREEM>", 4u16),
            ("<DYLAN_THINKING>", 5u16),
            ("<DYLAN_RESPONSE>", 6u16),
            ("<DYLAN_ADVERSARIAL>", 7u16),
            ("<BLU>", 8u16),
            ("<ECHO>", 9u16),
            ("<RESONANCE>", 10u16),
            ("<AI>", 11u16),
            ("<PHIL>", 12u16),
            ("<SYM>", 13u16),
            ("<REFLECTION>", 14u16),
            ("<CAIROS>", 15u16),
            ("[[ANCHOR]]", 16u16),
            ("[[CSA]]", 17u16),
            ("<science_doc>", 18u16),
            ("</KAREEM>", 4u16),
            ("</DYLAN_THINKING>", 5u16),
            ("</DYLAN_RESPONSE>", 6u16),
            ("</DYLAN_ADVERSARIAL>", 7u16),
            ("</BLU>", 8u16),
            ("</ECHO>", 9u16),
            ("</RESONANCE>", 10u16),
            ("</AI>", 11u16),
            ("</PHIL>", 12u16),
            ("</SYM>", 13u16),
            ("</REFLECTION>", 14u16),
            ("</CAIROS>", 15u16),
            ("[[/ANCHOR]]", 16u16),
            ("[[/CSA]]", 17u16),
            ("</science_doc>", 18u16),
            ("<kareem_response>", 4u16),
            ("</kareem_response>", 4u16),
            ("<kareem_narration>", 4u16),
            ("</kareem_narration>", 4u16),
            ("<dylan_thinking>", 5u16),
            ("</dylan_thinking>", 5u16),
            ("<dylan_response>", 6u16),
            ("</dylan_response>", 6u16),
            ("<DYLAN>", 6u16),
            ("</DYLAN>", 6u16),
        ],
{
}

/// The number that the four bytes at `p` give, least significant first.
pub open spec fn read_u32(b: Seq<u8>, p: int) -> int {
    b[p] + 256 * b[p + 1] + 65536 * b[p + 2] + 16777216 * b[p + 3]
}

/// The number that the two bytes at `p` give, least significant first.
pub open spec fn read_u16(b: Seq<u8>, p: int) -> int {
    b[p] + 256 * b[p + 1]
}

/// Where the record of token `i` starts in a vocabulary file: after the count and the records
/// (length and bytes) of the tokens before it.
pub open spec fn record_start(v: Seq<Seq<u8>>, i: int) -> int {
    4 + record_offset(v, i)
}

/// The length of the records of the first `i` tokens.
pub open spec fn record_offset(v: Seq<Seq<u8>>, i: int) -> int {
    word_sum(v.take(i), |t: Seq<u8>| 4int + t.len())
}

proof fn lemma_le32_reads(x: u32)
    ensures
        le32(x).len() == 4,
        read_u32(le32(x), 0) == x,
{
    let l = le32(x);
    assert(l[0] == x % 256);
    assert(l[1] == (x / 256) % 256);
    assert(l[2] == (x / 65536) % 256);
    assert(l[3] == x / 16777216) by {
        assert(x / 16777216 < 256) by (bit_vector);
    }
    assert((x % 256) + 256 * ((x / 256) % 256) + 65536 * ((x / 65536) % 256) + 16777216 * (x / 16777216)
        == x) by (bit_vector);
}

proof fn lemma_le16_reads(x: u16)
    ensures
        le16(x).len() == 2,
        read_u16(le16(x), 0) == x,
{
    let l = le16(x);
    assert(l[1] == x / 256) by {
        assert(x / 256 < 256) by (bit_vector);
    }
    assert((x % 256) + 256 * (x / 256) == x) by (bit_vector);
}

proof fn lemma_records_decode(v: Seq<Seq<u8>>)
    requires
        forall|i: int| 0 <= i < v.len() ==> (#[trigger] v[i]).len() <= u32::MAX,
    ensures
        vocab_records(v).len() == record_offset(v, v.len() as int),
        forall|i: int|
            0 <= i < v.len() ==> {
                let r = #[trigger] record_offset(v, i);
                &&& 0 <= r
                &&& r + 4 + v[i].len() <= vocab_records(v).len()
                &&& read_u32(vocab_records(v), r) == v[i].len()
                &&& vocab_records(v).subrange(r + 4, r + 4 + v[i].len()) == v[i]
            },
    decreases v.len(),
{
    let g = |t: Seq<u8>| 4int + t.len();
    if v.len() > 0 {
        let d = v.drop_last();
        let last = v.last();
        assert forall|i: int| 0 <= i < d.len() implies (#[trigger] d[i]).len() <= u32::MAX by {
            assert(d[i] == v[i]);
        }
        lemma_records_decode(d);
        assert(v.take(v.len() as int) =~= v);
        assert(d.take(d.len() as int) =~= d);
        let rd = vocab_records(d);
        let l32 = le32(last.len() as u32);
        lemma_le32_reads(last.len() as u32);
        let rv = vocab_records(v);
        assert(rv == rd + l32 + last);
        assert forall|j: int| 0 <= j < d.len() implies g(#[trigger] d[j]) >= 0 by {}
        assert forall|i: int|
            0 <= i < v.len() implies {
                let r = #[trigger] record_offset(v, i);
                &&& 0 <= r
                &&& r + 4 + v[i].len() <= rv.len()
                &&& read_u32(rv, r) == v[i].len()
                &&& rv.subrange(r + 4, r + 4 + v[i].len()) == v[i]
            } by {
            let r = record_offset(v, i);
            if i < d.len() {
                assert(v.take(i) =~= d.take(i));
                assert(r == record_offset(d, i));
                assert(0 <= record_offset(d, i));
                assert(record_offset(d, i) + 4 + d[i].len() <= rd.len());
                assert(read_u32(rd, record_offset(d, i)) == d[i].len());
                assert(rd.subrange(r + 4, r + 4 + d[i].len()) == d[i]);
                assert(d.take(i + 1).drop_last() =~= d.take(i));
                assert(d.take(i + 1).last() == d[i]);
                crate::stats::lemma_word_sum_prefix(d, i + 1, g);
                assert(word_sum(d.take(i + 1), g) == r + 4 + d[i].len());
                assert(r + 4 + v[i].len() <= rd.len());
                assert(v[i] == d[i]);
                assert forall|k: int| 0 <= k < rd.len() implies #[trigger] rv[k] == rd[k] by {}
                assert(rv.subrange(r + 4, r + 4 + v[i].len()) =~= rd.subrange(r + 4, r + 4 + v[i].len()));
            } else {
                assert(v.take(i) =~= d);
                assert(d.take(d.len() as int) =~= d);
                assert(r == rd.len());
                assert(rv[r] == l32[0]);
                assert(rv[r + 1] == l32[1]);
                assert(rv[r + 2] == l32[2]);
                assert(rv[r + 3] == l32[3]);
                assert(rv.subrange(r + 4, r + 4 + v[i].len()) =~= last);
            }
        }
    }
}

/// The vocabulary file reads back as the vocabulary: the first four bytes give the number of
/// tokens, and each token's record, at its place after the records before it, gives the
/// token's length and then exactly its bytes; nothing follows the last record.
pub proof fn law_vocab_file_reads_back(v: Seq<Seq<u8>>)
    requires
        v.len() <= u32::MAX,
        forall|i: int| 0 <= i < v.len() ==> (#[trigger] v[i]).len() <= u32::MAX,
    ensures
        ({
            let f = vocab_file(v);
            &&& f.len() == record_start(v, v.len() as int)
            &&& read_u32(f, 0) == v.len()
            &&& forall|i: int|
                0 <= i < v.len() ==> read_u32(f, #[trigger] record_start(v, i)) == v[i].len() && f.subrange(
                    record_start(v, i) + 4,
                    record_start(v, i) + 4 + v[i].len(),
                ) == v[i]
        }),
{
    let g = |t: Seq<u8>| 4int + t.len();
    lemma_records_decode(v);
    lemma_le32_reads(v.len() as u32);
    let f = vocab_file(v);
    let rv = vocab_records(v);
    assert(v.take(v.len() as int) =~= v);
    assert(f[0] == le32(v.len() as u32)[0]);
    assert(f[1] == le32(v.len() as u32)[1]);
    assert(f[2] == le32(v.len() as u32)[2]);
    assert(f[3] == le32(v.len() as u32)[3]);
    assert forall|i: int|
        0 <= i < v.len() implies read_u32(f, #[trigger] record_start(v, i)) == v[i].len() && f.subrange(
            record_start(v, i) + 4,
            record_start(v, i) + 4 + v[i].len(),
        ) == v[i] by {
        let r = record_offset(v, i);
        assert(0 <= r);
        assert(r + 4 + v[i].len() <= rv.len());
        assert(read_u32(rv, r) == v[i].len());
        assert(rv.subrange(r + 4, r + 4 + v[i].len()) == v[i]);
        assert(f[r + 4] == rv[r]);
        assert(f[r + 5] == rv[r + 1]);
        assert(f[r + 6] == rv[r + 2]);
        assert(f[r + 7] == rv[r + 3]);
        assert(f.subrange(r + 8, r + 8 + v[i].len()) =~= rv.subrange(r + 4, r + 4 + v[i].len()));
    }
}

proof fn lemma_stream_decode(m: Seq<BpeMerge>)
    ensures
        merges_stream(m).len() == 6 * m.len(),
        forall|i: int|
            0 <= i < m.len() ==> {
                &&& read_u16(merges_stream(m), 6 * i) == (#[trigger] m[i]).a
                &&& read_u16(merges_stream(m), 6 * i + 2) == m[i].b
                &&& read_u16(merges_stream(m), 6 * i + 4) == m[i].merged
            },
    decreases m.len(),
{
    if m.len() > 0 {
        let d = m.drop_last();
        lemma_stream_decode(d);
        let x = m.last();
        lemma_le16_reads(x.a);
        lemma_le16_reads(x.b);
        lemma_le16_reads(x.merged);
        let sd = merges_stream(d);
        let sm = merges_stream(m);
        let tail = le16(x.a) + le16(x.b) + le16(x.merged);
        assert(sm =~= sd + tail);
        assert forall|i: int|
            0 <= i < m.len() implies {
                &&& read_u16(sm, 6 * i) == (#[trigger] m[i]).a
                &&& read_u16(sm, 6 * i + 2) == m[i].b
                &&& read_u16(sm, 6 * i + 4) == m[i].merged
            } by {
            if i < d.len() {
                assert(m[i] == d[i]);
                assert forall|k: int| 0 <= k < sd.len() implies #[trigger] sm[k] == sd[k] by {}
                assert(sm[6 * i] == sd[6 * i]);
                assert(sm[6 * i + 1] == sd[6 * i + 1]);
                assert(sm[6 * i + 2] == sd[6 * i + 2]);
                assert(sm[6 * i + 3] == sd[6 * i + 3]);
                assert(sm[6 * i + 4] == sd[6 * i + 4]);
                assert(sm[6 * i + 5] == sd[6 * i + 5]);
            } else {
                assert(sm[6 * i] == le16(x.a)[0]);
                assert(sm[6 * i + 1] == le16(x.a)[1]);
                assert(sm[6 * i + 2] == le16(x.b)[0]);
                assert(sm[6 * i + 3] == le16(x.b)[1]);
                assert(sm[6 * i + 4] == le16(x.merged)[0]);
                assert(sm[6 * i + 5] == le16(x.merged)[1]);
            }
        }
    }
}

/// The merges file reads back as the merges: the first four bytes give their number, then
/// each merge takes six bytes, `a`, `b` and `merged`, two bytes each.
pub proof fn law_merges_file_reads_back(m: Seq<BpeMerge>)
    requires
        m.len() <= u32::MAX,
    ensures
        ({
            let f = merges_file(m);
            &&& f.len() == 4 + 6 * m.len()
            &&& read_u32(f, 0) == m.len()
            &&& forall|i: int|
                0 <= i < m.len() ==> read_u16(f, 4 + 6 * i) == (#[trigger] m[i]).a && read_u16(f, 6 + 6 * i)
                    == m[i].b && read_u16(f, 8 + 6 * i) == m[i].merged
        }),
{
    lemma_stream_decode(m);
    lemma_le32_reads(m.len() as u32);
    let f = merges_file(m);
    let st = merges_stream(m);
    assert(f[0] == le32(m.len() as u32)[0]);
    assert(f[1] == le32(m.len() as u32)[1]);
    assert(f[2] == le32(m.len() as u32)[2]);
    assert(f[3] == le32(m.len() as u32)[3]);
    assert forall|i: int|
        0 <= i < m.len() implies read_u16(f, 4 + 6 * i) == (#[trigger] m[i]).a && read_u16(f, 6 + 6 * i)
            == m[i].b && read_u16(f, 8 + 6 * i) == m[i].merged by {
        assert(f[4 + 6 * i] == st[6 * i]);
        assert(f[5 + 6 * i] == st[6 * i + 1]);
        assert(f[6 + 6 * i] == st[6 * i + 2]);
        assert(f[7 + 6 * i] == st[6 * i + 3]);
        assert(f[8 + 6 * i] == st[6 * i + 4]);
        assert(f[9 + 6 * i] == st[6 * i + 5]);
    }
}

/// The lines put back together with a line feed between each two.
pub open spec fn joined_lines(lines: Seq<Seq<u8>>) -> Seq<u8>
    decreases lines.len(),
{
    if lines.len() <= 1 {
        if lines.len() == 0 {
            Seq::empty()
        } else {
            lines[0]
        }
    } else {
        lines[0] + seq![10u8] + joined_lines(lines.skip(1))
    }
}

proof fn lemma_first_newline_facts(s: Seq<u8>)
    ensures
        first_newline(s) < s.len(),
        0 <= first_newline(s) ==> s[first_newline(s)] == 10 && forall|j: int| 0 <= j < first_newline(s) ==> s[j] != 10,
        first_newline(s) < 0 ==> forall|j: int| 0 <= j < s.len() ==> s[j] != 10,
    decreases s.len(),
{
    if s.len() > 0 && s[0] != 10 {
        let t = s.skip(1);
        lemma_first_newline_facts(t);
        assert forall|j: int| 1 <= j < s.len() implies s[j] == t[j - 1] by {}
    }
}

/// A file's contents are cut into lines exactly at the line feeds: there is at least one line,
/// no line holds a line feed, and the lines joined by line feeds give the contents back.
pub proof fn law_lines_split_at_line_feeds(s: Seq<u8>)
    ensures
        blob_lines(s).len() >= 1,
        forall|i: int, j: int|
            0 <= i < blob_lines(s).len() && 0 <= j < blob_lines(s)[i].len() ==> #[trigger] blob_lines(s)[i][j] != 10,
        joined_lines(blob_lines(s)) == s,
    decreases s.len(),
{
    lemma_first_newline_facts(s);
    let p = first_newline(s);
    let l = blob_lines(s);
    if 0 <= p < s.len() {
        let r = s.skip(p + 1);
        law_lines_split_at_line_feeds(r);
        let lr = blob_lines(r);
        assert(l == seq![s.take(p)] + lr);
        assert(l.skip(1) =~= lr);
        assert(l[0] == s.take(p));
        assert forall|i: int, j: int| 0 <= i < l.len() && 0 <= j < l[i].len() implies #[trigger] l[i][j] != 10 by {
            if i > 0 {
                assert(l[i] == lr[i - 1]);
            }
        }
        assert(s.take(p) + seq![10u8] + r =~= s);
    } else {
        assert(l == seq![s]);
    }
}

/// Reading a line drops one carriage return at its end and nothing else.
pub proof fn law_trim_drops_one_carriage_return(s: Seq<u8>)
    ensures
        trimmed(s) == s.take(trimmed(s).len() as int),
        trimmed(s).len() + 1 >= s.len(),
        (trimmed(s).len() < s.len()) == (s.len() > 0 && s[s.len() - 1] == 13),
{
    assert(s.take(s.len() as int) =~= s);
    if s.len() > 0 && s[s.len() - 1] == 13 {
        assert(s.drop_last() =~= s.take(s.len() - 1));
    }
}

/// The tier of a file is that of the first fragment of the list that its name or its path
/// holds; with none, it has no tier.
pub proof fn law_first_fragment_decides(pats: Seq<(&'static str, &'static str)>, name: Seq<u8>, path: Seq<u8>)
    ensures
        (forall|j: int| 0 <= j < pats.len() ==> !bytes_contain(name, (#[trigger] pats[j]).0.spec_bytes())
            && !bytes_contain(path, pats[j].0.spec_bytes())) ==> tier_of(pats, name, path) == Seq::<char>::empty(),
        forall|i: int|
            0 <= i < pats.len() && (bytes_contain(name, (#[trigger] pats[i]).0.spec_bytes()) || bytes_contain(
                path,
                pats[i].0.spec_bytes(),
            )) && (forall|j: int| 0 <= j < i ==> !bytes_contain(name, pats[j].0.spec_bytes()) && !bytes_contain(
                path,
                pats[j].0.spec_bytes(),
            )) ==> tier_of(pats, name, path) == pats[i].1@,
    decreases pats.len(),
{
    if pats.len() > 0 {
        let rest = pats.skip(1);
        law_first_fragment_decides(rest, name, path);
        assert forall|i: int|
            0 <= i < pats.len() && (bytes_contain(name, (#[trigger] pats[i]).0.spec_bytes()) || bytes_contain(
                path,
                pats[i].0.spec_bytes(),
            )) && (forall|j: int| 0 <= j < i ==> !bytes_contain(name, pats[j].0.spec_bytes()) && !bytes_contain(
                path,
                pats[j].0.spec_bytes(),
            )) implies tier_of(pats, name, path) == pats[i].1@ by {
            if i > 0 {
                assert(!bytes_contain(name, pats[0].0.spec_bytes()) && !bytes_contain(path, pats[0].0.spec_bytes()));
                assert(rest[i - 1] == pats[i]);
                assert forall|j: int| 0 <= j < i - 1 implies !bytes_contain(name, rest[j].0.spec_bytes())
                    && !bytes_contain(path, rest[j].0.spec_bytes()) by {
                    assert(rest[j] == pats[j + 1]);
                }
            }
        }
        if forall|j: int| 0 <= j < pats.len() ==> !bytes_contain(name, (#[trigger] pats[j]).0.spec_bytes())
            && !bytes_contain(path, pats[j].0.spec_bytes()) {
            assert(!bytes_contain(name, pats[0].0.spec_bytes()) && !bytes_contain(path, pats[0].0.spec_bytes()));
            assert forall|j: int| 0 <= j < rest.len() implies !bytes_contain(name, (#[trigger] rest[j]).0.spec_bytes())
                && !bytes_contain(path, rest[j].0.spec_bytes()) by {
                assert(rest[j] == pats[j + 1]);
            }
        }
    }
}

/// A file is skipped when its path holds a skip fragment and no allow fragment, when its name
/// holds "Dylan_chat" but not "_annotated", or when it is named "Opus_node_09_the_dylan.md";
/// any other file is trained on exactly when it has a tier.
pub proof fn law_which_files_are_skipped(path: Seq<u8>, name: Seq<u8>)
    ensures
        ((exists|i: int| 0 <= i < skip_patterns().len() && bytes_contain(path, (#[trigger] skip_patterns()[i]).spec_bytes()))
            && !(exists|i: int| 0 <= i < allow_patterns().len() && bytes_contain(path, (#[trigger] allow_patterns()[i]).spec_bytes())))
            ==> training_choice(path, name) is None,
        (bytes_contain(name, "Dylan_chat".spec_bytes()) && !bytes_contain(name, "_annotated".spec_bytes()))
            ==> training_choice(path, name) is None,
        name == "Opus_node_09_the_dylan.md".spec_bytes() ==> training_choice(path, name) is None,
        (!crate::paths::skips_path(path) && !(bytes_contain(name, "Dylan_chat".spec_bytes()) && !bytes_contain(
            name,
            "_annotated".spec_bytes(),
        )) && name != "Opus_node_09_the_dylan.md".spec_bytes()) ==> (training_choice(path, name) is Some
            <==> tier_of(file_patterns(), name, path).len() > 0),
{
}

/// A file is read as part of the corpus exactly when its extension is "md" or "txt", in any
/// mix of ASCII upper and lower case.
pub proof fn law_corpus_extensions(ext: Seq<u8>)
    ensures
        corpus_extension(ext) <==> ((ext.len() == 2 && (ext[0] == 109 || ext[0] == 77) && (ext[1] == 100
            || ext[1] == 68)) || (ext.len() == 3 && (ext[0] == 116 || ext[0] == 84) && (ext[1] == 120
            || ext[1] == 88) && (ext[2] == 116 || ext[2] == 84))),
{
    reveal_strlit("md");
    reveal_strlit("txt");
    vstd::string::is_ascii_spec_bytes("md");
    vstd::string::is_ascii_spec_bytes("txt");
    assert(vstd::string::is_ascii("md"));
    assert(vstd::string::is_ascii("txt"));
    assert("md".spec_bytes() =~= seq![109u8, 100u8]);
    assert("txt".spec_bytes() =~= seq![116u8, 120u8, 116u8]);
    let l = lower_bytes(ext);
    if corpus_extension(ext) {
        if l == "md".spec_bytes() {
            assert(l[0] == 109 && l[1] == 100);
        } else {
            assert(l[0] == 116 && l[1] == 120 && l[2] == 116);
        }
    }
    if ext.len() == 2 && (ext[0] == 109 || ext[0] == 77) && (ext[1] == 100 || ext[1] == 68) {
        assert(l =~= "md".spec_bytes());
    }
    if ext.len() == 3 && (ext[0] == 116 || ext[0] == 84) && (ext[1] == 120 || ext[1] == 88) && (ext[2] == 116
        || ext[2] == 84) {
        assert(l =~= "txt".spec_bytes());
    }
}

/// The fixed numbers of training: 20 reserved ids, byte `b` as token `20 + b`, learned tokens
/// from id 276, weights scaled by 1000, a default vocabulary of 16384 tokens; the threshold of
/// a run is its minimum frequency times 1000, and it may learn as many merges as its
/// vocabulary size exceeds 276.
pub proof fn law_training_numbers(config: TrainConfig, b: Seq<u8>)
    ensures
        crate::specials::BYTE_TOKEN_START == 20,
        crate::bpe::BPE_TOKEN_START == 276,
        crate::trainer::WEIGHT_SCALE == 1000,
        crate::trainer::VOCAB_SIZE == 16384,
        forall|i: int| 0 <= i < b.len() ==> #[trigger] to_symbols(b)[i] == b[i] + 20,
        to_symbols(b).len() == b.len(),
        min_count(config) == config.min_frequency * 1000,
        merge_budget(config) == if config.vocab_size > 276 {
            config.vocab_size - 276
        } else {
            0
        },
{
}

/// The hash of a trained state is 64-bit FNV-1a with offset 1469598103934665603 and prime
/// 1099511628211: each byte is mixed in by exclusive or, then the state is multiplied by the
/// prime modulo 2^64.
pub proof fn law_hash_steps(h: u64, x: u8)
    ensures
        crate::corpus::FNV_OFFSET == 1469598103934665603u64,
        crate::corpus::FNV_PRIME == 1099511628211u64,
        crate::corpus::fnv_step(h, x) == ((h ^ (x as u64)) as int * 1099511628211) % 0x1_0000_0000_0000_0000,
        crate::corpus::fnv_extend(h, seq![x]) == crate::corpus::fnv_step(h, x),
{
    assert(seq![x].drop_last() =~= Seq::<u8>::empty());
    assert(seq![x].last() == x);
    assert(crate::corpus::fnv_extend(h, Seq::<u8>::empty()) == h);
}

/// The value of a hexadecimal digit written in lowercase.
pub open spec fn hex_value(c: char) -> int {
    if '0' <= c && c <= '9' {
        c as int - 48
    } else {
        c as int - 87
    }
}

/// The number that hexadecimal digits give, most significant first.
pub open spec fn hex_number(s: Seq<char>) -> int
    decreases s.len(),
{
    if s.len() == 0 {
        0
    } else {
        hex_number(s.drop_last()) * 16 + hex_value(s.last())
    }
}

proof fn lemma_hex_digit(n: u64)
    requires
        n < 16,
    ensures
        hex_value(hex_digits()[n as int]) == n,
        ('0' <= hex_digits()[n as int] && hex_digits()[n as int] <= '9') || ('a' <= hex_digits()[n as int]
            && hex_digits()[n as int] <= 'f'),
{
}

proof fn lemma_shift_step(h: u64, sh: u64)
    requires
        sh <= 56,
    ensures
        (h >> (sh + 4)) * 16 + ((h >> sh) & 15) == h >> sh,
{
    assert((h >> (sh + 4)) * 16 + ((h >> sh) & 15) == h >> sh) by (bit_vector)
        requires
            sh <= 56,
    ;
}

proof fn lemma_hex_prefix(h: u64, k: int)
    requires
        1 <= k <= 16,
    ensures
        hex_number(hex16(h).take(k)) == h >> ((64 - 4 * k) as u64),
    decreases k,
{
    let d = hex16(h);
    if k == 1 {
        assert(d.take(1).drop_last() =~= Seq::<char>::empty());
        assert(d.take(1).last() == d[0]);
        assert(nibble(h, 0) == (h >> 60u64) & 15u64);
        assert((h >> 60u64) & 15u64 == h >> 60u64 && h >> 60u64 < 16u64) by (bit_vector);
        lemma_hex_digit(nibble(h, 0));
        assert(hex_number(d.take(1).drop_last()) == 0);
    } else {
        lemma_hex_prefix(h, k - 1);
        let sh = (64 - 4 * k) as u64;
        let n = nibble(h, k - 1);
        assert(n == (h >> sh) & 15);
        assert(n < 16) by (bit_vector)
            requires
                n == (h >> sh) & 15u64,
        ;
        lemma_hex_digit(n);
        lemma_shift_step(h, sh);
        assert(d.take(k).drop_last() =~= d.take(k - 1));
        assert(d.take(k).last() == d[k - 1]);
        assert((64 - 4 * (k - 1)) as u64 == sh + 4);
    }
}

/// The hash is written as exactly 16 lowercase hexadecimal digits, zero-padded, that read
/// back as the hash.
pub proof fn law_hash_hex_reads_back(h: u64)
    ensures
        hex16(h).len() == 16,
        forall|i: int|
            0 <= i < 16 ==> ('0' <= #[trigger] hex16(h)[i] && hex16(h)[i] <= '9') || ('a' <= hex16(h)[i]
                && hex16(h)[i] <= 'f'),
        hex_number(hex16(h)) == h,
{
    let d = hex16(h);
    assert forall|i: int| 0 <= i < 16 implies ('0' <= #[trigger] d[i] && d[i] <= '9') || ('a' <= d[i] && d[i]
        <= 'f') by {
        let n = nibble(h, i);
        let sh = (60 - 4 * i) as u64;
        assert(n == (h >> sh) & 15u64);
        assert(n < 16) by (bit_vector)
            requires
                n == (h >> sh) & 15u64,
        ;
        lemma_hex_digit(n);
    }
    lemma_hex_prefix(h, 16);
    assert(d.take(16) =~= d);
    assert(h >> 0u64 == h) by (bit_vector);
}

/// The bytes begin with "</".
pub open spec fn starts_closing(b: Seq<u8>) -> bool {
    b.len() >= 2 && b[0] == 60 && b[1] == 47
}

proof fn lemma_bytes_nonempty(s: &str)
    requires
        s@.len() > 0,
    ensures
        s.spec_bytes().len() > 0,
{
    let c = s@;
    assert(vstd::utf8::encode_utf8(c) == vstd::utf8::encode_scalar(c[0] as u32) + vstd::utf8::encode_utf8(
        c.drop_first(),
    ));
}

#[verifier::spinoff_prover]
proof fn lemma_reserved_entry(defs: Seq<(&'static str, u16)>, v0: Seq<Seq<u8>>, id: int)
    requires
        0 <= id < v0.len(),
        forall|i: int| 0 <= i < defs.len() ==> (#[trigger] defs[i]).0.spec_bytes().len() > 0,
    ensures
        apply_specials(defs, (v0, Seq::empty())).0.len() == v0.len(),
        (forall|i: int| 0 <= i < defs.len() ==> (#[trigger] defs[i]).1 != id) ==> apply_specials(
            defs,
            (v0, Seq::empty()),
        ).0[id] == v0[id],
        forall|i: int|
            0 <= i < defs.len() && (#[trigger] defs[i]).1 == id && !starts_closing(defs[i].0.spec_bytes()) && (
            forall|j: int| i < j < defs.len() && defs[j].1 == id ==> starts_closing(defs[j].0.spec_bytes()))
                ==> apply_specials(defs, (v0, Seq::empty())).0[id] == defs[i].0.spec_bytes(),
    decreases defs.len(),
{
    crate::specials::lemma_apply_specials_len(defs, (v0, Seq::empty()));
    if defs.len() > 0 {
        let d = defs.drop_last();
        let last = defs.last();
        assert forall|i: int| 0 <= i < d.len() implies (#[trigger] d[i]).0.spec_bytes().len() > 0 by {
            assert(d[i] == defs[i]);
        }
        lemma_reserved_entry(d, v0, id);
        crate::specials::lemma_apply_specials_len(d, (v0, Seq::empty()));
        assert(defs[defs.len() - 1] == last);
        assert forall|i: int|
            0 <= i < defs.len() && (#[trigger] defs[i]).1 == id && !starts_closing(defs[i].0.spec_bytes()) && (
            forall|j: int| i < j < defs.len() && defs[j].1 == id ==> starts_closing(defs[j].0.spec_bytes()))
                implies apply_specials(defs, (v0, Seq::empty())).0[id] == defs[i].0.spec_bytes() by {
            if i < d.len() {
                assert(d[i] == defs[i]);
                assert forall|j: int| i < j < d.len() && d[j].1 == id implies starts_closing(d[j].0.spec_bytes()) by {
                    assert(d[j] == defs[j]);
                }
            }
        }
        if forall|i: int| 0 <= i < defs.len() ==> (#[trigger] defs[i]).1 != id {
            assert forall|i: int| 0 <= i < d.len() implies (#[trigger] d[i]).1 != id by {
                assert(d[i] == defs[i]);
            }
        }
    }
}

/// Each of the reserved ids below 20 holds, in a fresh vocabulary, the bytes of the last
/// special token with that id that is not a closing tag (one beginning with "</"); an id
/// that no special token has stays empty. The byte tokens come after: id 20 + b holds byte b.
#[verifier::spinoff_prover]
#[verifier::rlimit(60)]
pub proof fn law_reserved_tokens(id: int, b: u8)
    requires
        0 <= id < 20,
    ensures
        initial_vocab().len() == 276,
        initial_vocab()[b + 20] == seq![b],
        (forall|i: int| 0 <= i < special_defs().len() ==> (#[trigger] special_defs()[i]).1 != id) ==> initial_vocab()[id]
            == Seq::<u8>::empty(),
        forall|i: int|
            0 <= i < special_defs().len() && (#[trigger] special_defs()[i]).1 == id && !starts_closing(
                special_defs()[i].0.spec_bytes(),
            ) && (forall|j: int|
                i < j < special_defs().len() && special_defs()[j].1 == id ==> starts_closing(
                    special_defs()[j].0.spec_bytes(),
                )) ==> initial_vocab()[id] == special_defs()[i].0.spec_bytes(),
{
    lemma_special_bytes_nonempty();
    lemma_reserved_entry(special_defs(), crate::specials::base_vocab(), id);
    lemma_reserved_entry(special_defs(), crate::specials::base_vocab(), b + 20);
}

#[verifier::spinoff_prover]
proof fn lemma_special_bytes_nonempty()
    ensures
        forall|i: int| 0 <= i < special_defs().len() ==> (#[trigger] special_defs()[i]).0.spec_bytes().len() > 0,
{
    reveal_strlit("<PAD>");
    reveal_strlit("<UNK>");
    reveal_strlit("<BOS>");
    reveal_strlit("<EOS>");
    reveal_strlit("<KAREEM>");
    reveal_strlit("<DYLAN_THINKING>");
    reveal_strlit("<DYLAN_RESPONSE>");
    reveal_strlit("<DYLAN_ADVERSARIAL>");
    reveal_strlit("<BLU>");
    reveal_strlit("<ECHO>");
    reveal_strlit("<RESONANCE>");
    reveal_strlit("<AI>");
    reveal_strlit("<PHIL>");
    reveal_strlit("<SYM>");
    reveal_strlit("<REFLECTION>");
    reveal_strlit("<CAIROS>");
    reveal_strlit("[[ANCHOR]]");
    reveal_strlit("[[CSA]]");
    reveal_strlit("<science_doc>");
    reveal_strlit("</KAREEM>");
    reveal_strlit("</DYLAN_THINKING>");
    reveal_strlit("</DYLAN_RESPONSE>");
    reveal_strlit("</DYLAN_ADVERSARIAL>");
    reveal_strlit("</BLU>");
    reveal_strlit("</ECHO>");
    reveal_strlit("</RESONANCE>");
    reveal_strlit("</AI>");
    reveal_strlit("</PHIL>");
    reveal_strlit("</SYM>");
    reveal_strlit("</REFLECTION>");
    reveal_strlit("</CAIROS>");
    reveal_strlit("[[/ANCHOR]]");
    reveal_strlit("[[/CSA]]");
    reveal_strlit("</science_doc>");
    reveal_strlit("<kareem_response>");
    reveal_strlit("</kareem_response>");
    reveal_strlit("<kareem_narration>");
    reveal_strlit("</kareem_narration>");
    reveal_strlit("<dylan_thinking>");
    reveal_strlit("</dylan_thinking>");
    reveal_strlit("<dylan_response>");
    reveal_strlit("</dylan_response>");
    reveal_strlit("<DYLAN>");
    reveal_strlit("</DYLAN>");
    assert forall|i: int| 0 <= i < special_defs().len() implies (#[trigger] special_defs()[i]).0.spec_bytes().len()
        > 0 by {
        lemma_bytes_nonempty(special_defs()[i].0);
    }
}

/// The table holds each special token string once, with the id of its last definition, and
/// nothing else.
#[verifier::opaque]
pub open spec fn table_matches(defs: Seq<(&'static str, u16)>, t: Seq<(Seq<u8>, u16)>) -> bool {
    &&& crate::specials::distinct_keys(t)
    &&& forall|i: int|
        0 <= i < defs.len() ==> exists|k: int| 0 <= k < t.len() && t[k].0 == (#[trigger] defs[i]).0.spec_bytes()
    &&& forall|k: int|
        0 <= k < t.len() ==> exists|i: int|
            0 <= i < defs.len() && #[trigger] t[k] == (defs[i].0.spec_bytes(), defs[i].1) && (forall|j: int|
                i < j < defs.len() ==> defs[j].0.spec_bytes() != defs[i].0.spec_bytes())
}

#[verifier::spinoff_prover]
#[verifier::rlimit(40)]
proof fn lemma_table_step_update(
    d: Seq<(&'static str, u16)>,
    last: (&'static str, u16),
    t0: Seq<(Seq<u8>, u16)>,
    c: int,
)
    requires
        table_matches(d, t0),
        0 <= c < t0.len(),
        t0[c].0 == last.0.spec_bytes(),
    ensures
        table_matches(d.push(last), t0.update(c, (last.0.spec_bytes(), last.1))),
{
    reveal(table_matches);
    let defs = d.push(last);
    let b = last.0.spec_bytes();
    let t = t0.update(c, (b, last.1));
    assert(defs[defs.len() - 1] == last);
    assert forall|x: int, y: int| 0 <= x < y < t.len() implies #[trigger] t[x].0 != #[trigger] t[y].0 by {
        assert(t0[x].0 != t0[y].0);
    }
    assert forall|i: int| 0 <= i < defs.len() implies exists|k: int| 0 <= k < t.len() && t[k].0 == (
    #[trigger] defs[i]).0.spec_bytes() by {
        if i < d.len() {
            assert(d[i] == defs[i]);
            let k = choose|k: int| 0 <= k < t0.len() && t0[k].0 == d[i].0.spec_bytes();
            assert(t[k].0 == t0[k].0);
        } else {
            assert(t[c].0 == b);
        }
    }
    assert forall|k: int| 0 <= k < t.len() implies exists|i: int|
        0 <= i < defs.len() && #[trigger] t[k] == (defs[i].0.spec_bytes(), defs[i].1) && (forall|j: int|
            i < j < defs.len() ==> defs[j].0.spec_bytes() != defs[i].0.spec_bytes()) by {
        if k == c {
            assert(t[k] == (defs[defs.len() - 1].0.spec_bytes(), defs[defs.len() - 1].1));
        } else {
            let i = choose|i: int|
                0 <= i < d.len() && #[trigger] t0[k] == (d[i].0.spec_bytes(), d[i].1) && (forall|j: int|
                    i < j < d.len() ==> d[j].0.spec_bytes() != d[i].0.spec_bytes());
            assert(d[i] == defs[i]);
            if k < c {
                assert(t0[k].0 != t0[c].0);
            } else {
                assert(t0[c].0 != t0[k].0);
            }
            assert forall|j: int| i < j < defs.len() implies defs[j].0.spec_bytes() != defs[i].0.spec_bytes() by {
                if j < d.len() {
                    assert(d[j] == defs[j]);
                }
            }
            assert(t[k] == t0[k]);
        }
    }
}

#[verifier::spinoff_prover]
#[verifier::rlimit(40)]
proof fn lemma_table_step_push(d: Seq<(&'static str, u16)>, last: (&'static str, u16), t0: Seq<(Seq<u8>, u16)>)
    requires
        table_matches(d, t0),
        forall|c: int| 0 <= c < t0.len() ==> t0[c].0 != last.0.spec_bytes(),
    ensures
        table_matches(d.push(last), t0.push((last.0.spec_bytes(), last.1))),
{
    reveal(table_matches);
    let defs = d.push(last);
    let b = last.0.spec_bytes();
    let t = t0.push((b, last.1));
    assert(defs[defs.len() - 1] == last);
    assert forall|x: int, y: int| 0 <= x < y < t.len() implies #[trigger] t[x].0 != #[trigger] t[y].0 by {
        if y < t0.len() {
            assert(t0[x].0 != t0[y].0);
        }
    }
    assert forall|i: int| 0 <= i < defs.len() implies exists|k: int| 0 <= k < t.len() && t[k].0 == (
    #[trigger] defs[i]).0.spec_bytes() by {
        if i < d.len() {
            assert(d[i] == defs[i]);
            let k = choose|k: int| 0 <= k < t0.len() && t0[k].0 == d[i].0.spec_bytes();
            assert(t[k].0 == t0[k].0);
        } else {
            assert(t[t0.len() as int].0 == b);
        }
    }
    assert forall|k: int| 0 <= k < t.len() implies exists|i: int|
        0 <= i < defs.len() && #[trigger] t[k] == (defs[i].0.spec_bytes(), defs[i].1) && (forall|j: int|
            i < j < defs.len() ==> defs[j].0.spec_bytes() != defs[i].0.spec_bytes()) by {
        if k == t0.len() {
            assert(t[k] == (defs[defs.len() - 1].0.spec_bytes(), defs[defs.len() - 1].1));
        } else {
            let i = choose|i: int|
                0 <= i < d.len() && #[trigger] t0[k] == (d[i].0.spec_bytes(), d[i].1) && (forall|j: int|
                    i < j < d.len() ==> d[j].0.spec_bytes() != d[i].0.spec_bytes());
            assert(d[i] == defs[i]);
            assert forall|j: int| i < j < defs.len() implies defs[j].0.spec_bytes() != defs[i].0.spec_bytes() by {
                if j < d.len() {
                    assert(d[j] == defs[j]);
                } else {
                    assert(t0[k].0 != b);
                }
            }
            assert(t[k] == t0[k]);
        }
    }
}

proof fn lemma_special_table(defs: Seq<(&'static str, u16)>, v0: Seq<Seq<u8>>)
    ensures
        table_matches(defs, apply_specials(defs, (v0, Seq::empty())).1),
    decreases defs.len(),
{
    if defs.len() == 0 {
        reveal(table_matches);
        assert(apply_specials(defs, (v0, Seq::empty())).1 == Seq::<(Seq<u8>, u16)>::empty());
    } else {
        let d = defs.drop_last();
        let last = defs.last();
        lemma_special_table(d, v0);
        let t0 = apply_specials(d, (v0, Seq::empty())).1;
        let b = last.0.spec_bytes();
        assert(d.push(last) =~= defs);
        assert(apply_specials(defs, (v0, Seq::empty())).1 == crate::specials::table_insert(t0, b, last.1));
        if exists|c: int| 0 <= c < t0.len() && t0[c].0 == b {
            let c = choose|i: int| 0 <= i < t0.len() && t0[i].0 == b;
            lemma_table_step_update(d, last, t0, c);
            assert forall|x: int| 0 <= x < t0.len() && #[trigger] t0[x].0 == b implies x == c by {
                reveal(table_matches);
                if x < c {
                    assert(t0[x].0 != t0[c].0);
                } else if x > c {
                    assert(t0[c].0 != t0[x].0);
                }
            }
            assert(crate::specials::table_insert(t0, b, last.1) == t0.update(c, (b, last.1)));
        } else {
            lemma_table_step_push(d, last, t0);
            assert(crate::specials::table_insert(t0, b, last.1) == t0.push((b, last.1)));
        }
    }
}

/// The special tokens that lines are read against are exactly the special token strings: each
/// is in the table once, with the id of its last definition, and nothing else is.
pub proof fn law_special_table()
    ensures
        table_matches(special_defs(), crate::specials::initial_state().1),
{
    lemma_special_table(special_defs(), crate::specials::base_vocab());
}

/// The number that decimal digits give, most significant first.
pub open spec fn decimal_number(s: Seq<char>) -> int
    decreases s.len(),
{
    if s.len() == 0 {
        0
    } else {
        decimal_number(s.drop_last()) * 10 + (s.last() as int - 48)
    }
}

/// Numbers in the error messages are written in decimal: digits only, no leading zero, and
/// they read back as the number; a negative number is a minus sign before its magnitude.
pub proof fn law_decimal_reads_back(n: nat, x: int)
    ensures
        decimal(n).len() >= 1,
        forall|i: int| 0 <= i < decimal(n).len() ==> '0' <= #[trigger] decimal(n)[i] && decimal(n)[i] <= '9',
        decimal(n)[0] == '0' ==> n == 0,
        decimal_number(decimal(n)) == n,
        x < 0 ==> signed_decimal(x) == seq!['-'] + decimal((-x) as nat),
        x >= 0 ==> signed_decimal(x) == decimal(x as nat),
    decreases n,
{
    let d = decimal(n);
    if n < 10 {
        lemma_hex_digit(n as u64);
        assert(d.drop_last() =~= Seq::<char>::empty());
        assert(d.last() == hex_digits()[n as int]);
        assert(hex_digits()[n as int] as int - 48 == n);
        assert(decimal_number(d.drop_last()) == 0);
        assert(decimal_number(d) == n);
    } else {
        law_decimal_reads_back(n / 10, x);
        let r = decimal(n / 10);
        let c = hex_digits()[(n % 10) as int];
        lemma_hex_digit((n % 10) as u64);
        assert(d == r + seq![c]);
        assert(d.drop_last() =~= r);
        assert(d.last() == c);
        assert(c as int - 48 == n % 10);
        assert(decimal_number(d) == decimal_number(r) * 10 + (c as int - 48));
        assert((n / 10) * 10 + n % 10 == n);
        assert(decimal_number(r) == n / 10);
        assert(decimal_number(d) == n);
        assert(d[0] == r[0]);
        assert forall|i: int| 0 <= i < d.len() implies '0' <= #[trigger] d[i] && d[i] <= '9' by {
            if i < r.len() {
                assert(d[i] == r[i]);
            }
        }
    }
}

/// The texts of the pair-count errors.
pub proof fn law_pair_count_error_texts(key: u64, old: i64, delta: i64, new: i64)
    ensures
        crate::pairs::underflow_message(key, delta) == "Pair count underflow on missing key="@ + decimal(
            key as nat,
        ) + ", delta="@ + signed_decimal(delta as int),
        crate::pairs::negative_message(key, old, delta, new) == "Negative pair count key="@ + decimal(key as nat)
            + ", old="@ + signed_decimal(old as int) + ", delta="@ + signed_decimal(delta as int) + ", new="@
            + signed_decimal(new as int),
{
}

/// The occurrences of a pair in two joined sequences are those in each, plus one where the
/// pair stands across the join: overlapping occurrences all count.
pub proof fn law_pair_occurrences_add_up(s: Seq<u16>, t: Seq<u16>, x: u16, y: u16)
    ensures
        pair_occurrences(s + t, spec_pair_key(x, y)) == pair_occurrences(s, spec_pair_key(x, y))
            + pair_occurrences(t, spec_pair_key(x, y)) + if s.len() > 0 && t.len() > 0 && s.last() == x
            && t[0] == y {
            1int
        } else {
            0int
        },
    decreases t.len(),
{
    let k = spec_pair_key(x, y);
    if t.len() == 0 {
        assert(s + t =~= s);
    } else if t.len() == 1 {
        let u = s + t;
        assert(u.drop_last() =~= s);
        if s.len() > 0 {
            assert(u[u.len() - 2] == s.last());
            assert(u[u.len() - 1] == t[0]);
            crate::symbols::lemma_pair_key_injective(s.last(), t[0], x, y);
        }
    } else {
        law_pair_occurrences_add_up(s, t.drop_last(), x, y);
        let u = s + t;
        assert(u.drop_last() =~= s + t.drop_last());
        assert(u[u.len() - 2] == t[t.len() - 2]);
        assert(u[u.len() - 1] == t[t.len() - 1]);
        assert(t.drop_last()[0] == t[0]);
    }
}

/// Pairs are replaced scanning from the left: where the sequence starts with `a, b` the first
/// symbol becomes the new one and the rest is replaced on its own; otherwise the first symbol
/// stays and the rest is replaced on its own.
pub proof fn law_replace_scans_from_left(t: Seq<u16>, a: u16, b: u16, m: u16, c: u16)
    ensures
        replaced_pairs(seq![a, b] + t, a, b, m) == seq![m] + replaced_pairs(t, a, b, m),
        !(c == a && t.len() > 0 && t[0] == b) ==> replaced_pairs(seq![c] + t, a, b, m) == seq![c]
            + replaced_pairs(t, a, b, m),
        replaced_pairs(Seq::empty(), a, b, m) == Seq::<u16>::empty(),
{
    assert((seq![a, b] + t).skip(2) =~= t);
    assert((seq![c] + t).skip(1) =~= t);
}

/// How lines are accounted, one more line at a time: a line is trained on exactly when it is
/// not empty and not made of special tokens only; then it counts as loaded, adds its length
/// to the loaded bytes, and adds its pieces, each with the line's weight, to the stream of
/// pieces; otherwise it counts as skipped and adds nothing else.
pub proof fn law_line_accounting(keys: Seq<Seq<u8>>, lines: Seq<(Seq<u8>, i64)>, l: Seq<u8>, w: i64)
    ensures
        ({
            let more = lines.push((l, w));
            let trained = l.len() > 0 && !only_tokens(keys, l);
            &&& count_loaded(keys, more) == count_loaded(keys, lines) + if trained {
                1int
            } else {
                0int
            }
            &&& count_skipped(keys, more) == count_skipped(keys, lines) + if trained {
                0int
            } else {
                1int
            }
            &&& loaded_bytes(keys, more) == loaded_bytes(keys, lines) + if trained {
                l.len() as int
            } else {
                0int
            }
            &&& piece_stream(keys, more) == piece_stream(keys, lines) + if trained {
                Seq::new(line_pieces(l).len(), |i: int| (line_pieces(l)[i], w))
            } else {
                Seq::<(Seq<u8>, i64)>::empty()
            }
        }),
{
    let more = lines.push((l, w));
    assert(more.drop_last() =~= lines);
    assert(more.last() == (l, w));
    if l.len() > 0 && !only_tokens(keys, l) {
        assert(crate::corpus::weighted_pieces(l, w) =~= Seq::new(line_pieces(l).len(), |i: int| (line_pieces(l)[i], w)));
    } else {
        assert(piece_stream(keys, lines) + Seq::<(Seq<u8>, i64)>::empty() =~= piece_stream(keys, lines));
    }
}

/// The lines of the corpus are those of each file in turn: each line of a file, without its
/// final carriage return, weighted by the file's weight.
pub proof fn law_corpus_lines_by_file(input: Seq<(Seq<u8>, i64)>, e: (Seq<u8>, i64))
    ensures
        corpus_lines(input.push(e)) == corpus_lines(input) + Seq::new(
            blob_lines(e.0).len(),
            |i: int| (trimmed(blob_lines(e.0)[i]), e.1),
        ),
        corpus_lines(Seq::<(Seq<u8>, i64)>::empty()) == Seq::<(Seq<u8>, i64)>::empty(),
{
    let more = input.push(e);
    assert(more.drop_last() =~= input);
    assert(more.last() == e);
    assert(crate::corpus::weighted_lines(blob_lines(e.0), e.1) =~= Seq::new(
        blob_lines(e.0).len(),
        |i: int| (trimmed(blob_lines(e.0)[i]), e.1),
    ));
}

/// The training words of a tally are its tokens of positive weight, as byte tokens, each with
/// its weight: every word has a positive weight, and every tallied token of positive weight is
/// a word.
pub proof fn law_training_words(t: Seq<(Seq<u8>, i64)>)
    ensures
        forall|i: int| 0 <= i < table_words(t).len() ==> (#[trigger] table_words(t)[i]).1 > 0,
        forall|k: int|
            0 <= k < t.len() && (#[trigger] t[k]).0.len() > 0 && t[k].1 > 0 ==> exists|i: int|
                0 <= i < table_words(t).len() && table_words(t)[i] == (to_symbols(t[k].0), t[k].1),
    decreases t.len(),
{
    crate::corpus::lemma_table_words_shape(t);
    if t.len() > 0 {
        let d = t.drop_last();
        law_training_words(d);
        let r = table_words(d);
        let e = t.last();
        assert forall|k: int|
            0 <= k < t.len() && (#[trigger] t[k]).0.len() > 0 && t[k].1 > 0 implies exists|i: int|
                0 <= i < table_words(t).len() && table_words(t)[i] == (to_symbols(t[k].0), t[k].1) by {
            if k < d.len() {
                assert(t[k] == d[k]);
                let i = choose|i: int| 0 <= i < r.len() && r[i] == (to_symbols(d[k].0), d[k].1);
                assert(table_words(t)[i] == r[i]);
            } else {
                assert(t[k] == e);
                assert(table_words(t)[r.len() as int] == (to_symbols(e.0), e.1));
            }
        }
    }
}

} // verus!
