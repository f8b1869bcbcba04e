use vstd::prelude::*;

use crate::text::{bytes_equal, bytes_of};
use vstd::string::StringSliceAdditionalSpecFns;

verus! {

broadcast use vstd::string::group_string_axioms;

pub const TOKEN_PAD: u16 = 0;
pub const TOKEN_UNK: u16 = 1;
pub const TOKEN_BOS: u16 = 2;
pub const TOKEN_EOS: u16 = 3;
/// The first id of the 256 byte tokens.
pub const BYTE_TOKEN_START: u16 = 20;

/// The special tokens with their ids; the closing tags share the ids of their opening tags.
pub open spec fn special_defs() -> Seq<(&'static str, u16)> {
    seq![
        ("<PAD>", TOKEN_PAD),
        ("<UNK>", TOKEN_UNK),
        ("<BOS>", TOKEN_BOS),
        ("<EOS>", TOKEN_EOS),
        ("<KAREEM>", 4u16),
        ("<DYLAN_THINKING>", 5u16),
        ("<DYLAN_RESPONSE>", 6u16),
        ("<DYLAN_ADVERSARIAL>", 7u16),
        ("<BLU>", 8u16),
        ("<ECHO>", 9u16),
        ("<RESONANCE>", 10u16),
        ("<AI>", 11u16),
        ("<PHIL>", 12u16),
        ("<SYM>", 13u16),
        ("<REFLECTION>", 14u16),
        ("<CAIROS>", 15u16),
        ("[[ANCHOR]]", 16u16),
        ("[[CSA]]", 17u16),
        ("<science_doc>", 18u16),
        ("</KAREEM>", 4u16),
        ("</DYLAN_THINKING>", 5u16),
        ("</DYLAN_RESPONSE>", 6u16),
        ("</DYLAN_ADVERSARIAL>", 7u16),
        ("</BLU>", 8u16),
        ("</ECHO>", 9u16),
        ("</RESONANCE>", 10u16),
        ("</AI>", 11u16),
        ("</PHIL>", 12u16),
        ("</SYM>", 13u16),
        ("</REFLECTION>", 14u16),
        ("</CAIROS>", 15u16),
        ("[[/ANCHOR]]", 16u16),
        ("[[/CSA]]", 17u16),
        ("</science_doc>", 18u16),
        ("<kareem_response>", 4u16),
        ("</kareem_response>", 4u16),
        ("<kareem_narration>", 4u16),
        ("</kareem_narration>", 4u16),
        ("<dylan_thinking>", 5u16),
        ("</dylan_thinking>", 5u16),
        ("<dylan_response>", 6u16),
        ("</dylan_response>", 6u16),
        ("<DYLAN>", 6u16),
        ("</DYLAN>", 6u16)
    ]
}

/// The special tokens with their ids, in the order in which they are registered.
pub fn special_token_defs() -> (defs: Vec<(&'static str, u16)>)
    ensures
        defs@ == special_defs(),
{
    let mut defs: Vec<(&'static str, u16)> = Vec::new();
    defs.push(("<PAD>", TOKEN_PAD));
    defs.push(("<UNK>", TOKEN_UNK));
    defs.push(("<BOS>", TOKEN_BOS));
    defs.push(("<EOS>", TOKEN_EOS));
    defs.push(("<KAREEM>", 4u16));
    defs.push(("<DYLAN_THINKING>", 5u16));
    defs.push(("<DYLAN_RESPONSE>", 6u16));
    defs.push(("<DYLAN_ADVERSARIAL>", 7u16));
    defs.push(("<BLU>", 8u16));
    defs.push(("<ECHO>", 9u16));
    defs.push(("<RESONANCE>", 10u16));
    defs.push(("<AI>", 11u16));
    defs.push(("<PHIL>", 12u16));
    defs.push(("<SYM>", 13u16));
    defs.push(("<REFLECTION>", 14u16));
    defs.push(("<CAIROS>", 15u16));
    defs.push(("[[ANCHOR]]", 16u16));
    defs.push(("[[CSA]]", 17u16));
    defs.push(("<science_doc>", 18u16));
    defs.push(("</KAREEM>", 4u16));
    defs.push(("</DYLAN_THINKING>", 5u16));
    defs.push(("</DYLAN_RESPONSE>", 6u16));
    defs.push(("</DYLAN_ADVERSARIAL>", 7u16));
    defs.push(("</BLU>", 8u16));
    defs.push(("</ECHO>", 9u16));
    defs.push(("</RESONANCE>", 10u16));
    defs.push(("</AI>", 11u16));
    defs.push(("</PHIL>", 12u16));
    defs.push(("</SYM>", 13u16));
    defs.push(("</REFLECTION>", 14u16));
    defs.push(("</CAIROS>", 15u16));
    defs.push(("[[/ANCHOR]]", 16u16));
    defs.push(("[[/CSA]]", 17u16));
    defs.push(("</science_doc>", 18u16));
    defs.push(("<kareem_response>", 4u16));
    defs.push(("</kareem_response>", 4u16));
    defs.push(("<kareem_narration>", 4u16));
    defs.push(("</kareem_narration>", 4u16));
    defs.push(("<dylan_thinking>", 5u16));
    defs.push(("</dylan_thinking>", 5u16));
    defs.push(("<dylan_response>", 6u16));
    defs.push(("</dylan_response>", 6u16));
    defs.push(("<DYLAN>", 6u16));
    defs.push(("</DYLAN>", 6u16));
    assert(defs@ =~= special_defs());
    defs
}

/// The byte strings of a token table, with their ids.
pub open spec fn table_view(t: Seq<(Vec<u8>, u16)>) -> Seq<(Seq<u8>, u16)> {
    Seq::new(t.len(), |i: int| (t[i].0@, t[i].1))
}

/// No byte string occurs twice in the table.
pub open spec fn distinct_keys(t: Seq<(Seq<u8>, u16)>) -> bool {
    forall|i: int, j: int| 0 <= i < j < t.len() ==> #[trigger] t[i].0 != #[trigger] t[j].0
}

/// The table with `key` mapped to `id`: its entry replaced where it has one, else appended.
pub open spec fn table_insert(t: Seq<(Seq<u8>, u16)>, key: Seq<u8>, id: u16) -> Seq<(Seq<u8>, u16)> {
    if exists|i: int| 0 <= i < t.len() && t[i].0 == key {
        t.update(choose|i: int| 0 <= i < t.len() && t[i].0 == key, (key, id))
    } else {
        t.push((key, id))
    }
}

/// The key set of a table.
pub open spec fn table_keys(t: Seq<(Seq<u8>, u16)>) -> Seq<Seq<u8>> {
    Seq::new(t.len(), |i: int| t[i].0)
}

/// Maps `key` to `id` in the table.
pub fn table_set(table: &mut Vec<(Vec<u8>, u16)>, key: Vec<u8>, id: u16)
    requires
        distinct_keys(table_view(old(table)@)),
    ensures
        table_view(final(table)@) == table_insert(table_view(old(table)@), key@, id),
        distinct_keys(table_view(final(table)@)),
{
    let ghost t0 = table_view(table@);
    let n = table.len();
    let mut i: usize = 0;
    while i < n
        invariant
            n == table@.len(),
            t0 == table_view(table@),
            table@ == old(table)@,
            distinct_keys(t0),
            i <= n,
            forall|j: int| 0 <= j < i ==> t0[j].0 != key@,
        decreases n - i,
    {
        if bytes_equal(table[i].0.as_slice(), key.as_slice()) {
            let ghost k = key@;
            table.set(i, (key, id));
            proof {
                assert(exists|j: int| 0 <= j < t0.len() && t0[j].0 == k) by {
                    assert(t0[i as int].0 == k);
                }
                let c = choose|j: int| 0 <= j < t0.len() && t0[j].0 == k;
                assert(c == i) by {
                    if c != i {
                        if c < i {
                            assert(t0[c].0 != t0[i as int].0);
                        } else {
                            assert(t0[i as int].0 != t0[c].0);
                        }
                    }
                }
                assert(table_view(table@) =~= t0.update(i as int, (k, id)));
            }
            return ;
        }
        i = i + 1;
    }
    let ghost k = key@;
    table.push((key, id));
    proof {
        assert(table_view(table@) =~= t0.push((k, id)));
    }
}

/// The vocabulary before any training: 20 reserved (empty) tokens, then one token per byte.
pub open spec fn base_vocab() -> Seq<Seq<u8>> {
    Seq::new(276, |i: int| if i < 20 { Seq::<u8>::empty() } else { seq![(i - 20) as u8] })
}

/// The bytes begin with `</`.
pub open spec fn is_closing_tag(b: Seq<u8>) -> bool {
    b.len() >= 2 && b[0] == 60 && b[1] == 47
}

/// Registers one special token: it enters the table, and takes its id's place in the
/// vocabulary where that place is empty or the token is not a closing tag.
pub open spec fn special_step(
    state: (Seq<Seq<u8>>, Seq<(Seq<u8>, u16)>),
    def: (&'static str, u16),
) -> (Seq<Seq<u8>>, Seq<(Seq<u8>, u16)>) {
    let b = def.0.spec_bytes();
    let id = def.1;
    let vocab = state.0;
    (
        if (id as int) < vocab.len() && (vocab[id as int].len() == 0 || !is_closing_tag(b)) {
            vocab.update(id as int, b)
        } else {
            vocab
        },
        table_insert(state.1, b, id),
    )
}

/// Registers the special tokens in order.
pub open spec fn apply_specials(
    defs: Seq<(&'static str, u16)>,
    state: (Seq<Seq<u8>>, Seq<(Seq<u8>, u16)>),
) -> (Seq<Seq<u8>>, Seq<(Seq<u8>, u16)>)
    decreases defs.len(),
{
    if defs.len() == 0 {
        state
    } else {
        special_step(apply_specials(defs.drop_last(), state), defs.last())
    }
}

/// The vocabulary and special-token table of a fresh trainer.
pub open spec fn initial_state() -> (Seq<Seq<u8>>, Seq<(Seq<u8>, u16)>) {
    apply_specials(special_defs(), (base_vocab(), Seq::empty()))
}

/// Fills the vocabulary with the reserved and the byte tokens.
pub fn base_tokens(vocab: &mut Vec<Vec<u8>>)
    ensures
        crate::bpe::vocab_view(final(vocab)@) == base_vocab(),
{
    vocab.clear();
    vocab.reserve(16384);
    let mut i: u16 = 0;
    while i < BYTE_TOKEN_START
        invariant
            i <= 20,
            vocab@.len() == i,
            forall|j: int| 0 <= j < i ==> (#[trigger] vocab@[j])@ == Seq::<u8>::empty(),
        decreases 20 - i,
    {
        vocab.push(Vec::new());
        i = i + 1;
    }
    let mut b: u16 = 0;
    while b <= 255
        invariant
            b <= 256,
            vocab@.len() == 20 + b,
            forall|j: int| 0 <= j < 20 ==> (#[trigger] vocab@[j])@ == Seq::<u8>::empty(),
            forall|j: int| 20 <= j < 20 + b ==> (#[trigger] vocab@[j])@ == seq![(j - 20) as u8],
        decreases 256 - b,
    {
        let mut t: Vec<u8> = Vec::new();
        t.push(b as u8);
        vocab.push(t);
        b = b + 1;
    }
    assert(crate::bpe::vocab_view(vocab@) =~= base_vocab());
}

/// Registers the special tokens: each enters the table, and takes its id's place in the
/// vocabulary where that place is empty or the token is not a closing tag.
pub fn special_tokens_into(vocab: &mut Vec<Vec<u8>>, table: &mut Vec<(Vec<u8>, u16)>)
    ensures
        (crate::bpe::vocab_view(final(vocab)@), table_view(final(table)@)) == apply_specials(
            special_defs(),
            (crate::bpe::vocab_view(old(vocab)@), Seq::empty()),
        ),
        distinct_keys(table_view(final(table)@)),
        final(vocab)@.len() == old(vocab)@.len(),
{
    table.clear();
    let defs = special_token_defs();
    let ghost v0 = crate::bpe::vocab_view(vocab@);
    let mut i: usize = 0;
    assert(defs@.take(0) =~= Seq::<(&'static str, u16)>::empty());
    assert(table_view(table@) =~= Seq::<(Seq<u8>, u16)>::empty());
    while i < defs.len()
        invariant
            i <= defs@.len(),
            defs@ == special_defs(),
            vocab@.len() == v0.len(),
            distinct_keys(table_view(table@)),
            (crate::bpe::vocab_view(vocab@), table_view(table@)) == apply_specials(
                defs@.take(i as int),
                (v0, Seq::empty()),
            ),
        decreases defs@.len() - i,
    {
        let (s, id) = defs[i];
        let bytes = bytes_of(s);
        let closing = bytes.len() >= 2 && bytes[0] == 60 && bytes[1] == 47;
        let ghost state = (crate::bpe::vocab_view(vocab@), table_view(table@));
        let idx = id as usize;
        if idx < vocab.len() {
            if vocab[idx].len() == 0 || !closing {
                let copy = bytes_of(s);
                vocab.set(idx, copy);
            }
        }
        table_set(table, bytes, id);
        proof {
            assert(defs@.take(i + 1).drop_last() =~= defs@.take(i as int));
            assert(defs@.take(i + 1).last() == defs@[i as int]);
            let next = special_step(state, defs@[i as int]);
            assert(crate::bpe::vocab_view(vocab@) =~= next.0);
        }
        i = i + 1;
    }
    assert(defs@.take(defs@.len() as int) =~= defs@);
}

/// `tok` stands at the start of `line`.
pub open spec fn starts_with_token(line: Seq<u8>, tok: Seq<u8>) -> bool {
    tok.len() <= line.len() && line.take(tok.len() as int) == tok
}

/// The length of the longest of the keys that stands at the start of `line` (0 if none).
pub open spec fn longest_token_at(keys: Seq<Seq<u8>>, line: Seq<u8>) -> nat
    decreases keys.len(),
{
    if keys.len() == 0 {
        0
    } else {
        let rest = longest_token_at(keys.drop_last(), line);
        let k = keys.last();
        if k.len() > rest && starts_with_token(line, k) {
            k.len()
        } else {
            rest
        }
    }
}

/// Reading the line from the start and taking the longest key at each point uses up the
/// whole line.
pub open spec fn only_tokens(keys: Seq<Seq<u8>>, line: Seq<u8>) -> bool
    decreases line.len(),
{
    if line.len() == 0 {
        true
    } else {
        let n = longest_token_at(keys, line);
        if n == 0 || n > line.len() {
            false
        } else {
            only_tokens(keys, line.skip(n as int))
        }
    }
}

pub proof fn lemma_longest_token_bound(keys: Seq<Seq<u8>>, line: Seq<u8>)
    ensures
        longest_token_at(keys, line) <= line.len(),
    decreases keys.len(),
{
    if keys.len() > 0 {
        lemma_longest_token_bound(keys.drop_last(), line);
    }
}

/// Whether the line consists of keys of the table only, read greedily by longest key.
pub fn only_special_tokens(table: &Vec<(Vec<u8>, u16)>, line: &[u8]) -> (r: bool)
    ensures
        r == only_tokens(table_keys(table_view(table@)), line@),
{
    let ghost keys = table_keys(table_view(table@));
    let n = line.len();
    let mut pos: usize = 0;
    assert(line@.skip(0) =~= line@);
    while pos < n
        invariant
            n == line@.len(),
            pos <= n,
            keys == table_keys(table_view(table@)),
            only_tokens(keys, line@) == only_tokens(keys, line@.skip(pos as int)),
        decreases n - pos,
    {
        let ghost rest = line@.skip(pos as int);
        let mut best_len: usize = 0;
        let nt = table.len();
        let mut t: usize = 0;
        while t < nt
            invariant
                nt == table@.len(),
                t <= nt,
                n == line@.len(),
                pos < n,
                rest == line@.skip(pos as int),
                keys == table_keys(table_view(table@)),
                best_len == longest_token_at(keys.take(t as int), rest),
            decreases nt - t,
        {
            let tk = &table[t].0;
            let ghost pre = keys.take(t as int);
            assert(keys.take(t + 1).drop_last() =~= pre);
            assert(keys.take(t + 1).last() == tk@);
            if tk.len() <= best_len || tk.len() > n - pos {
                proof {
                    if tk@.len() > best_len {
                        assert(!starts_with_token(rest, tk@));
                    }
                }
                t = t + 1;
                continue ;
            }
            let seg = &line[pos..pos + tk.len()];
            assert(seg@ =~= rest.take(tk@.len() as int));
            if bytes_equal(seg, tk.as_slice()) {
                best_len = tk.len();
            }
            t = t + 1;
        }
        assert(keys.take(nt as int) =~= keys);
        if best_len == 0 {
            return false;
        }
        proof {
            lemma_longest_token_bound(keys, rest);
            assert(rest.skip(best_len as int) =~= line@.skip(pos + best_len));
        }
        pos = pos + best_len;
    }
    true
}

/// Registering special tokens keeps the vocabulary's length.
pub proof fn lemma_apply_specials_len(
    defs: Seq<(&'static str, u16)>,
    state: (Seq<Seq<u8>>, Seq<(Seq<u8>, u16)>),
)
    ensures
        apply_specials(defs, state).0.len() == state.0.len(),
    decreases defs.len(),
{
    if defs.len() > 0 {
        lemma_apply_specials_len(defs.drop_last(), state);
    }
}

} // verus!
