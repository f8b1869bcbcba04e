use vstd::prelude::*;
use vstd::string::StringExecFns;

use crate::bpe::BpeMerge;
use crate::corpus::{fnv_extend, fnv_extend_bytes, fnv_step, lemma_fnv_extend_append, FNV_OFFSET, FNV_PRIME};

verus! {

/// The vocabulary as one byte string: each token followed by a zero byte.
pub open spec fn vocab_stream(v: Seq<Seq<u8>>) -> Seq<u8>
    decreases v.len(),
{
    if v.len() == 0 {
        Seq::empty()
    } else {
        vocab_stream(v.drop_last()) + v.last() + seq![0u8]
    }
}

/// The two bytes of a `u16`, least significant first.
pub open spec fn le16(x: u16) -> Seq<u8> {
    seq![(x % 256) as u8, (x / 256) as u8]
}

/// The merges as one byte string: for each, `a`, `b` and `merged`, two bytes each.
pub open spec fn merges_stream(m: Seq<BpeMerge>) -> Seq<u8>
    decreases m.len(),
{
    if m.len() == 0 {
        Seq::empty()
    } else {
        merges_stream(m.drop_last()) + le16(m.last().a) + le16(m.last().b) + le16(m.last().merged)
    }
}

/// The FNV-1a hash of a trained state: over the vocabulary, then the merges.
pub open spec fn state_hash(v: Seq<Seq<u8>>, m: Seq<BpeMerge>) -> u64 {
    fnv_extend(FNV_OFFSET, vocab_stream(v) + merges_stream(m))
}

/// The sixteen lowercase hexadecimal digits.
pub open spec fn hex_digits() -> Seq<char> {
    seq!['0', '1', '2', '3', '4', '5', '6', '7', '8', '9', 'a', 'b', 'c', 'd', 'e', 'f']
}

/// The hexadecimal digit of `h` at position `i`, counted from the most significant.
pub open spec fn nibble(h: u64, i: int) -> u64 {
    (h >> ((60 - 4 * i) as u64)) & 15u64
}

/// `h` as 16 lowercase hexadecimal digits, most significant first.
pub open spec fn hex16(h: u64) -> Seq<char> {
    Seq::new(16, |i: int| hex_digits()[nibble(h, i) as int])
}

/// The one-character string of a hexadecimal digit.
pub(crate) fn hex_digit_str(n: u64) -> (s: &'static str)
    requires
        n < 16,
    ensures
        s@ == seq![hex_digits()[n as int]],
{
    proof {
        reveal_strlit("0");
        reveal_strlit("1");
        reveal_strlit("2");
        reveal_strlit("3");
        reveal_strlit("4");
        reveal_strlit("5");
        reveal_strlit("6");
        reveal_strlit("7");
        reveal_strlit("8");
        reveal_strlit("9");
        reveal_strlit("a");
        reveal_strlit("b");
        reveal_strlit("c");
        reveal_strlit("d");
        reveal_strlit("e");
        reveal_strlit("f");
    }
    let s = if n == 0 {
        "0"
    } else if n == 1 {
        "1"
    } else if n == 2 {
        "2"
    } else if n == 3 {
        "3"
    } else if n == 4 {
        "4"
    } else if n == 5 {
        "5"
    } else if n == 6 {
        "6"
    } else if n == 7 {
        "7"
    } else if n == 8 {
        "8"
    } else if n == 9 {
        "9"
    } else if n == 10 {
        "a"
    } else if n == 11 {
        "b"
    } else if n == 12 {
        "c"
    } else if n == 13 {
        "d"
    } else if n == 14 {
        "e"
    } else {
        "f"
    };
    assert(s@ =~= seq![hex_digits()[n as int]]);
    s
}

/// Writes `h` as 16 lowercase hexadecimal digits, zero-padded.
pub fn hex_u64(h: u64) -> (s: String)
    ensures
        s@ == hex16(h),
{
    let mut s = String::new();
    let mut i: u64 = 0;
    while i < 16
        invariant
            i <= 16,
            s@ == hex16(h).take(i as int),
        decreases 16 - i,
    {
        let shift: u64 = 60 - 4 * i;
        let n = (h >> shift) & 15;
        assert(n < 16) by (bit_vector)
            requires
                n == (h >> shift) & 15,
        ;
        assert(n == nibble(h, i as int));
        s.append(hex_digit_str(n));
        i = i + 1;
        assert(s@ =~= hex16(h).take(i as int));
    }
    assert(hex16(h).take(16) =~= hex16(h));
    s
}

proof fn lemma_le16_bits(x: u16)
    ensures
        (x & 0xFF) as u8 == (x % 256) as u8,
        (x >> 8) as u8 == (x / 256) as u8,
{
    assert(x & 0xFF == x % 256) by (bit_vector);
    assert(x >> 8 == x / 256) by (bit_vector);
}

/// Continues FNV-1a over the two bytes of `x`, least significant first.
pub fn fnv_extend_u16(h: u64, x: u16) -> (r: u64)
    ensures
        r == fnv_extend(h, le16(x)),
{
    let mut b: Vec<u8> = Vec::with_capacity(2);
    b.push((x & 0xFF) as u8);
    b.push((x >> 8) as u8);
    proof {
        lemma_le16_bits(x);
        assert(b@ =~= le16(x));
    }
    fnv_extend_bytes(h, b.as_slice())
}

/// The FNV-1a hash of a vocabulary and merges.
pub fn hash_state(vocab: &Vec<Vec<u8>>, merges: &Vec<BpeMerge>) -> (r: u64)
    ensures
        r == state_hash(crate::bpe::vocab_view(vocab@), merges@),
{
    let ghost v = crate::bpe::vocab_view(vocab@);
    let mut hash: u64 = FNV_OFFSET;
    let mut i: usize = 0;
    while i < vocab.len()
        invariant
            v == crate::bpe::vocab_view(vocab@),
            i <= v.len(),
            hash == fnv_extend(FNV_OFFSET, vocab_stream(v.take(i as int))),
        decreases v.len() - i,
    {
        let ghost pre = vocab_stream(v.take(i as int));
        hash = fnv_extend_bytes(hash, vocab[i].as_slice());
        proof {
            lemma_fnv_extend_append(FNV_OFFSET, pre, v[i as int]);
        }
        let ghost h1 = hash;
        hash = (hash ^ 0).wrapping_mul(FNV_PRIME);
        proof {
            assert(hash == fnv_step(h1, 0u8));
            assert(fnv_extend(h1, seq![0u8]) == fnv_step(fnv_extend(h1, seq![0u8].drop_last()), 0u8));
            lemma_fnv_extend_append(FNV_OFFSET, pre + v[i as int], seq![0u8]);
            assert(seq![0u8].drop_last() =~= Seq::<u8>::empty());
            assert(v.take(i + 1).drop_last() =~= v.take(i as int));
            assert(v.take(i + 1).last() == v[i as int]);
        }
        i = i + 1;
    }
    assert(v.take(v.len() as int) =~= v);
    let ghost vs = vocab_stream(v);
    let mut j: usize = 0;
    assert(vs + merges_stream(merges@.take(0)) =~= vs);
    while j < merges.len()
        invariant
            j <= merges@.len(),
            hash == fnv_extend(FNV_OFFSET, vs + merges_stream(merges@.take(j as int))),
        decreases merges@.len() - j,
    {
        let m = merges[j];
        let ghost pre = vs + merges_stream(merges@.take(j as int));
        hash = fnv_extend_u16(hash, m.a);
        proof {
            lemma_fnv_extend_append(FNV_OFFSET, pre, le16(m.a));
        }
        hash = fnv_extend_u16(hash, m.b);
        proof {
            lemma_fnv_extend_append(FNV_OFFSET, pre + le16(m.a), le16(m.b));
        }
        hash = fnv_extend_u16(hash, m.merged);
        proof {
            lemma_fnv_extend_append(FNV_OFFSET, pre + le16(m.a) + le16(m.b), le16(m.merged));
            assert(merges@.take(j + 1).drop_last() =~= merges@.take(j as int));
            assert(merges@.take(j + 1).last() == m);
            assert(vs + merges_stream(merges@.take(j + 1)) =~= pre + le16(m.a) + le16(m.b) + le16(
                m.merged,
            ));
        }
        j = j + 1;
    }
    assert(merges@.take(merges@.len() as int) =~= merges@);
    hash
}

/// The four bytes of a `u32`, least significant first.
pub open spec fn le32(x: u32) -> Seq<u8> {
    seq![
        (x % 256) as u8,
        ((x / 256) % 256) as u8,
        ((x / 65536) % 256) as u8,
        (x / 16777216) as u8,
    ]
}

/// The tokens of a vocabulary file: each as its length (32 bits) followed by its bytes.
pub open spec fn vocab_records(v: Seq<Seq<u8>>) -> Seq<u8>
    decreases v.len(),
{
    if v.len() == 0 {
        Seq::empty()
    } else {
        vocab_records(v.drop_last()) + le32(v.last().len() as u32) + v.last()
    }
}

/// A vocabulary file: the number of tokens (32 bits), then the tokens.
pub open spec fn vocab_file(v: Seq<Seq<u8>>) -> Seq<u8> {
    le32(v.len() as u32) + vocab_records(v)
}

/// A merges file: the number of merges (32 bits), then `a`, `b`, `merged` of each merge.
pub open spec fn merges_file(m: Seq<BpeMerge>) -> Seq<u8> {
    le32(m.len() as u32) + merges_stream(m)
}

proof fn lemma_le32_bits(x: u32)
    ensures
        (x & 0xFF) as u8 == (x % 256) as u8,
        ((x >> 8) & 0xFF) as u8 == ((x / 256) % 256) as u8,
        ((x >> 16) & 0xFF) as u8 == ((x / 65536) % 256) as u8,
        (x >> 24) as u8 == (x / 16777216) as u8,
{
    assert(x & 0xFF == x % 256) by (bit_vector);
    assert((x >> 8) & 0xFF == (x / 256) % 256) by (bit_vector);
    assert((x >> 16) & 0xFF == (x / 65536) % 256) by (bit_vector);
    assert(x >> 24 == x / 16777216) by (bit_vector);
}

/// Appends the four bytes of `x`, least significant first.
pub fn push_u32_le(out: &mut Vec<u8>, x: u32)
    ensures
        final(out)@ == old(out)@ + le32(x),
{
    proof {
        lemma_le32_bits(x);
    }
    out.push((x & 0xFF) as u8);
    out.push(((x >> 8) & 0xFF) as u8);
    out.push(((x >> 16) & 0xFF) as u8);
    out.push((x >> 24) as u8);
    assert(final(out)@ =~= old(out)@ + le32(x)) by {
        assert(out@ =~= old(out)@ + le32(x));
    }
}

/// Appends the two bytes of `x`, least significant first.
pub fn push_u16_le(out: &mut Vec<u8>, x: u16)
    ensures
        final(out)@ == old(out)@ + le16(x),
{
    proof {
        lemma_le16_bits(x);
    }
    out.push((x & 0xFF) as u8);
    out.push((x >> 8) as u8);
    assert(out@ =~= old(out)@ + le16(x));
}

/// The bytes of the vocabulary file.
pub fn vocab_file_bytes(vocab: &Vec<Vec<u8>>) -> (out: Vec<u8>)
    ensures
        out@ == vocab_file(crate::bpe::vocab_view(vocab@)),
{
    let ghost v = crate::bpe::vocab_view(vocab@);
    let mut out: Vec<u8> = Vec::new();
    push_u32_le(&mut out, vocab.len() as u32);
    let ghost head = out@;
    let mut i: usize = 0;
    assert(out@ =~= head + vocab_records(v.take(0)));
    while i < vocab.len()
        invariant
            v == crate::bpe::vocab_view(vocab@),
            i <= v.len(),
            head == le32(v.len() as u32),
            out@ == head + vocab_records(v.take(i as int)),
        decreases v.len() - i,
    {
        let t = &vocab[i];
        push_u32_le(&mut out, t.len() as u32);
        let mut k: usize = 0;
        let ghost mid = out@;
        while k < t.len()
            invariant
                k <= t@.len(),
                out@ == mid + t@.take(k as int),
            decreases t@.len() - k,
        {
            out.push(t[k]);
            k = k + 1;
            assert(out@ =~= mid + t@.take(k as int));
        }
        proof {
            assert(t@.take(t@.len() as int) =~= t@);
            assert(v.take(i + 1).drop_last() =~= v.take(i as int));
            assert(v.take(i + 1).last() == t@);
            assert(out@ =~= head + vocab_records(v.take(i + 1)));
        }
        i = i + 1;
    }
    assert(v.take(v.len() as int) =~= v);
    out
}

/// The bytes of the merges file.
pub fn merges_file_bytes(merges: &Vec<BpeMerge>) -> (out: Vec<u8>)
    ensures
        out@ == merges_file(merges@),
{
    let mut out: Vec<u8> = Vec::new();
    push_u32_le(&mut out, merges.len() as u32);
    let ghost head = out@;
    let mut j: usize = 0;
    assert(out@ =~= head + merges_stream(merges@.take(0)));
    while j < merges.len()
        invariant
            j <= merges@.len(),
            head == le32(merges@.len() as u32),
            out@ == head + merges_stream(merges@.take(j as int)),
        decreases merges@.len() - j,
    {
        let m = merges[j];
        push_u16_le(&mut out, m.a);
        push_u16_le(&mut out, m.b);
        push_u16_le(&mut out, m.merged);
        proof {
            assert(merges@.take(j + 1).drop_last() =~= merges@.take(j as int));
            assert(merges@.take(j + 1).last() == m);
            assert(out@ =~= head + merges_stream(merges@.take(j + 1)));
        }
        j = j + 1;
    }
    assert(merges@.take(merges@.len() as int) =~= merges@);
    out
}

} // verus!
