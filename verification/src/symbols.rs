use std::collections::HashMap;
use vstd::prelude::*;

verus! {

broadcast use vstd::std_specs::hash::group_hash_axioms;

/// The 64-bit key that identifies an ordered pair of adjacent symbols.
pub open spec fn spec_pair_key(a: u16, b: u16) -> u64 {
    (a as int * 65536 + b as int) as u64
}

/// The left symbol of a pair key.
pub open spec fn key_left(key: u64) -> u16 {
    (key / 65536) as u16
}

/// The right symbol of a pair key.
pub open spec fn key_right(key: u64) -> u16 {
    (key % 65536) as u16
}

/// Packs an ordered pair of symbols into one key: `a` in bits 16..32, `b` in bits 0..16.
pub fn pair_key(a: u16, b: u16) -> (key: u64)
    ensures
        key == spec_pair_key(a, b),
{
    let x = a as u64;
    let y = b as u64;
    assert((x << 16) | y == x * 65536 + y) by (bit_vector)
        requires
            x < 65536,
            y < 65536,
    ;
    (x << 16) | y
}

/// A pair key gives back the two symbols it was made of.
pub proof fn lemma_pair_key_roundtrip(a: u16, b: u16)
    ensures
        key_left(spec_pair_key(a, b)) == a,
        key_right(spec_pair_key(a, b)) == b,
{
}

/// Two pairs have the same key exactly when they are the same pair.
pub proof fn lemma_pair_key_injective(a1: u16, b1: u16, a2: u16, b2: u16)
    ensures
        (spec_pair_key(a1, b1) == spec_pair_key(a2, b2)) <==> (a1 == a2 && b1 == b2),
{
    lemma_pair_key_roundtrip(a1, b1);
    lemma_pair_key_roundtrip(a2, b2);
}

/// Splits a key into the symbols it was packed from (the high and the low 16 bits).
pub fn split_pair_key(key: u64) -> (ab: (u16, u16))
    ensures
        ab.0 == key_left(key),
        ab.1 == key_right(key),
{
    let hi = key >> 16;
    let lo = key & 0xFFFF;
    assert(key >> 16 == key / 65536 && key & 0xFFFF == key % 65536) by (bit_vector);
    (hi as u16, lo as u16)
}

/// How many times the ordered pair with this key stands at adjacent positions of `s`.
pub open spec fn pair_occurrences(s: Seq<u16>, key: u64) -> nat
    decreases s.len(),
{
    if s.len() < 2 {
        0
    } else {
        pair_occurrences(s.drop_last(), key) + if spec_pair_key(s[s.len() - 2], s[s.len() - 1])
            == key {
            1nat
        } else {
            0nat
        }
    }
}

/// The histogram of adjacent pairs of `s`: each key that occurs, with its number of occurrences.
pub open spec fn pair_histogram(s: Seq<u16>) -> Map<u64, i32> {
    Map::new(|k: u64| pair_occurrences(s, k) > 0, |k: u64| pair_occurrences(s, k) as i32)
}

/// A sequence has fewer pair occurrences than elements.
pub proof fn lemma_occurrences_bound(s: Seq<u16>, key: u64)
    ensures
        pair_occurrences(s, key) <= s.len(),
        s.len() > 0 ==> pair_occurrences(s, key) < s.len(),
    decreases s.len(),
{
    if s.len() >= 2 {
        lemma_occurrences_bound(s.drop_last(), key);
    }
}

/// The occurrence count read from the front of the sequence.
pub proof fn lemma_occurrences_front(s: Seq<u16>, key: u64)
    requires
        s.len() >= 1,
    ensures
        pair_occurrences(s, key) == pair_occurrences(s.skip(1), key) + if s.len() >= 2
            && spec_pair_key(s[0], s[1]) == key {
            1nat
        } else {
            0nat
        },
    decreases s.len(),
{
    if s.len() >= 3 {
        lemma_occurrences_front(s.drop_last(), key);
        let t = s.skip(1);
        assert(s.drop_last().skip(1) =~= t.drop_last());
        assert(t[t.len() - 2] == s[s.len() - 2]);
        assert(t[t.len() - 1] == s[s.len() - 1]);
        assert(pair_occurrences(t, key) == pair_occurrences(t.drop_last(), key) + if spec_pair_key(
            s[s.len() - 2],
            s[s.len() - 1],
        ) == key {
            1nat
        } else {
            0nat
        });
    } else if s.len() == 2 {
        assert(s.drop_last().len() == 1);
        assert(pair_occurrences(s.drop_last(), key) == 0);
        assert(pair_occurrences(s.skip(1), key) == 0);
    }
}

/// A pair occurs in `s` exactly when some adjacent position holds it.
pub proof fn lemma_occurrences_positive(s: Seq<u16>, key: u64)
    ensures
        pair_occurrences(s, key) > 0 <==> exists|j: int|
            0 <= j < s.len() - 1 && #[trigger] spec_pair_key(s[j], s[j + 1]) == key,
    decreases s.len(),
{
    if s.len() >= 2 {
        let t = s.drop_last();
        lemma_occurrences_positive(t, key);
        if pair_occurrences(s, key) > 0 {
            if pair_occurrences(t, key) > 0 {
                let j = choose|j: int| 0 <= j < t.len() - 1 && #[trigger] spec_pair_key(t[j], t[j + 1]) == key;
                assert(spec_pair_key(s[j], s[j + 1]) == key);
            } else {
                let j = s.len() - 2;
                assert(spec_pair_key(s[j], s[j + 1]) == key);
            }
        }
        if exists|j: int| 0 <= j < s.len() - 1 && #[trigger] spec_pair_key(s[j], s[j + 1]) == key {
            let j = choose|j: int| 0 <= j < s.len() - 1 && #[trigger] spec_pair_key(s[j], s[j + 1]) == key;
            if j < s.len() - 2 {
                assert(spec_pair_key(t[j], t[j + 1]) == key);
            }
        }
    }
}

/// Counts, for each ordered pair of adjacent symbols, how often it occurs.
pub fn count_pairs_in_symbols(symbols: &[u16]) -> (out: HashMap<u64, i32>)
    requires
        pairs_fit_i32(symbols@),
    ensures
        out@ == pair_histogram(symbols@),
{
    let mut out = HashMap::<u64, i32>::new();
    let n = symbols.len();
    if n < 2 {
        assert(out@ =~= pair_histogram(symbols@));
        return out;
    }
    let mut idx: usize = 0;
    assert(out@ =~= pair_histogram(symbols@.take(1)));
    while idx < n - 1
        invariant
            n == symbols@.len(),
            n >= 2,
            pairs_fit_i32(symbols@),
            idx <= n - 1,
            out@ == pair_histogram(symbols@.take(idx + 1)),
        decreases n - 1 - idx,
    {
        let key = pair_key(symbols[idx], symbols[idx + 1]);
        let ghost before = symbols@.take(idx + 1);
        let ghost after = symbols@.take(idx + 2);
        assert(after.drop_last() =~= before);
        proof {
            crate::stats::lemma_occurrences_prefix(symbols@, idx + 2, key);
            assert(pair_occurrences(after, key) == pair_occurrences(before, key) + 1);
        }
        let prev: i32 = match out.get(&key) {
            Some(c) => *c,
            None => 0,
        };
        out.insert(key, prev + 1);
        idx = idx + 1;
        proof {
            assert forall|k: u64| #![auto] pair_occurrences(after, k) == pair_occurrences(before, k) + if k == key {
                1nat
            } else {
                0nat
            } by {}
            assert(out@ =~= pair_histogram(after));
        }
    }
    assert(symbols@.take(n as int) =~= symbols@);
    out
}

/// `s` with each occurrence of the pair `(a, b)`, scanned from the left, replaced by `merged`.
pub open spec fn replaced_pairs(s: Seq<u16>, a: u16, b: u16, merged: u16) -> Seq<u16>
    decreases s.len(),
{
    if s.len() == 0 {
        Seq::empty()
    } else if s.len() >= 2 && s[0] == a && s[1] == b {
        seq![merged] + replaced_pairs(s.skip(2), a, b, merged)
    } else {
        seq![s[0]] + replaced_pairs(s.skip(1), a, b, merged)
    }
}

/// Replaces each occurrence of the pair `(a, b)`, scanned from the left and without overlap,
/// by the single symbol `merged`.
pub fn replace_pair(symbols: &[u16], a: u16, b: u16, merged: u16) -> (out: Vec<u16>)
    ensures
        out@ == replaced_pairs(symbols@, a, b, merged),
{
    let mut out = Vec::<u16>::with_capacity(symbols.len());
    let mut i: usize = 0;
    let n = symbols.len();
    assert(symbols@.skip(0) =~= symbols@);
    while i < n
        invariant
            n == symbols@.len(),
            i <= n,
            out@ + replaced_pairs(symbols@.skip(i as int), a, b, merged) == replaced_pairs(
                symbols@,
                a,
                b,
                merged,
            ),
        decreases n - i,
    {
        let ghost rest = symbols@.skip(i as int);
        if i + 1 < n && symbols[i] == a && symbols[i + 1] == b {
            out.push(merged);
            assert(rest.skip(2) =~= symbols@.skip(i + 2));
            i = i + 2;
        } else {
            out.push(symbols[i]);
            assert(rest.skip(1) =~= symbols@.skip(i + 1));
            i = i + 1;
        }
        assert(out@ + replaced_pairs(symbols@.skip(i as int), a, b, merged) =~= replaced_pairs(
            symbols@,
            a,
            b,
            merged,
        ));
    }
    assert(out@ + replaced_pairs(symbols@.skip(n as int), a, b, merged) =~= out@);
    out
}

/// Replacing pairs never makes a sequence longer.
pub proof fn lemma_replaced_len(s: Seq<u16>, a: u16, b: u16, m: u16)
    ensures
        replaced_pairs(s, a, b, m).len() <= s.len(),
    decreases s.len(),
{
    if s.len() >= 2 && s[0] == a && s[1] == b {
        lemma_replaced_len(s.skip(2), a, b, m);
    } else if s.len() >= 1 {
        lemma_replaced_len(s.skip(1), a, b, m);
    }
}

/// A sequence in which the pair does not occur is left as it is.
pub proof fn lemma_replaced_absent(s: Seq<u16>, a: u16, b: u16, m: u16)
    requires
        pair_occurrences(s, spec_pair_key(a, b)) == 0,
    ensures
        replaced_pairs(s, a, b, m) == s,
    decreases s.len(),
{
    if s.len() >= 1 {
        lemma_occurrences_front(s, spec_pair_key(a, b));
        lemma_pair_key_injective(s[0], s[1], a, b);
        if s.len() >= 2 {
            lemma_pair_key_injective(s[0], s[1], a, b);
        }
        lemma_replaced_absent(s.skip(1), a, b, m);
        assert(seq![s[0]] + s.skip(1) =~= s);
    }
}

/// Every symbol of the result is a symbol of the input or the merged symbol.
pub proof fn lemma_replaced_symbols(s: Seq<u16>, a: u16, b: u16, m: u16)
    ensures
        forall|i: int|
            0 <= i < replaced_pairs(s, a, b, m).len() ==> (#[trigger] replaced_pairs(s, a, b, m)[i]
                == m || s.contains(replaced_pairs(s, a, b, m)[i])),
    decreases s.len(),
{
    if s.len() >= 2 && s[0] == a && s[1] == b {
        let t = s.skip(2);
        lemma_replaced_symbols(t, a, b, m);
        assert forall|i: int|
            0 <= i < replaced_pairs(s, a, b, m).len() implies (#[trigger] replaced_pairs(
            s,
            a,
            b,
            m,
        )[i] == m || s.contains(replaced_pairs(s, a, b, m)[i])) by {
            if i > 0 {
                let x = replaced_pairs(t, a, b, m)[i - 1];
                if x != m {
                    let j = choose|j: int| 0 <= j < t.len() && t[j] == x;
                    assert(s[j + 2] == x);
                }
            }
        }
    } else if s.len() >= 1 {
        let t = s.skip(1);
        lemma_replaced_symbols(t, a, b, m);
        assert forall|i: int|
            0 <= i < replaced_pairs(s, a, b, m).len() implies (#[trigger] replaced_pairs(
            s,
            a,
            b,
            m,
        )[i] == m || s.contains(replaced_pairs(s, a, b, m)[i])) by {
            if i > 0 {
                let x = replaced_pairs(t, a, b, m)[i - 1];
                if x != m {
                    let j = choose|j: int| 0 <= j < t.len() && t[j] == x;
                    assert(s[j + 1] == x);
                }
            } else {
                assert(s[0] == replaced_pairs(s, a, b, m)[0]);
            }
        }
    }
}

/// The first symbol after replacing pairs.
pub proof fn lemma_replaced_first(t: Seq<u16>, a: u16, b: u16, m: u16)
    requires
        t.len() > 0,
    ensures
        replaced_pairs(t, a, b, m).len() > 0,
        replaced_pairs(t, a, b, m)[0] == if t.len() >= 2 && t[0] == a && t[1] == b {
            m
        } else {
            t[0]
        },
{
}

/// No pair occurs in the symbols more often than an `i32` can count.
pub open spec fn pairs_fit_i32(s: Seq<u16>) -> bool {
    forall|k: u64| #[trigger] pair_occurrences(s, k) <= i32::MAX
}

/// The symbol that stands last in the part of the original sequence that `x` replaced.
pub open spec fn last_part(x: u16, b: u16, m: u16) -> u16 {
    if x == m {
        b
    } else {
        x
    }
}

/// The symbol that stands first in the part of the original sequence that `y` replaced.
pub open spec fn first_part(y: u16, a: u16, m: u16) -> u16 {
    if y == m {
        a
    } else {
        y
    }
}

/// Each adjacent pair of the replaced sequence stands on a pair of the original sequence (the
/// last symbol of one part and the first of the next), so it occurs no more often than that.
pub proof fn lemma_replaced_occurrences(s: Seq<u16>, a: u16, b: u16, m: u16, x: u16, y: u16)
    requires
        forall|j: int| 0 <= j < s.len() ==> #[trigger] s[j] != m,
    ensures
        pair_occurrences(replaced_pairs(s, a, b, m), spec_pair_key(x, y)) <= pair_occurrences(
            s,
            spec_pair_key(last_part(x, b, m), first_part(y, a, m)),
        ),
    decreases s.len(),
{
    let k = spec_pair_key(x, y);
    let k2 = spec_pair_key(last_part(x, b, m), first_part(y, a, m));
    let r = replaced_pairs(s, a, b, m);
    if s.len() > 0 {
        let merged_here = s.len() >= 2 && s[0] == a && s[1] == b;
        let rest = if merged_here {
            s.skip(2)
        } else {
            s.skip(1)
        };
        assert forall|j: int| 0 <= j < rest.len() implies #[trigger] rest[j] != m by {
            if merged_here {
                assert(rest[j] == s[j + 2]);
            } else {
                assert(rest[j] == s[j + 1]);
            }
        }
        lemma_replaced_occurrences(rest, a, b, m, x, y);
        let rr = replaced_pairs(rest, a, b, m);
        assert(r == seq![r[0]] + rr);
        assert(r.skip(1) =~= rr);
        lemma_occurrences_front(r, k);
        lemma_occurrences_front(s, k2);
        if merged_here {
            lemma_occurrences_front(s.skip(1), k2);
            assert(s.skip(1).skip(1) =~= s.skip(2));
        }
        if r.len() >= 2 && spec_pair_key(r[0], r[1]) == k {
            lemma_pair_key_injective(r[0], r[1], x, y);
            lemma_replaced_first(rest, a, b, m);
            assert(rest[0] != m);
            assert(first_part(y, a, m) == rest[0]);
            if merged_here {
                assert(last_part(x, b, m) == b);
                assert(s.skip(1)[0] == b);
                assert(s.skip(1)[1] == rest[0]);
            } else {
                assert(s[0] != m);
                assert(last_part(x, b, m) == s[0]);
                assert(s[1] == rest[0]);
            }
        }
    }
}

/// Replacing a pair by a new symbol keeps every pair count within `i32`.
pub proof fn lemma_replaced_fits(s: Seq<u16>, a: u16, b: u16, m: u16)
    requires
        pairs_fit_i32(s),
        forall|j: int| 0 <= j < s.len() ==> #[trigger] s[j] != m,
    ensures
        pairs_fit_i32(replaced_pairs(s, a, b, m)),
{
    let r = replaced_pairs(s, a, b, m);
    assert forall|k: u64| #[trigger] pair_occurrences(r, k) <= i32::MAX by {
        lemma_occurrences_positive(r, k);
        if pair_occurrences(r, k) > 0 {
            let j = choose|j: int| 0 <= j < r.len() - 1 && #[trigger] spec_pair_key(r[j], r[j + 1]) == k;
            lemma_pair_key_roundtrip(r[j], r[j + 1]);
            lemma_replaced_occurrences(s, a, b, m, key_left(k), key_right(k));
            assert(pair_occurrences(s, spec_pair_key(last_part(key_left(k), b, m), first_part(key_right(k), a, m)))
                <= i32::MAX);
        }
    }
}

/// Decides whether every pair occurs in the symbols at most `i32::MAX` times.
pub fn pairs_fit(symbols: &[u16]) -> (r: bool)
    ensures
        r == pairs_fit_i32(symbols@),
{
    let n = symbols.len();
    if n <= 2147483648usize {
        proof {
            assert forall|k: u64| #[trigger] pair_occurrences(symbols@, k) <= i32::MAX by {
                lemma_occurrences_bound(symbols@, k);
            }
        }
        return true;
    }
    let mut counts: HashMap<u64, usize> = HashMap::new();
    let mut idx: usize = 0;
    assert(counts@ =~= Map::new(
        |k: u64| pair_occurrences(symbols@.take(1), k) > 0,
        |k: u64| pair_occurrences(symbols@.take(1), k) as usize,
    ));
    while idx < n - 1
        invariant
            n == symbols@.len(),
            n >= 2,
            idx <= n - 1,
            counts@ == Map::new(
                |k: u64| pair_occurrences(symbols@.take(idx + 1), k) > 0,
                |k: u64| pair_occurrences(symbols@.take(idx + 1), k) as usize,
            ),
            forall|k: u64| #[trigger] pair_occurrences(symbols@.take(idx + 1), k) <= i32::MAX,
        decreases n - 1 - idx,
    {
        let key = pair_key(symbols[idx], symbols[idx + 1]);
        let ghost before = symbols@.take(idx + 1);
        let ghost after = symbols@.take(idx + 2);
        assert(after.drop_last() =~= before);
        proof {
            assert forall|k: u64| #![auto] pair_occurrences(after, k) == pair_occurrences(before, k) + if k == key {
                1nat
            } else {
                0nat
            } by {}
        }
        let prev: usize = match counts.get(&key) {
            Some(c) => *c,
            None => 0,
        };
        if prev >= 2147483647usize {
            proof {
                crate::stats::lemma_occurrences_prefix(symbols@, idx + 2, key);
                assert(pair_occurrences(symbols@, key) > i32::MAX);
            }
            return false;
        }
        counts.insert(key, prev + 1);
        idx = idx + 1;
        proof {
            assert(counts@ =~= Map::new(
                |k: u64| pair_occurrences(after, k) > 0,
                |k: u64| pair_occurrences(after, k) as usize,
            ));
        }
    }
    assert(symbols@.take(n as int) =~= symbols@);
    true
}

} // verus!
