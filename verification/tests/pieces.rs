use ashira_tokenizer::pairs::update_pair_count;
use ashira_tokenizer::queue::{PairCandidate, PairQueue};
use ashira_tokenizer::symbols::{count_pairs_in_symbols, pair_key, replace_pair, split_pair_key};
use ashira_tokenizer::text::{split_line_tokens, trim_line_end};
use std::collections::HashMap;

#[test]
fn pieces_keep_leading_whitespace() {
    assert_eq!(
        split_line_tokens(b"  hello world"),
        vec![b"  hello".to_vec(), b" world".to_vec()]
    );
    assert_eq!(split_line_tokens(b"a  "), vec![b"a".to_vec(), b"  ".to_vec()]);
    assert_eq!(split_line_tokens(b"x\ty"), vec![b"x".to_vec(), b"\ty".to_vec()]);
    assert!(split_line_tokens(b"").is_empty());
    assert_eq!(split_line_tokens(b"   "), vec![b"   ".to_vec()]);
}

#[test]
fn pieces_concatenate_to_the_line() {
    let line = b"  REPA deterministic\ttraining  line  ";
    let joined: Vec<u8> = split_line_tokens(line).concat();
    assert_eq!(joined, line.to_vec());
}

#[test]
fn trims_one_carriage_return() {
    assert_eq!(trim_line_end(b"abc\r"), b"abc");
    assert_eq!(trim_line_end(b"abc"), b"abc");
    assert_eq!(trim_line_end(b"abc\r\r"), b"abc\r");
    assert_eq!(trim_line_end(b""), b"");
}

#[test]
fn pair_keys_pack_sixteen_bits() {
    assert_eq!(pair_key(1, 2), 65538);
    assert_eq!(pair_key(0xFFFF, 0xFFFF), 0xFFFF_FFFF);
    assert_eq!(split_pair_key(pair_key(300, 7)), (300, 7));
}

#[test]
fn replaces_from_the_left() {
    assert_eq!(replace_pair(&[1, 2, 1, 2, 3], 1, 2, 9), vec![9, 9, 3]);
    assert_eq!(replace_pair(&[1, 1, 1], 1, 1, 9), vec![9, 1]);
    assert_eq!(replace_pair(&[2, 1], 1, 2, 9), vec![2, 1]);
    assert_eq!(replace_pair(&[], 1, 2, 9), Vec::<u16>::new());
}

#[test]
fn counts_adjacent_pairs() {
    let h = count_pairs_in_symbols(&[1, 2, 1, 2]);
    assert_eq!(h.len(), 2);
    assert_eq!(h[&pair_key(1, 2)], 2);
    assert_eq!(h[&pair_key(2, 1)], 1);
    assert!(count_pairs_in_symbols(&[5]).is_empty());
}

#[test]
fn pair_count_updates() {
    let mut counts: HashMap<u64, i64> = HashMap::new();
    let mut q = PairQueue::new();
    assert_eq!(update_pair_count(&mut counts, &mut q, 7, 0), Ok(()));
    assert!(counts.is_empty());
    assert_eq!(
        update_pair_count(&mut counts, &mut q, 7, -3),
        Err("Pair count underflow on missing key=7, delta=-3".to_string())
    );
    assert_eq!(update_pair_count(&mut counts, &mut q, 7, 5), Ok(()));
    assert_eq!(counts[&7], 5);
    assert_eq!(
        update_pair_count(&mut counts, &mut q, 7, -6),
        Err("Negative pair count key=7, old=5, delta=-6, new=-1".to_string())
    );
    assert_eq!(counts[&7], 5);
    assert_eq!(update_pair_count(&mut counts, &mut q, 7, -5), Ok(()));
    assert!(!counts.contains_key(&7));
    assert_eq!(
        update_pair_count(&mut counts, &mut q, u64::MAX, i64::MIN),
        Err("Pair count underflow on missing key=18446744073709551615, delta=-9223372036854775808".to_string())
    );
    let top = q.pop().unwrap();
    assert_eq!((top.count, top.key), (5, 7));
    assert!(q.is_empty());
}

#[test]
fn queue_orders_by_count_then_smaller_key() {
    let mut q = PairQueue::new();
    for (count, key) in [(3, 10), (5, 20), (5, 4), (1, 1)] {
        q.push(PairCandidate { count, key });
    }
    let mut out = Vec::new();
    while let Some(c) = q.pop() {
        out.push((c.count, c.key));
    }
    assert_eq!(out, vec![(5, 4), (5, 20), (3, 10), (1, 1)]);
}
