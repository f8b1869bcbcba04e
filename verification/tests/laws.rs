use std::path::PathBuf;
use ashira_tokenizer::symbols::{count_pairs_in_symbols, pair_key, replace_pair};
use ashira_tokenizer::{TokenizerTrainer, TrainConfig, TrainingFile};

fn read_u32(b: &[u8], at: usize) -> usize {
    u32::from_le_bytes([b[at], b[at + 1], b[at + 2], b[at + 3]]) as usize
}

fn read_u16(b: &[u8], at: usize) -> usize {
    u16::from_le_bytes([b[at], b[at + 1]]) as usize
}

fn decode_vocab(b: &[u8]) -> Vec<Vec<u8>> {
    let n = read_u32(b, 0);
    let mut at = 4;
    let mut out = Vec::new();
    for _ in 0..n {
        let len = read_u32(b, at);
        out.push(b[at + 4..at + 4 + len].to_vec());
        at += 4 + len;
    }
    assert_eq!(at, b.len());
    out
}

fn decode_merges(b: &[u8]) -> Vec<(usize, usize, usize)> {
    let n = read_u32(b, 0);
    assert_eq!(b.len(), 4 + 6 * n);
    (0..n)
        .map(|i| {
            let at = 4 + 6 * i;
            (read_u16(b, at), read_u16(b, at + 2), read_u16(b, at + 4))
        })
        .collect()
}

fn trained() -> (TokenizerTrainer, usize, usize, usize) {
    let files = vec![TrainingFile {
        path: PathBuf::from("corpus/sample_identity_annotated.md"),
        tier: "identity".to_string(),
        weight_scaled: 5000,
    }];
    let contents = vec![
        b"<KAREEM>Hello Dylan\n<DYLAN_RESPONSE>Hello Kareem\nREPA deterministic training line\n"
            .to_vec(),
    ];
    let cfg = TrainConfig {
        vocab_size: 320,
        min_frequency: 2,
        deterministic: true,
    };
    let mut t = TokenizerTrainer::new();
    let st = t.train_weighted(&files, &contents, &cfg).unwrap();
    (t, st.loaded_sequences, st.skipped_lines, st.final_vocab)
}

#[test]
fn each_merge_token_is_its_pair_joined() {
    let (t, _, _, _) = trained();
    let vocab = decode_vocab(&t.vocab_file_bytes());
    let merges = decode_merges(&t.merges_file_bytes());
    assert_eq!(vocab.len(), 276 + merges.len());
    for (i, (a, b, m)) in merges.iter().enumerate() {
        assert_eq!(*m, 276 + i);
        assert!(*a < *m && *b < *m);
        let mut joined = vocab[*a].clone();
        joined.extend_from_slice(&vocab[*b]);
        assert_eq!(vocab[*m], joined);
    }
}

#[test]
fn every_line_is_loaded_or_skipped() {
    let (_, loaded, skipped, final_vocab) = trained();
    // four lines: three with text, and the empty one after the last newline
    assert_eq!(loaded + skipped, 4);
    assert_eq!(final_vocab, 320);
}

#[test]
fn merged_pair_no_longer_occurs() {
    let s = [5u16, 6, 6, 5, 6, 5, 6, 6];
    let r = replace_pair(&s, 5, 6, 99);
    assert_eq!(r, vec![99, 6, 99, 99, 6]);
    assert!(!count_pairs_in_symbols(&r).contains_key(&pair_key(5, 6)));
}

#[test]
fn same_input_same_state() {
    let (a, _, _, _) = trained();
    let (b, _, _, _) = trained();
    assert_eq!(a.compute_hash_hex(), b.compute_hash_hex());
    assert_eq!(a.vocab_file_bytes(), b.vocab_file_bytes());
}

#[test]
fn merges_are_fresh_and_inside_pieces() {
    let (t, _, _, _) = trained();
    let vocab = decode_vocab(&t.vocab_file_bytes());
    let merges = decode_merges(&t.merges_file_bytes());
    assert!(vocab.len() <= 65535);
    let mut seen = std::collections::HashSet::new();
    for (a, b, _) in &merges {
        assert!(*a >= 20 && *b >= 20);
        assert!(seen.insert((*a, *b)), "pair merged twice");
    }
    let ws = |c: u8| c == b' ' || c == b'\t' || c == b'\n' || c == b'\r' || c == 0x0c;
    for tok in &vocab[276..] {
        assert!(!tok.contains(&b'\n'));
        for w in tok.windows(2) {
            assert!(!(!ws(w[0]) && ws(w[1])), "token spans two pieces");
        }
    }
}

#[test]
fn file_order_does_not_matter() {
    let f = |name: &str, w: i64| TrainingFile {
        path: PathBuf::from(name),
        tier: "identity".to_string(),
        weight_scaled: w,
    };
    let a = b"hello hello world\nthe cat sat".to_vec();
    let b = b"<PAD>\nworld of cats and hats\n".to_vec();
    let cfg = TrainConfig {
        vocab_size: 300,
        min_frequency: 1,
        deterministic: true,
    };
    let mut t1 = TokenizerTrainer::new();
    let s1 = t1
        .train_weighted(&[f("a.md", 5000), f("b.md", 3000)], &[a.clone(), b.clone()], &cfg)
        .unwrap();
    let mut t2 = TokenizerTrainer::new();
    let s2 = t2
        .train_weighted(&[f("b.md", 3000), f("a.md", 5000)], &[b, a], &cfg)
        .unwrap();
    assert_eq!(t1.compute_hash_hex(), t2.compute_hash_hex());
    assert_eq!(t1.merges_file_bytes(), t2.merges_file_bytes());
    assert_eq!(
        (s1.loaded_sequences, s1.skipped_lines, s1.loaded_tokens, s1.learned_merges),
        (s2.loaded_sequences, s2.skipped_lines, s2.loaded_tokens, s2.learned_merges)
    );
    assert!(s1.learned_merges > 0);
}

#[test]
fn replaced_pair_expands_back() {
    let s = [5u16, 6, 6, 5, 6, 5, 6, 6];
    let r = replace_pair(&s, 5, 6, 99);
    let mut back = Vec::new();
    for x in r {
        if x == 99 {
            back.extend_from_slice(&[5, 6]);
        } else {
            back.push(x);
        }
    }
    assert_eq!(back, s.to_vec());
}
