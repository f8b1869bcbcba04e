use std::path::PathBuf;
use ashira_tokenizer::{
    choose_training_file, TokenizerTrainer, TrainConfig, TrainingFile, BPE_TOKEN_START,
};

const SAMPLE: &[u8] =
    b"<KAREEM>Hello Dylan\n<DYLAN_RESPONSE>Hello Kareem\nREPA deterministic training line\n";

fn sample_files() -> (Vec<TrainingFile>, Vec<Vec<u8>>) {
    let path = "corpus/sample_identity_annotated.md";
    let chosen = choose_training_file(path, "sample_identity_annotated.md")
        .expect("scan corpus")
        .expect("sample file is trained on");
    let files = vec![TrainingFile {
        path: PathBuf::from(path),
        tier: chosen.0,
        weight_scaled: chosen.1,
    }];
    (files, vec![SAMPLE.to_vec()])
}

fn config(vocab_size: usize, min_frequency: u32) -> TrainConfig {
    TrainConfig {
        vocab_size,
        min_frequency,
        deterministic: true,
    }
}

#[test]
fn deterministic_artifacts_on_repeat_run() {
    let (files, contents) = sample_files();
    assert!(!files.is_empty(), "scanner should return at least one training file");
    let cfg = config(320, 2);

    let mut t1 = TokenizerTrainer::new();
    t1.train_weighted(&files, &contents, &cfg).expect("train pass A");
    let mut t2 = TokenizerTrainer::new();
    t2.train_weighted(&files, &contents, &cfg).expect("train pass B");

    assert_eq!(t1.vocab_file_bytes(), t2.vocab_file_bytes(), "vocab.bin must be deterministic");
    assert_eq!(t1.merges_file_bytes(), t2.merges_file_bytes(), "merges.bin must be deterministic");
    assert_eq!(t1.merge_count(), t2.merge_count(), "merge counts must match");
}

#[test]
fn sample_training_figures() {
    let (files, contents) = sample_files();
    assert_eq!(files[0].tier, "identity");
    assert_eq!(files[0].weight_scaled, 5000);
    let mut t = TokenizerTrainer::new();
    let st = t.train_weighted(&files, &contents, &config(320, 2)).unwrap();
    assert_eq!(st.input_files, 1);
    assert_eq!(st.loaded_sequences, 3);
    assert_eq!(st.skipped_lines, 1);
    assert_eq!(st.loaded_tokens, 79);
    assert_eq!(st.learned_merges, 44);
    assert_eq!(st.final_vocab, 320);
    assert_eq!(st.duration_seconds, 0);
    assert_eq!(t.vocab_size(), 320);
    assert_eq!(t.merge_count(), 44);
    assert_eq!(t.compute_hash_hex(), "cdd782845ee8ff27");
    let merges = t.merges_file_bytes();
    // count, then the first merge: 'i' (20 + 105) and 'n' (20 + 110) became token 276
    assert_eq!(&merges[0..10], &[44, 0, 0, 0, 125, 0, 130, 0, 20, 1]);
}

#[test]
fn fresh_trainer_state() {
    let t = TokenizerTrainer::new();
    assert_eq!(t.vocab_size(), BPE_TOKEN_START as usize);
    assert_eq!(t.merge_count(), 0);
    assert_eq!(t.compute_hash_hex(), "65cc94f3ba41fb38");
    let v = t.vocab_file_bytes();
    assert_eq!(&v[0..4], &[20, 1, 0, 0]);
    // token 0 is "<PAD>"
    assert_eq!(&v[4..13], b"\x05\x00\x00\x00<PAD>");
    assert_eq!(t.merges_file_bytes(), vec![0, 0, 0, 0]);
}

#[test]
fn repeated_pair_merges_twice() {
    let files = vec![TrainingFile {
        path: PathBuf::from("a_annotated.md"),
        tier: "identity".to_string(),
        weight_scaled: 5000,
    }];
    let contents = vec![b"aaaa\n".to_vec()];
    let mut t = TokenizerTrainer::new();
    let st = t.train_weighted(&files, &contents, &config(300, 2)).unwrap();
    assert_eq!(st.loaded_sequences, 1);
    assert_eq!(st.skipped_lines, 1);
    assert_eq!(st.loaded_tokens, 4);
    assert_eq!(st.learned_merges, 2);
    assert_eq!(st.final_vocab, 278);
    assert_eq!(
        t.merges_file_bytes(),
        vec![2, 0, 0, 0, 117, 0, 117, 0, 20, 1, 20, 1, 20, 1, 21, 1]
    );
    assert_eq!(t.compute_hash_hex(), "843940eb70827857");
}

#[test]
fn threshold_stops_merging() {
    let files = vec![TrainingFile {
        path: PathBuf::from("x_ctxon.txt"),
        tier: "foundation".to_string(),
        weight_scaled: 1000,
    }];
    let contents = vec![b"ab ab\r\n\n<PAD>\nab".to_vec()];
    let mut t = TokenizerTrainer::new();
    let st = t.train_weighted(&files, &contents, &config(280, 2)).unwrap();
    assert_eq!(st.loaded_sequences, 2);
    assert_eq!(st.skipped_lines, 2);
    assert_eq!(st.loaded_tokens, 7);
    assert_eq!(st.learned_merges, 1);
    assert_eq!(st.final_vocab, 277);
    assert_eq!(t.compute_hash_hex(), "96862c403e195409");
}

#[test]
fn small_vocab_reads_nothing() {
    let (files, contents) = sample_files();
    let mut t = TokenizerTrainer::new();
    let st = t.train_weighted(&files, &contents, &config(276, 2)).unwrap();
    assert_eq!(st.input_files, 1);
    assert_eq!(st.loaded_sequences, 0);
    assert_eq!(st.skipped_lines, 0);
    assert_eq!(st.learned_merges, 0);
    assert_eq!(st.final_vocab, 276);
    assert_eq!(t.merge_count(), 0);
}

#[test]
fn no_usable_data_is_an_error() {
    let files = vec![TrainingFile {
        path: PathBuf::from("only_annotated.md"),
        tier: "identity".to_string(),
        weight_scaled: 5000,
    }];
    let contents = vec![b"<KAREEM></KAREEM>\n\r\n\n<PAD><BOS>".to_vec()];
    let mut t = TokenizerTrainer::new();
    let r = t.train_weighted(&files, &contents, &config(320, 2));
    assert_eq!(r.unwrap_err(), "No usable training data after token pre-segmentation.");
    assert_eq!(t.vocab_size(), 276);
    assert_eq!(t.merge_count(), 0);

    let r = t.train_weighted(&[], &[], &config(320, 2));
    assert_eq!(r.unwrap_err(), "No usable training data after token pre-segmentation.");
}

#[test]
fn retraining_starts_afresh() {
    let (files, contents) = sample_files();
    let mut t = TokenizerTrainer::new();
    t.train_weighted(&files, &contents, &config(320, 2)).unwrap();
    let first = t.compute_hash_hex();
    t.train_weighted(&files, &contents, &config(320, 2)).unwrap();
    assert_eq!(t.compute_hash_hex(), first);
    t.reset();
    assert_eq!(t.compute_hash_hex(), TokenizerTrainer::new().compute_hash_hex());
}

#[test]
fn special_only_lines_are_recognised() {
    let t = TokenizerTrainer::new();
    assert!(t.is_only_special_tokens(b"<KAREEM></KAREEM>"));
    assert!(t.is_only_special_tokens(b"[[ANCHOR]]<PAD>"));
    assert!(t.is_only_special_tokens(b""));
    assert!(!t.is_only_special_tokens(b"<KAREEM>Hello"));
    assert!(!t.is_only_special_tokens(b"<KAREEM"));
}

#[test]
fn default_config() {
    let c = TrainConfig::default();
    assert_eq!(c.vocab_size, 16384);
    assert_eq!(c.min_frequency, 2);
    assert!(c.deterministic);
}

fn weighted(weight: i64, text: &[u8]) -> (TrainingFile, Vec<u8>) {
    (
        TrainingFile {
            path: PathBuf::from("w_annotated.md"),
            tier: "identity".to_string(),
            weight_scaled: weight,
        },
        text.to_vec(),
    )
}

#[test]
fn training_limits() {
    let t = TokenizerTrainer::new();
    let (files, contents) = sample_files();
    assert!(t.within_training_limits(&files, &contents));

    // one token's running weight leaves i64
    let (f1, c1) = weighted(i64::MAX, b"a");
    let (f2, c2) = weighted(1, b"a");
    assert!(!t.within_training_limits(&[f1.clone(), f2], &[c1.clone(), c2]));

    // a single word whose weighted length is too large
    let (f3, c3) = weighted(i64::MAX, b"aa");
    assert!(!t.within_training_limits(&[f3], &[c3]));

    // a large weight alone is fine
    let (f4, c4) = weighted(1 << 40, b"ab ab");
    assert!(t.within_training_limits(&[f4], &[c4]));

    // a negative sum is dropped, not an overflow
    let (f5, c5) = weighted(-1000, b"x");
    assert!(t.within_training_limits(&[f5], &[c5]));
}

#[test]
fn small_vocab_accepts_any_weight() {
    let (f, c) = weighted(i64::MIN, b"anything at all");
    let mut t = TokenizerTrainer::new();
    let st = t
        .train_weighted(&[f], &[c], &config(100, 2))
        .unwrap();
    assert_eq!(st.input_files, 1);
    assert_eq!(st.final_vocab, 276);
}

#[test]
fn heavy_weight_up_to_i64_trains() {
    let (f, c) = weighted((1i64 << 61) + 1, b"ab");
    let mut t = TokenizerTrainer::new();
    assert!(t.within_training_limits(&[f.clone()], &[c.clone()]));
    let st = t.train_weighted(&[f], &[c], &config(277, 1)).unwrap();
    assert_eq!(st.learned_merges, 1);
    assert_eq!(t.vocab_size(), 277);
    assert_eq!(t.merges_file_bytes(), vec![1, 0, 0, 0, 117, 0, 118, 0, 20, 1]);
}
