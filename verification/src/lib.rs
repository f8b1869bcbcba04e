//! Byte-pair-encoding tokenizer training with verified contracts.
//!
//! The trainer reads weighted corpus lines, splits them into whitespace-led pieces, and learns
//! merges of the most frequent adjacent token pair until the vocabulary is full or no pair is
//! frequent enough. Corpus files are chosen and weighted by their names and paths.
pub mod bpe;
pub mod corpus;
pub mod decimal;
pub mod digest;
pub mod guarantees;
pub mod laws;
pub mod pairs;
pub mod paths;
pub mod queue;
pub mod reorder;
pub mod specials;
pub mod stats;
pub mod symbols;
pub mod text;
pub mod trainer;
pub mod within;

pub use bpe::{BpeMerge, BPE_TOKEN_START};
pub use paths::{choose_training_file, classify_file, is_corpus_extension, should_skip_file};
pub use specials::{BYTE_TOKEN_START, TOKEN_BOS, TOKEN_EOS, TOKEN_PAD, TOKEN_UNK};
pub use trainer::{
    ScanSummary, TokenizerTrainer, TrainConfig, TrainingFile, TrainingStats, VOCAB_SIZE,
    WEIGHT_SCALE,
};
