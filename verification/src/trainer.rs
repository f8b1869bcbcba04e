use std::collections::HashMap;
use vstd::prelude::*;

use crate::bpe::{bpe_run, lookup_of, run_merges, vocab_view, BpeMerge, BPE_TOKEN_START};
use crate::corpus::{
    corpus_input, corpus_lines, count_loaded, count_skipped, ingest, input_size, lemma_table_words_shape,
    loaded_bytes, piece_stream, table_words, tally, tally_fits, training_words,
};
use crate::pairs::word_mass;
use crate::symbols::{pairs_fit, pairs_fit_i32};
use crate::stats::{words_view, MASS_LIMIT};
use crate::digest::{
    hash_state, hex16, hex_u64, merges_file, merges_file_bytes, state_hash, vocab_file,
    vocab_file_bytes,
};
use crate::specials::{
    base_tokens, distinct_keys, initial_state, only_special_tokens, only_tokens,
    special_tokens_into, table_keys, table_view,
};

verus! {

broadcast use vstd::string::group_string_axioms;

/// The vocabulary size that training aims at by default.
pub const VOCAB_SIZE: usize = 16384;

/// The scale of file weights: a weight of `k * WEIGHT_SCALE` counts each token `k` times.
pub const WEIGHT_SCALE: i64 = 1000;

/// What a training run aims at.
#[derive(Clone, Debug)]
pub struct TrainConfig {
    pub vocab_size: usize,
    pub min_frequency: u32,
    pub deterministic: bool,
}

impl Default for TrainConfig {
    fn default() -> (c: Self)
        ensures
            c.vocab_size == VOCAB_SIZE,
            c.min_frequency == 2,
            c.deterministic,
    {
        TrainConfig { vocab_size: VOCAB_SIZE, min_frequency: 2, deterministic: true }
    }
}

/// A file-system path, carried through training untouched.
#[verifier::external_type_specification]
#[verifier::external_body]
pub struct ExPathBuf(std::path::PathBuf);

/// `PathBuf::clone` from std, used by the derived `Clone` of `TrainingFile`. Trusted with no
/// claim on the result: nothing in the library reads a path.
pub assume_specification[ <std::path::PathBuf as Clone>::clone ](p: &std::path::PathBuf) -> std::path::PathBuf;

/// A corpus file chosen for training, with its tier and its scaled weight.
#[derive(Clone, Debug)]
pub struct TrainingFile {
    pub path: std::path::PathBuf,
    pub tier: String,
    pub weight_scaled: i64,
}

/// What a scan of the corpus directory found.
#[derive(Clone, Debug)]
pub struct ScanSummary {
    pub total_files: usize,
    pub skipped_files: usize,
    pub total_bytes: u64,
    /// Each tier with the number of its files, in order of first appearance.
    pub tier_counts: Vec<(String, usize)>,
}

impl Default for ScanSummary {
    fn default() -> (s: Self)
        ensures
            s.total_files == 0,
            s.skipped_files == 0,
            s.total_bytes == 0,
            s.tier_counts@ == Seq::<(String, usize)>::empty(),
    {
        ScanSummary {
            total_files: 0,
            skipped_files: 0,
            total_bytes: 0,
            tier_counts: Vec::new(),
        }
    }
}

/// Entry `i` is the first one of the tier in the table.
pub open spec fn first_slot(t: Seq<(String, usize)>, tier: Seq<char>, i: int) -> bool {
    &&& 0 <= i < t.len()
    &&& t[i].0@ == tier
    &&& forall|j: int| 0 <= j < i ==> (#[trigger] t[j]).0@ != tier
}

/// The tier has an entry in the table.
pub open spec fn has_tier(t: Seq<(String, usize)>, tier: Seq<char>) -> bool {
    exists|i: int| 0 <= i < t.len() && #[trigger] t[i].0@ == tier
}

/// The index of the first entry of the tier, when it has one.
fn find_tier(t: &Vec<(String, usize)>, tier: &String) -> (r: Option<usize>)
    ensures
        match r {
            Some(i) => first_slot(t@, tier@, i as int),
            None => !has_tier(t@, tier@),
        },
{
    let mut i: usize = 0;
    while i < t.len()
        invariant
            i <= t@.len(),
            forall|j: int| 0 <= j < i ==> (#[trigger] t@[j]).0@ != tier@,
        decreases t@.len() - i,
    {
        if t[i].0 == *tier {
            return Some(i);
        }
        i = i + 1;
    }
    None
}

impl ScanSummary {
    /// Counts a file that the scan passed over.
    pub fn record_skipped(&mut self)
        requires
            old(self).skipped_files < usize::MAX,
        ensures
            final(self).skipped_files == old(self).skipped_files + 1,
            final(self).total_files == old(self).total_files,
            final(self).total_bytes == old(self).total_bytes,
            final(self).tier_counts@ == old(self).tier_counts@,
    {
        self.skipped_files = self.skipped_files + 1;
    }

    /// Counts a file chosen for training: its size goes into the total, and its tier's count
    /// goes up by one (a new tier enters with count 1 at the end).
    pub fn record_file(&mut self, tier: String, size: u64)
        requires
            old(self).total_files < usize::MAX,
            old(self).total_bytes + size <= u64::MAX,
            forall|i: int| 0 <= i < old(self).tier_counts@.len() ==> (#[trigger] old(self).tier_counts@[i]).1
                < usize::MAX,
        ensures
            final(self).total_files == old(self).total_files + 1,
            final(self).total_bytes == old(self).total_bytes + size,
            final(self).skipped_files == old(self).skipped_files,
            ({
                let t = old(self).tier_counts@;
                if has_tier(t, tier@) {
                    exists|i: int|
                        first_slot(t, tier@, i) && final(self).tier_counts@ == t.update(
                            i,
                            (t[i].0, (t[i].1 + 1) as usize),
                        )
                } else {
                    final(self).tier_counts@ == t.push((tier, 1usize))
                }
            }),
    {
        match find_tier(&self.tier_counts, &tier) {
            Some(i) => {
                let name = self.tier_counts[i].0.clone();
                let c = self.tier_counts[i].1;
                proof {
                    assert(name@ == self.tier_counts@[i as int].0@);
                }
                let ghost t0 = self.tier_counts@;
                self.tier_counts.set(i, (name, c + 1));
                proof {
                    assert(self.tier_counts@ == t0.update(i as int, (t0[i as int].0, (t0[i as int].1 + 1) as usize)));
                }
            },
            None => {
                self.tier_counts.push((tier, 1));
            },
        }
        self.total_files = self.total_files + 1;
        self.total_bytes = self.total_bytes + size;
    }

    /// The number of files of the tier; 0 for a tier without files.
    pub fn tier_count(&self, tier: &str) -> (n: usize)
        ensures
            has_tier(self.tier_counts@, tier@) ==> exists|i: int|
                first_slot(self.tier_counts@, tier@, i) && n == self.tier_counts@[i].1,
            !has_tier(self.tier_counts@, tier@) ==> n == 0,
    {
        let key = tier.to_owned();
        match find_tier(&self.tier_counts, &key) {
            Some(i) => self.tier_counts[i].1,
            None => 0,
        }
    }
}

/// The figures of a training run.
#[derive(Clone, Debug)]
pub struct TrainingStats {
    pub input_files: usize,
    pub loaded_sequences: usize,
    pub skipped_lines: usize,
    pub loaded_tokens: usize,
    pub learned_merges: usize,
    pub final_vocab: usize,
    pub duration_seconds: u64,
}

impl Default for TrainingStats {
    fn default() -> (s: Self)
        ensures
            s.input_files == 0,
            s.loaded_sequences == 0,
            s.skipped_lines == 0,
            s.loaded_tokens == 0,
            s.learned_merges == 0,
            s.final_vocab == 0,
            s.duration_seconds == 0,
    {
        TrainingStats {
            input_files: 0,
            loaded_sequences: 0,
            skipped_lines: 0,
            loaded_tokens: 0,
            learned_merges: 0,
            final_vocab: 0,
            duration_seconds: 0,
        }
    }
}

/// The vocabulary of a fresh trainer.
pub open spec fn initial_vocab() -> Seq<Seq<u8>> {
    initial_state().0
}

/// The special tokens, as the byte strings that lines are read against.
pub open spec fn special_keys() -> Seq<Seq<u8>> {
    table_keys(initial_state().1)
}

/// The number of merges a run with this vocabulary size may learn.
pub open spec fn merge_budget(config: TrainConfig) -> nat {
    if config.vocab_size <= BPE_TOKEN_START {
        0
    } else {
        (config.vocab_size - BPE_TOKEN_START) as nat
    }
}

/// The smallest weighted count of a pair that training still merges.
pub open spec fn min_count(config: TrainConfig) -> int {
    config.min_frequency * WEIGHT_SCALE
}

/// The weighted pieces of the corpus lines that are trained on, in order.
pub open spec fn corpus_stream(files: Seq<TrainingFile>, contents: Seq<Vec<u8>>) -> Seq<(Seq<u8>, i64)> {
    piece_stream(special_keys(), corpus_lines(corpus_input(files, contents)))
}

/// The distinct weighted tokens of the corpus, in order of first appearance.
pub open spec fn corpus_tally(files: Seq<TrainingFile>, contents: Seq<Vec<u8>>) -> Seq<(Seq<u8>, i64)> {
    tally(corpus_stream(files, contents))
}

/// Training on the corpus keeps every count within its integer type: the line and byte counts
/// within `usize`, each token's running weight within `i64`, the pair counts within `i64` (the
/// words' symbols times weight summing to at most `i64::MAX`), the count of each pair within
/// one word within `i32`, and the word ids within `u32`.
pub open spec fn within_limits(files: Seq<TrainingFile>, contents: Seq<Vec<u8>>) -> bool {
    let words = table_words(corpus_tally(files, contents));
    &&& input_size(corpus_input(files, contents)) <= usize::MAX
    &&& tally_fits(Seq::empty(), corpus_stream(files, contents))
    &&& word_mass(words) <= MASS_LIMIT
    &&& words.len() <= u32::MAX
    &&& forall|i: int| 0 <= i < words.len() ==> pairs_fit_i32(#[trigger] words[i].0)
}

/// The vocabulary, the merges, and whether the token ids ran out, of training on the corpus.
pub open spec fn corpus_training(
    files: Seq<TrainingFile>,
    contents: Seq<Vec<u8>>,
    config: TrainConfig,
) -> (Seq<Seq<u8>>, Seq<BpeMerge>, bool) {
    bpe_run(
        table_words(corpus_tally(files, contents)),
        initial_vocab(),
        Seq::empty(),
        BPE_TOKEN_START,
        merge_budget(config),
        min_count(config),
    )
}

/// Learns a byte-pair vocabulary: the 20 reserved tokens, the 256 byte tokens and the special
/// tokens first, then one token per merge of the most frequent adjacent pair.
pub struct TokenizerTrainer {
    vocab: Vec<Vec<u8>>,
    merges: Vec<BpeMerge>,
    merge_lookup: HashMap<u64, u16>,
    special_tokens: Vec<(Vec<u8>, u16)>,
}

impl TokenizerTrainer {
    /// The byte strings of the vocabulary, by token id.
    pub closed spec fn vocab(&self) -> Seq<Seq<u8>> {
        vocab_view(self.vocab@)
    }

    /// The merges, in the order they were learned.
    pub closed spec fn merges(&self) -> Seq<BpeMerge> {
        self.merges@
    }

    /// The lookup from a merged pair's key to its token.
    pub closed spec fn merge_lookup(&self) -> Map<u64, u16> {
        self.merge_lookup@
    }

    /// The special tokens are registered and the lookup agrees with the merges; every trainer
    /// keeps this.
    #[verifier::type_invariant]
    closed spec fn wf(&self) -> bool {
        &&& table_view(self.special_tokens@) == initial_state().1
        &&& distinct_keys(table_view(self.special_tokens@))
        &&& self.merge_lookup@ == lookup_of(self.merges@)
    }

    /// The vocabulary with the reserved and byte tokens only.
    fn initialize_base_tokens() -> (vocab: Vec<Vec<u8>>)
        ensures
            vocab_view(vocab@) == crate::specials::base_vocab(),
    {
        let mut vocab: Vec<Vec<u8>> = Vec::new();
        base_tokens(&mut vocab);
        vocab
    }

    /// Registers the special tokens in the vocabulary and in a fresh table.
    fn initialize_special_tokens(vocab: &mut Vec<Vec<u8>>) -> (table: Vec<(Vec<u8>, u16)>)
        ensures
            (vocab_view(final(vocab)@), table_view(table@)) == crate::specials::apply_specials(
                crate::specials::special_defs(),
                (vocab_view(old(vocab)@), Seq::empty()),
            ),
            distinct_keys(table_view(table@)),
    {
        let mut table: Vec<(Vec<u8>, u16)> = Vec::new();
        special_tokens_into(vocab, &mut table);
        table
    }

    /// The vocabulary and special-token table of a fresh trainer.
    fn fresh_parts() -> (r: (Vec<Vec<u8>>, Vec<(Vec<u8>, u16)>))
        ensures
            vocab_view(r.0@) == initial_vocab(),
            table_view(r.1@) == initial_state().1,
            distinct_keys(table_view(r.1@)),
    {
        let mut vocab = Self::initialize_base_tokens();
        let table = Self::initialize_special_tokens(&mut vocab);
        (vocab, table)
    }

    /// Puts the trainer in its fresh state: base and special tokens, no merges.
    pub fn reset(&mut self)
        ensures
            final(self).vocab() == initial_vocab(),
            final(self).merges() == Seq::<BpeMerge>::empty(),
    {
        *self = Self::new();
    }

    /// A fresh trainer: base and special tokens, no merges.
    pub fn new() -> (t: Self)
        ensures
            t.vocab() == initial_vocab(),
            t.merges() == Seq::<BpeMerge>::empty(),
    {
        let (vocab, special_tokens) = Self::fresh_parts();
        let merges: Vec<BpeMerge> = Vec::new();
        let merge_lookup: HashMap<u64, u16> = HashMap::new();
        proof {
            assert(lookup_of(merges@) == Map::<u64, u16>::empty());
        }
        TokenizerTrainer { vocab, merges, merge_lookup, special_tokens }
    }

    /// The number of tokens in the vocabulary.
    pub fn vocab_size(&self) -> (n: usize)
        ensures
            n == self.vocab().len(),
    {
        self.vocab.len()
    }

    /// The number of merges learned.
    pub fn merge_count(&self) -> (n: usize)
        ensures
            n == self.merges().len(),
    {
        self.merges.len()
    }

    /// Whether the line consists of special tokens only, read greedily by longest token.
    pub fn is_only_special_tokens(&self, line: &[u8]) -> (r: bool)
        ensures
            r == only_tokens(special_keys(), line@),
    {
        proof {
            use_type_invariant(self);
        }
        only_special_tokens(&self.special_tokens, line)
    }

    /// Trains on the contents of the files (`contents[i]` is the content of `files[i]`), each
    /// line weighted by its file's weight. The trainer starts afresh; where the vocabulary
    /// size leaves no room for merges, nothing is read. Otherwise the corpus must keep every
    /// count within its integer type (`within_limits`, decided by `within_training_limits`).
    /// The elapsed time is left at 0 for the caller to measure.
    pub fn train_weighted(
        &mut self,
        files: &[TrainingFile],
        contents: &[Vec<u8>],
        config: &TrainConfig,
    ) -> (r: Result<TrainingStats, String>)
        requires
            files@.len() == contents@.len(),
            config.vocab_size > BPE_TOKEN_START ==> within_limits(files@, contents@),
        ensures
            ({
                let lines = corpus_lines(corpus_input(files@, contents@));
                let t = corpus_tally(files@, contents@);
                let out = corpus_training(files@, contents@, *config);
                if config.vocab_size <= BPE_TOKEN_START {
                    &&& final(self).vocab() == initial_vocab()
                    &&& final(self).merges() == Seq::<BpeMerge>::empty()
                    &&& r matches Ok(st) && st.input_files == files@.len() && st.loaded_sequences == 0
                        && st.skipped_lines == 0 && st.loaded_tokens == 0 && st.learned_merges == 0
                        && st.final_vocab == initial_vocab().len() && st.duration_seconds == 0
                } else if t.len() == 0 {
                    &&& final(self).vocab() == initial_vocab()
                    &&& final(self).merges() == Seq::<BpeMerge>::empty()
                    &&& r matches Err(e) && e@ == "No usable training data after token pre-segmentation."@
                } else if out.2 {
                    &&& final(self).vocab() == out.0
                    &&& final(self).merges() == out.1
                    &&& r matches Err(e) && e@ == "Vocabulary exhausted u16 range."@
                } else {
                    &&& final(self).vocab() == out.0
                    &&& final(self).merges() == out.1
                    &&& r matches Ok(st) && st.input_files == files@.len()
                        && st.loaded_sequences == count_loaded(special_keys(), lines)
                        && st.skipped_lines == count_skipped(special_keys(), lines)
                        && st.loaded_tokens == loaded_bytes(special_keys(), lines)
                        && st.learned_merges == out.1.len() && st.final_vocab == out.0.len()
                        && st.duration_seconds == 0
                }
            }),
    {
        let (mut vocab, special_tokens) = Self::fresh_parts();
        if config.vocab_size <= BPE_TOKEN_START as usize {
            *self = Self::new();
            let mut st = TrainingStats::default();
            st.input_files = files.len();
            st.final_vocab = self.vocab.len();
            return Ok(st);
        }
        let total_merges = config.vocab_size - BPE_TOKEN_START as usize;
        let (table, loaded_sequences, skipped_lines, loaded_tokens) = match ingest(
            &special_tokens,
            files,
            contents,
        ) {
            Some(c) => c,
            None => {
                proof {
                    assert(false);
                }
                *self = Self::new();
                return Err(String::new());
            },
        };
        if table.len() == 0 {
            *self = Self::new();
            return Err("No usable training data after token pre-segmentation.".to_string());
        }
        let mut words = training_words(&table);
        proof {
            lemma_table_words_shape(table.view());
            crate::specials::lemma_apply_specials_len(
                crate::specials::special_defs(),
                (crate::specials::base_vocab(), Seq::empty()),
            );
        }
        let min_freq_scaled = (config.min_frequency as i64) * WEIGHT_SCALE;
        let mut merges: Vec<BpeMerge> = Vec::new();
        let mut merge_lookup: HashMap<u64, u16> = HashMap::new();
        proof {
            assert(lookup_of(merges@) == Map::<u64, u16>::empty());
        }
        let outcome = run_merges(
            &mut words,
            &mut vocab,
            &mut merges,
            &mut merge_lookup,
            total_merges,
            min_freq_scaled,
        );
        let learned_merges = merges.len();
        let final_vocab = vocab.len();
        *self = TokenizerTrainer { vocab, merges, merge_lookup, special_tokens };
        match outcome {
            Ok(()) => {},
            Err(e) => {
                return Err(e);
            },
        }
        Ok(
            TrainingStats {
                input_files: files.len(),
                loaded_sequences,
                skipped_lines,
                loaded_tokens,
                learned_merges,
                final_vocab,
                duration_seconds: 0,
            },
        )
    }
}

impl TokenizerTrainer {
    /// Whether training on these contents keeps every count within its integer type, so that
    /// `train_weighted` may be called on them.
    pub fn within_training_limits(&self, files: &[TrainingFile], contents: &[Vec<u8>]) -> (r: bool)
        requires
            files@.len() == contents@.len(),
        ensures
            r == within_limits(files@, contents@),
    {
        proof {
            use_type_invariant(self);
        }
        let ghost input = corpus_input(files@, contents@);
        let ghost fsize = |e: (Seq<u8>, i64)| e.0.len() + 1int;
        let n = files.len();
        let mut total: usize = 0;
        let mut i: usize = 0;
        proof {
            assert(input.take(0) =~= Seq::<(Seq<u8>, i64)>::empty());
            assert forall|j: int| 0 <= j < input.len() implies fsize(#[trigger] input[j]) >= 0 by {}
        }
        while i < n
            invariant
                n == files@.len(),
                n == contents@.len(),
                i <= n,
                input == corpus_input(files@, contents@),
                fsize == (|e: (Seq<u8>, i64)| e.0.len() + 1int),
                forall|j: int| 0 <= j < input.len() ==> fsize(#[trigger] input[j]) >= 0,
                total == input_size(input.take(i as int)),
            decreases n - i,
        {
            proof {
                assert(input.take(i + 1).drop_last() =~= input.take(i as int));
                assert(input.take(i + 1).last() == input[i as int]);
                crate::stats::lemma_word_sum_prefix(input, i + 1, fsize);
            }
            let len = contents[i].len();
            if len >= usize::MAX - total {
                return false;
            }
            total = total + len + 1;
            i = i + 1;
        }
        proof {
            assert(input.take(n as int) =~= input);
        }
        let (table, _, _, _) = match ingest(&self.special_tokens, files, contents) {
            Some(c) => c,
            None => {
                return false;
            },
        };
        let words = training_words(&table);
        let ghost wv = words_view(words@);
        proof {
            lemma_table_words_shape(table.view());
        }
        if words.len() > 4294967295usize {
            return false;
        }
        let ghost fmass = |w: crate::pairs::WordView| w.0.len() * w.1;
        proof {
            assert forall|j: int| 0 <= j < wv.len() implies fmass(#[trigger] wv[j]) >= 0 by {
                let l = wv[j].0.len() as int;
                let f = wv[j].1 as int;
                assert(wv[j].1 > 0);
                assert(l * f >= 0) by (nonlinear_arith)
                    requires
                        l >= 0,
                        f > 0,
                ;
            }
            assert(wv.take(0) =~= Seq::<crate::pairs::WordView>::empty());
        }
        let m = words.len();
        let mut mass: u128 = 0;
        let mut j: usize = 0;
        while j < m
            invariant
                m == words@.len(),
                wv == words_view(words@),
                wv == table_words(corpus_tally(files@, contents@)),
                j <= m,
                fmass == (|w: crate::pairs::WordView| w.0.len() * w.1),
                forall|k: int| 0 <= k < wv.len() ==> fmass(#[trigger] wv[k]) >= 0,
                crate::pairs::positive_freqs(wv),
                mass == crate::pairs::word_sum(wv.take(j as int), fmass),
                mass <= MASS_LIMIT,
                forall|k: int| 0 <= k < j ==> pairs_fit_i32(#[trigger] wv[k].0),
            decreases m - j,
        {
            let l = words[j].symbols.len();
            if !pairs_fit(words[j].symbols.as_slice()) {
                proof {
                    assert(wv[j as int].0 == words@[j as int].symbols@);
                }
                return false;
            }
            let f = words[j].freq;
            proof {
                assert(wv[j as int] == (words@[j as int].symbols@, f));
                assert(f > 0);
                assert(wv.take(j + 1).drop_last() =~= wv.take(j as int));
                assert(wv.take(j + 1).last() == wv[j as int]);
                assert((l as int) * (f as int) <= 0x1_0000_0000_0000_0000int * 0x8000_0000_0000_0000int) by (nonlinear_arith)
                    requires
                        0 <= l <= 0xffff_ffff_ffff_ffff,
                        0 < f <= 0x7fff_ffff_ffff_ffff,
                ;
                crate::stats::lemma_word_sum_prefix(wv, j + 1, fmass);
            }
            let term: u128 = (l as u128) * (f as u128);
            mass = mass + term;
            j = j + 1;
            if mass > 0x7fff_ffff_ffff_ffffu128 {
                return false;
            }
        }
        proof {
            assert(wv.take(m as int) =~= wv);
        }
        true
    }
}

impl TokenizerTrainer {
    /// The FNV-1a hash of the vocabulary and the merges, as 16 lowercase hexadecimal digits.
    pub fn compute_hash_hex(&self) -> (s: String)
        ensures
            s@ == hex16(state_hash(self.vocab(), self.merges())),
    {
        let h = hash_state(&self.vocab, &self.merges);
        hex_u64(h)
    }

    /// The contents of the vocabulary file: the number of tokens, then each token as its
    /// length and its bytes (numbers as 32-bit little-endian).
    pub fn vocab_file_bytes(&self) -> (out: Vec<u8>)
        ensures
            out@ == vocab_file(self.vocab()),
    {
        vocab_file_bytes(&self.vocab)
    }

    /// The contents of the merges file: the number of merges (32-bit little-endian), then
    /// `a`, `b` and `merged` of each merge (16-bit little-endian).
    pub fn merges_file_bytes(&self) -> (out: Vec<u8>)
        ensures
            out@ == merges_file(self.merges()),
    {
        merges_file_bytes(&self.merges)
    }
}

} // verus!
