# ashira_tokenizer

A byte-pair-encoding tokenizer trainer whose logic is verified with Verus.

- `src/` is the verified library. `trainer.rs` holds the public `TokenizerTrainer`, the
  configuration and the statistics; `corpus.rs` turns file contents into a weighted tally of
  whitespace-led pieces; `bpe.rs` runs the merges (over the pair statistics of `stats.rs` and
  the max-heap of `queue.rs`) and states the result as the naive specification `bpe_run`;
  `specials.rs`, `text.rs`, `symbols.rs`, `pairs.rs`, `paths.rs` and `digest.rs` hold the
  special tokens, line splitting, pair keys, pair counts, corpus file selection, and the hash
  and file formats; `decimal.rs` writes integers in decimal for the error messages.
  `laws.rs`, `within.rs` (learned tokens stand inside one piece) and `reorder.rs` (training
  ignores the order of files and words) state the properties that span several functions.
- `app/` is the unverified file-system side: it walks the corpus directory, reads the chosen
  files, checks the corpus against the training limits, times the run and writes the
  vocabulary and merges files.
- `tests/` runs the library on concrete inputs.
