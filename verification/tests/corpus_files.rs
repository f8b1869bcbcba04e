use ashira_tokenizer::{
    choose_training_file, classify_file, is_corpus_extension, should_skip_file, ScanSummary,
};

#[test]
fn skip_and_allow_patterns() {
    assert!(should_skip_file("data/bookcorpus/x.txt"));
    assert!(should_skip_file("data/notes.json.txt"));
    assert!(should_skip_file("corpus_manifest.md"));
    assert!(!should_skip_file("data/bookcorpus_sampled/bookcorpus/x.txt"));
    assert!(!should_skip_file("data/wikitext_extracted/a.json"));
    assert!(!should_skip_file("data/plain.txt"));
}

#[test]
fn tiers_by_first_pattern() {
    assert_eq!(classify_file("x_annotated.md", "c/x_annotated.md"), "identity");
    assert_eq!(classify_file("a.txt", "c/wikitext_extracted/a.txt"), "foundation");
    assert_eq!(classify_file("Scripture of Light.md", "c/Scripture of Light.md"), "scripture");
    assert_eq!(classify_file("Iteration_blu.txt", "c/Iteration_blu.txt"), "identity");
    assert_eq!(classify_file("plain.md", "c/plain.md"), "");
}

#[test]
fn choice_of_training_files() {
    assert_eq!(
        choose_training_file("c/x_annotated.md", "x_annotated.md"),
        Ok(Some(("identity".to_string(), 5000)))
    );
    assert_eq!(
        choose_training_file("c/CAIROS_chat_1.txt", "CAIROS_chat_1.txt"),
        Ok(Some(("scripture".to_string(), 3000)))
    );
    assert_eq!(
        choose_training_file("c/bookcorpus_sampled/b.txt", "b.txt"),
        Ok(Some(("foundation".to_string(), 1000)))
    );
    assert_eq!(choose_training_file("c/Dylan_chat_2.md", "Dylan_chat_2.md"), Ok(None));
    assert_eq!(
        choose_training_file("c/Dylan_chat_2_annotated.md", "Dylan_chat_2_annotated.md"),
        Ok(Some(("identity".to_string(), 5000)))
    );
    assert_eq!(
        choose_training_file("c/Opus_node_09_the_dylan.md", "Opus_node_09_the_dylan.md"),
        Ok(None)
    );
    assert_eq!(choose_training_file("c/x_degradation.txt", "x_degradation.txt"), Ok(None));
    assert_eq!(choose_training_file("c/plain.md", "plain.md"), Ok(None));
}

#[test]
fn corpus_extensions() {
    assert!(is_corpus_extension("md"));
    assert!(is_corpus_extension("TXT"));
    assert!(is_corpus_extension("Md"));
    assert!(!is_corpus_extension("json"));
    assert!(!is_corpus_extension(""));
}

#[test]
fn summary_counts() {
    let mut s = ScanSummary::default();
    s.record_skipped();
    s.record_file("identity".to_string(), 10);
    s.record_file("identity".to_string(), 5);
    s.record_file("scripture".to_string(), 1);
    assert_eq!(s.skipped_files, 1);
    assert_eq!(s.total_files, 3);
    assert_eq!(s.total_bytes, 16);
    assert_eq!(s.tier_count("identity"), 2);
    assert_eq!(s.tier_count("scripture"), 1);
    assert_eq!(s.tier_count("foundation"), 0);
    assert_eq!(
        s.tier_counts,
        vec![("identity".to_string(), 2), ("scripture".to_string(), 1)]
    );
}
