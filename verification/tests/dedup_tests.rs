use gamereader::dedup::{fuzzy_ratio, is_garbage_text, DedupState};

#[test]
fn test_dedup_state_new() {
    let state = DedupState::new();
    assert_eq!(state.index_history.len(), 0);
    assert!(state.last_text.is_none());
    assert_eq!(state.empty_reads, 0);
}

#[test]
fn test_record_match() {
    let mut state = DedupState::new();

    state.record_match(1, "Hello".to_string());
    assert_eq!(state.index_history.len(), 1);
    assert_eq!(state.last_text, Some("Hello".to_string()));
    assert_eq!(state.empty_reads, 0);

    state.record_match(2, "World".to_string());
    assert_eq!(state.index_history.len(), 2);
    assert_eq!(state.last_text, Some("World".to_string()));
}

#[test]
fn test_record_match_history_limit() {
    let mut state = DedupState::new();

    state.record_match(1, "One".to_string());
    state.record_match(2, "Two".to_string());
    state.record_match(3, "Three".to_string());

    assert_eq!(state.index_history.len(), 2);
    assert!(!state.index_history.contains(&1));
    assert!(state.index_history.contains(&2));
    assert!(state.index_history.contains(&3));
}

#[test]
fn test_is_duplicate_index() {
    let mut state = DedupState::new();

    state.record_match(5, "Test".to_string());

    assert!(state.is_duplicate_index(5));
    assert!(!state.is_duplicate_index(6));
}

#[test]
fn test_is_duplicate_text() {
    let mut state = DedupState::new();

    state.record_match(1, "Hello world".to_string());

    assert!(state.is_duplicate_text("Hello world", 92));

    state.record_match(2, "This is a longer test sentence".to_string());
    assert!(state.is_duplicate_text("This is a longer test sentence", 92));

    assert!(state.is_duplicate_text("This is a longer test sentencx", 92));

    assert!(!state.is_duplicate_text("Completely different text", 92));
    assert!(!state.is_duplicate_text("Hello", 92));
}

#[test]
fn test_typewriter_deduplication() {
    let mut state = DedupState::new();

    state.record_typewriter_match(0, 5);
    state.record_typewriter_match(1, 10);

    assert!(state.is_typewriter_duplicate(0, 5));
    assert!(!state.is_typewriter_duplicate(0, 6));
    assert!(state.is_typewriter_duplicate(1, 10));
    assert!(!state.is_typewriter_duplicate(2, 5));
}

#[test]
fn test_empty_reads_counter() {
    let mut state = DedupState::new();

    assert_eq!(state.empty_reads(), 0);

    state.increment_empty_reads();
    assert_eq!(state.empty_reads(), 1);

    state.increment_empty_reads();
    assert_eq!(state.empty_reads(), 2);

    state.reset_empty_reads();
    assert_eq!(state.empty_reads(), 0);
}

#[test]
fn test_clear_typewriter_cache() {
    let mut state = DedupState::new();

    state.record_typewriter_match(0, 5);
    state.record_typewriter_match(1, 10);

    state.clear_typewriter_cache();

    assert!(!state.is_typewriter_duplicate(0, 5));
    assert!(!state.is_typewriter_duplicate(1, 10));
}

#[test]
fn test_stable_frame_detection() {
    let mut state = DedupState::new();

    assert!(!state.update_stable_detection("Hello", 3));
    assert!(!state.update_stable_detection("Hello", 3));
    assert!(state.update_stable_detection("Hello", 3));
    assert!(!state.update_stable_detection("World", 3));
}

#[test]
fn test_is_garbage_text_length() {
    assert!(is_garbage_text("ab", 300, 3));
    assert!(!is_garbage_text("abc", 300, 3));
    assert!(!is_garbage_text("abcd", 300, 3));
}

#[test]
fn test_is_garbage_text_ratio() {
    assert!(!is_garbage_text("Hello world", 300, 3));
    assert!(!is_garbage_text("Hello, world!", 300, 3));
    assert!(is_garbage_text("abc123xyz", 300, 3));
    assert!(!is_garbage_text("abcdefg123", 300, 3));
    assert!(!is_garbage_text("abcdefghij", 300, 3));
}

#[test]
fn test_is_garbage_text_trimming() {
    assert!(is_garbage_text("  ab  ", 300, 3));
    assert!(!is_garbage_text("  abc  ", 300, 3));
}

#[test]
fn test_is_garbage_text_only_whitespace() {
    assert!(is_garbage_text("   ", 300, 3));
    assert!(is_garbage_text(".,!?", 300, 3));
    assert!(is_garbage_text("  .,!?  ", 300, 3));
}

#[test]
fn test_fuzzy_ratio() {
    assert_eq!(fuzzy_ratio("hello", "hello"), 100);

    let ratio = fuzzy_ratio("hello", "helo");
    assert!(ratio >= 85 && ratio <= 92);

    let ratio = fuzzy_ratio("hello", "goodbye");
    assert!(ratio < 50);

    assert_eq!(fuzzy_ratio("Hello", "HELLO"), 100);
}

#[test]
fn test_dedup_state_reset() {
    let mut state = DedupState::new();

    state.record_match(5, "Test".to_string());
    state.record_typewriter_match(0, 10);
    state.increment_empty_reads();
    state.update_stable_detection("Hello", 3);

    state.reset();

    assert_eq!(state.index_history.len(), 0);
    assert!(state.last_text.is_none());
    assert_eq!(state.typewriter_matched.len(), 0);
    assert_eq!(state.empty_reads, 0);
    assert_eq!(state.stable_count, 0);
    assert!(state.last_fingerprint.is_none());
}

#[test]
fn fuzzy_ratio_exact_values() {
    // Indel ratio: (2 * lcs) / (len_a + len_b), rounded.
    assert_eq!(fuzzy_ratio("hello", "helo"), 89);
    assert_eq!(fuzzy_ratio("", ""), 100);
    assert_eq!(fuzzy_ratio("abc", ""), 0);
    // Symmetric.
    assert_eq!(fuzzy_ratio("kitten", "sitting"), fuzzy_ratio("sitting", "kitten"));
}

#[test]
fn history_keeps_two_most_recent_in_order() {
    let mut state = DedupState::new();
    for i in 1..=5 {
        state.record_match(i, format!("line {}", i));
    }
    let h: Vec<usize> = state.index_history.iter().cloned().collect();
    assert_eq!(h, vec![4, 5]);
}

#[test]
fn stable_detection_counts_the_final_run_ignoring_case() {
    let mut s = gamereader::dedup::DedupState::new();
    assert!(!s.update_stable_detection("Hello", 3));
    assert!(!s.update_stable_detection("Hello", 3));
    assert!(s.update_stable_detection("hello", 3));
    assert!(!s.update_stable_detection("World", 3));
}

#[test]
fn recorded_match_and_the_one_before_are_duplicates() {
    let mut s = gamereader::dedup::DedupState::new();
    s.record_match(4, "a".to_string());
    s.record_match(7, "b".to_string());
    s.record_match(9, "same text".to_string());
    assert!(s.is_duplicate_index(9));
    assert!(s.is_duplicate_index(7));
    assert!(!s.is_duplicate_index(4));
    assert!(s.is_duplicate_text("same text", 100));
    assert_eq!(s.empty_reads(), 0);
}

#[test]
fn unicode_white_space_is_trimmed() {
    let s: Vec<char> = "\u{3000}\u{a0}text\u{2009}\u{85}".chars().collect();
    assert_eq!(gamereader::text::trim_chars(&s), "text".chars().collect::<Vec<char>>());
    let not_space: Vec<char> = "\u{200b}x".chars().collect();
    assert_eq!(gamereader::text::trim_chars(&not_space), not_space);
}

#[test]
fn full_counter_with_new_text_starts_over() {
    let mut s = gamereader::dedup::DedupState::new();
    s.update_stable_detection("old", 2);
    s.stable_count = u32::MAX;
    assert!(!s.update_stable_detection("new", 2));
    assert_eq!(s.stable_count, 1);
}
