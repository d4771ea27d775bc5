use gamereader::engine::MatcherWorker;
use gamereader::matcher::FuzzyMatcher;
use gamereader::text_filters::CharacterNameFilter;

fn lines() -> Vec<String> {
    vec![
        "Where have you been all this time?".to_string(),
        "I was looking for the lost caravan.".to_string(),
        "The caravan never reached the city.".to_string(),
    ]
}

fn texts(v: &[&str]) -> Vec<String> {
    v.iter().map(|s| s.to_string()).collect()
}

#[test]
fn empty_reads_lead_to_idle() {
    let mut w = MatcherWorker::new(FuzzyMatcher::with_defaults(), lines(), None);
    assert!(!w.process_read(&Vec::new(), false, false).idle);
    assert!(!w.process_read(&Vec::new(), false, false).idle);
    let out = w.process_read(&Vec::new(), false, false);
    assert!(out.idle);
    assert!(out.matched.is_empty());
    assert_eq!(w.dedup.empty_reads, 3);
}

#[test]
fn a_read_is_matched_once() {
    let mut w = MatcherWorker::new(FuzzyMatcher::with_defaults(), lines(), None);
    let out = w.process_read(&texts(&["I was looking for\nthe lost caravan."]), false, false);
    assert_eq!(out.matched, vec![2]);
    assert!(!out.idle);
    assert_eq!(w.match_state.last_index, 2);
    assert_eq!(w.dedup.empty_reads, 0);
    // The same text again is a duplicate.
    let out = w.process_read(&texts(&["I was looking for the lost caravan."]), false, false);
    assert!(out.matched.is_empty());
}

#[test]
fn garbage_and_short_texts_are_skipped() {
    let mut w = MatcherWorker::new(FuzzyMatcher::with_defaults(), lines(), None);
    let out = w.process_read(&texts(&["12345 678", "ab", "   \n  "]), false, false);
    assert!(out.matched.is_empty());
}

#[test]
fn names_are_removed_before_matching() {
    let filter = CharacterNameFilter::new(vec!["Marta".to_string()]);
    let mut w = MatcherWorker::new(FuzzyMatcher::with_defaults(), lines(), Some(filter));
    let out = w.process_read(&texts(&["Marta\nWhere have you been all this time?"]), false, false);
    assert_eq!(out.matched, vec![1]);
}

#[test]
fn paragraphs_are_matched_in_order() {
    let mut w = MatcherWorker::new(FuzzyMatcher::with_defaults(), lines(), None);
    let out = w.process_read(
        &texts(&["Where have you been all this time?", "The caravan never reached the city."]),
        true,
        false,
    );
    assert_eq!(out.matched, vec![1, 3]);
}

#[test]
fn stable_frames_are_counted() {
    let mut w = MatcherWorker::new(FuzzyMatcher::with_defaults(), lines(), None);
    w.process_read(&texts(&["zzzz qqqq"]), false, true);
    assert_eq!(w.dedup.stable_count, 1);
    w.process_read(&texts(&["ZZZZ QQQQ"]), false, true);
    assert_eq!(w.dedup.stable_count, 2);
}

#[test]
fn dialogue_file_lines_match_str_lines() {
    for content in ["", "a", "a\n", "a\r\nb\r\n\nc", "x\r", "one\n\r\ntwo\r", "\n\n"] {
        let expected: Vec<String> = content.lines().map(|l| l.to_string()).collect();
        assert_eq!(gamereader::engine::parse_dialog_lines(content), expected, "{:?}", content);
    }
}

#[test]
fn names_file_is_trimmed_without_blank_lines() {
    let names = gamereader::engine::parse_character_names("  Alice \r\n\n\t\nBob\n  Zoë\u{a0}");
    assert_eq!(names, vec!["Alice".to_string(), "Bob".to_string(), "Zoë".to_string()]);
}
