use gamereader::matcher::{FuzzyMatcher, MatchConfig, MatchState};

#[test]
fn test_match_config_default() {
    let config = MatchConfig::default();
    assert_eq!(config.similarity_threshold, 75);
    assert_eq!(config.similarity_threshold2, 90);
    assert_eq!(config.short_line_max_length, 8);
}

#[test]
fn test_match_state_new() {
    let state = MatchState::new();
    assert_eq!(state.last_index, -1);
    assert!(!state.has_history());
}

#[test]
fn test_match_state_update() {
    let mut state = MatchState::new();
    state.update(5);
    assert_eq!(state.last_index, 5);
    assert!(state.has_history());
}

#[test]
fn test_match_state_reset() {
    let mut state = MatchState::new();
    state.update(5);
    state.reset();
    assert_eq!(state.last_index, -1);
    assert!(!state.has_history());
}

#[test]
fn test_fuzzy_matcher_creation() {
    let matcher = FuzzyMatcher::with_defaults();
    assert_eq!(matcher.config.similarity_threshold, 75);
}

#[test]
fn test_threshold_enforcement() {
    let matcher = FuzzyMatcher::with_defaults();
    let state = MatchState::new();
    let lines = vec!["completely different text".to_string()];

    let result = matcher.find_best_match("hello", &lines, &state, false, false);
    assert!(result.is_none());
}

#[test]
fn test_identity_match() {
    let matcher = FuzzyMatcher::with_defaults();
    let state = MatchState::new();
    let lines = vec!["hello world".to_string()];

    let result = matcher.find_best_match("hello world", &lines, &state, false, false);

    assert!(result.is_some());
    let match_result = result.unwrap();
    assert_eq!(match_result.index, 1);
    assert_eq!(match_result.score, 100);
}

#[test]
fn test_determinism() {
    let matcher = FuzzyMatcher::with_defaults();
    let state = MatchState::new();
    let lines = vec!["first line".to_string(), "second line".to_string()];
    let text = "first";

    let result1 = matcher.find_best_match(text, &lines, &state, false, false);
    let result2 = matcher.find_best_match(text, &lines, &state, false, false);

    assert_eq!(result1, result2);
}

#[test]
fn test_empty_inputs() {
    let matcher = FuzzyMatcher::with_defaults();
    let state = MatchState::new();

    assert!(matcher.find_best_match("", &["line".to_string()], &state, false, false).is_none());
    assert!(matcher.find_best_match("text", &[], &state, false, false).is_none());
}

#[test]
fn test_case_insensitive_matching() {
    let matcher = FuzzyMatcher::with_defaults();
    let state = MatchState::new();
    let lines = vec!["Hello World".to_string()];

    let result = matcher.find_best_match("HELLO WORLD", &lines, &state, false, false);

    assert!(result.is_some());
    assert_eq!(result.unwrap().score, 100);
}

#[test]
fn test_typewriter_prefix_matching() {
    let matcher = FuzzyMatcher::with_defaults();
    let state = MatchState::new();
    let lines = vec!["Hello world, this is a long sentence".to_string()];

    let result = matcher.find_best_match("Hello world, this is a long", &lines, &state, true, true);

    assert!(result.is_some());
    assert_eq!(result.unwrap().index, 1);
}

#[test]
fn test_short_line_threshold() {
    let mut config = MatchConfig::default();
    config.similarity_threshold = 60;
    config.similarity_threshold2 = 80;
    config.short_line_max_length = 8;

    let matcher = FuzzyMatcher::new(config);
    let state = MatchState::new();

    let lines = vec!["short".to_string()];

    let result = matcher.find_best_match("shr", &lines, &state, false, false);
    assert!(result.is_none());
}

#[test]
fn test_score_margin_filtering() {
    let mut config = MatchConfig::default();
    config.score_margin = 5;

    let matcher = FuzzyMatcher::new(config);
    let state = MatchState::new();
    let lines = vec!["exact match".to_string(), "completely different".to_string()];

    let result = matcher.find_best_match("exact match", &lines, &state, false, false);

    assert!(result.is_some());
    assert_eq!(result.unwrap().index, 1);
}

#[test]
fn test_proportion_filters() {
    let matcher = FuzzyMatcher::with_defaults();
    let state = MatchState::new();

    let lines = vec!["short".to_string()];
    let text = "this is much longer text than the line";

    let result = matcher.find_best_match(text, &lines, &state, false, false);

    assert!(result.is_none());
}

#[test]
fn test_typewriter_coverage_filter() {
    let mut config = MatchConfig::default();
    config.typewriter_min_coverage_percent = 65;

    let matcher = FuzzyMatcher::new(config);
    let state = MatchState::new();
    let lines = vec!["this is a very long line with many words".to_string()];

    let text = "this is a";

    let result = matcher.find_best_match(text, &lines, &state, true, true);

    assert!(result.is_none());
}

#[test]
fn test_typewriter_prefix_similarity() {
    let matcher = FuzzyMatcher::with_defaults();
    let state = MatchState::new();
    let lines = vec!["Hello world".to_string()];

    let text = "XYZlo world";

    let result = matcher.find_best_match(text, &lines, &state, true, true);

    assert!(result.is_none());
}

#[test]
fn test_selection_without_history() {
    let matcher = FuzzyMatcher::with_defaults();
    let state = MatchState::new();
    let lines = vec!["similar text here".to_string(), "similar text here".to_string()];

    let result = matcher.find_best_match("similar text", &lines, &state, false, false);

    assert!(result.is_some());
    assert_eq!(result.unwrap().index, 1);
}

#[test]
fn test_selection_with_history() {
    let matcher = FuzzyMatcher::with_defaults();
    let mut state = MatchState::new();
    state.update(5);

    let lines = vec![
        "line one text".to_string(),
        "line two text".to_string(),
        "line three text".to_string(),
        "line four text".to_string(),
        "line five text".to_string(),
        "line six text".to_string(),
    ];

    let result = matcher.find_best_match("line five text", &lines, &state, false, false);

    assert!(result.is_some());
    let idx = result.unwrap().index;
    assert_eq!(idx, 5);
}

#[test]
fn test_typewriter_disambiguation() {
    let mut config = MatchConfig::default();
    config.typewriter_disambig_margin = 15;
    config.score_margin = 20;
    config.typewriter_min_coverage_percent = 80;
    config.similarity_threshold = 50;

    let matcher = FuzzyMatcher::new(config);
    let state = MatchState::new();

    let lines = vec!["Hello world!".to_string(), "Hello warld!".to_string()];

    let result = matcher.find_best_match("Hello worl", &lines, &state, true, false);

    assert!(result.is_none());
}

#[test]
fn test_typewriter_disambiguation_stable_frame() {
    let mut config = MatchConfig::default();
    config.typewriter_disambig_margin = 20;

    let matcher = FuzzyMatcher::new(config);
    let state = MatchState::new();
    let lines = vec!["Hello world".to_string(), "Hello world!".to_string()];

    let result = matcher.find_best_match("Hello wor", &lines, &state, true, true);

    assert!(result.is_some());
}

#[test]
fn history_prefers_line_near_last_match() {
    // Two identical lines: without history the first wins; after matching
    // line 3 the one closest to it wins.
    let matcher = FuzzyMatcher::with_defaults();
    let lines = vec![
        "the same sentence".to_string(),
        "filler one".to_string(),
        "filler two".to_string(),
        "the same sentence".to_string(),
    ];
    let state = MatchState::new();
    assert_eq!(matcher.find_best_match("the same sentence", &lines, &state, false, false).unwrap().index, 1);
    let mut state = MatchState::new();
    state.update(3);
    assert_eq!(matcher.find_best_match("the same sentence", &lines, &state, false, false).unwrap().index, 4);
}
