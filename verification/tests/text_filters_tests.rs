use gamereader::text_filters::{fuzzy_ratio, CenterLineConfig, CenterLineFilter, CharacterNameFilter};
use gamereader::text_grouping::{OcrBox, TextLine};

#[test]
fn test_fuzzy_ratio_exact_match() {
    assert_eq!(fuzzy_ratio("hello", "hello"), 100);
    assert_eq!(fuzzy_ratio("test", "test"), 100);
}

#[test]
fn test_fuzzy_ratio_no_match() {
    assert_eq!(fuzzy_ratio("abc", "xyz"), 0);
}

#[test]
fn test_fuzzy_ratio_partial_match() {
    let ratio = fuzzy_ratio("hello", "hallo");
    assert!(ratio >= 80 && ratio < 100);
}

#[test]
fn test_fuzzy_ratio_empty() {
    assert_eq!(fuzzy_ratio("", ""), 100);
    assert_eq!(fuzzy_ratio("hello", ""), 0);
    assert_eq!(fuzzy_ratio("", "world"), 0);
}

#[test]
fn test_character_name_removal_prefix_colon() {
    let filter = CharacterNameFilter::new(vec!["Alice".to_string()]);
    let result = filter.remove_name("Alice: Hello there!");
    assert_eq!(result, "Hello there!");
}

#[test]
fn test_character_name_removal_prefix_semicolon() {
    let filter = CharacterNameFilter::new(vec!["Bob".to_string()]);
    let result = filter.remove_name("Bob; How are you?");
    assert_eq!(result, "How are you?");
}

#[test]
fn test_character_name_removal_first_line_exact() {
    let filter = CharacterNameFilter::new(vec!["Charlie".to_string()]);
    let text = "Charlie\nThis is dialogue";
    let result = filter.remove_name(text);
    assert_eq!(result, "This is dialogue");
}

#[test]
fn test_character_name_removal_first_line_with_punctuation() {
    let filter = CharacterNameFilter::new(vec!["Diana".to_string()]);
    let text = "Diana:\nThis is dialogue";
    let result = filter.remove_name(text);
    assert_eq!(result, "This is dialogue");
}

#[test]
fn test_fuzzy_ratio_similar_names() {
    let ratio1 = fuzzy_ratio("alice", "alise");
    println!("alice vs alise: {}", ratio1);
    assert!(ratio1 >= 80);
}

#[test]
fn test_character_name_removal_fuzzy_match() {
    let filter = CharacterNameFilter::new(vec!["Anna".to_string()]);
    let text = "Anna.\nThis is dialogue";
    let result = filter.remove_name(text);
    assert_eq!(result, "This is dialogue");
}

#[test]
fn test_character_name_removal_no_match() {
    let filter = CharacterNameFilter::new(vec!["Alice".to_string()]);
    let text = "Regular dialogue without name";
    let result = filter.remove_name(text);
    assert_eq!(result, text);
}

#[test]
fn test_character_name_removal_too_long() {
    let filter = CharacterNameFilter::new(vec!["Alice".to_string()]);
    let text = "This is a very long first line that exceeds forty characters\nSecond line";
    let result = filter.remove_name(text);
    assert_eq!(result, text);
}

#[test]
fn test_character_name_removal_too_many_words() {
    let filter = CharacterNameFilter::new(vec!["Alice".to_string()]);
    let text = "One Two Three Four Five\nSecond line";
    let result = filter.remove_name(text);
    assert_eq!(result, text);
}

#[test]
fn test_inline_remove_colon_prefix() {
    let result = CharacterNameFilter::remove_inline_name("John: Hello there!");
    assert_eq!(result, "Hello there!");
}

#[test]
fn test_inline_remove_semicolon_prefix() {
    let result = CharacterNameFilter::remove_inline_name("Jane; How are you?");
    assert_eq!(result, "How are you?");
}

#[test]
fn test_inline_remove_note_prefix() {
    let result = CharacterNameFilter::remove_inline_name("Note: this is a note");
    assert_eq!(result, "this is a note");
}

#[test]
fn test_inline_no_false_positive_no_colon() {
    let result = CharacterNameFilter::remove_inline_name("Regular dialogue without name");
    assert_eq!(result, "Regular dialogue without name");
}

#[test]
fn test_inline_multi_line_first_word() {
    let result = CharacterNameFilter::remove_inline_name("Steve.\nThis is dialogue");
    assert_eq!(result, "This is dialogue");
}

#[test]
fn test_inline_name_with_apostrophe() {
    let result = CharacterNameFilter::remove_inline_name("O'Brien: Hello");
    assert_eq!(result, "Hello");
}

#[test]
fn test_inline_long_first_line_untouched() {
    let text = "This is a very long first line that exceeds forty characters\nSecond line";
    let result = CharacterNameFilter::remove_inline_name(text);
    assert_eq!(result, text);
}

#[test]
fn test_inline_multi_line_two_words() {
    let text = "Dr Jones\nHello there";
    let result = CharacterNameFilter::remove_inline_name(text);
    assert_eq!(result, "Hello there");
}

#[test]
fn test_empty_filter_still_uses_inline() {
    let filter = CharacterNameFilter::new(vec![]);
    let result = filter.remove_name("Alice: Hello");
    assert_eq!(result, "Hello");
}

#[test]
fn test_character_name_removal_case_insensitive() {
    let filter = CharacterNameFilter::new(vec!["alice".to_string()]);
    let result = filter.remove_name("ALICE: Hello!");
    assert_eq!(result, "Hello!");
}

#[test]
fn name_fuzzy_ratio_exact_values() {
    // 100 * (m - d) / m rounded down: one substitution in five characters.
    assert_eq!(fuzzy_ratio("hello", "hallo"), 80);
    assert_eq!(fuzzy_ratio("alice", "alise"), 80);
    assert_eq!(fuzzy_ratio("kitten", "sitting"), 57);
}

#[test]
fn try_remove_name_agrees_with_remove_name() {
    let filter = CharacterNameFilter::new(vec!["Alice".to_string()]);
    assert_eq!(filter.try_remove_name("Alice: Hi"), Some("Hi".to_string()));
    assert_eq!(filter.try_remove_name(""), Some(String::new()));
}

fn no_lines() -> CenterLineConfig {
    CenterLineConfig {
        use_center_line_1: false,
        use_center_line_2: false,
        use_center_line_3: false,
        center_line_margin: 100,
        center_line_2_start: 1,
        center_line_3_start: 0,
    }
}

fn line(boxes: &[([[i32; 2]; 4], &str)]) -> TextLine {
    let mut l = TextLine::new();
    for (bbox, text) in boxes {
        l.add_box(OcrBox::new(*bbox, text.to_string()));
    }
    l
}

#[test]
fn test_center_line_filter_l1_vertical_center() {
    let mut config = no_lines();
    config.use_center_line_1 = true;
    config.center_line_margin = 100;

    let line_center = line(&[([[450, 100], [550, 100], [550, 120], [450, 120]], "Center text")]);
    let line_left = line(&[([[50, 100], [100, 100], [100, 120], [50, 120]], "Left text")]);
    let filtered = CenterLineFilter::filter_lines(vec![line_center, line_left], &config, 1000);

    assert_eq!(filtered.len(), 1);
    assert_eq!(filtered[0].text(), "Center text");
}

#[test]
fn test_center_line_filter_l2_absolute() {
    let mut config = no_lines();
    config.use_center_line_2 = true;
    config.center_line_2_start = 200;
    config.center_line_margin = 100;

    let line_match = line(&[([[220, 100], [280, 100], [280, 120], [220, 120]], "L2 text")]);
    let line_far = line(&[([[500, 100], [550, 100], [550, 120], [500, 120]], "Far text")]);
    let filtered = CenterLineFilter::filter_lines(vec![line_match, line_far], &config, 1000);

    assert_eq!(filtered.len(), 1);
    assert_eq!(filtered[0].text(), "L2 text");
}

#[test]
fn test_center_line_filter_l3_ratio() {
    let mut config = no_lines();
    config.use_center_line_3 = true;
    // 30% of a 1000-pixel region.
    config.center_line_3_start = 300;
    config.center_line_margin = 100;

    let line_match = line(&[([[320, 100], [380, 100], [380, 120], [320, 120]], "L3 text")]);
    let filtered = CenterLineFilter::filter_lines(vec![line_match], &config, 1000);

    assert_eq!(filtered.len(), 1);
    assert_eq!(filtered[0].text(), "L3 text");
}

#[test]
fn test_center_line_filter_disabled() {
    let config = no_lines();
    let l = line(&[([[50, 100], [100, 100], [100, 120], [50, 120]], "Any text")]);
    let filtered = CenterLineFilter::filter_lines(vec![l], &config, 1000);
    assert_eq!(filtered.len(), 1);
}

#[test]
fn test_center_line_filter_multiple_active() {
    let mut config = no_lines();
    config.use_center_line_1 = true;
    config.use_center_line_2 = true;
    config.center_line_2_start = 200;
    config.center_line_margin = 100;

    let line_l1 = line(&[([[480, 100], [520, 100], [520, 120], [480, 120]], "L1")]);
    let line_l2 = line(&[([[220, 100], [280, 100], [280, 120], [220, 120]], "L2")]);
    let line_other = line(&[([[700, 100], [750, 100], [750, 120], [700, 120]], "Other")]);
    let filtered = CenterLineFilter::filter_lines(vec![line_l1, line_l2, line_other], &config, 1000);

    assert_eq!(filtered.len(), 2);
    assert_eq!(filtered[0].text(), "L1");
    assert_eq!(filtered[1].text(), "L2");
}

#[test]
fn center_line_band_edges_and_multi_box_lines() {
    let mut config = no_lines();
    config.use_center_line_1 = true;
    config.center_line_margin = 101;
    // Width 1001: center 500, half margin 50 -> band [450, 550].
    let lines = vec![
        vec![(551, 600)],
        vec![(400, 450)],
        vec![(0, 10), (549, 700)],
        vec![],
    ];
    assert_eq!(CenterLineFilter::kept_indices(&lines, &config, 1001), vec![1, 2]);
}

#[test]
fn name_ratio_counts_characters_not_bytes() {
    // One substitution in five characters, accented or not.
    assert_eq!(fuzzy_ratio("Zoë", "Zoe"), 66);
    assert_eq!(fuzzy_ratio("Łucja", "Lucja"), 80);
    assert_eq!(fuzzy_ratio("Ąna", "Ąna"), 100);
}
