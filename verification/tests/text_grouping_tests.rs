use gamereader::text_grouping::{cluster_into_paragraphs, group_into_lines, OcrBox, TextLine};

/// The line threshold at scale 1.
const LINE_THRESHOLD: i32 = 10;
/// The paragraph gap threshold at scale 1.
const PARAGRAPH_GAP: i32 = 40;

fn create_test_box(x: i32, y: i32, width: i32, height: i32, text: &str) -> OcrBox {
    OcrBox::new([[x, y], [x + width, y], [x + width, y + height], [x, y + height]], text.to_string())
}

fn texts(line: &TextLine) -> Vec<String> {
    line.boxes.iter().map(|b| b.text.clone()).collect()
}

#[test]
fn test_ocr_box_coordinates() {
    let bbox = [[10, 20], [50, 20], [50, 40], [10, 40]];
    let ocr_box = OcrBox::new(bbox, "test".to_string());

    assert_eq!(ocr_box.top_left(), [10, 20]);
    assert_eq!(ocr_box.top_right(), [50, 20]);
    assert_eq!(ocr_box.bottom_right(), [50, 40]);
    assert_eq!(ocr_box.bottom_left(), [10, 40]);
    assert_eq!(ocr_box.center_y(), 30);
    assert_eq!(ocr_box.height(), 20);
}

#[test]
fn test_text_line_new() {
    let line = TextLine::new();
    assert!(line.is_empty());
    assert_eq!(line.y_mean, 0);
}

#[test]
fn test_text_line_add_box() {
    let mut line = TextLine::new();
    line.add_box(create_test_box(10, 20, 50, 30, "Hello"));
    assert_eq!(line.boxes.len(), 1);
    assert_eq!(line.y_mean, 35);
}

#[test]
fn test_text_line_text_concatenation() {
    let mut line = TextLine::new();
    line.add_box(create_test_box(10, 20, 50, 20, "Hello"));
    line.add_box(create_test_box(70, 20, 50, 20, "World"));
    assert_eq!(line.text(), "Hello World");
}

#[test]
fn test_text_line_sort_by_x() {
    let mut line = TextLine::new();
    line.add_box(create_test_box(100, 20, 50, 20, "Second"));
    line.add_box(create_test_box(10, 20, 50, 20, "First"));
    line.sort_by_x();
    assert_eq!(line.boxes[0].text, "First");
    assert_eq!(line.boxes[1].text, "Second");
}

#[test]
fn test_group_into_lines_sorting() {
    let boxes = vec![
        create_test_box(100, 50, 50, 20, "C"),
        create_test_box(10, 20, 50, 20, "A"),
        create_test_box(100, 20, 50, 20, "B"),
        create_test_box(10, 50, 50, 20, "D"),
    ];
    let lines = group_into_lines(boxes, LINE_THRESHOLD);
    assert_eq!(lines.len(), 2);
    assert_eq!(lines[0].boxes.len(), 2);
    assert_eq!(lines[0].boxes[0].text, "A");
    assert_eq!(lines[0].boxes[1].text, "B");
    assert_eq!(lines[1].boxes.len(), 2);
    assert_eq!(lines[1].boxes[0].text, "D");
    assert_eq!(lines[1].boxes[1].text, "C");
}

#[test]
fn test_line_grouping_by_vertical_proximity() {
    let boxes = vec![
        create_test_box(10, 100, 50, 20, "Line1-A"),
        create_test_box(70, 105, 50, 20, "Line1-B"),
        create_test_box(10, 150, 50, 20, "Line2-A"),
    ];
    let lines = group_into_lines(boxes, LINE_THRESHOLD);
    assert_eq!(lines.len(), 2);
    assert_eq!(lines[0].boxes.len(), 2);
    assert_eq!(lines[1].boxes.len(), 1);
}

#[test]
fn test_empty_boxes() {
    let lines = group_into_lines(vec![], LINE_THRESHOLD);
    assert!(lines.is_empty());
}

#[test]
fn test_paragraph_clustering_single_text_mode() {
    let boxes = vec![create_test_box(10, 20, 50, 20, "Line 1"), create_test_box(10, 100, 50, 20, "Line 2")];
    let lines = group_into_lines(boxes, LINE_THRESHOLD);
    let paragraphs = cluster_into_paragraphs(lines, false, PARAGRAPH_GAP);
    assert_eq!(paragraphs.len(), 1);
    assert_eq!(paragraphs[0], "Line 1\nLine 2");
}

#[test]
fn test_paragraph_clustering_multi_paragraph_mode() {
    let boxes = vec![
        create_test_box(10, 20, 50, 20, "Para1-Line1"),
        create_test_box(10, 30, 50, 20, "Para1-Line2"),
        create_test_box(10, 100, 50, 20, "Para2-Line1"),
    ];
    let lines = group_into_lines(boxes, LINE_THRESHOLD);
    let paragraphs = cluster_into_paragraphs(lines, true, PARAGRAPH_GAP);
    assert_eq!(paragraphs.len(), 2);
    assert_eq!(paragraphs[0], "Para1-Line1\nPara1-Line2");
    assert_eq!(paragraphs[1], "Para2-Line1");
}

#[test]
fn test_paragraph_clustering_empty_lines() {
    let paragraphs = cluster_into_paragraphs(Vec::new(), true, PARAGRAPH_GAP);
    assert!(paragraphs.is_empty());
}

#[test]
fn test_paragraph_clustering_single_line() {
    let lines = group_into_lines(vec![create_test_box(10, 20, 50, 20, "Only line")], LINE_THRESHOLD);
    let paragraphs = cluster_into_paragraphs(lines, true, PARAGRAPH_GAP);
    assert_eq!(paragraphs.len(), 1);
    assert_eq!(paragraphs[0], "Only line");
}

#[test]
fn grouping_keeps_every_box_once() {
    let boxes = vec![
        create_test_box(5, 200, 10, 10, "z"),
        create_test_box(40, 10, 10, 10, "b"),
        create_test_box(20, 12, 10, 10, "a"),
        create_test_box(60, 100, 10, 10, "m"),
        create_test_box(30, 205, 10, 10, "y"),
    ];
    let lines = group_into_lines(boxes, LINE_THRESHOLD);
    let all: Vec<Vec<String>> = lines.iter().map(texts).collect();
    assert_eq!(all, vec![vec!["a", "b"], vec!["m"], vec!["z", "y"]]);
    assert_eq!(lines.iter().map(|l| l.y_mean).collect::<Vec<_>>(), vec![16, 105, 207]);
}

#[test]
fn equal_rows_keep_input_order() {
    // Same top-left corner: the first given stays first.
    let boxes = vec![create_test_box(10, 10, 5, 10, "first"), create_test_box(10, 10, 8, 10, "second")];
    let lines = group_into_lines(boxes, LINE_THRESHOLD);
    assert_eq!(texts(&lines[0]), vec!["first", "second"]);
}

#[test]
fn negative_centres_round_towards_zero() {
    let b = OcrBox::new([[0, -7], [4, -7], [4, 0], [0, 0]], "neg".to_string());
    assert_eq!(b.center_y(), -3);
    let mut line = TextLine::new();
    line.add_box(b);
    line.add_box(OcrBox::new([[0, -2], [4, -2], [4, 0], [0, 0]], "n2".to_string()));
    // centres -3 and -1: mean -2
    assert_eq!(line.y_mean, -2);
}

#[test]
fn paragraph_gap_equal_to_threshold_stays_together() {
    let mut a = TextLine::new();
    a.add_box(create_test_box(0, 0, 5, 20, "one"));
    let mut b = TextLine::new();
    b.add_box(create_test_box(0, 40, 5, 20, "two"));
    let paragraphs = cluster_into_paragraphs(vec![a, b], true, PARAGRAPH_GAP);
    assert_eq!(paragraphs, vec!["one\ntwo".to_string()]);
}
