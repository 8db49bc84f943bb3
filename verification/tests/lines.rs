use wobblechar::parser::line_parser::{handle_end, line_chars, string_to_iters, Line, ParseError};

#[test]
fn handle_end_adds_new_labels_only() {
    let text = "A:xy\nA:zz\nB:q";
    let mut lines: Vec<Line> = Vec::new();
    assert!(handle_end::<2>(&mut lines, text, 2, 4, "A", 5).is_ok());
    assert_eq!(lines.len(), 1);
    assert_eq!((lines[0].label, lines[0].content, lines[0].remain), ("A", "xy", "A:zz\nB:q"));
    assert!(handle_end::<2>(&mut lines, text, 7, 9, "A", 10).is_ok());
    assert_eq!(lines.len(), 1);
    assert!(handle_end::<2>(&mut lines, text, 12, 13, "B", 13).is_ok());
    assert_eq!((lines[1].label, lines[1].content, lines[1].remain), ("B", "q", ""));
}

#[test]
fn handle_end_ignores_empty_content() {
    let mut lines: Vec<Line> = Vec::new();
    assert!(handle_end::<1>(&mut lines, "abc", 1, 1, "", 3).is_ok());
    assert!(lines.is_empty());
}

#[test]
fn handle_end_reports_capacity_full() {
    let text = "ab\ncd";
    let mut lines: Vec<Line> = Vec::new();
    assert!(handle_end::<1>(&mut lines, text, 0, 2, "", 3).is_ok());
    assert_eq!(handle_end::<1>(&mut lines, text, 3, 5, "", 5), Err(ParseError::CapacityFull));
    assert_eq!(lines.len(), 1);
    assert_eq!((lines[0].label, lines[0].content, lines[0].remain), ("", "ab", ""));
}

#[test]
fn line_chars_joins_continuations_without_trailing_blanks() {
    let line = Line::new("A", "_‾ ", "B:x\nA: ‾_  # more\n\nA:|\n");
    assert_eq!(line_chars(&line), vec!['_', '‾', '‾', '_', '|']);
    let plain = Line::new("", "_ _\t ", "A:xx");
    assert_eq!(line_chars(&plain), vec!['_', ' ', '_']);
}

#[test]
fn string_to_iters_counts_unicode_characters() {
    let lines = string_to_iters::<2>("Ä‾: ‾‾ # é\n  ünï").unwrap();
    assert_eq!(lines.len(), 2);
    assert_eq!((lines[0].label, lines[0].content, lines[0].remain), ("Ä‾", "‾‾ ", "  ünï"));
    assert_eq!((lines[1].label, lines[1].content, lines[1].remain), ("", "ünï", ""));
}

#[test]
fn joined_labels_count_once() {
    assert_eq!(string_to_iters::<2>("A:1\nA:2\nB:3").unwrap().len(), 2);
    assert!(matches!(string_to_iters::<1>("A:1\nA:2\nB:3"), Err(ParseError::CapacityFull)));
    assert_eq!(string_to_iters::<0>("  # nothing\n\n").unwrap().len(), 0);
}

#[test]
fn handle_end_takes_byte_offsets() {
    let text = "‾abcdef";
    let mut lines: Vec<Line> = Vec::new();
    assert!(handle_end::<1>(&mut lines, text, 3, 5, "", 7).is_ok());
    assert_eq!(lines.len(), 1);
    assert_eq!((lines[0].label, lines[0].content, lines[0].remain), ("", "ab", ""));
}

#[test]
fn handle_end_cuts_labeled_line_by_bytes() {
    let text = "Ä:‾_\n\r\nÄ:x";
    let mut lines: Vec<Line> = Vec::new();
    assert!(handle_end::<1>(&mut lines, text, 3, 7, &text[0..2], 7).is_ok());
    assert_eq!((lines[0].label, lines[0].content, lines[0].remain), ("Ä", "‾_", "Ä:x"));
}

#[test]
fn handle_end_accepts_reversed_positions() {
    let mut lines: Vec<Line> = Vec::new();
    assert!(handle_end::<1>(&mut lines, "abc", 2, 1, "", 3).is_ok());
    assert!(lines.is_empty());
}

#[test]
fn handle_end_full_on_byte_positions_past_char_count() {
    let mut lines: Vec<Line> = Vec::new();
    assert_eq!(handle_end::<0>(&mut lines, "‾‾", 3, 6, "", 6), Err(ParseError::CapacityFull));
    assert!(lines.is_empty());
}
