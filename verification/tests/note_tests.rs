use recall_cli::note::Note;
use recall_cli::time::{LocalDateTime, Timestamp};

fn at(year: i32, month: u32, day: u32, hour: u32, minute: u32, second: u32) -> Timestamp {
    Timestamp::from_local(LocalDateTime::new(year, month, day, hour, minute, second)).unwrap()
}

#[test]
fn test_note_to_markdown() {
    let dt = at(2026, 3, 28, 14, 30, 0);
    let note = Note::from_parts(dt, "Test Note".to_string());
    let md = note.to_markdown();
    assert_eq!(md, "- [ ] 2026-03-28 14:30:00\nTest Note");
}

#[test]
fn test_note_from_markdown() {
    let lines = ["- [ ] 2026-03-28 14:30:00", "Line 1", "Line 2"];
    let note = Note::from_markdown(&lines).unwrap();
    assert_eq!(note.text, "Line 1\nLine 2");
    assert_eq!(note.timestamp.local().format(), "2026-03-28 14:30:00");
}

#[test]
fn test_note_from_markdown_trims_whitespace() {
    let lines = ["- [ ] 2026-03-28 14:30:00", "  Line 1  ", "  Line 2  "];
    let note = Note::from_markdown(&lines).unwrap();
    assert_eq!(note.text, "Line 1  \n  Line 2");
}

#[test]
fn test_note_from_invalid_markdown() {
    let lines = ["Invalid Line", "More text"];
    assert!(Note::from_markdown(&lines).is_none());
}

#[test]
fn test_is_note_header() {
    assert!(Note::is_note_header("- [ ] 2026-03-28 14:30:00"));
    assert!(Note::is_note_header("- [x] 2026-03-28 14:30:00"));
    assert!(Note::is_note_header("- [X] 2026-03-28 14:30:00"));
    assert!(!Note::is_note_header("- [ ] 2026-03-28 14:30"));
    assert!(!Note::is_note_header("- [ ] Buy milk"));
    assert!(!Note::is_note_header("No prefix 2026-03-28 14:30:00"));
    assert!(!Note::is_note_header("- [ ] 2026-03-28 14:30:00extra"));
    assert!(!Note::is_note_header("- [ ] 2026-03-28 14:30:0"));
}

#[test]
fn test_note_to_markdown_done() {
    let dt = at(2026, 3, 28, 14, 30, 0);
    let note = Note::from_parts_with_done(dt, "Test Note".to_string(), true);
    let md = note.to_markdown();
    assert_eq!(md, "- [x] 2026-03-28 14:30:00\nTest Note");
}

#[test]
fn test_note_from_markdown_done() {
    let lines = ["- [x] 2026-03-28 14:30:00", "Line 1", "Line 2"];
    let note = Note::from_markdown(&lines).unwrap();
    assert_eq!(note.text, "Line 1\nLine 2");
    assert!(note.done);
    assert_eq!(note.timestamp.local().format(), "2026-03-28 14:30:00");
}

#[test]
fn test_note_from_markdown_unchecked() {
    let lines = ["- [ ] 2026-03-28 14:30:00", "Line 1"];
    let note = Note::from_markdown(&lines).unwrap();
    assert!(!note.done);
}

#[test]
fn test_note_from_markdown_done_uppercase() {
    let lines = ["- [X] 2026-03-28 14:30:00", "Line 1"];
    let note = Note::from_markdown(&lines).unwrap();
    assert!(note.done);
}

#[test]
fn test_toggle_done() {
    let dt = at(2026, 3, 28, 14, 30, 0);
    let mut note = Note::from_parts(dt, "Test".to_string());
    assert!(!note.done);
    note.toggle_done();
    assert!(note.done);
    note.toggle_done();
    assert!(!note.done);
}

#[test]
fn test_display_line_open() {
    let dt = at(2026, 3, 28, 14, 30, 0);
    let note = Note::from_parts(dt, "This is my note\nWith multiple lines".to_string());
    let line = note.display_line();
    assert_eq!(line, "[ ] 2026-03-28 14:30:00 This is my note");
}

#[test]
fn test_display_line_done() {
    let dt = at(2026, 3, 28, 14, 30, 0);
    let note = Note::from_parts_with_done(dt, "Completed task".to_string(), true);
    let line = note.display_line();
    assert_eq!(line, "[x] 2026-03-28 14:30:00 Completed task");
}

#[test]
fn test_display_line_empty() {
    let dt = at(2026, 3, 28, 14, 30, 0);
    let note = Note::from_parts(dt, "".to_string());
    let line = note.display_line();
    assert_eq!(line, "[ ] 2026-03-28 14:30:00 ");
}

// Further cases.

#[test]
fn header_with_leading_space_hour_is_read_by_chrono() {
    // The parser of chrono accepts a run of white space and a one-digit hour here.
    assert_eq!(Note::parse_note_header("- [ ] 2026-03-28  4:30:00").map(|(t, _)| t.hour), Some(4));
}

#[test]
fn header_of_invalid_date_is_refused() {
    assert!(!Note::is_note_header("- [ ] 2026-02-30 14:30:00"));
    assert!(!Note::is_note_header("- [ ] 2026-13-01 14:30:00"));
    assert!(!Note::is_note_header("- [y] 2026-03-28 14:30:00"));
    assert!(!Note::is_note_header(""));
}

#[test]
fn header_counts_bytes_not_characters() {
    // 25 characters, 27 bytes: an ideographic space in place of the space.
    assert!(!Note::is_note_header("- [ ] 2026-03-28\u{3000}14:30:00"));
}

#[test]
fn parse_note_header_reads_fields() {
    let (t, done) = Note::parse_note_header("- [x] 2024-02-29 23:59:58").unwrap();
    assert!(done);
    assert_eq!((t.year, t.month, t.day, t.hour, t.minute, t.second), (2024, 2, 29, 23, 59, 58));
}

#[test]
fn from_markdown_of_no_lines_is_none() {
    let lines: [&str; 0] = [];
    assert!(Note::from_markdown(&lines).is_none());
    assert!(Note::parse_draft(&lines).is_none());
}

#[test]
fn from_markdown_header_only_has_empty_text() {
    let lines = ["- [ ] 2026-03-28 14:30:00"];
    let note = Note::from_markdown(&lines).unwrap();
    assert_eq!(note.text, "");
}

#[test]
fn display_line_drops_carriage_return_before_line_feed() {
    let note = Note::from_parts(at(2026, 3, 28, 14, 30, 0), "first\r\nsecond".to_string());
    assert_eq!(note.display_line(), "[ ] 2026-03-28 14:30:00 first");
    let note = Note::from_parts(at(2026, 3, 28, 14, 30, 0), "only\r".to_string());
    assert_eq!(note.display_line(), "[ ] 2026-03-28 14:30:00 only\r");
}

#[test]
fn new_note_is_open() {
    let note = Note::new("hello".to_string()).unwrap();
    assert!(!note.done);
    assert_eq!(note.text, "hello");
}

#[test]
fn duplicate_copies_every_field() {
    let note = Note::from_parts_with_done(at(2026, 3, 28, 14, 30, 0), "x".to_string(), true);
    let copy = note.duplicate();
    assert_eq!(copy.text, note.text);
    assert_eq!(copy.done, note.done);
    assert_eq!(copy.timestamp, note.timestamp);
}

#[test]
fn written_lines_read_back_as_the_note() {
    let note = Note::from_parts_with_done(at(2026, 3, 29, 14, 30, 0), "deploy v2\nbefore lunch".to_string(), true);
    let md = note.to_markdown();
    let lines: Vec<&str> = md.lines().collect();
    let draft = Note::parse_draft(&lines).unwrap();
    assert_eq!(draft.local, note.timestamp.local());
    assert!(draft.done);
    assert_eq!(draft.text, note.text);
    let back = Note::from_markdown(&lines).unwrap();
    assert_eq!(back.timestamp, note.timestamp);
    assert_eq!(back.text, note.text);
    assert_eq!(back.done, note.done);
}
