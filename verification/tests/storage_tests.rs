use recall_cli::note::Note;
use recall_cli::storage::{entry_text, notes_from_text, notes_to_text, parse_drafts, sort_newest_first, Storage};
use recall_cli::time::{LocalDateTime, Timestamp};

fn at(year: i32, month: u32, day: u32, hour: u32, minute: u32, second: u32) -> Timestamp {
    Timestamp::from_local(LocalDateTime::new(year, month, day, hour, minute, second)).unwrap()
}

/// The file after appending `notes` one by one.
fn appended(notes: &[Note]) -> String {
    let mut content = String::new();
    for note in notes {
        content.push_str(&entry_text(note, !content.is_empty()));
    }
    content
}

#[test]
fn test_storage_roundtrip() {
    let note = Note::new("Test persistent note".to_string()).unwrap();
    let loaded = notes_from_text(&appended(&[note]));
    assert_eq!(loaded.len(), 1);
    assert_eq!(loaded[0].text, "Test persistent note");
}

#[test]
fn test_multi_note_roundtrip() {
    let note1 = Note::from_parts(at(2026, 3, 28, 10, 0, 0), "Note 1".to_string());
    let note2 = Note::from_parts(at(2026, 3, 28, 11, 0, 0), "Note 2".to_string());
    let loaded = notes_from_text(&appended(&[note1, note2]));
    assert_eq!(loaded.len(), 2);
    assert_eq!(loaded[0].text, "Note 2");
    assert_eq!(loaded[1].text, "Note 1");
}

#[test]
fn test_multiline_note_roundtrip() {
    let text = "Line 1\nLine 2\nLine 3";
    let note = Note::new(text.to_string()).unwrap();
    let loaded = notes_from_text(&appended(&[note]));
    assert_eq!(loaded.len(), 1);
    assert_eq!(loaded[0].text, text);
}

#[test]
fn test_empty_file_load() {
    let loaded = notes_from_text("");
    assert!(loaded.is_empty());
}

#[test]
fn test_load_notes_with_garbage_content() {
    let loaded = notes_from_text("This is garbage\nIt doesn't start with the note prefix");
    assert!(loaded.is_empty());
}

#[test]
fn test_note_body_with_note_like_line_is_not_split() {
    let text = "Line 1\n- [ ] Buy milk\nLine 3";
    let note = Note::new(text.to_string()).unwrap();
    let loaded = notes_from_text(&appended(&[note]));
    assert_eq!(loaded.len(), 1);
    assert_eq!(loaded[0].text, text);
}

#[test]
fn test_note_body_with_real_timestamp_is_split() {
    let text = "Line 1\n- [ ] 2026-03-28 14:30:00\nLine 3";
    let note = Note::new(text.to_string()).unwrap();
    let loaded = notes_from_text(&appended(&[note]));
    assert_eq!(loaded.len(), 2);
}

#[test]
fn test_save_notes_roundtrip() {
    let note1 = Note::from_parts_with_done(at(2026, 3, 28, 10, 0, 0), "Note 1".to_string(), true);
    let note2 = Note::from_parts_with_done(at(2026, 3, 28, 11, 0, 0), "Note 2".to_string(), false);
    let notes = vec![note1, note2];
    let loaded = notes_from_text(&notes_to_text(&notes));
    assert_eq!(loaded.len(), 2);
    assert_eq!(loaded[0].text, "Note 2");
    assert!(!loaded[0].done);
    assert_eq!(loaded[1].text, "Note 1");
    assert!(loaded[1].done);
}

#[test]
fn test_save_notes_with_toggles() {
    let note1 = Note::new("First note".to_string()).unwrap();
    let note2 = Note::new("Second note".to_string()).unwrap();
    let mut notes = notes_from_text(&appended(&[note1, note2]));
    notes[0].toggle_done();
    let loaded = notes_from_text(&notes_to_text(&notes));
    assert_eq!(loaded.len(), 2);
    assert!(loaded[0].done);
    assert!(!loaded[1].done);
}

// Further cases.

#[test]
fn notes_to_text_puts_a_blank_line_between_notes() {
    let note1 = Note::from_parts_with_done(at(2026, 3, 28, 10, 0, 0), "A".to_string(), true);
    let note2 = Note::from_parts(at(2026, 3, 29, 9, 5, 7), "B\nC".to_string());
    assert_eq!(
        notes_to_text(&[note1, note2]),
        "- [x] 2026-03-28 10:00:00\nA\n\n- [ ] 2026-03-29 09:05:07\nB\nC\n"
    );
    assert_eq!(notes_to_text(&[]), "");
}

#[test]
fn appending_matches_saving() {
    let note1 = Note::from_parts(at(2026, 3, 28, 10, 0, 0), "one".to_string());
    let note2 = Note::from_parts_with_done(at(2026, 3, 28, 11, 0, 0), "two".to_string(), true);
    assert_eq!(entry_text(&note1, false), "- [ ] 2026-03-28 10:00:00\none\n");
    assert_eq!(entry_text(&note2, true), "\n- [x] 2026-03-28 11:00:00\ntwo\n");
    let appended = entry_text(&note1, false) + &entry_text(&note2, true);
    assert_eq!(appended, notes_to_text(&[note1.clone(), note2.clone()]));
    let loaded = notes_from_text(&appended);
    assert_eq!(loaded.len(), 2);
    assert_eq!(loaded[0].text, "two");
    assert!(loaded[0].done);
    assert_eq!(loaded[1].text, "one");
}

#[test]
fn parse_drafts_keeps_file_order_and_skips_leading_garbage() {
    let content = "garbage\n- [ ] 2026-03-28 10:00:00\nfirst\n\n- [x] 2026-03-27 10:00:00\r\n  second  \r\n";
    let drafts = parse_drafts(content);
    // The garbage line opens a block of its own; a header right after it opens the next one.
    assert_eq!(drafts.len(), 2);
    assert_eq!(drafts[0].text, "first");
    assert!(!drafts[0].done);
    assert_eq!(drafts[1].text, "second");
    assert!(drafts[1].done);
    assert_eq!(drafts[1].local.day, 27);
}

#[test]
fn loading_sorts_newest_first_and_keeps_order_of_ties() {
    let content = "- [ ] 2026-03-28 10:00:00\na\n- [ ] 2026-03-29 10:00:00\nb\n- [ ] 2026-03-28 10:00:00\nc\n";
    let loaded = notes_from_text(content);
    let texts: Vec<&str> = loaded.iter().map(|n| n.text.as_str()).collect();
    assert_eq!(texts, vec!["b", "a", "c"]);
}

#[test]
fn sort_is_stable() {
    let t1 = at(2026, 1, 1, 0, 0, 0);
    let t2 = at(2026, 1, 2, 0, 0, 0);
    let notes = vec![
        Note::from_parts(t1, "1".to_string()),
        Note::from_parts(t2, "2".to_string()),
        Note::from_parts(t1, "3".to_string()),
        Note::from_parts(t2, "4".to_string()),
    ];
    let sorted = sort_newest_first(notes);
    let texts: Vec<&str> = sorted.iter().map(|n| n.text.as_str()).collect();
    assert_eq!(texts, vec!["2", "4", "1", "3"]);
}

#[test]
fn roundtrip_law_on_concrete_notes() {
    let notes = vec![
        Note::from_parts_with_done(at(2026, 3, 28, 10, 0, 0), "Line 1\n\nLine 3".to_string(), true),
        Note::from_parts(at(2025, 12, 31, 23, 59, 59), "".to_string()),
    ];
    let drafts = parse_drafts(&notes_to_text(&notes));
    assert_eq!(drafts.len(), 2);
    for (d, n) in drafts.iter().zip(notes.iter()) {
        assert_eq!(d.local, n.timestamp.local());
        assert_eq!(d.done, n.done);
        assert_eq!(d.text, n.text);
    }
}

#[test]
fn storage_keeps_its_path() {
    let storage = Storage::new("/tmp/notes.md".to_string()).unwrap();
    assert_eq!(storage.file_path(), "/tmp/notes.md");
}

#[test]
fn one_note_per_header_line() {
    let content = "preamble\n- [ ] 2026-03-28 10:00:00\na\n\n- [x] 2026-03-28 11:00:00\n\n- [ ] not a date\nb\n";
    let drafts = parse_drafts(content);
    assert_eq!(drafts.len(), 2);
    assert_eq!(drafts[0].text, "a");
    assert_eq!(drafts[1].text, "- [ ] not a date\nb");
}

#[test]
fn loading_gives_one_note_per_header_line() {
    let content = "stray line\n- [ ] 2026-03-28 10:00:00\na\n\n- [x] 2026-03-28 11:00:00\nb\n\n- [ ] 2026-03-27 09:00:00\nc\n";
    let loaded = notes_from_text(content);
    assert_eq!(loaded.len(), 3);
    assert_eq!(loaded[0].text, "b");
    assert_eq!(loaded[1].text, "a");
    assert_eq!(loaded[2].text, "c");
}
