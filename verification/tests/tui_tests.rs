use chrono::{Datelike, Duration, Local, Timelike};
use recall_cli::note::Note;
use recall_cli::tui::{Action, App, DisplayItem, Key, LineStyle};
use recall_cli::time::{LocalDate, LocalDateTime, Timestamp};

fn at(year: i32, month: u32, day: u32, hour: u32, minute: u32, second: u32) -> Timestamp {
    Timestamp::from_local(LocalDateTime::new(year, month, day, hour, minute, second)).unwrap()
}

fn from_chrono(dt: chrono::DateTime<Local>) -> Timestamp {
    at(dt.year(), dt.month(), dt.day(), dt.hour(), dt.minute(), dt.second())
}

#[test]
fn test_app_navigation() {
    let notes = vec![Note::new("Note 1".to_string()).unwrap(), Note::new("Note 2".to_string()).unwrap()];
    let mut app = App::new(notes).unwrap();

    let initial = app.selected().unwrap();
    assert!(matches!(app.display_items[initial], DisplayItem::Note(_)));

    app.next();
    let second = app.selected().unwrap();
    assert_ne!(initial, second);
    assert!(matches!(app.display_items[second], DisplayItem::Note(_)));

    app.previous();
    assert_eq!(app.selected(), Some(initial));
}

#[test]
fn test_app_empty_navigation() {
    let mut app = App::new(vec![]).unwrap();
    assert!(app.display_items.is_empty());
    assert_eq!(app.selected(), None);
    app.next();
    app.previous();
}

#[test]
fn test_app_toggle_done() {
    let notes = vec![Note::new("Note 1".to_string()).unwrap(), Note::new("Note 2".to_string()).unwrap()];
    let mut app = App::new(notes).unwrap();

    assert!(!app.notes[0].done);
    app.notes[0].toggle_done();
    assert!(app.notes[0].done);
    app.notes[0].toggle_done();
    assert!(!app.notes[0].done);

    app.next();
    assert!(!app.notes[1].done);
    app.notes[1].toggle_done();
    assert!(app.notes[1].done);
}

#[test]
fn test_build_display_items_same_day() {
    let notes = vec![
        Note::from_parts(at(2026, 3, 28, 12, 0, 0), "Morning note".to_string()),
        Note::from_parts(at(2026, 3, 28, 14, 0, 0), "Afternoon note".to_string()),
        Note::from_parts(at(2026, 3, 28, 16, 0, 0), "Evening note".to_string()),
    ];

    let display_items = App::build_display_items(&notes).unwrap();

    assert_eq!(display_items.len(), 4);
    assert!(matches!(display_items[0], DisplayItem::DayHeader(_)));
    assert!(matches!(display_items[1], DisplayItem::Note(0)));
    assert!(matches!(display_items[2], DisplayItem::Note(1)));
    assert!(matches!(display_items[3], DisplayItem::Note(2)));

    if let DisplayItem::DayHeader(header) = &display_items[0] {
        assert_eq!(header, "2026-03-28");
    } else {
        panic!("Expected DayHeader");
    }
}

#[test]
fn test_build_display_items_multiple_days() {
    let yesterday = Local::now() - Duration::days(1);
    let today = Local::now();
    let notes = vec![
        Note::from_parts(from_chrono(yesterday), "Yesterday note".to_string()),
        Note::from_parts(from_chrono(today), "Today note".to_string()),
    ];

    let display_items = App::build_display_items(&notes).unwrap();
    assert_eq!(display_items.len(), 4);

    let headers: Vec<String> = display_items
        .iter()
        .filter_map(|item| match item {
            DisplayItem::DayHeader(text) => Some(text.clone()),
            _ => None,
        })
        .collect();
    assert_eq!(headers.len(), 2);

    let notes_indices: Vec<usize> = display_items
        .iter()
        .filter_map(|item| match item {
            DisplayItem::Note(idx) => Some(*idx),
            _ => None,
        })
        .collect();
    assert_eq!(notes_indices, vec![0, 1]);
}

#[test]
fn test_build_display_items_old_date() {
    let notes = vec![Note::from_parts(at(2026, 3, 28, 10, 0, 0), "Old note".to_string())];
    let display_items = App::build_display_items(&notes).unwrap();

    assert_eq!(display_items.len(), 2);
    if let DisplayItem::DayHeader(header) = &display_items[0] {
        assert_eq!(header, "2026-03-28");
    } else {
        panic!("Expected DayHeader with date");
    }
    assert!(matches!(display_items[1], DisplayItem::Note(0)));
}

#[test]
fn test_wrap_around_single_note() {
    let notes = vec![Note::from_parts(at(2026, 3, 30, 12, 0, 0), "Only note".to_string())];
    let mut app = App::new(notes).unwrap();

    let initial = app.selected().unwrap_or(0);
    assert_eq!(initial, 1);

    app.next();
    let after_next = app.selected().unwrap_or(0);
    assert_eq!(after_next, 1);

    app.previous();
    let after_prev = app.selected().unwrap_or(0);
    assert_eq!(after_prev, 1);
}

#[test]
fn test_wrap_around_cross_group() {
    let notes = vec![
        Note::from_parts(at(2026, 3, 29, 12, 0, 0), "Day 1 note".to_string()),
        Note::from_parts(at(2026, 3, 30, 12, 0, 0), "Day 2 note".to_string()),
    ];
    let mut app = App::new(notes).unwrap();

    let first_note = app.selected().unwrap_or(0);
    assert!(matches!(app.display_items[first_note], DisplayItem::Note(_)));

    app.next();
    let second_note = app.selected().unwrap_or(0);
    assert_ne!(first_note, second_note);
    assert!(matches!(app.display_items[second_note], DisplayItem::Note(_)));

    app.next();
    let wrapped = app.selected().unwrap_or(0);
    assert_eq!(wrapped, first_note);

    app.previous();
    let wrapped_back = app.selected().unwrap_or(0);
    assert_eq!(wrapped_back, second_note);
}

#[test]
fn test_relative_labels() {
    let today = Local::now().date_naive();
    let yesterday = today - Duration::days(1);

    let notes = vec![
        Note::from_parts(at(today.year(), today.month(), today.day(), 12, 0, 0), "Today note".to_string()),
        Note::from_parts(
            at(yesterday.year(), yesterday.month(), yesterday.day(), 12, 0, 0),
            "Yesterday note".to_string(),
        ),
    ];

    let display_items = App::build_display_items(&notes).unwrap();
    assert_eq!(display_items.len(), 4);

    let headers: Vec<String> = display_items
        .iter()
        .filter_map(|item| match item {
            DisplayItem::DayHeader(text) => Some(text.clone()),
            _ => None,
        })
        .collect();
    assert_eq!(headers.len(), 2);

    let has_today = headers.iter().any(|h| h == "Today");
    let has_yesterday = headers.iter().any(|h| h == "Yesterday");
    assert!(has_today, "Expected to find 'Today' label in headers, got: {:?}", headers);
    assert!(has_yesterday, "Expected to find 'Yesterday' label in headers, got: {:?}", headers);
}

#[test]
fn test_format_note_line_shows_time_only() {
    let note = Note::from_parts(at(2026, 3, 31, 14, 30, 45), "Test note".to_string());
    let formatted = App::format_note_line(&note);
    assert_eq!(formatted, "14:30:45 - Test note");
}

#[test]
fn test_format_note_line_multiline_shows_first_line() {
    let note = Note::from_parts(at(2026, 3, 31, 14, 30, 45), "First line\nSecond line\nThird line".to_string());
    let formatted = App::format_note_line(&note);
    assert_eq!(formatted, "14:30:45 - First line");
}

#[test]
fn test_format_note_line_done_note_same_format() {
    let mut note = Note::from_parts(at(2026, 3, 31, 14, 30, 45), "Test note".to_string());
    let formatted_undone = App::format_note_line(&note);
    note.toggle_done();
    let formatted_done = App::format_note_line(&note);
    assert_eq!(formatted_undone, formatted_done);
    assert_eq!(formatted_done, "14:30:45 - Test note");
}

// Further cases.

fn d(year: i32, month: u32, day: u32) -> LocalDate {
    LocalDate { year, month, day }
}

#[test]
fn labels_are_relative_to_the_given_day() {
    let notes = vec![
        Note::from_parts(at(2026, 3, 1, 9, 0, 0), "a".to_string()),
        Note::from_parts(at(2026, 2, 28, 9, 0, 0), "b".to_string()),
        Note::from_parts(at(2026, 2, 28, 8, 0, 0), "c".to_string()),
        Note::from_parts(at(2026, 2, 1, 8, 0, 0), "d".to_string()),
    ];
    let items = App::build_display_items_on(&notes, d(2026, 3, 1));
    let texts: Vec<String> = items
        .iter()
        .map(|i| match i {
            DisplayItem::DayHeader(t) => t.clone(),
            DisplayItem::Note(k) => k.to_string(),
        })
        .collect();
    assert_eq!(texts, vec!["Today", "0", "Yesterday", "1", "2", "2026-02-01", "3"]);
}

#[test]
fn first_note_index_skips_headers() {
    let items = vec![DisplayItem::DayHeader("x".to_string()), DisplayItem::DayHeader("y".to_string()), DisplayItem::Note(0)];
    assert_eq!(App::first_note_index(&items), Some(2));
    assert_eq!(App::first_note_index(&[]), None);
}

#[test]
fn keys_move_toggle_and_quit() {
    let notes = vec![
        Note::from_parts(at(2026, 3, 29, 12, 0, 0), "one".to_string()),
        Note::from_parts(at(2026, 3, 30, 12, 0, 0), "two".to_string()),
    ];
    let mut app = App::with_today(notes, d(2026, 4, 1));
    assert_eq!(app.selected(), Some(1));
    assert!(matches!(app.handle_key(Key::Down), Action::Continue));
    assert_eq!(app.selected(), Some(3));
    assert!(matches!(app.handle_key(Key::Up), Action::Continue));
    assert_eq!(app.selected(), Some(1));
    assert!(matches!(app.handle_key(Key::Up), Action::Continue));
    assert_eq!(app.selected(), Some(3));
    match app.handle_key(Key::ToggleDone) {
        Action::Save(saved) => {
            assert!(!saved[0].done);
            assert!(saved[1].done);
            assert!(!app.notes[1].done);
            app.accept_saved_on(saved, d(2026, 4, 1));
            assert!(app.notes[1].done);
            assert_eq!(app.selected(), Some(3));
        }
        _ => panic!("expected notes to store"),
    }
    assert!(matches!(app.handle_key(Key::Other), Action::Continue));
    assert!(matches!(app.handle_key(Key::Quit), Action::Quit));
}

#[test]
fn toggle_on_a_heading_saves_nothing() {
    let notes = vec![Note::from_parts(at(2026, 3, 29, 12, 0, 0), "one".to_string())];
    let mut app = App::with_today(notes, d(2026, 4, 1));
    app.selected = Some(0);
    assert!(app.toggled_notes().is_none());
    assert!(matches!(app.handle_key(Key::ToggleDone), Action::Continue));
}

#[test]
fn list_lines_style_headings_and_done_notes() {
    let mut notes = vec![
        Note::from_parts(at(2026, 3, 29, 12, 0, 0), "one\ntwo".to_string()),
        Note::from_parts(at(2026, 3, 29, 13, 0, 0), "three".to_string()),
    ];
    notes[1].toggle_done();
    let app = App::with_today(notes, d(2026, 3, 30));
    let lines = app.build_list_items();
    assert_eq!(lines.len(), 3);
    assert_eq!(lines[0].text, "Yesterday");
    assert_eq!(lines[0].style, LineStyle::Heading);
    assert_eq!(lines[1].text, "12:00:00 - one");
    assert_eq!(lines[1].style, LineStyle::Open);
    assert_eq!(lines[2].text, "13:00:00 - three");
    assert_eq!(lines[2].style, LineStyle::Done);
}

#[test]
fn next_then_previous_law_on_concrete_rows() {
    let notes = vec![
        Note::from_parts(at(2026, 3, 27, 12, 0, 0), "a".to_string()),
        Note::from_parts(at(2026, 3, 28, 12, 0, 0), "b".to_string()),
        Note::from_parts(at(2026, 3, 28, 13, 0, 0), "c".to_string()),
    ];
    let mut app = App::with_today(notes, d(2026, 4, 1));
    for _ in 0..5 {
        let start = app.selected();
        app.next();
        app.previous();
        assert_eq!(app.selected(), start);
        app.next();
    }
}

#[test]
fn previous_then_next_law_on_concrete_rows() {
    let notes = vec![
        Note::from_parts(at(2026, 3, 27, 12, 0, 0), "a".to_string()),
        Note::from_parts(at(2026, 3, 28, 12, 0, 0), "b".to_string()),
        Note::from_parts(at(2026, 3, 28, 13, 0, 0), "c".to_string()),
    ];
    let mut app = App::with_today(notes, d(2026, 4, 1));
    for _ in 0..5 {
        let start = app.selected();
        app.previous();
        assert_ne!(app.selected(), start);
        app.next();
        assert_eq!(app.selected(), start);
        app.previous();
    }
}

#[test]
fn empty_browser_needs_no_clock() {
    let app = App::new(vec![]).unwrap();
    assert!(app.display_items.is_empty());
    assert_eq!(app.selected(), None);
}

#[test]
fn toggling_twice_gives_back_the_notes() {
    let notes = vec![
        Note::from_parts(at(2026, 3, 28, 12, 0, 0), "a".to_string()),
        Note::from_parts_with_done(at(2026, 3, 28, 13, 0, 0), "b".to_string(), true),
    ];
    let before = recall_cli::storage::notes_to_text(&notes);
    let mut app = App::with_today(notes, d(2026, 4, 1));
    app.next();
    for _ in 0..2 {
        match app.handle_key(Key::ToggleDone) {
            Action::Save(saved) => app.accept_saved_on(saved, d(2026, 4, 1)),
            _ => panic!("expected a save"),
        }
    }
    assert_eq!(recall_cli::storage::notes_to_text(&app.notes), before);
}
