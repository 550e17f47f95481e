use recall_cli::cli::{handle_external_command, note_to_add, route_external_command, ExternalCommand};
use recall_cli::config::Config;
use recall_cli::error::RecallError;
use recall_cli::storage::Storage;

fn create_test_config(work_path: &str, personal_path: &str) -> Config {
    Config {
        file: None,
        notebooks: Some(vec![
            ("w".to_string(), work_path.to_string()),
            ("p".to_string(), personal_path.to_string()),
        ]),
    }
}

fn words(args: &[&str]) -> Vec<String> {
    args.iter().map(|s| s.to_string()).collect()
}

#[test]
fn test_external_notebook_shorthand() {
    let config = create_test_config("/tmp/recall/work.md", "/tmp/recall/personal.md");
    let default_storage = Storage::new("/tmp/recall/default.md".to_string()).unwrap();
    let result = handle_external_command(&words(&["w", "work note"]), &config, &default_storage);
    match result {
        ExternalCommand::AddNote { storage, text } => {
            assert_eq!(storage.file_path(), "/tmp/recall/work.md");
            assert_eq!(text, "work note");
        }
        _ => panic!("expected a note to add"),
    }
}

#[test]
fn test_external_non_notebook_fallback() {
    let config = create_test_config("/tmp/recall/work.md", "/tmp/recall/personal.md");
    let default_storage = Storage::new("/tmp/recall/default.md".to_string()).unwrap();
    let result = handle_external_command(&words(&["not", "a", "notebook"]), &config, &default_storage);
    match result {
        ExternalCommand::AddNote { storage, text } => {
            assert_eq!(storage.file_path(), "/tmp/recall/default.md");
            assert_eq!(text, "not a notebook");
        }
        _ => panic!("expected a note to add"),
    }
}

#[test]
fn test_add_note_rejects_empty_text() {
    let result = note_to_add("".to_string());
    assert!(result.is_err());
    let err = result.unwrap_err().message();
    assert!(err.contains("empty"));

    let result = note_to_add("   ".to_string());
    assert!(result.is_err());
    let err = result.unwrap_err().message();
    assert!(err.contains("empty"));
}

// Further cases.

#[test]
fn notebook_alone_is_browsed() {
    let config = create_test_config("/tmp/recall/work.md", "/tmp/recall/personal.md");
    let default_storage = Storage::new("/tmp/recall/default.md".to_string()).unwrap();
    match handle_external_command(&words(&["p"]), &config, &default_storage) {
        ExternalCommand::Browse { storage } => assert_eq!(storage.file_path(), "/tmp/recall/personal.md"),
        _ => panic!("expected browsing"),
    }
}

#[test]
fn routing_with_a_given_notebook() {
    let default_storage = Storage::new("/d.md".to_string()).unwrap();
    match route_external_command(&words(&["w", "a", "b"]), Some("/w.md".to_string()), &default_storage) {
        ExternalCommand::AddNote { storage, text } => {
            assert_eq!(storage.file_path(), "/w.md");
            assert_eq!(text, "a b");
        }
        _ => panic!("expected a note to add"),
    }
    match route_external_command(&words(&["single"]), None, &default_storage) {
        ExternalCommand::AddNote { storage, text } => {
            assert_eq!(storage.file_path(), "/d.md");
            assert_eq!(text, "single");
        }
        _ => panic!("expected a note to add"),
    }
}

#[test]
fn note_to_add_keeps_text() {
    let note = note_to_add("  keep spaces  ".to_string()).unwrap();
    assert_eq!(note.text, "  keep spaces  ");
    assert!(!note.done);
    assert_eq!(note_to_add("\u{3000}\t\n".to_string()).unwrap_err(), RecallError::EmptyNoteText);
}

#[test]
fn error_messages() {
    assert_eq!(RecallError::EmptyNoteText.message(), "Note text cannot be empty");
    assert_eq!(RecallError::HomeDirNotFound.message(), "Could not find home directory");
    assert_eq!(
        RecallError::FilePathUnresolved.message(),
        "Could not resolve file path: home directory not found"
    );
    assert_eq!(RecallError::ClockUnavailable.message(), "Could not read the current time");
}

fn added(c: ExternalCommand) -> (String, String) {
    match c {
        ExternalCommand::AddNote { storage, text } => (storage.file_path().to_string(), text),
        _ => panic!("expected a note to add"),
    }
}

fn listed(c: ExternalCommand) -> String {
    match c {
        ExternalCommand::List { storage } => storage.file_path().to_string(),
        _ => panic!("expected listing"),
    }
}

#[test]
fn add_subcommand_adds_the_following_words() {
    let config = create_test_config("/tmp/recall/work.md", "/tmp/recall/personal.md");
    let default_storage = Storage::new("/tmp/recall/default.md".to_string()).unwrap();
    let (path, text) = added(handle_external_command(&words(&["add", "x"]), &config, &default_storage));
    assert_eq!(path, "/tmp/recall/default.md");
    assert_eq!(text, "x");
    let (path, text) =
        added(handle_external_command(&words(&["w", "add", "sprint", "review"]), &config, &default_storage));
    assert_eq!(path, "/tmp/recall/work.md");
    assert_eq!(text, "sprint review");
    let (path, text) = added(handle_external_command(&words(&["add"]), &config, &default_storage));
    assert_eq!(path, "/tmp/recall/default.md");
    assert_eq!(text, "");
}

#[test]
fn list_subcommand_lists_a_file() {
    let config = create_test_config("/tmp/recall/work.md", "/tmp/recall/personal.md");
    let default_storage = Storage::new("/tmp/recall/default.md".to_string()).unwrap();
    assert_eq!(
        listed(handle_external_command(&words(&["list"]), &config, &default_storage)),
        "/tmp/recall/default.md"
    );
    assert_eq!(
        listed(handle_external_command(&words(&["w", "list"]), &config, &default_storage)),
        "/tmp/recall/work.md"
    );
    let (path, text) = added(handle_external_command(&words(&["w", "list", "of", "things"]), &config, &default_storage));
    assert_eq!(path, "/tmp/recall/work.md");
    assert_eq!(text, "list of things");
}

#[test]
fn reserved_words_are_never_notebooks() {
    let config = Config {
        file: None,
        notebooks: Some(vec![
            ("add".to_string(), "/tmp/recall/add.md".to_string()),
            ("list".to_string(), "/tmp/recall/list.md".to_string()),
        ]),
    };
    let default_storage = Storage::new("/tmp/recall/default.md".to_string()).unwrap();
    let (path, text) = added(handle_external_command(&words(&["add", "milk"]), &config, &default_storage));
    assert_eq!(path, "/tmp/recall/default.md");
    assert_eq!(text, "milk");
    assert_eq!(
        listed(handle_external_command(&words(&["list"]), &config, &default_storage)),
        "/tmp/recall/default.md"
    );
}
