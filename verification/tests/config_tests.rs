use recall_cli::config::{config_error_message, config_path, has_backslash_in_double_quotes, resolve_file_path, Config};
use std::path::PathBuf;

fn notebooks(entries: &[(&str, &str)]) -> Option<Vec<(String, String)>> {
    Some(entries.iter().map(|(k, v)| (k.to_string(), v.to_string())).collect())
}

#[test]
fn test_resolve_file_path_default() {
    let config = Config::default();
    let path = PathBuf::from(resolve_file_path(&config).unwrap());
    assert!(path.ends_with(".recall/notes.md") || path.ends_with(".recall\\notes.md"));
}

#[test]
fn test_resolve_file_path_custom() {
    let config = Config { file: Some("/tmp/test_notes.md".to_string()), notebooks: None };
    let path = resolve_file_path(&config).unwrap();
    assert_eq!(path, "/tmp/test_notes.md");
}

#[test]
fn test_resolve_file_path_tilde() {
    let config = Config { file: Some("~/vault/notes.md".to_string()), notebooks: None };
    let path = PathBuf::from(resolve_file_path(&config).unwrap());
    let home = dirs::home_dir().unwrap();
    let expected = home.join("vault/notes.md");
    assert_eq!(path, expected);
}

#[test]
fn test_resolve_file_path_tilde_only() {
    let config = Config { file: Some("~/".to_string()), notebooks: None };
    let path = PathBuf::from(resolve_file_path(&config).unwrap());
    let home = dirs::home_dir().unwrap();
    assert_eq!(path, home);
}

#[test]
fn test_resolve_notebook_path() {
    let config = Config {
        file: Some("/path/to/default.md".to_string()),
        notebooks: notebooks(&[("w", "/path/to/work.md"), ("p", "~/notes/personal.md")]),
    };

    let work_path = config.resolve_notebook_path("w");
    assert!(work_path.is_some());
    assert_eq!(work_path.unwrap(), "/path/to/work.md");

    let personal_path = config.resolve_notebook_path("p");
    assert!(personal_path.is_some());
    let home = dirs::home_dir().unwrap();
    assert_eq!(PathBuf::from(personal_path.unwrap()), home.join("notes/personal.md"));

    assert!(config.resolve_notebook_path("x").is_none());
}

#[test]
fn test_resolve_notebook_path_no_notebooks() {
    let config = Config::default();
    assert!(config.resolve_notebook_path("w").is_none());
}

#[test]
fn test_load_config_windows_path_hint() {
    let content = "file = 'C:\\some\\path.md'\n\n[notebooks]\nw = \"C:\\Data\\notes.md\"\n";
    let error = toml::from_str::<toml::Table>(content).unwrap_err().to_string();
    let err = config_error_message(content, &error);
    assert!(err.contains("Failed to parse config.toml"));
    assert!(err.contains("Hint: Windows paths with backslashes must use single quotes"));
}

#[test]
fn test_load_config_other_errors_no_windows_hint() {
    let content = "file = '/path/to/notes.md'\n\n[notebooks\nw = '/path/to/work.md'\n";
    let error = toml::from_str::<toml::Table>(content).unwrap_err().to_string();
    let err = config_error_message(content, &error);
    assert!(!err.contains("Hint: Windows paths with backslashes must use single quotes"));
}

// Further cases.

#[test]
fn error_message_without_hint_is_the_parser_message() {
    assert_eq!(config_error_message("a = 1", "bad"), "bad");
    assert_eq!(config_error_message("a = \"x\"", "bad"), "bad");
}

#[test]
fn error_message_with_hint_wraps_the_parser_message() {
    let msg = config_error_message("w = \"C:\\x\"", "bad");
    assert!(msg.starts_with("Failed to parse config.toml: bad\n\nHint: "));
    assert!(msg.ends_with("w = \"C:\\\\Data\\\\Obsidian\\\\vault\\\\notes.md\""));
}

#[test]
fn backslash_scan_tracks_double_quotes() {
    assert!(has_backslash_in_double_quotes("a = \"C:\\x\""));
    assert!(!has_backslash_in_double_quotes("a = 'C:\\x'"));
    assert!(!has_backslash_in_double_quotes("a = \"x\" \\"));
    assert!(has_backslash_in_double_quotes("a = \"x\" b = \"\\"));
}

#[test]
fn expand_path_with_home_cases() {
    let home = Some("/home/u".to_string());
    assert_eq!(Config::expand_path_with_home("/abs/p", None), Some("/abs/p".to_string()));
    assert_eq!(Config::expand_path_with_home("~", home.clone()), Some("/home/u".to_string()));
    assert_eq!(Config::expand_path_with_home("~", None), None);
    assert_eq!(Config::expand_path_with_home("~/a/b", home.clone()), Some("/home/u/a/b".to_string()));
    assert_eq!(Config::expand_path_with_home("~/a", None), None);
    assert_eq!(Config::expand_path_with_home("~user/a", None), Some("~user/a".to_string()));
}

#[test]
fn notebook_lookup_returns_the_listed_path() {
    let config = Config { file: None, notebooks: notebooks(&[("a", "1"), ("b", "2")]) };
    assert_eq!(config.notebook("b"), Some("2".to_string()));
    assert_eq!(config.notebook("c"), None);
}

#[test]
fn config_path_prefers_the_given_file() {
    assert_eq!(config_path(Some("/x/c.toml".to_string())), Some("/x/c.toml".to_string()));
    let default = PathBuf::from(config_path(None).unwrap());
    assert!(default.ends_with(".recall/config.toml"));
}

#[test]
fn hint_follows_backslashes_after_an_odd_number_of_quotes() {
    // A backslash after one double quote: inside a double-quoted string.
    assert!(config_error_message("w = \"C:\\Data\"", "bad").starts_with("Failed to parse config.toml: bad"));
    // Backslashes after two double quotes only: outside any double-quoted string.
    assert_eq!(config_error_message("a = \"x\"\nw = 'C:\\Data'", "bad"), "bad");
    // A double quote inside single quotes still counts.
    assert!(config_error_message("w = 'say \"hi' \\", "bad").contains("Hint: Windows paths"));
}

#[test]
fn unique_notebook_names_are_checked() {
    let config = Config { file: None, notebooks: notebooks(&[("w", "/w.md"), ("p", "/p.md")]) };
    assert!(config.has_unique_names());
    let twice = Config { file: None, notebooks: notebooks(&[("w", "/w.md"), ("p", "/p.md"), ("w", "/x.md")]) };
    assert!(!twice.has_unique_names());
    assert_eq!(twice.notebook("w"), Some("/w.md".to_string()));
    assert!(Config::default().has_unique_names());
}
