//! Quick note-taking: notes stored as Obsidian-compatible markdown checkboxes,
//! notebooks resolved from a configuration, and the state of a note browser.

pub mod cli;
pub mod config;
pub mod error;
pub mod text;
pub mod time;
pub mod tui;
pub mod note;
pub mod storage;
