use vstd::prelude::*;

verus! {

/// Why a request of the library was refused.
#[derive(Clone, Copy, Debug, PartialEq, Eq, Structural)]
pub enum RecallError {
    /// The text of a new note is empty or only white space.
    EmptyNoteText,
    /// The default notes file lies under the home directory, and there is none.
    HomeDirNotFound,
    /// The configured notes file starts with `~`, and there is no home directory.
    FilePathUnresolved,
    /// The current time cannot be read from the clock in the local time zone.
    ClockUnavailable,
}

impl RecallError {
    /// The message shown for this error.
    pub fn message(&self) -> (res: String)
        ensures
            res@ == match self {
                RecallError::EmptyNoteText => "Note text cannot be empty"@,
                RecallError::HomeDirNotFound => "Could not find home directory"@,
                RecallError::FilePathUnresolved =>
                    "Could not resolve file path: home directory not found"@,
                RecallError::ClockUnavailable => "Could not read the current time"@,
            },
    {
        match self {
            RecallError::EmptyNoteText => String::from_str("Note text cannot be empty"),
            RecallError::HomeDirNotFound => String::from_str("Could not find home directory"),
            RecallError::FilePathUnresolved => String::from_str(
                "Could not resolve file path: home directory not found",
            ),
            RecallError::ClockUnavailable => String::from_str("Could not read the current time"),
        }
    }
}

} // verus!
