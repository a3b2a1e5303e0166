//! The failures that the library's operations report.
use vstd::prelude::*;

verus! {

/// One kind of failure, so that callers branch on the kind rather than on
/// message text.
#[derive(Debug, Clone, PartialEq, Eq)]
pub enum CoreError {
    /// The display tool could not be started; carries the reason.
    ExternalToolUnavailable(String),
    /// The display tool ran and exited unsuccessfully; carries its stderr.
    ExternalToolFailed(String),
    /// The report held no display at all.
    ParseFailure,
    /// The preset file exists but could not be read or understood.
    StoreReadFailure(String),
    /// The preset file could not be written.
    StoreWriteFailure(String),
    /// No preset has the requested id.
    PresetNotFound,
    /// A new preset's id is already taken in the store; carries the id.
    DuplicateId(String),
    /// The shortcut string is not a valid shortcut; carries the string.
    HotkeyInvalidFormat(String),
    /// The shortcut is already bound; carries the shortcut.
    HotkeyAlreadyRegistered(String),
}

} // verus!
