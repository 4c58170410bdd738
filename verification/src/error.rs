//! What can go wrong in the library's part of the operation.

use crate::json::json_error_text;
use crate::pattern::pattern_error_text;
use vstd::prelude::*;
use vstd::string::StringExecFns;

verus! {

/// What is said of a root that does not exist.
pub const MISSING_ROOT: &'static str = "Directory does not exist";

/// What is said of a root that is no directory.
pub const ROOT_NOT_A_DIRECTORY: &'static str = "Path is not a directory";

/// Why the operation cannot go on. Every error ends the run: nothing is
/// skipped and nothing is tried again.
#[derive(Debug)]
pub enum SyncError {
    /// Nothing exists at the root.
    MissingRoot,
    /// What exists at the root is not a directory.
    NotADirectory,
    /// A dictionary file does not hold one JSON object.
    InvalidDictionary(serde_json::Error),
    /// The pattern of the flavor does not compile.
    InvalidPattern(regex::Error),
    /// A dictionary cannot be written as JSON.
    UnwritableDictionary(serde_json::Error),
}

impl SyncError {
    /// The error in words. A root that will not do is described by the
    /// library; the other errors are described by the crate they come from.
    pub fn message(&self) -> (message: String)
        ensures
            *self is MissingRoot ==> message@ == MISSING_ROOT@,
            *self is NotADirectory ==> message@ == ROOT_NOT_A_DIRECTORY@,
    {
        match self {
            SyncError::MissingRoot => String::from_str(MISSING_ROOT),
            SyncError::NotADirectory => String::from_str(ROOT_NOT_A_DIRECTORY),
            SyncError::InvalidDictionary(cause) => json_error_text(cause),
            SyncError::InvalidPattern(cause) => pattern_error_text(cause),
            SyncError::UnwritableDictionary(cause) => json_error_text(cause),
        }
    }
}

} // verus!
