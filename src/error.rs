//! The errors that stop a run.
use vstd::prelude::*;

verus! {

/// Why a run stopped.
#[derive(Debug)]
pub enum Error {
    /// An action on a file failed; `cause` is the system's message.
    IoError { action: String, path: String, cause: String },
    /// A line of the name table has no tab.
    InvalidNameToCodeFormat { path: String, line_number: usize, line: String },
    /// A line of the name table has a code too long to be one.
    InvalidLanguageCode { path: String, line_number: usize, line: String },
    /// The dump could not be read; the reader's message.
    DumpParsingError { message: String },
}

impl Error {
    /// The error for a failed file action.
    pub fn from_io(cause: String, action: &str, path: &str) -> (r: Error)
        ensures
            r matches Error::IoError { action: a, path: p, cause: c } && a@ == action@ && p@
                == path@ && c@ == cause@,
    {
        Error::IoError { action: action.to_owned(), path: path.to_owned(), cause }
    }
}

} // verus!
