//! The errors of the library.

use vstd::prelude::*;
use vstd::string::StringExecFns;
use crate::text::{digits, push_decimal};

verus! {

#[derive(Debug)]
pub enum AppError {
    /// The version-control backend failed; its message.
    Git(String),
    /// No repository is open.
    NoRepository,
    /// A path or a request that cannot be served.
    InvalidPath(String),
    /// Reading or writing a file failed; the message.
    Io(String),
    /// The text no longer matches the change that was to be reverted.
    RevertConflict(String),
    /// `index` was asked of a list of `len` items.
    IndexOutOfRange { index: usize, len: usize },
}

impl AppError {
    /// The message of the error, as it is shown.
    pub open spec fn message(self) -> Seq<char> {
        match self {
            AppError::Git(m) => "Git error: "@ + m@,
            AppError::NoRepository => "No repository open"@,
            AppError::InvalidPath(p) => "Invalid path: "@ + p@,
            AppError::Io(m) => "IO error: "@ + m@,
            AppError::RevertConflict(m) => "Revert conflict: "@ + m@,
            AppError::IndexOutOfRange { index, len } => "Invalid path: Hunk index "@ + digits(
                index as nat,
            ) + " out of range"@,
        }
    }

    /// The message of the error, as it is shown.
    pub fn to_string(&self) -> (shown: String)
        ensures
            shown@ == self.message(),
    {
        match self {
            AppError::Git(m) => String::from_str("Git error: ").concat(m.as_str()),
            AppError::NoRepository => String::from_str("No repository open"),
            AppError::InvalidPath(p) => String::from_str("Invalid path: ").concat(p.as_str()),
            AppError::Io(m) => String::from_str("IO error: ").concat(m.as_str()),
            AppError::RevertConflict(m) => String::from_str("Revert conflict: ").concat(
                m.as_str(),
            ),
            AppError::IndexOutOfRange { index, len } => {
                let mut shown = String::from_str("Invalid path: Hunk index ");
                push_decimal(&mut shown, *index as u64);
                shown.append(" out of range");
                shown
            },
        }
    }
}

} // verus!
