//! What the client says when it has crashed.

use vstd::prelude::*;
use vstd::string::StringExecFns;

verus! {

/// The text of the dialog that tells of a crash, with the path of the crash
/// log where one was written.
pub open spec fn dialog_text(crash_log_path: Option<Seq<char>>) -> Seq<char> {
    match crash_log_path {
        Some(path) => "yagg crashed unexpectedly.\n\nDetails saved to:\n"@ + path,
        None => "yagg crashed unexpectedly.\n\nCould not write crash log."@,
    }
}

/// The text of the dialog that tells of a crash.
pub fn crash_dialog_text(crash_log_path: Option<&str>) -> (text: String)
    ensures
        text@ == dialog_text(
            match crash_log_path {
                Some(path) => Some(path@),
                None => None,
            },
        ),
{
    match crash_log_path {
        Some(path) => String::from_str("yagg crashed unexpectedly.\n\nDetails saved to:\n").concat(
            path,
        ),
        None => String::from_str("yagg crashed unexpectedly.\n\nCould not write crash log."),
    }
}

} // verus!
