//! The commands: what they do with the installer and what they report.

use vstd::prelude::*;
use vstd::string::StringExecFns;

use crate::error::Error;
use crate::error::ErrorView;

pub mod autoremove;
pub mod list;
pub mod uninstall;

verus! {

/// The error that a result holds, if any.
pub open spec fn failure(result: Result<(), Error>) -> Option<ErrorView> {
    match result {
        Ok(_) => None,
        Err(error) => Some(error@),
    }
}

/// The error for output that could not be written, with the reason that the
/// machine gave.
pub fn ui_error(reason: &str) -> (error: Error)
    ensures
        error@ == (ErrorView::StoreCorruption {
            message: "failed to write CLI output: "@ + reason@,
        }),
{
    let mut message = String::new();
    message.append("failed to write CLI output: ");
    message.append(reason);
    assert(message@ =~= "failed to write CLI output: "@ + reason@);
    Error::StoreCorruption { message }
}

} // verus!
