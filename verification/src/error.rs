//! Why an operation did not succeed.

use vstd::prelude::*;

use crate::text;

verus! {

#[derive(Debug, PartialEq, Eq)]
pub enum Error {
    /// The formula is not installed.
    NotInstalled { name: String },
    /// Installed formulas still depend on the formula.
    RequiredBy { name: String, dependents: Vec<String> },
    /// What the installer keeps could not be read or written.
    StoreCorruption { message: String },
    /// The machine refused, in its own words.
    External { message: String },
}

/// An error as its texts.
#[verifier::ext_equal]
pub enum ErrorView {
    NotInstalled { name: Seq<char> },
    RequiredBy { name: Seq<char>, dependents: Seq<Seq<char>> },
    StoreCorruption { message: Seq<char> },
    External { message: Seq<char> },
}

impl View for Error {
    type V = ErrorView;

    open spec fn view(&self) -> ErrorView {
        match self {
            Error::NotInstalled { name } => ErrorView::NotInstalled { name: name@ },
            Error::RequiredBy { name, dependents } => ErrorView::RequiredBy {
                name: name@,
                dependents: text::texts(dependents@),
            },
            Error::StoreCorruption { message } => ErrorView::StoreCorruption {
                message: message@,
            },
            Error::External { message } => ErrorView::External { message: message@ },
        }
    }
}

} // verus!
