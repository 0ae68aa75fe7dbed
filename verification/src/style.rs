//! Texts set off on the terminal. Whether they are set off at all depends on
//! the terminal and on the environment.

use vstd::prelude::*;

verus! {

/// `shown` is `text`, plain or in bold.
pub open spec fn shows_bold(shown: Seq<char>, text: Seq<char>) -> bool {
    shown == text || shown == "\u{1b}[1m"@ + text + "\u{1b}[0m"@
}

/// `shown` is `text`, plain or dimmed.
pub open spec fn shows_dim(shown: Seq<char>, text: Seq<char>) -> bool {
    shown == text || shown == "\u{1b}[2m"@ + text + "\u{1b}[0m"@
}

/// Calls `console::style` and `bold` on it. The text comes back unchanged where
/// colors are off for standard output, and else between the codes that switch
/// bold on and every attribute off. Which of the two is left open.
#[verifier::external_body]
pub(crate) fn bold(text: &str) -> (shown: String)
    ensures
        shows_bold(shown@, text@),
{
    console::style(text).bold().to_string()
}

/// Calls `console::style` and `dim` on it. The text comes back unchanged where
/// colors are off for standard output, and else between the codes that switch
/// dim on and every attribute off. Which of the two is left open.
#[verifier::external_body]
pub(crate) fn dim(text: &str) -> (shown: String)
    ensures
        shows_dim(shown@, text@),
{
    console::style(text).dim().to_string()
}

} // verus!
