//! Removing dependencies that nothing needs any more.

use vstd::prelude::*;
use vstd::string::StringExecFns;

use crate::action;
use crate::action::Action;
use crate::action::ActionView;
use crate::error::Error;
use crate::installer::Installer;
use crate::installer::InstallerView;
use crate::text;
use crate::text::join;

verus! {

/// What is said of the formulas that a sweep removed.
pub open spec fn report_text(removed: Seq<Seq<char>>) -> Seq<char> {
    if removed.len() == 0 {
        "No unused dependencies."@
    } else {
        "Removed unused dependencies: "@ + text::joined(removed, ", "@)
    }
}

/// Says which formulas a sweep removed.
pub fn report(removed: &[String]) -> (message: String)
    ensures
        message@ == report_text(text::texts(removed@)),
{
    if removed.len() == 0 {
        "No unused dependencies.".to_owned()
    } else {
        let mut message = String::new();
        message.append("Removed unused dependencies: ");
        message.append(join(removed, ", ").as_str());
        assert(message@ =~= report_text(text::texts(removed@)));
        message
    }
}

/// Sweeps, then reports what was removed.
pub fn execute(installer: &mut Installer) -> (result: Result<(), Error>)
    requires
        old(installer).wf(),
    ensures
        final(installer).wf(),
        result is Ok,
        final(installer)@ == (InstallerView {
            db: old(installer)@.db.swept(),
            stored: old(installer)@.stored,
            pending: old(installer)@.pending + action::removals(
                old(installer)@.db,
                old(installer)@.db.sweep_order(),
            ) + seq![ActionView::Info { text: report_text(old(installer)@.db.sweep_order()) }],
        }),
{
    match installer.autoremove() {
        Ok(removed) => {
            installer.queue(Action::Info { text: report(removed.as_slice()) });
            Ok(())
        },
        Err(error) => Err(error),
    }
}

} // verus!
