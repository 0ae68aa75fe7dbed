//! Listing the installed formulas and why they are there.

use vstd::prelude::*;
use vstd::string::StringExecFns;

use crate::action::Action;
use crate::action::ActionView;
use crate::database;
use crate::error::Error;
use crate::installer::Installer;
use crate::ownership::FormulaView;
use crate::style;
use crate::style::bold;
use crate::style::dim;
use crate::text;
use crate::text::join;

verus! {

/// Why a formula is installed, in words.
pub open spec fn label(
    explicit: bool,
    explicit_category: Option<Seq<char>>,
    required_by: Seq<Seq<char>>,
) -> Seq<char> {
    let dependents = text::joined(required_by, ", "@);
    if !explicit {
        if required_by.len() == 0 {
            "implicit (orphan)"@
        } else {
            "implicit (required by "@ + dependents + ")"@
        }
    } else {
        let asked_for = match explicit_category {
            Some(category) => "explicit ["@ + category + "]"@,
            None => "explicit"@,
        };
        if required_by.len() == 0 {
            asked_for
        } else {
            asked_for + " (also required by "@ + dependents + ")"@
        }
    }
}

/// Says why a formula is installed: whether the user asked for it, under which
/// category, and which installed formulas directly depend on it.
pub fn ownership_label(
    explicit: bool,
    explicit_category: Option<&str>,
    required_by: &[String],
) -> (text: String)
    ensures
        text@ == label(
            explicit,
            database::str_option(explicit_category),
            text::texts(required_by@),
        ),
{
    let ghost dependents = text::joined(text::texts(required_by@), ", "@);
    let mut text = String::new();
    if !explicit {
        if required_by.len() == 0 {
            text.append("implicit (orphan)");
            assert(text@ =~= "implicit (orphan)"@);
        } else {
            text.append("implicit (required by ");
            text.append(join(required_by, ", ").as_str());
            text.append(")");
            assert(text@ =~= "implicit (required by "@ + dependents + ")"@);
        }
        return text;
    }
    match explicit_category {
        Some(category) => {
            text.append("explicit [");
            text.append(category);
            text.append("]");
            assert(text@ =~= "explicit ["@ + category@ + "]"@);
        },
        None => {
            text.append("explicit");
            assert(text@ =~= "explicit"@);
        },
    }
    if required_by.len() != 0 {
        text.append(" (also required by ");
        text.append(join(required_by, ", ").as_str());
        text.append(")");
    }
    text
}

/// The line of a formula, made of its name and version as they are shown and
/// of its label.
pub open spec fn line_text(name: Seq<char>, version: Seq<char>, label: Seq<char>) -> Seq<char> {
    name + " "@ + version + " "@ + label
}

/// Writes the line of a formula.
pub fn line(name: &str, version: &str, label: &str) -> (text: String)
    ensures
        text@ == line_text(name@, version@, label@),
{
    let mut text = String::new();
    text.append(name);
    text.append(" ");
    text.append(version);
    text.append(" ");
    text.append(label);
    assert(text@ =~= line_text(name@, version@, label@));
    text
}

/// `shown` prints the formula's name in bold, its version dimmed, and why it
/// is installed.
pub open spec fn prints(shown: ActionView, formula: FormulaView) -> bool {
    exists|name: Seq<char>, version: Seq<char>|
        {
            &&& #[trigger] style::shows_bold(name, formula.keg.name)
            &&& #[trigger] style::shows_dim(version, formula.keg.version)
            &&& shown == (ActionView::Print {
                text: line_text(
                    name,
                    version,
                    label(
                        formula.keg.explicit,
                        formula.keg.explicit_category,
                        formula.required_by,
                    ),
                ),
            })
        }
}

/// `lines` lists the formulas in their order, or says that there is none.
pub open spec fn prints_all(lines: Seq<ActionView>, formulas: Seq<FormulaView>) -> bool {
    if formulas.len() == 0 {
        lines == seq![ActionView::Print { text: "No formulas installed."@ }]
    } else {
        &&& lines.len() == formulas.len()
        &&& forall|i: int| 0 <= i < lines.len() ==> prints(#[trigger] lines[i], formulas[i])
    }
}

/// Prints the installed formulas in alphabetical order.
pub fn execute(installer: &mut Installer) -> (result: Result<(), Error>)
    requires
        old(installer).wf(),
    ensures
        final(installer).wf(),
        result is Ok,
        final(installer)@.db == old(installer)@.db,
        final(installer)@.stored == old(installer)@.stored,
        old(installer)@.pending.len() <= final(installer)@.pending.len(),
        final(installer)@.pending.take(old(installer)@.pending.len() as int)
            == old(installer)@.pending,
        prints_all(
            final(installer)@.pending.skip(old(installer)@.pending.len() as int),
            old(installer)@.db.formulas(text::ascending(old(installer)@.db.kegs.dom())),
        ),
{
    let installed = installer.list_installed_with_ownership();
    let ghost formulas = database::formula_views(installed@);
    let ghost start = installer@;
    let ghost from = start.pending.len() as int;
    if installed.is_empty() {
        installer.queue(Action::Print { text: "No formulas installed.".to_owned() });
        assert(installer@.pending.take(from) =~= start.pending);
        assert(installer@.pending.skip(from) =~= seq![
            ActionView::Print { text: "No formulas installed."@ },
        ]);
    } else {
        let mut i: usize = 0;
        assert(installer@.pending.take(from) =~= start.pending);
        while i < installed.len()
            invariant
                installer.wf(),
                i <= installed@.len(),
                formulas == database::formula_views(installed@),
                from == start.pending.len(),
                installer@.db == start.db,
                installer@.stored == start.stored,
                installer@.pending.len() == from + i,
                installer@.pending.take(from) == start.pending,
                forall|k: int|
                    0 <= k < i ==> prints(#[trigger] installer@.pending[from + k], formulas[k]),
            decreases installed@.len() - i,
        {
            let formula = &installed[i];
            let ghost queued = installer@.pending;
            let name = bold(formula.keg.name.as_str());
            let version = dim(formula.keg.version.as_str());
            let category: Option<&str> = match &formula.keg.explicit_category {
                Some(category) => Some(category.as_str()),
                None => None,
            };
            let why = ownership_label(
                formula.keg.explicit,
                category,
                formula.required_by.as_slice(),
            );
            let text = line(name.as_str(), version.as_str(), why.as_str());
            installer.queue(Action::Print { text });
            proof {
                let now = installer@.pending;
                assert(formulas[i as int] == formula@);
                assert(style::shows_bold(name@, formula@.keg.name));
                assert(style::shows_dim(version@, formula@.keg.version));
                assert(prints(now[from + i], formulas[i as int]));
                assert(now.take(from) =~= queued.take(from));
                assert forall|k: int| 0 <= k < i + 1 implies prints(
                    #[trigger] now[from + k],
                    formulas[k],
                ) by {
                    if k < i {
                        assert(now[from + k] == queued[from + k]);
                    }
                }
            }
            i = i + 1;
        }
        proof {
            let lines = installer@.pending.skip(from);
            assert forall|k: int| 0 <= k < lines.len() implies prints(
                #[trigger] lines[k],
                formulas[k],
            ) by {
                assert(lines[k] == installer@.pending[from + k]);
            }
        }
    }
    Ok(())
}

} // verus!
