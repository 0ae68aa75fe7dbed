//! Uninstalling formulas by name, all of them, or a category.

use vstd::prelude::*;
use vstd::string::StringExecFns;

use crate::action::Action;
use crate::action::ActionView;
use crate::commands;
use crate::database;
use crate::error::Error;
use crate::error::ErrorView;
use crate::installer::Installer;
use crate::installer::InstallerView;
use crate::laws;
use crate::ownership::Ownership;
use crate::record_laws;
use crate::style;
use crate::style::bold;
use crate::text;
use crate::text::join;
use crate::text::trim;

verus! {

/// The heading over the removal of formulas, made of their names as they are
/// shown.
pub open spec fn heading_text(names: Seq<char>) -> Seq<char> {
    "Uninstalling "@ + names + "..."@
}

/// Writes the heading over the removal of formulas.
pub fn heading(names: &str) -> (text: String)
    ensures
        text@ == heading_text(names@),
        text@ == "Uninstalling "@ + names@ + "..."@,
{
    let mut text = String::new();
    text.append("Uninstalling ");
    text.append(names);
    text.append("...");
    assert(text@ =~= heading_text(names@));
    text
}

/// The heading over the removal of a category, made of its name as it is shown
/// and of the formulas that were removed.
pub open spec fn category_heading_text(
    category: Seq<char>,
    requested: Seq<Seq<char>>,
) -> Seq<char> {
    "Uninstalled category "@ + category + ": "@ + text::joined(requested, ", "@)
}

/// Writes the heading over the removal of a category.
pub fn category_heading(category: &str, requested: &[String]) -> (text: String)
    ensures
        text@ == category_heading_text(category@, text::texts(requested@)),
        text@ == "Uninstalled category "@ + category@ + ": "@ + text::joined(
            text::texts(requested@),
            ", "@,
        ),
{
    let mut text = String::new();
    text.append("Uninstalled category ");
    text.append(category);
    text.append(": ");
    text.append(join(requested, ", ").as_str());
    assert(text@ =~= category_heading_text(category@, text::texts(requested@)));
    text
}

/// What is said of a category that nothing was asked for under.
pub open spec fn empty_category_text(category: Seq<char>) -> Seq<char> {
    "No explicitly installed formulas in category '"@ + category + "'."@
}

/// Says that nothing was asked for under a category.
pub fn empty_category(category: &str) -> (text: String)
    ensures
        text@ == empty_category_text(category@),
        text@ == "No explicitly installed formulas in category '"@ + category@ + "'."@,
{
    let mut text = String::new();
    text.append("No explicitly installed formulas in category '");
    text.append(category);
    text.append("'.");
    assert(text@ =~= empty_category_text(category@));
    text
}

/// What is said of a formula that the sweep removed.
pub open spec fn unused_text(name: Seq<char>) -> Seq<char> {
    "Removed unused dependency "@ + name
}

/// Says that the sweep removed a formula.
pub fn unused(name: &str) -> (text: String)
    ensures
        text@ == unused_text(name@),
        text@ == "Removed unused dependency "@ + name@,
{
    let mut text = String::new();
    text.append("Removed unused dependency ");
    text.append(name);
    assert(text@ =~= unused_text(name@));
    text
}

/// The report on every formula that the sweep removed.
pub open spec fn unused_infos(names: Seq<Seq<char>>) -> Seq<ActionView> {
    Seq::new(names.len(), |i: int| ActionView::Info { text: unused_text(names[i]) })
}

/// Reports every formula that the sweep removed.
fn report_unused(installer: &mut Installer, names: &[String])
    requires
        old(installer).wf(),
    ensures
        final(installer).wf(),
        final(installer)@ == old(installer)@.queued(unused_infos(text::texts(names@))),
{
    let mut i: usize = 0;
    let ghost start = installer@;
    let ghost all = text::texts(names@);
    assert(start.pending + unused_infos(all.take(0)) =~= start.pending);
    while i < names.len()
        invariant
            installer.wf(),
            i <= names@.len(),
            all == text::texts(names@),
            installer@ == start.queued(unused_infos(all.take(i as int))),
        decreases names@.len() - i,
    {
        installer.queue(Action::Info { text: unused(names[i].as_str()) });
        i = i + 1;
        assert(installer@.pending =~= start.pending + unused_infos(all.take(i as int)));
    }
    assert(all.take(i as int) =~= all);
}

/// The formulas are announced, then uninstalled, then what the sweep removed
/// is reported. Where the request is refused, it stays at the announcement.
pub open spec fn uninstalls(
    start: InstallerView,
    end: InstallerView,
    failure: Option<ErrorView>,
    names: Seq<Seq<char>>,
    force: bool,
) -> bool {
    exists|shown: Seq<char>|
        {
            let announced = start.queued(seq![ActionView::Heading { text: heading_text(shown) }]);
            &&& #[trigger] style::shows_bold(shown, text::joined(names, ", "@))
            &&& failure == start.db.refusal(names, force)
            &&& end == if failure is None {
                announced.uninstalled(names).queued(unused_infos(start.db.autoremoved(names)))
            } else {
                announced
            }
        }
}

/// The formulas of a category are uninstalled, then this is announced, and
/// what the sweep removed is reported. Nothing happens where the request is
/// refused; where the category is empty, this is all that is said.
pub open spec fn uninstalls_category(
    start: InstallerView,
    end: InstallerView,
    failure: Option<ErrorView>,
    category: Seq<char>,
    force: bool,
) -> bool {
    let names = text::ascending(start.db.in_category(category));
    if names.len() == 0 {
        &&& failure is None
        &&& end == start.queued(seq![ActionView::Info { text: empty_category_text(category) }])
    } else {
        &&& failure == start.db.refusal(names, force)
        &&& if failure is None {
            exists|shown: Seq<char>|
                {
                    &&& #[trigger] style::shows_bold(shown, category)
                    &&& end == start.uninstalled(names).queued(
                        seq![
                            ActionView::Heading { text: category_heading_text(shown, names) },
                        ],
                    ).queued(unused_infos(start.db.autoremoved(names)))
                }
        } else {
            end == start
        }
    }
}

/// The reason for which the first formula argument was rejected, if any was.
pub open spec fn first_rejected(formulas: Seq<Result<String, Error>>) -> Option<ErrorView>
    decreases formulas.len(),
{
    if formulas.len() == 0 {
        None
    } else {
        match formulas.first() {
            Ok(_) => first_rejected(formulas.drop_first()),
            Err(error) => Some(error@),
        }
    }
}

/// The names of formula arguments of which none was rejected.
pub open spec fn accepted(formulas: Seq<Result<String, Error>>) -> Seq<Seq<char>> {
    Seq::new(formulas.len(), |i: int| formulas[i]->Ok_0@)
}

/// The names of the formula arguments, or why the first of them was rejected.
fn accept(formulas: Vec<Result<String, Error>>) -> (names: Result<Vec<String>, Error>)
    ensures
        match names {
            Ok(names) => first_rejected(formulas@) is None && text::texts(names@) == accepted(
                formulas@,
            ),
            Err(error) => first_rejected(formulas@) == Some(error@),
        },
{
    let ghost all = formulas@;
    let mut rest = formulas;
    let mut names: Vec<String> = Vec::new();
    assert(all.skip(0) =~= all);
    while rest.len() > 0
        invariant
            all == formulas@,
            rest@ == all.skip(names@.len() as int),
            names@.len() + rest@.len() == all.len(),
            first_rejected(all) == first_rejected(rest@),
            forall|k: int| 0 <= k < names@.len() ==> (#[trigger] names@[k])@ == all[k]->Ok_0@,
        decreases rest@.len(),
    {
        let ghost left = rest@;
        let formula = rest.remove(0);
        assert(rest@ =~= left.drop_first());
        assert(formula == left.first());
        match formula {
            Ok(name) => {
                names.push(name);
                assert(rest@ =~= all.skip(names@.len() as int));
            },
            Err(error) => {
                return Err(error);
            },
        }
    }
    assert(text::texts(names@) =~= accepted(all));
    Ok(names)
}

/// The names of the installed formulas, in alphabetical order.
fn installed_names(installer: &Installer) -> (names: Vec<String>)
    requires
        installer.wf(),
    ensures
        text::texts(names@) == text::ascending(installer@.db.kegs.dom()),
{
    let installed = installer.list_installed();
    let ghost all = text::ascending(installer@.db.kegs.dom());
    let mut names: Vec<String> = Vec::new();
    let mut i: usize = 0;
    proof {
        installer.lemma_wf_consistent();
        text::lemma_ascending(installer@.db.kegs.dom());
        assert(database::keg_views(installed@).len() == all.len());
        assert forall|k: int| 0 <= k < all.len() implies (#[trigger] installed@[k]).name@
            == all[k] by {
            assert(all.to_set().contains(all[k]));
            assert(installer@.db.kegs.contains_key(all[k]));
            assert(database::keg_views(installed@)[k] == installed@[k]@);
        }
    }
    while i < installed.len()
        invariant
            i <= installed@.len(),
            installed@.len() == all.len(),
            forall|k: int| 0 <= k < all.len() ==> (#[trigger] installed@[k]).name@ == all[k],
            names@.len() == i,
            forall|k: int| 0 <= k < i ==> (#[trigger] names@[k])@ == all[k],
        decreases installed@.len() - i,
    {
        names.push(installed[i].name.clone());
        i = i + 1;
    }
    assert(text::texts(names@) =~= all);
    names
}

/// Announces formulas, uninstalls them, and reports what the sweep removed.
fn uninstall_names(installer: &mut Installer, names: &[String], force: bool) -> (result: Result<
    (),
    Error,
>)
    requires
        old(installer).wf(),
    ensures
        final(installer).wf(),
        uninstalls(
            old(installer)@,
            final(installer)@,
            commands::failure(result),
            text::texts(names@),
            force,
        ),
{
    let ghost start = installer@;
    let shown = bold(join(names, ", ").as_str());
    let ghost announced = start.queued(seq![ActionView::Heading { text: heading_text(shown@) }]);
    installer.queue(Action::Heading { text: heading(shown.as_str()) });
    assert(installer@.pending =~= announced.pending);
    match installer.uninstall_many(names, force) {
        Ok(done) => {
            report_unused(installer, done.autoremoved.as_slice());
            Ok(())
        },
        Err(error) => Err(error),
    }
}

/// Uninstalls a category, announces it, and reports what the sweep removed.
fn uninstall_category(installer: &mut Installer, category: &str, force: bool) -> (result: Result<
    (),
    Error,
>)
    requires
        old(installer).wf(),
    ensures
        final(installer).wf(),
        uninstalls_category(
            old(installer)@,
            final(installer)@,
            commands::failure(result),
            text::trimmed(category@),
            force,
        ),
{
    let ghost start = installer@;
    let ghost names = text::ascending(start.db.in_category(text::trimmed(category@)));
    proof {
        text::lemma_trimmed_again(category@);
    }
    let category = trim(category);
    match installer.uninstall_category(category, force) {
        Ok(done) => {
            proof {
                assert(text::texts(done.requested@).len() == done.requested@.len());
            }
            if done.requested.is_empty() {
                installer.queue(Action::Info { text: empty_category(category) });
                assert(installer@.pending =~= start.pending + seq![
                    ActionView::Info { text: empty_category_text(category@) },
                ]);
                return Ok(());
            }
            let shown = bold(category);
            let ghost removed = installer@;
            installer.queue(
                Action::Heading {
                    text: category_heading(shown.as_str(), done.requested.as_slice()),
                },
            );
            assert(installer@.pending =~= removed.pending + seq![
                ActionView::Heading { text: category_heading_text(shown@, names) },
            ]);
            report_unused(installer, done.autoremoved.as_slice());
            Ok(())
        },
        Err(error) => Err(error),
    }
}

/// Uninstalls a category, everything, or the formulas whose names were
/// accepted; `formulas` holds for every argument its normalized name or why it
/// was rejected. Everything goes without regard to what depends on what.
pub fn execute(
    installer: &mut Installer,
    formulas: Vec<Result<String, Error>>,
    force: bool,
    all: bool,
    category: Option<String>,
) -> (result: Result<(), Error>)
    requires
        old(installer).wf(),
    ensures
        final(installer).wf(),
        ({
            let start = old(installer)@;
            let end = final(installer)@;
            let failure = commands::failure(result);
            match category {
                Some(category) => uninstalls_category(
                    start,
                    end,
                    failure,
                    text::trimmed(category@),
                    force,
                ),
                None => if all {
                    let names = text::ascending(start.db.kegs.dom());
                    if names.len() == 0 {
                        &&& failure is None
                        &&& end == start.queued(
                            seq![ActionView::Info { text: "No formulas installed."@ }],
                        )
                    } else {
                        uninstalls(start, end, failure, names, true)
                    }
                } else {
                    match first_rejected(formulas@) {
                        Some(error) => failure == Some(error) && end == start,
                        None => uninstalls(start, end, failure, accepted(formulas@), force),
                    }
                },
            }
        }),
        result is Err ==> final(installer)@.db == old(installer)@.db && final(installer)@.stored
            == old(installer)@.stored,
        // A category: refused, and nothing changed, just where it is not forced
        // and an installed formula outside the category needs one inside.
        category matches Some(category) ==> {
            let name = text::trimmed(category@);
            let kegs = old(installer)@.db.kegs;
            let edges = old(installer)@.db.edges;
            let end = final(installer)@.db;
            &&& result is Err <==> !force && exists|dependent: Seq<char>, dependency: Seq<char>|
                {
                    &&& #[trigger] edges.contains((dependent, dependency))
                    &&& kegs.dom().contains(dependency)
                    &&& kegs[dependency].explicit
                    &&& kegs[dependency].explicit_category == Some(name)
                    &&& kegs.dom().contains(dependent)
                    &&& !(kegs[dependent].explicit && kegs[dependent].explicit_category == Some(
                        name,
                    ))
                }
            &&& result is Err ==> final(installer)@ == old(installer)@
            &&& result is Ok ==> forall|formula: Seq<char>| #[trigger]
                kegs.dom().contains(formula) && kegs[formula].explicit ==> (end.kegs.dom().contains(
                    formula,
                ) <==> kegs[formula].explicit_category != Some(name))
            &&& result is Ok && !force ==> forall|dependent: Seq<char>, dependency: Seq<char>|
                #[trigger]
                edges.contains((dependent, dependency)) && end.kegs.dom().contains(dependent)
                    && kegs.dom().contains(dependency) ==> end.kegs.dom().contains(dependency)
            &&& forall|formula: Seq<char>| #[trigger]
                end.kegs.dom().contains(formula) ==> kegs.dom().contains(formula)
                    && end.kegs[formula] == kegs[formula]
        },
        // Everything: never refused, nothing left.
        category is None && all ==> result is Ok && final(installer)@.db.kegs.dom().is_empty()
            && final(installer)@.db.edges.is_empty(),
        // Names: the first that was rejected ends it.
        forall|i: int|
            category is None && !all && 0 <= i < formulas@.len() && #[trigger] formulas@[i] is Err
                && (forall|k: int| 0 <= k < i ==> #[trigger] formulas@[k] is Ok) ==> {
                &&& result is Err
                &&& result->Err_0@ == formulas@[i]->Err_0@
                &&& final(installer)@ == old(installer)@
            },
        // Names of which none was rejected: refused where one is not installed
        // or, without force, where a formula that is not named needs one.
        category is None && !all && (forall|k: int|
            0 <= k < formulas@.len() ==> #[trigger] formulas@[k] is Ok) ==> {
            let names = Seq::new(formulas@.len(), |k: int| formulas@[k]->Ok_0@);
            let kegs = old(installer)@.db.kegs;
            let edges = old(installer)@.db.edges;
            let end = final(installer)@.db;
            &&& result is Ok <==> {
                &&& forall|name: Seq<char>| #[trigger]
                    names.contains(name) ==> kegs.dom().contains(name)
                &&& force || forall|dependent: Seq<char>, dependency: Seq<char>| #[trigger]
                    edges.contains((dependent, dependency)) && names.contains(dependency)
                        ==> names.contains(dependent)
            }
            &&& result is Ok ==> forall|formula: Seq<char>| #[trigger]
                kegs.dom().contains(formula) && (names.contains(formula)
                    || kegs[formula].explicit) ==> (end.kegs.dom().contains(formula)
                    <==> !names.contains(formula))
            &&& result is Ok && !force ==> forall|dependent: Seq<char>, dependency: Seq<char>|
                #[trigger]
                edges.contains((dependent, dependency)) && end.kegs.dom().contains(dependent)
                    && kegs.dom().contains(dependency) ==> end.kegs.dom().contains(dependency)
        },
{
    let ghost start = installer@;
    proof {
        installer.lemma_wf_consistent();
    }
    if let Some(category) = category {
        let result = uninstall_category(installer, category.as_str(), force);
        proof {
            lemma_category_outcome(
                start,
                installer@,
                commands::failure(result),
                text::trimmed(category@),
                force,
            );
        }
        return result;
    }
    let names: Vec<String> = if all {
        let names = installed_names(installer);
        assert(text::texts(names@).len() == names@.len());
        proof {
            text::lemma_ascending(start.db.kegs.dom());
            laws::law_uninstall_all(start.db, text::texts(names@));
        }
        if names.is_empty() {
            installer.queue(Action::Info { text: "No formulas installed.".to_owned() });
            proof {
                assert(installer@.pending =~= start.pending + seq![
                    ActionView::Info { text: "No formulas installed."@ },
                ]);
                lemma_nothing_installed(start.db, text::texts(names@));
            }
            return Ok(());
        }
        names
    } else {
        proof {
            if forall|k: int| 0 <= k < formulas@.len() ==> #[trigger] formulas@[k] is Ok {
                law_none_rejected(formulas@);
            }
            assert forall|i: int|
                0 <= i < formulas@.len() && #[trigger] formulas@[i] is Err && (forall|k: int|
                    0 <= k < i ==> #[trigger] formulas@[k] is Ok) implies first_rejected(formulas@)
                == Some(formulas@[i]->Err_0@) by {
                law_first_rejected(formulas@, i);
            }
        }
        match accept(formulas) {
            Ok(names) => names,
            Err(error) => {
                return Err(error);
            },
        }
    };
    let result = uninstall_names(installer, names.as_slice(), force || all);
    proof {
        let wanted = text::texts(names@);
        record_laws::law_uninstall_outcome(start.db, wanted);
        if all {
            laws::law_refusal(start.db, wanted, true);
            laws::law_refusal(start.db, wanted, false);
            assert(installer@.db.kegs.dom() =~= Set::empty());
            assert forall|edge: (Seq<char>, Seq<char>)| !installer@.db.edges.contains(edge) by {
                assert(!start.db.uninstalled(wanted).declares(edge.0, edge.1));
            }
            assert(installer@.db.edges =~= Set::empty());
        } else {
            assert(wanted =~= Seq::new(formulas@.len(), |k: int| formulas@[k]->Ok_0@));
        }
    }
    result
}

proof fn lemma_nothing_installed(state: Ownership, names: Seq<Seq<char>>)
    requires
        state.valid(),
        names.len() == 0,
        names.to_set() == state.kegs.dom(),
    ensures
        state.kegs.dom().is_empty(),
        state.edges.is_empty(),
{
    assert(state.kegs.dom() =~= Set::empty());
    assert forall|edge: (Seq<char>, Seq<char>)| !state.edges.contains(edge) by {
        if state.edges.contains(edge) {
            assert(state.kegs.contains_key(edge.0));
        }
    }
    assert(state.edges =~= Set::empty());
}

/// The first rejected argument is the one with no rejected argument before it.
pub proof fn law_first_rejected(formulas: Seq<Result<String, Error>>, i: int)
    requires
        0 <= i < formulas.len(),
        formulas[i] is Err,
        forall|k: int| 0 <= k < i ==> #[trigger] formulas[k] is Ok,
    ensures
        first_rejected(formulas) == Some(formulas[i]->Err_0@),
    decreases formulas.len(),
{
    if i > 0 {
        let rest = formulas.drop_first();
        assert(formulas[0] is Ok);
        assert forall|k: int| 0 <= k < i - 1 implies #[trigger] rest[k] is Ok by {
            assert(formulas[k + 1] is Ok);
        }
        law_first_rejected(rest, i - 1);
    }
}

/// Where no argument was rejected, there is no first one.
pub proof fn law_none_rejected(formulas: Seq<Result<String, Error>>)
    requires
        forall|k: int| 0 <= k < formulas.len() ==> #[trigger] formulas[k] is Ok,
    ensures
        first_rejected(formulas) is None,
        accepted(formulas).len() == formulas.len(),
        forall|k: int|
            0 <= k < formulas.len() ==> #[trigger] accepted(formulas)[k] == formulas[k]->Ok_0@,
    decreases formulas.len(),
{
    if formulas.len() > 0 {
        let rest = formulas.drop_first();
        assert(formulas[0] is Ok);
        assert forall|k: int| 0 <= k < rest.len() implies #[trigger] rest[k] is Ok by {
            assert(formulas[k + 1] is Ok);
        }
        law_none_rejected(rest);
    }
}

proof fn lemma_category_outcome(
    start: InstallerView,
    end: InstallerView,
    failure: Option<ErrorView>,
    category: Seq<char>,
    force: bool,
)
    requires
        start.consistent(),
        uninstalls_category(start, end, failure, category, force),
    ensures
        failure is Some ==> end == start,
        failure is Some <==> !force && exists|dependent: Seq<char>, dependency: Seq<char>|
            {
                let kegs = start.db.kegs;
                &&& #[trigger] start.db.edges.contains((dependent, dependency))
                &&& kegs.dom().contains(dependency)
                &&& kegs[dependency].explicit
                &&& kegs[dependency].explicit_category == Some(category)
                &&& kegs.dom().contains(dependent)
                &&& !(kegs[dependent].explicit && kegs[dependent].explicit_category == Some(
                    category,
                ))
            },
        failure is None ==> forall|formula: Seq<char>| #[trigger]
            start.db.kegs.dom().contains(formula) && start.db.kegs[formula].explicit ==> (
            end.db.kegs.dom().contains(formula) <==> start.db.kegs[formula].explicit_category
                != Some(category)),
        failure is None && !force ==> forall|dependent: Seq<char>, dependency: Seq<char>|
            #[trigger]
            start.db.edges.contains((dependent, dependency)) && end.db.kegs.dom().contains(
                dependent,
            ) && start.db.kegs.dom().contains(dependency) ==> end.db.kegs.dom().contains(
                dependency,
            ),
        forall|formula: Seq<char>| #[trigger]
            end.db.kegs.dom().contains(formula) ==> start.db.kegs.dom().contains(formula)
                && end.db.kegs[formula] == start.db.kegs[formula],
{
    let state = start.db;
    let names = text::ascending(state.in_category(category));
    assert forall|name: Seq<char>| #[trigger] names.contains(name) <==> state.kegs.dom().contains(
        name,
    ) && state.kegs[name].explicit && state.kegs[name].explicit_category == Some(category) by {
        record_laws::law_in_category(state, category, name);
    }
    record_laws::law_uninstall_outcome(state, names);
    assert forall|name: Seq<char>| names.contains(name) implies names.len() > 0 by {}
    if failure is None && names.len() > 0 {
        assert(end.db == state.uninstalled(names));
    }
    assert(failure is Some ==> state.refusal(names, force) is Some);
    if !force {
        if state.refusal(names, false) is None {
            assert forall|dependent: Seq<char>, dependency: Seq<char>| #[trigger]
                state.edges.contains((dependent, dependency)) && names.contains(
                    dependency,
                ) implies names.contains(dependent) by {}
        } else {
            let (dependent, dependency) = choose|dependent: Seq<char>, dependency: Seq<char>|
                #[trigger]
                state.edges.contains((dependent, dependency)) && names.contains(dependency)
                    && !names.contains(dependent);
            assert(state.edges.contains((dependent, dependency)));
            assert(state.kegs.contains_key((dependent, dependency).0));
            assert(names.contains(dependency));
        }
    }
}

} // verus!
