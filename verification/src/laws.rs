//! What holds of the operations together, for every state of the record.

use vstd::prelude::*;

use crate::action;
use crate::action::ActionView;
use crate::error::ErrorView;
use crate::installer::InstallerView;
use crate::ownership;
use crate::ownership::Ownership;
use crate::text;

verus! {

/// A sweep removes exactly the formulas of its order, with what they declare.
pub proof fn law_sweep_removes_its_order(state: Ownership)
    requires
        state.valid(),
    ensures
        state.swept() == state.without(state.sweep_order().to_set()),
    decreases state.kegs.dom().len(),
{
    if state.orphans().is_empty() {
        assert(state.sweep_order().to_set() =~= Set::empty());
        state.lemma_without_none();
    } else {
        let round = state.orphans();
        let rest = state.without(round);
        state.lemma_sweep_shrinks();
        state.lemma_without_valid(round);
        law_sweep_removes_its_order(rest);
        state.lemma_round();
        state.lemma_without_twice(round, rest.sweep_order().to_set());
    }
}

/// After a sweep there is no orphan.
pub proof fn law_sweep_leaves_no_orphan(state: Ownership)
    requires
        state.valid(),
    ensures
        state.swept().orphans().is_empty(),
        state.swept().valid(),
    decreases state.kegs.dom().len(),
{
    if !state.orphans().is_empty() {
        state.lemma_sweep_shrinks();
        state.lemma_without_valid(state.orphans());
        law_sweep_leaves_no_orphan(state.without(state.orphans()));
    }
}

/// A second sweep removes nothing.
pub proof fn law_sweep_again_removes_nothing(state: Ownership)
    requires
        state.valid(),
    ensures
        state.swept().swept() == state.swept(),
        state.swept().sweep_order() == Seq::<Seq<char>>::empty(),
{
    law_sweep_leaves_no_orphan(state);
}

/// A set of formulas that stands on its own: every member was asked for, or
/// another member depends on it.
pub open spec fn supported(state: Ownership, members: Set<Seq<char>>) -> bool {
    forall|name: Seq<char>| #[trigger]
        members.contains(name) ==> state.installed(name) && (state.kegs[name].explicit || exists|
            other: Seq<char>,
        |
            members.contains(other) && other != name && #[trigger] state.declares(other, name))
}

proof fn lemma_supported_survives(state: Ownership, members: Set<Seq<char>>)
    requires
        state.valid(),
        supported(state, members),
    ensures
        forall|name: Seq<char>| #[trigger]
            members.contains(name) ==> state.swept().installed(name),
    decreases state.kegs.dom().len(),
{
    if !state.orphans().is_empty() {
        let rest = state.without(state.orphans());
        state.lemma_sweep_shrinks();
        state.lemma_without_valid(state.orphans());
        assert forall|name: Seq<char>| #[trigger] members.contains(name) implies !state.orphans().contains(
            name,
        ) by {
            if !state.kegs[name].explicit {
                let other = choose|other: Seq<char>|
                    members.contains(other) && other != name && #[trigger] state.declares(
                        other,
                        name,
                    );
                assert(state.installed(other));
            }
        }
        assert forall|name: Seq<char>| #[trigger] members.contains(name) implies rest.installed(
            name,
        ) && (rest.kegs[name].explicit || exists|other: Seq<char>|
            members.contains(other) && other != name && #[trigger] rest.declares(other, name)) by {
            if !state.kegs[name].explicit {
                let other = choose|other: Seq<char>|
                    members.contains(other) && other != name && #[trigger] state.declares(
                        other,
                        name,
                    );
                assert(!state.orphans().contains(other));
                assert(rest.declares(other, name));
            }
        }
        lemma_supported_survives(rest, members);
    }
}

/// A sweep leaves exactly the formulas that stand on their own together: those
/// that the user asked for, what these need, and so on. Formulas that need one
/// another in a ring stay too.
pub proof fn law_sweep_keeps_what_is_supported(state: Ownership, name: Seq<char>)
    requires
        state.valid(),
    ensures
        state.swept().installed(name) <==> exists|members: Set<Seq<char>>| #[trigger]
            supported(state, members) && members.contains(name),
{
    let end = state.swept();
    if end.installed(name) {
        let members = end.kegs.dom();
        law_sweep_leaves_no_orphan(state);
        law_sweep_removes_its_order(state);
        assert forall|kept: Seq<char>| #[trigger] members.contains(kept) implies state.installed(
            kept,
        ) && (state.kegs[kept].explicit || exists|other: Seq<char>|
            members.contains(other) && other != kept && #[trigger] state.declares(other, kept)) by {
            assert(!end.orphans().contains(kept));
            assert(!end.is_orphan(kept));
            if !end.kegs[kept].explicit {
                let other = choose|other: Seq<char>|
                    end.installed(other) && other != kept && #[trigger] end.declares(other, kept);
                assert(state.declares(other, kept));
            }
        }
        assert(supported(state, members));
    }
    if exists|members: Set<Seq<char>>| #[trigger]
        supported(state, members) && members.contains(name) {
        let members = choose|members: Set<Seq<char>>| #[trigger]
            supported(state, members) && members.contains(name);
        lemma_supported_survives(state, members);
    }
}

/// A sweep never removes a formula that the user asked for, and changes nothing
/// of what stays.
pub proof fn law_sweep_spares_explicit(state: Ownership, name: Seq<char>)
    requires
        state.valid(),
    ensures
        state.installed(name) && state.kegs[name].explicit ==> state.swept().installed(name),
        state.swept().installed(name) ==> state.installed(name) && state.swept().kegs[name]
            == state.kegs[name],
{
    law_sweep_removes_its_order(state);
    if state.installed(name) && state.kegs[name].explicit {
        assert(supported(state, set![name]));
        lemma_supported_survives(state, set![name]);
        assert(set![name].contains(name));
    }
}

/// A shared dependency stays as long as one formula that depends on it stays.
pub proof fn law_sweep_spares_what_is_needed(
    state: Ownership,
    dependent: Seq<char>,
    dependency: Seq<char>,
)
    requires
        state.valid(),
        state.swept().installed(dependent),
        state.declares(dependent, dependency),
        state.installed(dependency),
    ensures
        state.swept().installed(dependency),
{
    law_sweep_keeps_what_is_supported(state, dependent);
    let members = choose|members: Set<Seq<char>>| #[trigger]
        supported(state, members) && members.contains(dependent);
    let more = members.insert(dependency);
    assert forall|name: Seq<char>| #[trigger] more.contains(name) implies state.installed(name) && (
    state.kegs[name].explicit || exists|other: Seq<char>|
        more.contains(other) && other != name && #[trigger] state.declares(other, name)) by {
        if members.contains(name) {
            if !state.kegs[name].explicit {
                let other = choose|other: Seq<char>|
                    members.contains(other) && other != name && #[trigger] state.declares(
                        other,
                        name,
                    );
                assert(more.contains(other));
            }
        } else {
            assert(more.contains(dependent));
        }
    }
    assert(supported(state, more));
    lemma_supported_survives(state, more);
    assert(more.contains(dependency));
}

/// Where the user asked for everything that is installed, a sweep removes
/// nothing.
pub proof fn law_sweep_of_explicit_removes_nothing(state: Ownership)
    requires
        state.valid(),
        forall|name: Seq<char>| #[trigger] state.installed(name) ==> state.kegs[name].explicit,
    ensures
        state.swept() == state,
        state.sweep_order() == Seq::<Seq<char>>::empty(),
{
    assert(state.orphans().is_empty()) by {
        assert forall|name: Seq<char>| !state.orphans().contains(name) by {
            if state.orphans().contains(name) {
                assert(state.installed(name));
            }
        }
        assert(state.orphans() =~= Set::empty());
    }
}

/// A sweep removes nothing twice, and what it removes is installed, not asked
/// for, and gone afterwards.
pub proof fn law_sweep_order_members(state: Ownership)
    requires
        state.valid(),
    ensures
        state.sweep_order().no_duplicates(),
        forall|name: Seq<char>| #[trigger]
            state.sweep_order().contains(name) <==> state.installed(name)
                && !state.swept().installed(name),
        forall|name: Seq<char>| #[trigger]
            state.sweep_order().contains(name) ==> !state.kegs[name].explicit,
    decreases state.kegs.dom().len(),
{
    law_sweep_removes_its_order(state);
    state.lemma_sweep_installed();
    let order = state.sweep_order();
    assert forall|name: Seq<char>| #[trigger] order.contains(name) <==> state.installed(name)
        && !state.swept().installed(name) by {
        assert(order.to_set().contains(name) <==> order.contains(name));
    }
    assert forall|name: Seq<char>| #[trigger] order.contains(name) implies !state.kegs[name].explicit by {
        law_sweep_spares_explicit(state, name);
    }
    if !state.orphans().is_empty() {
        let rest = state.without(state.orphans());
        let first = text::ascending(state.orphans());
        state.lemma_sweep_shrinks();
        state.lemma_without_valid(state.orphans());
        law_sweep_order_members(rest);
        state.lemma_round();
        ownership::lemma_distinct_ascending(first);
        assert forall|i: int, j: int| 0 <= i < order.len() && 0 <= j < order.len() && i != j implies order[i]
            != order[j] by {
            lemma_rounds_apart(state, i);
            lemma_rounds_apart(state, j);
        }
    }
}

/// The two parts of a sweep that goes on: the first round, and what the sweep
/// of the rest removes.
proof fn lemma_rounds_apart(state: Ownership, i: int)
    requires
        state.valid(),
        !state.orphans().is_empty(),
        0 <= i < state.sweep_order().len(),
    ensures
        ({
            let first = text::ascending(state.orphans());
            let rest = state.without(state.orphans());
            if i < first.len() {
                &&& state.sweep_order()[i] == first[i]
                &&& state.orphans().contains(first[i])
            } else {
                &&& state.sweep_order()[i] == rest.sweep_order()[i - first.len()]
                &&& rest.sweep_order().contains(rest.sweep_order()[i - first.len()])
                &&& rest.installed(state.sweep_order()[i])
                &&& !state.orphans().contains(state.sweep_order()[i])
            }
        }),
{
    let first = text::ascending(state.orphans());
    let rest = state.without(state.orphans());
    state.lemma_sweep_shrinks();
    state.lemma_round();
    if i < first.len() {
        assert(first.to_set().contains(first[i]));
    } else {
        let name = rest.sweep_order()[i - first.len()];
        rest.lemma_sweep_installed();
        assert(rest.sweep_order().contains(name));
    }
}

/// A sweep removes a formula before what it depends on.
pub proof fn law_sweep_removes_dependents_first(state: Ownership, i: int, j: int)
    requires
        state.valid(),
        0 <= i < state.sweep_order().len(),
        0 <= j < state.sweep_order().len(),
        i != j,
        state.declares(state.sweep_order()[i], state.sweep_order()[j]),
    ensures
        i < j,
    decreases state.kegs.dom().len(),
{
    let order = state.sweep_order();
    let first = text::ascending(state.orphans());
    let rest = state.without(state.orphans());
    law_sweep_order_members(state);
    assert(order[i] != order[j]);
    state.lemma_sweep_shrinks();
    lemma_rounds_apart(state, i);
    lemma_rounds_apart(state, j);
    if j < first.len() {
        assert(state.is_orphan(order[j]));
        assert(order.contains(order[i]));
        assert(!state.declares(order[i], order[j]));
    } else if i >= first.len() {
        state.lemma_without_valid(state.orphans());
        law_sweep_removes_dependents_first(rest, i - first.len(), j - first.len());
    }
}

/// A request to uninstall goes through exactly when everything asked for is
/// installed and, unless it is forced, nothing that stays depends on any of it.
pub proof fn law_refusal(state: Ownership, names: Seq<Seq<char>>, force: bool)
    requires
        state.valid(),
    ensures
        state.refusal(names, force) is None <==> {
            &&& forall|name: Seq<char>| #[trigger] names.contains(name) ==> state.installed(name)
            &&& force || forall|dependent: Seq<char>, name: Seq<char>| #[trigger]
                state.declares(dependent, name) && names.contains(name) && state.installed(
                    dependent,
                ) ==> names.contains(dependent)
        },
{
    let requested = ownership::distinct(names);
    let missing = |name: Seq<char>| !state.installed(name);
    let blocked = |name: Seq<char>| !state.blockers(name, requested).is_empty();
    ownership::lemma_distinct_members(names);
    ownership::lemma_first_where(requested, missing);
    ownership::lemma_first_where(requested, blocked);
    assert forall|name: Seq<char>| names.contains(name) == requested.contains(name) by {}
    match ownership::first_where(requested, missing) {
        Some(name) => {
            assert(names.contains(name));
        },
        None => {
            assert forall|name: Seq<char>| #[trigger] names.contains(name) implies state.installed(
                name,
            ) by {
                assert(requested.contains(name));
            }
            if !force {
                match ownership::first_where(requested, blocked) {
                    Some(name) => {
                        let dependent = choose|dependent: Seq<char>|
                            state.blockers(name, requested).contains(dependent);
                        assert(state.blockers(name, requested).contains(dependent));
                        assert(state.declares(dependent, name));
                        assert(names.contains(name));
                        assert(!names.contains(dependent));
                    },
                    None => {
                        assert forall|dependent: Seq<char>, name: Seq<char>| #[trigger]
                            state.declares(dependent, name) && names.contains(name)
                                && state.installed(dependent) implies names.contains(
                            dependent,
                        ) by {
                            assert(requested.contains(name));
                            assert(!state.blockers(name, requested).contains(dependent));
                        }
                    },
                }
            }
        },
    }
}

/// A refusal names a formula of the request: one that is not installed, or one
/// that is, with the installed formulas that depend on it and stay, in
/// alphabetical order. Only a request that is not forced is refused for these.
pub proof fn law_refusal_says_why(state: Ownership, names: Seq<Seq<char>>, force: bool)
    requires
        state.valid(),
    ensures
        match state.refusal(names, force) {
            None => true,
            Some(ErrorView::NotInstalled { name }) => names.contains(name) && !state.installed(name),
            Some(ErrorView::RequiredBy { name, dependents }) => {
                &&& !force
                &&& names.contains(name)
                &&& state.installed(name)
                &&& dependents.len() > 0
                &&& text::is_ascending(dependents)
                &&& forall|dependent: Seq<char>| #[trigger]
                    dependents.contains(dependent) <==> state.installed(dependent)
                        && state.declares(dependent, name) && !names.contains(dependent)
            },
            Some(_) => false,
        },
{
    let requested = ownership::distinct(names);
    let missing = |name: Seq<char>| !state.installed(name);
    let blocked = |name: Seq<char>| !state.blockers(name, requested).is_empty();
    ownership::lemma_distinct_members(names);
    ownership::lemma_first_where(requested, missing);
    ownership::lemma_first_where(requested, blocked);
    if let Some(ErrorView::RequiredBy { name, dependents }) = state.refusal(names, force) {
        let blockers = state.blockers(name, requested);
        state.lemma_blockers_finite(name, requested);
        text::lemma_ascending(blockers);
        assert(requested.contains(name));
        assert(names.contains(name));
        let one = choose|one: Seq<char>| blockers.contains(one);
        assert(blockers.contains(one));
        assert(dependents.to_set().contains(one));
        assert(dependents.contains(one));
        assert forall|dependent: Seq<char>| #[trigger] dependents.contains(dependent) <==> state.installed(
            dependent,
        ) && state.declares(dependent, name) && !names.contains(dependent) by {
            assert(dependents.to_set().contains(dependent) <==> blockers.contains(dependent));
            assert(requested.contains(dependent) <==> names.contains(dependent));
        }
    }
}

/// An uninstall that was not forced breaks nothing: every formula that stays
/// still has everything that it depends on and had before.
pub proof fn law_uninstall_breaks_no_dependency(
    state: Ownership,
    names: Seq<Seq<char>>,
    dependent: Seq<char>,
    dependency: Seq<char>,
)
    requires
        state.valid(),
        state.refusal(names, false) is None,
        state.uninstalled(names).installed(dependent),
        state.declares(dependent, dependency),
        state.installed(dependency),
    ensures
        state.uninstalled(names).installed(dependency),
{
    let gone = ownership::distinct(names).to_set();
    let rest = state.without(gone);
    ownership::lemma_distinct_members(names);
    law_refusal(state, names, false);
    state.lemma_without_valid(gone);
    law_sweep_spares_explicit(rest, dependent);
    assert(rest.installed(dependent));
    assert(!gone.contains(dependent));
    assert(!names.to_set().contains(dependent));
    assert(!names.contains(dependent));
    assert(!names.contains(dependency));
    assert(!gone.contains(dependency)) by {
        assert(gone == names.to_set());
    }
    assert(rest.declares(dependent, dependency));
    law_sweep_spares_what_is_needed(rest, dependent, dependency);
}

/// What a formula that stays declares is kept, also of formulas that are gone.
pub proof fn law_uninstall_keeps_declarations(
    state: Ownership,
    names: Seq<Seq<char>>,
    dependent: Seq<char>,
    dependency: Seq<char>,
)
    requires
        state.valid(),
    ensures
        state.uninstalled(names).declares(dependent, dependency) <==> state.declares(
            dependent,
            dependency,
        ) && state.uninstalled(names).installed(dependent),
{
    let gone = ownership::distinct(names).to_set();
    let rest = state.without(gone);
    state.lemma_without_valid(gone);
    law_sweep_removes_its_order(rest);
    if state.declares(dependent, dependency) {
        assert(state.kegs.contains_key((dependent, dependency).0));
    }
}

/// What an uninstall does to every formula: each that was installed was asked
/// to go, was swept away, or stays unchanged, and never two of these. Nothing
/// is installed that was not.
pub proof fn law_uninstall_accounts_for_all(
    state: Ownership,
    names: Seq<Seq<char>>,
    name: Seq<char>,
)
    requires
        state.valid(),
    ensures
        state.uninstalled(names).installed(name) ==> {
            &&& state.installed(name)
            &&& state.uninstalled(names).kegs[name] == state.kegs[name]
            &&& !names.contains(name)
            &&& !state.autoremoved(names).contains(name)
        },
        state.autoremoved(names).contains(name) ==> {
            &&& state.installed(name)
            &&& !state.kegs[name].explicit
            &&& !names.contains(name)
        },
        state.installed(name) ==> names.contains(name) || state.autoremoved(names).contains(name)
            || state.uninstalled(names).installed(name),
{
    let gone = ownership::distinct(names).to_set();
    let rest = state.without(gone);
    ownership::lemma_distinct_members(names);
    assert(gone.contains(name) <==> names.contains(name));
    state.lemma_without_valid(gone);
    law_sweep_order_members(rest);
    law_sweep_spares_explicit(rest, name);
}

/// After an uninstall there is no orphan.
pub proof fn law_uninstall_leaves_no_orphan(state: Ownership, names: Seq<Seq<char>>)
    requires
        state.valid(),
    ensures
        state.uninstalled(names).orphans().is_empty(),
        state.uninstalled(names).valid(),
{
    let gone = ownership::distinct(names).to_set();
    state.lemma_without_valid(gone);
    law_sweep_leaves_no_orphan(state.without(gone));
}

/// Uninstalling a category leaves nothing in it and spares what the user asked
/// for otherwise.
pub proof fn law_uninstall_category(state: Ownership, category: Seq<char>, name: Seq<char>)
    requires
        state.valid(),
    ensures
        ({
            let names = text::ascending(state.in_category(category));
            let end = state.uninstalled(names);
            &&& !end.in_category(category).contains(name)
            &&& state.installed(name) && state.kegs[name].explicit
                && state.kegs[name].explicit_category != Some(category) ==> end.installed(name)
        }),
{
    let members = state.in_category(category);
    let names = text::ascending(members);
    vstd::set_lib::lemma_len_subset(members, state.kegs.dom());
    text::lemma_ascending(members);
    law_uninstall_accounts_for_all(state, names, name);
    assert(names.to_set().contains(name) <==> names.contains(name));
}

/// A request to uninstall is a set: order and repetition make no difference to
/// whether it goes through nor to what it leaves and what the sweep removes.
pub proof fn law_uninstall_request_is_a_set(
    state: Ownership,
    names: Seq<Seq<char>>,
    others: Seq<Seq<char>>,
    force: bool,
)
    requires
        state.valid(),
        names.to_set() == others.to_set(),
    ensures
        state.refusal(names, force) is None <==> state.refusal(others, force) is None,
        state.uninstalled(names) == state.uninstalled(others),
        state.autoremoved(names) == state.autoremoved(others),
{
    ownership::lemma_distinct_members(names);
    ownership::lemma_distinct_members(others);
    law_refusal(state, names, force);
    law_refusal(state, others, force);
    assert forall|name: Seq<char>| names.contains(name) == others.contains(name) by {
        assert(names.to_set().contains(name) == names.contains(name));
        assert(others.to_set().contains(name) == others.contains(name));
    }
}

/// Uninstalling everything needs no force, and leaves nothing to sweep and
/// nothing installed.
pub proof fn law_uninstall_all(state: Ownership, names: Seq<Seq<char>>)
    requires
        state.valid(),
        names.to_set() == state.kegs.dom(),
    ensures
        state.refusal(names, false) is None,
        state.autoremoved(names) == Seq::<Seq<char>>::empty(),
        forall|name: Seq<char>| !state.uninstalled(names).installed(name),
        forall|dependent: Seq<char>, dependency: Seq<char>|
            !state.uninstalled(names).declares(dependent, dependency),
{
    let gone = ownership::distinct(names).to_set();
    let rest = state.without(gone);
    ownership::lemma_distinct_members(names);
    law_refusal(state, names, false);
    assert forall|name: Seq<char>| names.contains(name) == state.installed(name) by {
        assert(names.to_set().contains(name) == names.contains(name));
    }
    assert(rest.kegs.dom() =~= Set::empty());
    assert(rest.orphans() =~= Set::empty());
    assert forall|dependent: Seq<char>, dependency: Seq<char>|
        !state.uninstalled(names).declares(dependent, dependency) by {
        if rest.declares(dependent, dependency) {
            assert(state.edges.contains((dependent, dependency)));
            assert(state.kegs.contains_key((dependent, dependency).0));
        }
    }
}

/// A formula that was removed by force and is installed again is again
/// required by those that declared it.
pub proof fn law_reinstall_restores_dependents(
    state: Ownership,
    name: Seq<char>,
    version: Seq<char>,
    store_key: Seq<char>,
    explicit: bool,
    category: Option<Seq<char>>,
    dependencies: Seq<Seq<char>>,
)
    ensures
        state.without(set![name]).with_install(
            name,
            version,
            store_key,
            explicit,
            category,
            dependencies,
        ).dependents(name).remove(name) == state.dependents(name).remove(name),
{
    let again = state.without(set![name]).with_install(
        name,
        version,
        store_key,
        explicit,
        category,
        dependencies,
    );
    assert(again.dependents(name).remove(name) =~= state.dependents(name).remove(name));
}

/// Installing a formula leaves the record valid, promotes the formula where the
/// user asked for it and never demotes it. Asking for it sets its category, else
/// the category stays. What it declares is replaced, and no other formula is
/// touched.
pub proof fn law_install_merges_ownership(
    state: Ownership,
    name: Seq<char>,
    version: Seq<char>,
    store_key: Seq<char>,
    explicit: bool,
    category: Option<Seq<char>>,
    dependencies: Seq<Seq<char>>,
    other: Seq<char>,
)
    requires
        state.valid(),
    ensures
        ({
            let end = state.with_install(
                name,
                version,
                store_key,
                explicit,
                category,
                dependencies,
            );
            &&& end.valid()
            &&& end.installed(name)
            &&& end.kegs[name].explicit <==> explicit || (state.installed(name)
                && state.kegs[name].explicit)
            &&& explicit ==> end.kegs[name].explicit_category == category
            &&& !explicit && state.installed(name) ==> end.kegs[name].explicit_category
                == state.kegs[name].explicit_category
            &&& !explicit && !state.installed(name) ==> end.kegs[name].explicit_category is None
            &&& forall|dependency: Seq<char>| #[trigger]
                end.declares(name, dependency) <==> dependencies.contains(dependency)
            &&& other != name ==> {
                &&& end.installed(other) == state.installed(other)
                &&& state.installed(other) ==> end.kegs[other] == state.kegs[other]
                &&& forall|dependency: Seq<char>| #[trigger]
                    end.declares(other, dependency) == state.declares(other, dependency)
            }
        }),
{
    let end = state.with_install(name, version, store_key, explicit, category, dependencies);
    assert(end.kegs.dom() =~= state.kegs.dom().insert(name));
    assert forall|edge: (Seq<char>, Seq<char>)| #[trigger]
        end.edges.contains(edge) implies end.kegs.contains_key(edge.0) by {
        if edge.0 != name {
            assert(state.edges.contains(edge));
        }
    }
}

/// Collection leaves no store entry on record that no installed formula comes
/// from, loses none that one does, and touches no formula.
pub proof fn law_gc_keeps_what_is_referenced(state: Ownership, key: Seq<char>)
    requires
        state.valid(),
    ensures
        state.collected().valid(),
        state.collected().kegs == state.kegs,
        state.collected().edges == state.edges,
        state.collected().unreferenced() == Seq::<Seq<char>>::empty(),
        state.collected().store_keys.contains(key) <==> state.store_keys.contains(key)
            && state.referenced(key),
        state.unreferenced().contains(key) <==> state.store_keys.contains(key)
            && !state.referenced(key),
{
    let used = |key: Seq<char>| state.referenced(key);
    let loose = |key: Seq<char>| !state.referenced(key);
    let end = state.collected();
    ownership::lemma_filter_members(state.store_keys, used);
    ownership::lemma_filter_members(state.store_keys, loose);
    assert(end.store_keys.contains(key) <==> state.store_keys.contains(key) && used(key));
    assert(state.unreferenced().contains(key) <==> state.store_keys.contains(key) && loose(key));
    let still_loose = |key: Seq<char>| !end.referenced(key);
    assert forall|k: Seq<char>| end.referenced(k) == state.referenced(k) by {
        if state.referenced(k) {
            let name = choose|name: Seq<char>| #[trigger]
                state.installed(name) && state.kegs[name].store_key == k;
            assert(end.installed(name));
        }
        if end.referenced(k) {
            let name = choose|name: Seq<char>| #[trigger]
                end.installed(name) && end.kegs[name].store_key == k;
            assert(state.installed(name));
        }
    }
    ownership::lemma_filter_members(end.store_keys, still_loose);
    let left = end.unreferenced();
    if left.len() > 0 {
        assert(left.contains(left[0]));
        assert(end.store_keys.contains(left[0]) && still_loose(left[0]));
        assert(state.store_keys.contains(left[0]) && used(left[0]));
    }
    assert(left =~= Seq::empty());
}

/// The store entry of a formula is left to collection once the last formula
/// that comes from it is removed, and not before.
pub proof fn law_gc_follows_uninstall(state: Ownership, name: Seq<char>)
    requires
        state.valid(),
        state.installed(name),
        state.store_keys.contains(state.kegs[name].store_key),
    ensures
        state.without(set![name]).unreferenced().contains(state.kegs[name].store_key) <==> forall|
            other: Seq<char>,
        |
            #[trigger]
            state.installed(other) && other != name ==> state.kegs[other].store_key
                != state.kegs[name].store_key,
        !state.unreferenced().contains(state.kegs[name].store_key),
{
    let key = state.kegs[name].store_key;
    let rest = state.without(set![name]);
    state.lemma_without_valid(set![name]);
    law_gc_keeps_what_is_referenced(rest, key);
    law_gc_keeps_what_is_referenced(state, key);
    if rest.referenced(key) {
        let other = choose|other: Seq<char>| #[trigger]
            rest.installed(other) && rest.kegs[other].store_key == key;
        assert(state.installed(other));
    } else {
        assert forall|other: Seq<char>| #[trigger]
            state.installed(other) && other != name implies state.kegs[other].store_key != key by {
            assert(rest.installed(other));
        }
    }
}

/// Whatever the machine has carried out of the queue is what is stored. Once
/// the queue is empty, this is the record in memory.
pub proof fn law_stored_follows_queue(start: InstallerView, successes: nat)
    requires
        start.consistent(),
        successes <= start.pending.len(),
    ensures
        start.after(successes) == (InstallerView {
            db: start.db,
            stored: action::apply_all(start.stored, start.pending.take(successes as int)),
            pending: start.pending.skip(successes as int),
        }),
        successes == start.pending.len() ==> start.after(successes).stored == start.db,
    decreases successes,
{
    let done = start.pending.take(successes as int);
    if successes == 0 {
        assert(start.pending.skip(0) =~= start.pending);
    } else {
        law_stored_follows_queue(start, (successes - 1) as nat);
        let prior = start.pending.take(successes - 1);
        assert(done.drop_last() =~= prior);
        assert(done.last() == start.pending.skip(successes - 1).first());
        assert(start.pending.skip(successes - 1).drop_first() =~= start.pending.skip(
            successes as int,
        ));
    }
    if successes == start.pending.len() {
        assert(done =~= start.pending);
    }
}

/// How many formulas are off the record after some actions of a row of
/// removals: each removal is three actions, and the second is the record.
pub open spec fn off_record(actions: nat) -> int {
    (actions as int + 1) / 3
}

/// Every removal is three actions.
pub proof fn lemma_removals_len(state: Ownership, names: Seq<Seq<char>>)
    ensures
        action::removals(state, names).len() == 3 * names.len(),
    decreases names.len(),
{
    if names.len() > 0 {
        lemma_removals_len(state, names.drop_last());
    }
}

/// Of a row of removals of which only the first actions were carried out, those
/// took effect whose record was reached.
proof fn lemma_removals_cut_short(
    start: Ownership,
    state: Ownership,
    names: Seq<Seq<char>>,
    successes: nat,
)
    requires
        successes <= 3 * names.len(),
    ensures
        action::removals(state, names).len() == 3 * names.len(),
        action::apply_all(start, action::removals(state, names).take(successes as int))
            == start.without(names.take(off_record(successes)).to_set()),
    decreases names.len(),
{
    let all = action::removals(state, names);
    lemma_removals_len(state, names);
    if names.len() == 0 {
        assert(all.take(0) =~= Seq::empty());
        assert(names.take(0).to_set() =~= Set::empty());
        start.lemma_without_none();
    } else {
        let rest = names.drop_last();
        let name = names.last();
        let steps = action::removal(name, state.kegs[name].version);
        let prior = action::removals(state, rest);
        lemma_removals_len(state, rest);
        if successes <= 3 * rest.len() {
            lemma_removals_cut_short(start, state, rest, successes);
            assert(all.take(successes as int) =~= prior.take(successes as int));
            assert(names.take(off_record(successes)) =~= rest.take(off_record(successes)));
        } else {
            let more = successes - 3 * rest.len();
            lemma_removals_cut_short(start, state, rest, 3 * rest.len());
            assert(prior.take((3 * rest.len()) as int) =~= prior);
            assert(rest.take(off_record(3 * rest.len())) =~= rest);
            let gone = rest.to_set();
            assert(all.take(successes as int) =~= prior + steps.take(more));
            action::lemma_apply_all_add(start, prior, steps.take(more));
            if more == 1 {
                assert(steps.take(1) =~= seq![steps[0]]);
                action::lemma_apply_one(start.without(gone), steps[0]);
                assert(names.take(off_record(successes)) =~= rest);
            } else {
                if more == 2 {
                    assert(steps.take(2) =~= seq![steps[0]] + seq![steps[1]]);
                    action::lemma_apply_all_add(
                        start.without(gone),
                        seq![steps[0]],
                        seq![steps[1]],
                    );
                    action::lemma_apply_one(start.without(gone), steps[0]);
                    action::lemma_apply_one(start.without(gone), steps[1]);
                } else {
                    assert(steps.take(3) =~= steps);
                    action::lemma_apply_removal(
                        start.without(gone),
                        name,
                        state.kegs[name].version,
                    );
                }
                assert(names.take(off_record(successes)) =~= rest.push(name));
                text::lemma_push_members(rest, name);
                start.lemma_without_twice(gone, set![name]);
            }
        }
    }
}

/// An uninstall that the machine fails to finish has removed just what it got
/// to, in the order of the request, and of the sweep only after all of the
/// request. A formula whose links are gone but whose record was not reached is
/// still on record.
pub proof fn law_uninstall_cut_short(start: InstallerView, names: Seq<Seq<char>>, successes: nat)
    requires
        start.consistent(),
        start.pending.len() + successes <= start.uninstalled(names).pending.len(),
    ensures
        start.uninstalled(names).after(start.pending.len() + successes).failed().db
            == start.db.without(
            (ownership::distinct(names) + start.db.autoremoved(names)).take(
                off_record(successes),
            ).to_set(),
        ),
{
    let requested = ownership::distinct(names);
    let swept = start.db.autoremoved(names);
    let end = start.uninstalled(names);
    let all = requested + swept;
    let steps = action::removals(start.db, all);
    let reached = start.pending.len() + successes;
    action::lemma_removals_add(start.db, requested, swept);
    lemma_removals_len(start.db, all);
    lemma_uninstalled_consistent(start, names);
    law_stored_follows_queue(end, reached);
    assert(end.pending.take(reached as int) =~= start.pending + steps.take(successes as int));
    action::lemma_apply_all_add(start.stored, start.pending, steps.take(successes as int));
    lemma_removals_cut_short(start.db, start.db, all, successes);
}

proof fn lemma_removals_apply(start: Ownership, state: Ownership, names: Seq<Seq<char>>)
    ensures
        action::apply_all(start, action::removals(state, names)) == start.without(names.to_set()),
{
    let all = action::removals(state, names);
    lemma_removals_cut_short(start, state, names, 3 * names.len());
    assert(all.take((3 * names.len()) as int) =~= all);
    assert(names.take(off_record(3 * names.len())) =~= names);
}

/// A request that is decided on leaves the installer consistent.
proof fn lemma_uninstalled_consistent(start: InstallerView, names: Seq<Seq<char>>)
    requires
        start.consistent(),
    ensures
        start.uninstalled(names).consistent(),
{
    let requested = ownership::distinct(names);
    let swept = start.db.autoremoved(names);
    let rest = start.db.without(requested.to_set());
    let steps = action::removals(start.db, requested);
    let more = action::removals(start.db, swept);
    start.db.lemma_without_valid(requested.to_set());
    law_sweep_removes_its_order(rest);
    law_uninstall_leaves_no_orphan(start.db, names);
    action::lemma_apply_all_add(start.stored, start.pending, steps + more);
    action::lemma_apply_all_add(start.db, steps, more);
    lemma_removals_apply(start.db, start.db, requested);
    lemma_removals_apply(rest, start.db, swept);
}

/// A list of the installed formulas holds each once, in alphabetical order,
/// and with each the installed formulas that directly depend on it, in
/// alphabetical order too.
pub proof fn law_list_is_complete(state: Ownership, name: Seq<char>)
    requires
        state.valid(),
    ensures
        text::is_ascending(text::ascending(state.kegs.dom())),
        text::ascending(state.kegs.dom()).contains(name) <==> state.installed(name),
        text::is_ascending(text::ascending(state.dependents(name))),
        forall|dependent: Seq<char>| #[trigger]
            text::ascending(state.dependents(name)).contains(dependent) <==> state.installed(
                dependent,
            ) && state.declares(dependent, name),
{
    let all = text::ascending(state.kegs.dom());
    let some = text::ascending(state.dependents(name));
    text::lemma_ascending(state.kegs.dom());
    state.kegs.dom().lemma_len_filter(
        |dependent: Seq<char>| state.declares(dependent, name),
    );
    text::lemma_ascending(state.dependents(name));
    assert(all.to_set().contains(name) <==> all.contains(name));
    assert forall|dependent: Seq<char>| #[trigger] some.contains(dependent) <==> state.installed(
        dependent,
    ) && state.declares(dependent, name) by {
        assert(some.to_set().contains(dependent) <==> some.contains(dependent));
    }
}

/// A formula that is listed as an orphan is one.
pub proof fn law_listed_orphan_is_an_orphan(state: Ownership, name: Seq<char>)
    requires
        state.valid(),
        state.installed(name),
        !state.kegs[name].explicit,
        text::ascending(state.dependents(name)).len() == 0,
    ensures
        state.is_orphan(name),
{
    let some = text::ascending(state.dependents(name));
    law_list_is_complete(state, name);
    assert forall|other: Seq<char>|
        state.installed(other) && other != name implies !#[trigger] state.declares(other, name) by {
        assert(!some.contains(other));
    }
}

/// After a sweep no formula is listed as an orphan: with each that the user did
/// not ask for stands one that depends on it.
pub proof fn law_list_after_sweep(state: Ownership, name: Seq<char>)
    requires
        state.valid(),
        state.swept().installed(name),
        !state.swept().kegs[name].explicit,
    ensures
        text::ascending(state.swept().dependents(name)).len() > 0,
{
    let end = state.swept();
    law_sweep_leaves_no_orphan(state);
    if text::ascending(end.dependents(name)).len() == 0 {
        law_listed_orphan_is_an_orphan(end, name);
        assert(end.orphans().contains(name));
    }
}

/// The action concerns a store entry.
pub open spec fn touches_store(step: ActionView) -> bool {
    step is RemoveStoreEntry || step is DeleteStoreRef
}

proof fn lemma_removals_leave_store(state: Ownership, names: Seq<Seq<char>>)
    ensures
        forall|i: int|
            0 <= i < action::removals(state, names).len() ==> !touches_store(
                #[trigger] action::removals(state, names)[i],
            ),
    decreases names.len(),
{
    if names.len() > 0 {
        let rest = names.drop_last();
        let prior = action::removals(state, rest);
        let steps = action::removal(names.last(), state.kegs[names.last()].version);
        lemma_removals_leave_store(state, rest);
        assert forall|i: int| 0 <= i < action::removals(state, names).len() implies !touches_store(
            #[trigger] action::removals(state, names)[i],
        ) by {
            if i < prior.len() {
                assert(action::removals(state, names)[i] == prior[i]);
            } else {
                assert(action::removals(state, names)[i] == steps[i - prior.len()]);
            }
        }
    }
}

/// An uninstall leaves the store alone: the entries wait for collection.
pub proof fn law_uninstall_leaves_store(start: InstallerView, names: Seq<Seq<char>>)
    requires
        start.consistent(),
    ensures
        start.uninstalled(names).db.store_keys == start.db.store_keys,
        forall|i: int|
            start.pending.len() <= i < start.uninstalled(names).pending.len() ==> !touches_store(
                #[trigger] start.uninstalled(names).pending[i],
            ),
{
    let requested = ownership::distinct(names);
    let swept = start.db.autoremoved(names);
    let steps = action::removals(start.db, requested);
    let more = action::removals(start.db, swept);
    let queue = start.uninstalled(names).pending;
    start.db.lemma_without_valid(requested.to_set());
    law_sweep_removes_its_order(start.db.without(requested.to_set()));
    lemma_removals_leave_store(start.db, requested);
    lemma_removals_leave_store(start.db, swept);
    assert forall|i: int| start.pending.len() <= i < queue.len() implies !touches_store(
        #[trigger] queue[i],
    ) by {
        let k = i - start.pending.len();
        if k < steps.len() {
            assert(queue[i] == steps[k]);
        } else {
            assert(queue[i] == more[k - steps.len()]);
        }
    }
}

} // verus!
