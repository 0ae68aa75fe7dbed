//! What holds of the record, told in terms of its kegs, its declared
//! dependencies and its store entries alone.

use vstd::prelude::*;

use crate::database;
use crate::database::InstalledFormula;
use crate::database::InstalledKeg;
use crate::error::Error;
use crate::error::ErrorView;
use crate::laws;
use crate::ownership;
use crate::ownership::Ownership;
use crate::text;

verus! {

/// A formula is installed where it has a keg, and declares what it has an edge
/// to.
pub proof fn law_record_terms(state: Ownership, name: Seq<char>, other: Seq<char>)
    ensures
        state.installed(name) <==> state.kegs.dom().contains(name),
        state.declares(name, other) <==> state.edges.contains((name, other)),
{
}

/// Kegs and formulas that are handed out say of themselves what the record
/// says, field by field.
pub proof fn law_rows_field_by_field(kegs: Seq<InstalledKeg>, formulas: Seq<InstalledFormula>, i: int)
    ensures
        database::keg_views(kegs).len() == kegs.len(),
        0 <= i < kegs.len() ==> {
            let view = database::keg_views(kegs)[i];
            &&& view == kegs[i]@
            &&& view.name == kegs[i].name@
            &&& view.version == kegs[i].version@
            &&& view.store_key == kegs[i].store_key@
            &&& view.explicit == kegs[i].explicit
            &&& view.explicit_category is Some <==> kegs[i].explicit_category is Some
            &&& kegs[i].explicit_category matches Some(category) ==> view.explicit_category == Some(
                category@,
            )
        },
        database::formula_views(formulas).len() == formulas.len(),
        0 <= i < formulas.len() ==> {
            let view = database::formula_views(formulas)[i];
            &&& view.keg == formulas[i].keg@
            &&& view.required_by.len() == formulas[i].required_by@.len()
            &&& forall|k: int|
                0 <= k < formulas[i].required_by@.len() ==> #[trigger] view.required_by[k]
                    == formulas[i].required_by@[k]@
        },
{
}

/// Errors say of themselves what they hold, field by field.
pub proof fn law_error_field_by_field(error: Error)
    ensures
        match error {
            Error::NotInstalled { name } => error@ == (ErrorView::NotInstalled { name: name@ }),
            Error::RequiredBy { name, dependents } => {
                &&& error@ is RequiredBy
                &&& error@->RequiredBy_name == name@
                &&& error@->dependents.len() == dependents@.len()
                &&& forall|k: int|
                    0 <= k < dependents@.len() ==> #[trigger] error@->dependents[k]
                        == dependents@[k]@
            },
            Error::StoreCorruption { message } => error@ == (ErrorView::StoreCorruption {
                message: message@,
            }),
            Error::External { message } => error@ == (ErrorView::External { message: message@ }),
        },
{
}

/// The kegs of a list of names are those on record under the names, and with
/// each stand, in alphabetical order, the installed formulas that have an edge
/// to it.
pub proof fn law_rows_of_names(state: Ownership, names: Seq<Seq<char>>, i: int, other: Seq<char>)
    requires
        state.kegs.dom().finite(),
        0 <= i < names.len(),
    ensures
        state.rows(names).len() == names.len(),
        state.rows(names)[i] == state.kegs[names[i]],
        state.formulas(names).len() == names.len(),
        state.formulas(names)[i].keg == state.kegs[names[i]],
        state.formulas(names)[i].required_by.contains(other) <==> state.kegs.dom().contains(other)
            && state.edges.contains((other, names[i])),
        text::is_ascending(state.formulas(names)[i].required_by),
{
    law_dependents(state, names[i], other);
}

/// The dependents of a formula are the installed formulas with an edge to it.
pub proof fn law_dependents(state: Ownership, name: Seq<char>, other: Seq<char>)
    requires
        state.kegs.dom().finite(),
    ensures
        state.dependents(name).contains(other) <==> state.kegs.dom().contains(other)
            && state.edges.contains((other, name)),
        text::ascending(state.dependents(name)).contains(other) <==> state.kegs.dom().contains(
            other,
        ) && state.edges.contains((other, name)),
        text::is_ascending(text::ascending(state.dependents(name))),
{
    let some = state.dependents(name);
    vstd::set_lib::lemma_len_subset(some, state.kegs.dom());
    text::lemma_ascending(some);
    assert(text::ascending(some).to_set().contains(other) <==> text::ascending(some).contains(
        other,
    ));
}

/// An orphan is just an installed formula that the user did not ask for and
/// that could be uninstalled without force.
pub proof fn law_orphan_could_be_uninstalled(state: Ownership, name: Seq<char>)
    requires
        state.valid(),
    ensures
        state.orphans().contains(name) <==> state.kegs.dom().contains(name)
            && !state.kegs[name].explicit && state.refusal(seq![name], false) is None,
        state.orphans().contains(name) <==> state.is_orphan(name),
        state.is_orphan(name) <==> state.kegs.dom().contains(name) && !state.kegs[name].explicit
            && forall|other: Seq<char>| #[trigger]
            state.edges.contains((other, name)) ==> other == name,
{
    let one = seq![name];
    laws::law_refusal(state, one, false);
    assert(one[0] == name);
    assert forall|n: Seq<char>| one.contains(n) <==> n == name by {}
    if state.is_orphan(name) {
        assert forall|other: Seq<char>| #[trigger] state.edges.contains((other, name)) implies other
            == name by {
            assert(state.kegs.contains_key((other, name).0));
            assert(state.declares(other, name));
        }
        assert forall|dependent: Seq<char>, n: Seq<char>| #[trigger]
            state.declares(dependent, n) && one.contains(n) && state.installed(
                dependent,
            ) implies one.contains(dependent) by {
            assert(n == name);
            assert(state.edges.contains((dependent, name)));
        }
    }
    if state.installed(name) && !state.kegs[name].explicit && state.refusal(one, false) is None {
        assert forall|other: Seq<char>|
            state.installed(other) && other != name implies !#[trigger] state.declares(
            other,
            name,
        ) by {
            if state.declares(other, name) {
                assert(one.contains(name));
                assert(one.contains(other));
            }
        }
    }
}

/// A formula is in a category where the user asked for it under that category.
pub proof fn law_in_category(state: Ownership, category: Seq<char>, name: Seq<char>)
    requires
        state.kegs.dom().finite(),
    ensures
        state.in_category(category).contains(name) <==> state.kegs.dom().contains(name)
            && state.kegs[name].explicit && state.kegs[name].explicit_category == Some(category),
        text::ascending(state.in_category(category)).contains(name) <==> state.in_category(
            category,
        ).contains(name),
        text::is_ascending(text::ascending(state.in_category(category))),
{
    let some = state.in_category(category);
    vstd::set_lib::lemma_len_subset(some, state.kegs.dom());
    text::lemma_ascending(some);
    assert(text::ascending(some).to_set().contains(name) <==> text::ascending(some).contains(name));
}

/// Removing formulas takes away their kegs and what they declare, and nothing
/// else.
pub proof fn law_without(
    state: Ownership,
    gone: Set<Seq<char>>,
    name: Seq<char>,
    other: Seq<char>,
)
    ensures
        state.without(gone).kegs.dom().contains(name) <==> state.kegs.dom().contains(name)
            && !gone.contains(name),
        state.without(gone).kegs.dom().contains(name) ==> state.without(gone).kegs[name]
            == state.kegs[name],
        state.without(gone).edges.contains((name, other)) <==> state.edges.contains((name, other))
            && !gone.contains(name),
        state.without(gone).store_keys == state.store_keys,
{
}

/// What an install puts on record is what it was given, and the store entry is
/// on record from then on.
pub proof fn law_install_is_recorded(
    state: Ownership,
    name: Seq<char>,
    version: Seq<char>,
    store_key: Seq<char>,
    explicit: bool,
    category: Option<Seq<char>>,
    dependencies: Seq<Seq<char>>,
    other: Seq<char>,
)
    ensures
        ({
            let end = state.with_install(
                name,
                version,
                store_key,
                explicit,
                category,
                dependencies,
            );
            &&& end.kegs.dom() == state.kegs.dom().insert(name)
            &&& end.kegs[name].name == name
            &&& end.kegs[name].version == version
            &&& end.kegs[name].store_key == store_key
            &&& explicit ==> end.kegs[name].explicit
            &&& !explicit ==> end.kegs[name].explicit == (state.kegs.dom().contains(name)
                && state.kegs[name].explicit)
            &&& forall|dependency: Seq<char>| #[trigger]
                end.edges.contains((name, dependency)) <==> dependencies.contains(dependency)
            &&& other != name ==> forall|dependency: Seq<char>| #[trigger]
                end.edges.contains((other, dependency)) <==> state.edges.contains(
                    (other, dependency),
                )
            &&& end.store_keys.contains(store_key)
            &&& end.referenced(store_key)
        }),
{
    let end = state.with_install(name, version, store_key, explicit, category, dependencies);
    law_store_entry_is_added_behind(state, store_key, store_key);
    assert(end.store_keys == state.with_store_key(store_key).store_keys);
    assert(end.installed(name));
    assert(end.kegs.dom() =~= state.kegs.dom().insert(name));
}

/// A store entry that was not on record stands last on it, behind all others
/// in their order. One that was leaves the record as it is.
pub proof fn law_store_entry_is_added_behind(state: Ownership, store_key: Seq<char>, other: Seq<char>)
    ensures
        ({
            let end = state.with_store_key(store_key);
            &&& end.kegs == state.kegs
            &&& end.edges == state.edges
            &&& end.store_keys.take(state.store_keys.len() as int) == state.store_keys
            &&& end.store_keys.contains(other) <==> state.store_keys.contains(other) || other
                == store_key
            &&& end.store_keys.len() == state.store_keys.len() + if state.store_keys.contains(
                store_key,
            ) {
                0int
            } else {
                1int
            }
        }),
{
    let end = state.with_store_key(store_key);
    text::lemma_push_members(state.store_keys, store_key);
    assert(end.store_keys.take(state.store_keys.len() as int) =~= state.store_keys);
}

proof fn lemma_filter_order(list: Seq<Seq<char>>, keep: spec_fn(Seq<char>) -> bool, i: int, j: int)
    requires
        0 <= i < j < list.filter(keep).len(),
    ensures
        exists|p: int, q: int|
            0 <= p < q < list.len() && #[trigger] list[p] == list.filter(keep)[i]
                && #[trigger] list[q] == list.filter(keep)[j],
    decreases list.len(),
{
    reveal(Seq::filter);
    if list.len() > 0 {
        let rest = list.drop_last();
        let kept = rest.filter(keep);
        if j < kept.len() {
            lemma_filter_order(rest, keep, i, j);
            let (p, q) = choose|p: int, q: int|
                0 <= p < q < rest.len() && #[trigger] rest[p] == kept[i] && #[trigger] rest[q]
                    == kept[j];
            assert(list[p] == list.filter(keep)[i] && list[q] == list.filter(keep)[j]);
        } else {
            assert(kept.contains(kept[i]));
            rest.lemma_filter_contains_rev(keep, kept[i]);
            let p = choose|p: int| 0 <= p < rest.len() && rest[p] == kept[i];
            assert(list[p] == list.filter(keep)[i]);
            assert(list[list.len() - 1] == list.filter(keep)[j]);
        }
    }
}

/// The unreferenced store entries come in the order of the record, each once,
/// and are those that no keg comes from.
pub proof fn law_unreferenced(state: Ownership, key: Seq<char>, i: int, j: int)
    requires
        state.valid(),
    ensures
        state.unreferenced().contains(key) <==> state.store_keys.contains(key) && forall|
            name: Seq<char>,
        | #[trigger]
            state.kegs.dom().contains(name) ==> state.kegs[name].store_key != key,
        state.unreferenced().no_duplicates(),
        0 <= i < j < state.unreferenced().len() ==> exists|p: int, q: int|
            0 <= p < q < state.store_keys.len() && #[trigger] state.store_keys[p]
                == state.unreferenced()[i] && #[trigger] state.store_keys[q]
                == state.unreferenced()[j],
{
    let loose = |key: Seq<char>| !state.referenced(key);
    assert(state.unreferenced() == state.store_keys.filter(loose));
    ownership::lemma_filter_members(state.store_keys, loose);
    assert(state.unreferenced().contains(key) <==> state.store_keys.contains(key) && loose(key));
    if 0 <= i < j < state.unreferenced().len() {
        lemma_filter_order(state.store_keys, loose, i, j);
    }
    if state.referenced(key) {
        let name = choose|name: Seq<char>| #[trigger]
            state.installed(name) && state.kegs[name].store_key == key;
        assert(state.kegs.dom().contains(name));
    } else {
        assert forall|name: Seq<char>| #[trigger] state.kegs.dom().contains(name) implies state.kegs[name].store_key
            != key by {
            assert(state.installed(name));
        }
    }
}

/// Collection takes exactly the unreferenced entries off the record and keeps
/// the others in their order.
pub proof fn law_collected(state: Ownership, key: Seq<char>, i: int, j: int)
    requires
        state.valid(),
    ensures
        state.collected().kegs == state.kegs,
        state.collected().edges == state.edges,
        state.collected().store_keys.contains(key) <==> state.store_keys.contains(key)
            && !state.unreferenced().contains(key),
        state.collected().store_keys.no_duplicates(),
        0 <= i < j < state.collected().store_keys.len() ==> exists|p: int, q: int|
            0 <= p < q < state.store_keys.len() && #[trigger] state.store_keys[p]
                == state.collected().store_keys[i] && #[trigger] state.store_keys[q]
                == state.collected().store_keys[j],
{
    let used = |key: Seq<char>| state.referenced(key);
    assert(state.collected().store_keys == state.store_keys.filter(used));
    laws::law_gc_keeps_what_is_referenced(state, key);
    ownership::lemma_filter_members(state.store_keys, used);
    if 0 <= i < j < state.collected().store_keys.len() {
        lemma_filter_order(state.store_keys, used, i, j);
    }
}

/// Taking a store entry off the record touches no other, and the others keep
/// their order.
pub proof fn law_without_store_key(
    state: Ownership,
    store_key: Seq<char>,
    other: Seq<char>,
    i: int,
    j: int,
)
    requires
        state.valid(),
    ensures
        state.without_store_key(store_key).kegs == state.kegs,
        state.without_store_key(store_key).edges == state.edges,
        state.without_store_key(store_key).store_keys.contains(other)
            <==> state.store_keys.contains(other) && other != store_key,
        state.without_store_key(store_key).store_keys.no_duplicates(),
        0 <= i < j < state.without_store_key(store_key).store_keys.len() ==> exists|p: int, q: int|
            0 <= p < q < state.store_keys.len() && #[trigger] state.store_keys[p]
                == state.without_store_key(store_key).store_keys[i]
                && #[trigger] state.store_keys[q] == state.without_store_key(
                store_key,
            ).store_keys[j],
{
    if 0 <= i < j < state.without_store_key(store_key).store_keys.len() {
        lemma_filter_order(state.store_keys, ownership::other_than(store_key), i, j);
    }
    ownership::lemma_filter_members(state.store_keys, ownership::other_than(store_key));
    let rest = state.without_store_key(store_key);
    assert(rest.store_keys.contains(other) <==> state.store_keys.contains(other)
        && ownership::other_than(store_key)(other));
}

/// The distinct list of a request keeps the order in which the names first
/// occur: of two names, the later one does not occur up to where the earlier
/// one first does.
pub proof fn law_distinct_keeps_order(list: Seq<Seq<char>>, i: int, j: int)
    requires
        0 <= i < j < ownership::distinct(list).len(),
    ensures
        ownership::distinct(list).no_duplicates(),
        exists|p: int|
            {
                &&& 0 <= p < list.len()
                &&& #[trigger] list[p] == ownership::distinct(list)[i]
                &&& forall|q: int|
                    0 <= q <= p ==> #[trigger] list[q] != ownership::distinct(list)[j]
            },
    decreases list.len(),
{
    let all = ownership::distinct(list);
    ownership::lemma_distinct_members(list);
    if list.len() > 0 {
        let rest = list.drop_last();
        let above = ownership::distinct(rest);
        ownership::lemma_distinct_members(rest);
        if j < above.len() {
            law_distinct_keeps_order(rest, i, j);
            let p = choose|p: int|
                {
                    &&& 0 <= p < rest.len()
                    &&& #[trigger] rest[p] == above[i]
                    &&& forall|q: int| 0 <= q <= p ==> #[trigger] rest[q] != above[j]
                };
            assert(list[p] == all[i]);
            assert forall|q: int| 0 <= q <= p implies #[trigger] list[q] != all[j] by {
                assert(rest[q] != above[j]);
            }
        } else {
            assert(above.contains(above[i]));
            assert(rest.contains(above[i]));
            let p = choose|p: int| 0 <= p < rest.len() && rest[p] == above[i];
            assert(list[p] == all[i]);
            assert forall|q: int| 0 <= q <= p implies #[trigger] list[q] != all[j] by {
                assert(rest.contains(rest[q]));
                assert(above.contains(rest[q]));
                assert(all[j] == list.last());
                assert(!above.contains(list.last()));
            }
        }
    }
}

/// The first name of a list that is refused: it stands there, and none before
/// it is.
proof fn lemma_first_where_at(list: Seq<Seq<char>>, condition: spec_fn(Seq<char>) -> bool) -> (p: int)
    requires
        ownership::first_where(list, condition) is Some,
    ensures
        0 <= p < list.len(),
        ownership::first_where(list, condition) == Some(list[p]),
        condition(list[p]),
        forall|q: int| 0 <= q < p ==> !condition(#[trigger] list[q]),
    decreases list.len(),
{
    if condition(list.first()) {
        0
    } else {
        let rest = list.drop_first();
        let p = lemma_first_where_at(rest, condition);
        assert(rest[p] == list[p + 1]);
        assert forall|q: int| 0 <= q < p + 1 implies !condition(#[trigger] list[q]) by {
            if q > 0 {
                assert(rest[q - 1] == list[q]);
            }
        }
        p + 1
    }
}

/// Where a member of the distinct list first stands in the list, everything
/// before it in the list stands before it in the distinct list too.
proof fn lemma_distinct_at(list: Seq<Seq<char>>, i: int) -> (p: int)
    requires
        0 <= i < ownership::distinct(list).len(),
    ensures
        0 <= p < list.len(),
        list[p] == ownership::distinct(list)[i],
        forall|q: int|
            0 <= q < p ==> ownership::distinct(list).take(i).contains(#[trigger] list[q]),
    decreases list.len(),
{
    let all = ownership::distinct(list);
    let rest = list.drop_last();
    let above = ownership::distinct(rest);
    ownership::lemma_distinct_members(rest);
    if i < above.len() {
        let p = lemma_distinct_at(rest, i);
        assert(all.take(i) =~= above.take(i));
        assert forall|q: int| 0 <= q < p implies all.take(i).contains(#[trigger] list[q]) by {
            assert(rest[q] == list[q]);
        }
        p
    } else {
        assert(all.take(i) =~= above);
        assert forall|q: int| 0 <= q < rest.len() implies above.contains(#[trigger] list[q]) by {
            assert(rest[q] == list[q]);
            assert(rest.contains(rest[q]));
        }
        list.len() - 1
    }
}

/// A refusal names the first formula of the request that is in the way: the
/// first that has no keg, or, where all have one, the first that a formula
/// outside the request has an edge to.
pub proof fn law_refusal_names_the_first(state: Ownership, names: Seq<Seq<char>>, force: bool)
    requires
        state.valid(),
    ensures
        match state.refusal(names, force) {
            Some(ErrorView::NotInstalled { name }) => exists|p: int|
                {
                    &&& 0 <= p < names.len()
                    &&& #[trigger] names[p] == name
                    &&& !state.kegs.dom().contains(name)
                    &&& forall|q: int|
                        0 <= q < p ==> state.kegs.dom().contains(#[trigger] names[q])
                },
            Some(ErrorView::RequiredBy { name, dependents }) => {
                &&& forall|q: int|
                    0 <= q < names.len() ==> state.kegs.dom().contains(#[trigger] names[q])
                &&& exists|p: int|
                    {
                        &&& 0 <= p < names.len()
                        &&& #[trigger] names[p] == name
                        &&& forall|q: int, other: Seq<char>|
                            0 <= q < p && #[trigger] state.edges.contains((other, names[q]))
                                ==> names.contains(other)
                    }
                &&& text::is_ascending(dependents)
                &&& dependents.len() > 0
                &&& forall|other: Seq<char>| #[trigger]
                    dependents.contains(other) <==> state.kegs.dom().contains(other)
                        && state.edges.contains((other, name)) && !names.contains(other)
            },
            Some(_) => false,
            None => true,
        },
{
    let requested = ownership::distinct(names);
    let missing = |name: Seq<char>| !state.installed(name);
    let blocked = |name: Seq<char>| !state.blockers(name, requested).is_empty();
    ownership::lemma_distinct_members(names);
    ownership::lemma_first_where(requested, missing);
    laws::law_refusal_says_why(state, names, force);
    match state.refusal(names, force) {
        Some(ErrorView::NotInstalled { name }) => {
            let i = lemma_first_where_at(requested, missing);
            let p = lemma_distinct_at(names, i);
            assert forall|q: int| 0 <= q < p implies state.kegs.dom().contains(
                #[trigger] names[q],
            ) by {
                let k = choose|k: int| 0 <= k < i && requested.take(i)[k] == names[q];
                assert(!missing(requested[k]));
            }
            assert(names[p] == name);
        },
        Some(ErrorView::RequiredBy { name, dependents }) => {
            let i = lemma_first_where_at(requested, blocked);
            let p = lemma_distinct_at(names, i);
            assert forall|q: int| 0 <= q < names.len() implies state.kegs.dom().contains(
                #[trigger] names[q],
            ) by {
                assert(names.contains(names[q]));
                assert(requested.contains(names[q]));
                assert(!missing(names[q]));
            }
            assert forall|q: int, other: Seq<char>|
                0 <= q < p && #[trigger] state.edges.contains((other, names[q])) implies names.contains(
                other,
            ) by {
                let k = choose|k: int| 0 <= k < i && requested.take(i)[k] == names[q];
                assert(!blocked(requested[k]));
                assert(state.kegs.contains_key((other, names[q]).0));
                assert(!state.blockers(names[q], requested).contains(other));
                assert(requested.contains(other));
            }
            assert(names[p] == name);
        },
        _ => {},
    }
}

/// A formula is still there after an uninstall just where it stands on its own
/// with formulas of which none was asked to go.
pub proof fn law_uninstall_keeps_what_is_supported(
    state: Ownership,
    names: Seq<Seq<char>>,
    name: Seq<char>,
)
    requires
        state.valid(),
    ensures
        state.uninstalled(names).kegs.dom().contains(name) <==> exists|members: Set<Seq<char>>|
            {
                &&& members.contains(name)
                &&& forall|member: Seq<char>| #[trigger]
                    members.contains(member) ==> !names.contains(member)
                        && state.kegs.dom().contains(member)
                &&& #[trigger] laws::supported(state, members)
            },
{
    let gone = ownership::distinct(names).to_set();
    let rest = state.without(gone);
    ownership::lemma_distinct_members(names);
    state.lemma_without_valid(gone);
    laws::law_sweep_keeps_what_is_supported(rest, name);
    assert forall|n: Seq<char>| gone.contains(n) <==> names.contains(n) by {}
    if exists|members: Set<Seq<char>>|
        {
            &&& members.contains(name)
            &&& forall|member: Seq<char>| #[trigger]
                members.contains(member) ==> !names.contains(member) && state.kegs.dom().contains(
                    member,
                )
            &&& #[trigger] laws::supported(state, members)
        } {
        let members = choose|members: Set<Seq<char>>|
            {
                &&& members.contains(name)
                &&& forall|member: Seq<char>| #[trigger]
                    members.contains(member) ==> !names.contains(member)
                        && state.kegs.dom().contains(member)
                &&& #[trigger] laws::supported(state, members)
            };
        lemma_supported_within(state, gone, members);
    }
    if rest.swept().installed(name) {
        let members = choose|members: Set<Seq<char>>| #[trigger]
            laws::supported(rest, members) && members.contains(name);
        lemma_supported_without(state, gone, members);
    }
}

proof fn lemma_supported_within(state: Ownership, gone: Set<Seq<char>>, members: Set<Seq<char>>)
    requires
        laws::supported(state, members),
        forall|member: Seq<char>| #[trigger] members.contains(member) ==> !gone.contains(member),
    ensures
        laws::supported(state.without(gone), members),
{
    let rest = state.without(gone);
    assert forall|name: Seq<char>| #[trigger] members.contains(name) implies rest.installed(name)
        && (rest.kegs[name].explicit || exists|other: Seq<char>|
        members.contains(other) && other != name && #[trigger] rest.declares(other, name)) by {
        if !state.kegs[name].explicit {
            let other = choose|other: Seq<char>|
                members.contains(other) && other != name && #[trigger] state.declares(other, name);
            assert(rest.declares(other, name));
        }
    }
}

proof fn lemma_supported_without(state: Ownership, gone: Set<Seq<char>>, members: Set<Seq<char>>)
    requires
        laws::supported(state.without(gone), members),
    ensures
        laws::supported(state, members),
        forall|member: Seq<char>| #[trigger]
            members.contains(member) ==> !gone.contains(member) && state.kegs.dom().contains(
                member,
            ),
{
    let rest = state.without(gone);
    assert forall|name: Seq<char>| #[trigger] members.contains(name) implies state.installed(name)
        && (state.kegs[name].explicit || exists|other: Seq<char>|
        members.contains(other) && other != name && #[trigger] state.declares(other, name)) by {
        assert(rest.installed(name));
        if !rest.kegs[name].explicit {
            let other = choose|other: Seq<char>|
                members.contains(other) && other != name && #[trigger] rest.declares(other, name);
            assert(state.declares(other, name));
        }
    }
    assert forall|member: Seq<char>| #[trigger] members.contains(member) implies !gone.contains(
        member,
    ) && state.kegs.dom().contains(member) by {
        assert(rest.installed(member));
    }
}

/// A sweep begins with the orphans in alphabetical order and goes on as a sweep
/// of the record without them. What a sweep after an uninstall removes is what
/// a sweep removes once the formulas of the request are gone.
pub proof fn law_sweep_goes_in_rounds(state: Ownership, names: Seq<Seq<char>>)
    requires
        state.valid(),
    ensures
        ({
            let first = state.orphans().len() as int;
            let order = state.sweep_order();
            let rest = state.without(state.orphans());
            &&& first <= order.len()
            &&& text::is_ascending(order.take(first))
            &&& order.take(first).to_set() == state.orphans()
            &&& first > 0 ==> order.skip(first) == rest.sweep_order()
            &&& first == 0 ==> order.len() == 0
        }),
        state.autoremoved(names) == state.without(names.to_set()).sweep_order(),
        state.uninstalled(names) == state.without(names.to_set()).swept(),
{
    let orphans = state.orphans();
    let order = state.sweep_order();
    ownership::lemma_distinct_members(names);
    vstd::set_lib::lemma_len_subset(orphans, state.kegs.dom());
    if orphans.is_empty() {
        assert(orphans =~= Set::empty());
        assert(order.take(0).to_set() =~= Set::empty());
    } else {
        let list = text::ascending(orphans);
        state.lemma_round();
        ownership::lemma_distinct_ascending(list);
        list.unique_seq_to_set();
        assert(order.take(list.len() as int) =~= list);
        assert(order.skip(list.len() as int) =~= state.without(orphans).sweep_order());
        let one = choose|one: Seq<char>| orphans.contains(one);
        assert(orphans.contains(one));
        assert(list.to_set().contains(one));
    }
}

/// When a request goes through and what it leaves, told in terms of kegs and
/// edges. Without force every formula that stays keeps every dependency that
/// it had and that was there.
pub proof fn law_uninstall_outcome(state: Ownership, names: Seq<Seq<char>>)
    requires
        state.valid(),
    ensures
        state.refusal(names, true) is None <==> forall|name: Seq<char>| #[trigger]
            names.contains(name) ==> state.kegs.dom().contains(name),
        state.refusal(names, false) is None <==> {
            &&& forall|name: Seq<char>| #[trigger]
                names.contains(name) ==> state.kegs.dom().contains(name)
            &&& forall|dependent: Seq<char>, name: Seq<char>| #[trigger]
                state.edges.contains((dependent, name)) && names.contains(name) ==> names.contains(
                    dependent,
                )
        },
        forall|name: Seq<char>| #[trigger]
            state.uninstalled(names).kegs.dom().contains(name) ==> !names.contains(name)
                && state.kegs.dom().contains(name) && state.uninstalled(names).kegs[name]
                == state.kegs[name],
        forall|name: Seq<char>| #[trigger]
            state.kegs.dom().contains(name) && state.kegs[name].explicit && !names.contains(name)
                ==> state.uninstalled(names).kegs.dom().contains(name),
        forall|dependent: Seq<char>, name: Seq<char>| #[trigger]
            state.uninstalled(names).edges.contains((dependent, name)) <==> state.edges.contains(
                (dependent, name),
            ) && state.uninstalled(names).kegs.dom().contains(dependent),
        state.uninstalled(names).store_keys == state.store_keys,
        state.refusal(names, false) is None ==> forall|dependent: Seq<char>, name: Seq<char>|
            #[trigger]
            state.edges.contains((dependent, name)) && state.uninstalled(
                names,
            ).kegs.dom().contains(dependent) && state.kegs.dom().contains(name)
                ==> state.uninstalled(names).kegs.dom().contains(name),
{
    let end = state.uninstalled(names);
    laws::law_refusal(state, names, true);
    laws::law_refusal(state, names, false);
    assert forall|dependent: Seq<char>, name: Seq<char>|
        state.edges.contains((dependent, name)) == #[trigger] state.declares(
            dependent,
            name,
        ) by {}
    if state.refusal(names, false) is None {
        assert forall|dependent: Seq<char>, name: Seq<char>| #[trigger]
            state.edges.contains((dependent, name)) && names.contains(name) implies names.contains(
            dependent,
        ) by {
            assert(state.kegs.contains_key((dependent, name).0));
            assert(state.declares(dependent, name));
        }
        assert forall|dependent: Seq<char>, name: Seq<char>| #[trigger]
            state.edges.contains((dependent, name)) && end.kegs.dom().contains(dependent)
                && state.kegs.dom().contains(name) implies end.kegs.dom().contains(name) by {
            laws::law_uninstall_breaks_no_dependency(state, names, dependent, name);
        }
    }
    assert forall|name: Seq<char>| #[trigger] end.kegs.dom().contains(name) implies !names.contains(
        name,
    ) && state.kegs.dom().contains(name) && end.kegs[name] == state.kegs[name] by {
        laws::law_uninstall_accounts_for_all(state, names, name);
    }
    assert forall|name: Seq<char>| #[trigger]
        state.kegs.dom().contains(name) && state.kegs[name].explicit && !names.contains(
            name,
        ) implies end.kegs.dom().contains(name) by {
        laws::law_uninstall_accounts_for_all(state, names, name);
    }
    assert forall|dependent: Seq<char>, name: Seq<char>| #[trigger]
        end.edges.contains((dependent, name)) <==> state.edges.contains((dependent, name))
            && end.kegs.dom().contains(dependent) by {
        laws::law_uninstall_keeps_declarations(state, names, dependent, name);
    }
    let gone = ownership::distinct(names).to_set();
    state.lemma_without_valid(gone);
    laws::law_sweep_removes_its_order(state.without(gone));
}

} // verus!
