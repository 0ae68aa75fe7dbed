//! What is asked of the machine: writes to the disk, to the stored record and
//! to the terminal.

use vstd::prelude::*;

use crate::ownership::Ownership;
use crate::text;

verus! {

#[derive(Debug, PartialEq, Eq)]
pub enum Action {
    /// Remove the links into a keg.
    UnlinkKeg { keg_name: String, version: String },
    /// Take a formula off the stored record, in one transaction.
    RecordUninstall { name: String },
    /// Delete a keg.
    RemoveKeg { keg_name: String, version: String },
    /// Delete a store entry.
    RemoveStoreEntry { store_key: String },
    /// Take a store entry off the stored record.
    DeleteStoreRef { store_key: String },
    /// Show a heading.
    Heading { text: String },
    /// Show a piece of information.
    Info { text: String },
    /// Print a line.
    Print { text: String },
}

/// An action as its texts.
#[verifier::ext_equal]
pub enum ActionView {
    UnlinkKeg { keg_name: Seq<char>, version: Seq<char> },
    RecordUninstall { name: Seq<char> },
    RemoveKeg { keg_name: Seq<char>, version: Seq<char> },
    RemoveStoreEntry { store_key: Seq<char> },
    DeleteStoreRef { store_key: Seq<char> },
    Heading { text: Seq<char> },
    Info { text: Seq<char> },
    Print { text: Seq<char> },
}

impl View for Action {
    type V = ActionView;

    open spec fn view(&self) -> ActionView {
        match self {
            Action::UnlinkKeg { keg_name, version } => ActionView::UnlinkKeg {
                keg_name: keg_name@,
                version: version@,
            },
            Action::RecordUninstall { name } => ActionView::RecordUninstall { name: name@ },
            Action::RemoveKeg { keg_name, version } => ActionView::RemoveKeg {
                keg_name: keg_name@,
                version: version@,
            },
            Action::RemoveStoreEntry { store_key } => ActionView::RemoveStoreEntry {
                store_key: store_key@,
            },
            Action::DeleteStoreRef { store_key } => ActionView::DeleteStoreRef {
                store_key: store_key@,
            },
            Action::Heading { text } => ActionView::Heading { text: text@ },
            Action::Info { text } => ActionView::Info { text: text@ },
            Action::Print { text } => ActionView::Print { text: text@ },
        }
    }
}

pub open spec fn action_views(list: Seq<Action>) -> Seq<ActionView> {
    Seq::new(list.len(), |i: int| list[i]@)
}

impl ActionView {
    /// What an action that succeeds makes of the stored record.
    pub open spec fn apply(self, stored: Ownership) -> Ownership {
        match self {
            ActionView::RecordUninstall { name } => stored.without(set![name]),
            ActionView::DeleteStoreRef { store_key } => stored.without_store_key(store_key),
            _ => stored,
        }
    }
}

/// What actions that succeed one after the other make of the stored record.
pub open spec fn apply_all(stored: Ownership, actions: Seq<ActionView>) -> Ownership
    decreases actions.len(),
{
    if actions.len() == 0 {
        stored
    } else {
        actions.last().apply(apply_all(stored, actions.drop_last()))
    }
}

pub proof fn lemma_apply_all_add(stored: Ownership, a: Seq<ActionView>, b: Seq<ActionView>)
    ensures
        apply_all(stored, a + b) == apply_all(apply_all(stored, a), b),
    decreases b.len(),
{
    if b.len() == 0 {
        assert(a + b =~= a);
    } else {
        assert((a + b).drop_last() =~= a + b.drop_last());
        lemma_apply_all_add(stored, a, b.drop_last());
    }
}

pub proof fn lemma_apply_one(stored: Ownership, action: ActionView)
    ensures
        apply_all(stored, seq![action]) == action.apply(stored),
{
    reveal_with_fuel(apply_all, 2);
    assert(seq![action].drop_last() =~= Seq::empty());
}

/// The removal of one formula: its links go, then its record, then its keg.
pub open spec fn removal(name: Seq<char>, version: Seq<char>) -> Seq<ActionView> {
    seq![
        ActionView::UnlinkKeg { keg_name: text::token(name), version },
        ActionView::RecordUninstall { name },
        ActionView::RemoveKeg { keg_name: text::token(name), version },
    ]
}

/// The removal of one formula takes it off the stored record.
pub proof fn lemma_apply_removal(stored: Ownership, name: Seq<char>, version: Seq<char>)
    ensures
        apply_all(stored, removal(name, version)) == stored.without(set![name]),
{
    reveal_with_fuel(apply_all, 4);
    let steps = removal(name, version);
    assert(steps.drop_last().drop_last().drop_last() =~= Seq::empty());
    assert(steps.drop_last().last() == steps[1]);
    assert(steps.drop_last().drop_last().last() == steps[0]);
}

/// The removal of formulas one after the other, each in the version that is
/// installed.
pub open spec fn removals(installed: Ownership, names: Seq<Seq<char>>) -> Seq<ActionView>
    decreases names.len(),
{
    if names.len() == 0 {
        Seq::empty()
    } else {
        removals(installed, names.drop_last()) + removal(
            names.last(),
            installed.kegs[names.last()].version,
        )
    }
}

/// The removal of store entries one after the other.
pub open spec fn entry_removals(keys: Seq<Seq<char>>) -> Seq<ActionView>
    decreases keys.len(),
{
    if keys.len() == 0 {
        Seq::empty()
    } else {
        entry_removals(keys.drop_last()) + seq![
            ActionView::RemoveStoreEntry { store_key: keys.last() },
            ActionView::DeleteStoreRef { store_key: keys.last() },
        ]
    }
}

/// The removal of a store entry takes it off the stored record.
pub proof fn lemma_apply_entry_removal(stored: Ownership, store_key: Seq<char>)
    ensures
        apply_all(
            stored,
            seq![
                ActionView::RemoveStoreEntry { store_key },
                ActionView::DeleteStoreRef { store_key },
            ],
        ) == stored.without_store_key(store_key),
{
    reveal_with_fuel(apply_all, 3);
    let steps = seq![
        ActionView::RemoveStoreEntry { store_key },
        ActionView::DeleteStoreRef { store_key },
    ];
    assert(steps.drop_last().drop_last() =~= Seq::empty());
    assert(steps.drop_last().last() == steps[0]);
}

pub proof fn lemma_removals_add(installed: Ownership, a: Seq<Seq<char>>, b: Seq<Seq<char>>)
    ensures
        removals(installed, a + b) == removals(installed, a) + removals(installed, b),
    decreases b.len(),
{
    if b.len() == 0 {
        assert(a + b =~= a);
        assert(removals(installed, a) + removals(installed, b) =~= removals(installed, a));
    } else {
        assert((a + b).drop_last() =~= a + b.drop_last());
        lemma_removals_add(installed, a, b.drop_last());
        assert(removals(installed, a + b) =~= removals(installed, a) + removals(installed, b));
    }
}

/// Only the versions matter.
pub proof fn lemma_removals_agree(x: Ownership, y: Ownership, names: Seq<Seq<char>>)
    requires
        forall|name: Seq<char>| #[trigger]
            names.contains(name) ==> x.kegs[name].version == y.kegs[name].version,
    ensures
        removals(x, names) == removals(y, names),
    decreases names.len(),
{
    if names.len() > 0 {
        let rest = names.drop_last();
        assert forall|name: Seq<char>| #[trigger] rest.contains(name) implies x.kegs[name].version
            == y.kegs[name].version by {
            let k = choose|k: int| 0 <= k < rest.len() && rest[k] == name;
            assert(names[k] == name);
            assert(names.contains(name));
        }
        lemma_removals_agree(x, y, rest);
        assert(names[names.len() - 1] == names.last());
        assert(names.contains(names.last()));
    }
}

} // verus!
