//! What the machine is asked to do, action by action, and what this makes of
//! the stored record.

use vstd::prelude::*;

use crate::action;
use crate::action::Action;
use crate::action::ActionView;
use crate::installer::InstallerView;
use crate::laws;
use crate::ownership;
use crate::ownership::Ownership;
use crate::text;
use crate::text_laws;

verus! {

/// Actions say of themselves what they hold, field by field.
pub proof fn law_action_field_by_field(list: Seq<Action>, i: int)
    requires
        0 <= i < list.len(),
    ensures
        action::action_views(list).len() == list.len(),
        match list[i] {
            Action::UnlinkKeg { keg_name, version } => action::action_views(list)[i] == (
            ActionView::UnlinkKeg { keg_name: keg_name@, version: version@ }),
            Action::RecordUninstall { name } => action::action_views(list)[i] == (
            ActionView::RecordUninstall { name: name@ }),
            Action::RemoveKeg { keg_name, version } => action::action_views(list)[i] == (
            ActionView::RemoveKeg { keg_name: keg_name@, version: version@ }),
            Action::RemoveStoreEntry { store_key } => action::action_views(list)[i] == (
            ActionView::RemoveStoreEntry { store_key: store_key@ }),
            Action::DeleteStoreRef { store_key } => action::action_views(list)[i] == (
            ActionView::DeleteStoreRef { store_key: store_key@ }),
            Action::Heading { text } => action::action_views(list)[i] == (ActionView::Heading {
                text: text@,
            }),
            Action::Info { text } => action::action_views(list)[i] == (ActionView::Info {
                text: text@,
            }),
            Action::Print { text } => action::action_views(list)[i] == (ActionView::Print {
                text: text@,
            }),
        },
{
}

/// The removal of a formula unlinks and deletes, in the given version, the keg
/// that carries everything behind the last slash of the formula's name, and in
/// between takes the formula off the record under its whole name. A name
/// without a slash is the name of its keg.
pub proof fn law_removal_concerns_its_own_keg(name: Seq<char>, version: Seq<char>, from: int)
    requires
        0 <= from <= name.len(),
        from == 0 || name[from - 1] == '/',
        forall|k: int| from <= k < name.len() ==> name[k] != '/',
    ensures
        ({
            let steps = action::removal(name, version);
            &&& steps.len() == 3
            &&& steps[0] is UnlinkKeg
            &&& steps[0]->UnlinkKeg_keg_name == name.subrange(from, name.len() as int)
            &&& steps[0]->UnlinkKeg_version == version
            &&& steps[1] is RecordUninstall
            &&& steps[1]->name == name
            &&& steps[2] is RemoveKeg
            &&& steps[2]->RemoveKeg_keg_name == name.subrange(from, name.len() as int)
            &&& steps[2]->RemoveKeg_version == version
        }),
{
    let rest = name.subrange(from, name.len() as int);
    if from == 0 {
        assert(rest =~= name);
        text_laws::law_token_is_all_behind_the_last_slash(Seq::empty(), rest);
    } else {
        let tap = name.take(from - 1);
        assert(name =~= tap.push('/') + rest);
        text_laws::law_token_is_all_behind_the_last_slash(tap, rest);
    }
}

/// A row of removals removes the formulas of the list one by one, each in the
/// version that its keg has.
pub proof fn law_removals_one_by_one(state: Ownership, names: Seq<Seq<char>>, k: int, from: int)
    requires
        0 <= k < names.len(),
        0 <= from <= names[k].len(),
        from == 0 || names[k][from - 1] == '/',
        forall|i: int| from <= i < names[k].len() ==> names[k][i] != '/',
    ensures
        ({
            let steps = action::removals(state, names);
            let keg_name = names[k].subrange(from, names[k].len() as int);
            let version = state.kegs[names[k]].version;
            &&& steps.len() == 3 * names.len()
            &&& steps[3 * k] == (ActionView::UnlinkKeg { keg_name, version })
            &&& steps[3 * k + 1] == (ActionView::RecordUninstall { name: names[k] })
            &&& steps[3 * k + 2] == (ActionView::RemoveKeg { keg_name, version })
        }),
    decreases names.len(),
{
    let rest = names.drop_last();
    let last = names.last();
    laws::lemma_removals_len(state, names);
    laws::lemma_removals_len(state, rest);
    if k < rest.len() {
        law_removals_one_by_one(state, rest, k, from);
        let prior = action::removals(state, rest);
        let steps = action::removals(state, names);
        assert(steps[3 * k] == prior[3 * k]);
        assert(steps[3 * k + 1] == prior[3 * k + 1]);
        assert(steps[3 * k + 2] == prior[3 * k + 2]);
    } else {
        law_removal_concerns_its_own_keg(last, state.kegs[last].version, from);
    }
}

/// Every store entry that collection takes off the record is deleted just
/// before, itself and no other.
pub proof fn law_entry_goes_before_its_record(keys: Seq<Seq<char>>, k: int)
    requires
        0 <= k < keys.len(),
    ensures
        action::entry_removals(keys).len() == 2 * keys.len(),
        action::entry_removals(keys)[2 * k] is RemoveStoreEntry,
        action::entry_removals(keys)[2 * k]->RemoveStoreEntry_store_key == keys[k],
        action::entry_removals(keys)[2 * k + 1] is DeleteStoreRef,
        action::entry_removals(keys)[2 * k + 1]->DeleteStoreRef_store_key == keys[k],
    decreases keys.len(),
{
    let rest = keys.drop_last();
    lemma_entry_removals_len(keys);
    lemma_entry_removals_len(rest);
    if k < rest.len() {
        law_entry_goes_before_its_record(rest, k);
        let prior = action::entry_removals(rest);
        assert(action::entry_removals(keys)[2 * k] == prior[2 * k]);
        assert(action::entry_removals(keys)[2 * k + 1] == prior[2 * k + 1]);
    }
}

/// The removal of a store entry is two actions.
pub proof fn lemma_entry_removals_len(keys: Seq<Seq<char>>)
    ensures
        action::entry_removals(keys).len() == 2 * keys.len(),
    decreases keys.len(),
{
    if keys.len() > 0 {
        lemma_entry_removals_len(keys.drop_last());
    }
}

/// What collection asks of the machine deletes exactly the unreferenced store
/// entries from the disk, and takes exactly them off the record.
pub proof fn law_collection_deletes_what_it_forgets(keys: Seq<Seq<char>>, key: Seq<char>)
    ensures
        action::entry_removals(keys).contains(ActionView::RemoveStoreEntry { store_key: key })
            <==> keys.contains(key),
        action::entry_removals(keys).contains(ActionView::DeleteStoreRef { store_key: key })
            <==> keys.contains(key),
{
    let steps = action::entry_removals(keys);
    let entry = ActionView::RemoveStoreEntry { store_key: key };
    let record = ActionView::DeleteStoreRef { store_key: key };
    lemma_entry_removals_len(keys);
    if keys.contains(key) {
        let k = choose|k: int| 0 <= k < keys.len() && keys[k] == key;
        law_entry_goes_before_its_record(keys, k);
        assert(steps[2 * k] == entry);
        assert(steps[2 * k + 1] == record);
    }
    if steps.contains(entry) || steps.contains(record) {
        let i = choose|i: int|
            0 <= i < steps.len() && (#[trigger] steps[i] == entry || steps[i] == record);
        law_entry_goes_before_its_record(keys, i / 2);
        assert(i == 2 * (i / 2) || i == 2 * (i / 2) + 1);
        assert(keys[i / 2] == key);
    }
}

/// Of all actions only two touch the stored record: one takes a formula off
/// it, with what the formula declares, the other a store entry.
pub proof fn law_action_on_the_stored_record(
    step: ActionView,
    stored: Ownership,
    name: Seq<char>,
    other: Seq<char>,
)
    requires
        stored.valid(),
    ensures
        ({
            let end = step.apply(stored);
            &&& end.kegs.dom().contains(name) <==> stored.kegs.dom().contains(name) && step != (
            ActionView::RecordUninstall { name })
            &&& end.kegs.dom().contains(name) ==> end.kegs[name] == stored.kegs[name]
            &&& end.edges.contains((name, other)) <==> stored.edges.contains((name, other)) && step
                != (ActionView::RecordUninstall { name })
            &&& end.store_keys.contains(name) <==> stored.store_keys.contains(name) && step != (
            ActionView::DeleteStoreRef { store_key: name })
            &&& !(step is DeleteStoreRef) ==> end.store_keys == stored.store_keys
            &&& !(step is RecordUninstall) ==> end.kegs == stored.kegs && end.edges == stored.edges
        }),
{
    if let ActionView::DeleteStoreRef { store_key } = step {
        ownership::lemma_filter_members(stored.store_keys, ownership::other_than(store_key));
        let rest = stored.without_store_key(store_key);
        assert(rest.store_keys.contains(name) <==> stored.store_keys.contains(name)
            && ownership::other_than(store_key)(name));
    }
}

/// A decided request leaves the queue as it was and puts the removals behind
/// it: three actions for each formula, first of the request in the order in
/// which the names first occur, then of the sweep in its order.
pub proof fn law_uninstall_queue(start: InstallerView, names: Seq<Seq<char>>, k: int, from: int)
    requires
        start.consistent(),
        0 <= k < ownership::distinct(names).len() + start.db.autoremoved(names).len(),
        ({
            let name = (ownership::distinct(names) + start.db.autoremoved(names))[k];
            &&& 0 <= from <= name.len()
            &&& from == 0 || name[from - 1] == '/'
            &&& forall|i: int| from <= i < name.len() ==> name[i] != '/'
        }),
    ensures
        ({
            let requested = ownership::distinct(names);
            let swept = start.db.autoremoved(names);
            let name = (requested + swept)[k];
            let keg_name = name.subrange(from, name.len() as int);
            let version = start.db.kegs[name].version;
            let end = start.uninstalled(names);
            let at = start.pending.len() + 3 * k;
            &&& end.stored == start.stored
            &&& end.pending.len() == start.pending.len() + 3 * (requested.len() + swept.len())
            &&& end.pending.take(start.pending.len() as int) == start.pending
            &&& end.pending[at] == (ActionView::UnlinkKeg { keg_name, version })
            &&& end.pending[at + 1] == (ActionView::RecordUninstall { name })
            &&& end.pending[at + 2] == (ActionView::RemoveKeg { keg_name, version })
        }),
{
    let all = ownership::distinct(names) + start.db.autoremoved(names);
    let steps = action::removals(start.db, all);
    let end = start.uninstalled(names);
    action::lemma_removals_add(start.db, ownership::distinct(names), start.db.autoremoved(names));
    law_removals_one_by_one(start.db, all, k, from);
    assert(end.pending =~= start.pending + steps);
    assert(end.pending.take(start.pending.len() as int) =~= start.pending);
}

/// Queuing leaves both records and what is queued already as they are.
pub proof fn law_queue_grows_at_the_end(start: InstallerView, actions: Seq<ActionView>, i: int)
    ensures
        start.queued(actions).db == start.db,
        start.queued(actions).stored == start.stored,
        start.queued(actions).pending.len() == start.pending.len() + actions.len(),
        0 <= i < start.pending.len() ==> start.queued(actions).pending[i] == start.pending[i],
        0 <= i < actions.len() ==> start.queued(actions).pending[start.pending.len() + i]
            == actions[i],
{
}

} // verus!
