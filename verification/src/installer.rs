//! The installer: uninstalls formulas, sweeps away what nothing needs any
//! more, and clears unused store entries.
//!
//! An operation decides on the record in memory and queues what the machine
//! has to do. The machine then carries the queue out from the front and
//! reports on every action. What succeeded enters the stored record; the first
//! failure drops the rest of the queue and puts the record in memory back to
//! what is stored.

use vstd::prelude::*;

use crate::action;
use crate::action::Action;
use crate::action::ActionView;
use crate::action_laws;
use crate::database;
use crate::database::Database;
use crate::database::InstalledFormula;
use crate::database::InstalledKeg;
use crate::error::Error;
use crate::ownership;
use crate::ownership::Ownership;
use crate::text;
use crate::text::formula_token;
use crate::text::holds_text;
use crate::text::trim;

verus! {

/// The record in memory and the stored one, and the actions that lead from the
/// stored one to the other.
#[verifier::ext_equal]
pub struct InstallerView {
    pub db: Ownership,
    pub stored: Ownership,
    pub pending: Seq<ActionView>,
}

impl InstallerView {
    /// Both records are valid, and once every pending action has succeeded
    /// the stored record is the one in memory.
    pub open spec fn consistent(self) -> bool {
        &&& self.db.valid()
        &&& self.stored.valid()
        &&& action::apply_all(self.stored, self.pending) == self.db
    }

    /// The next action has succeeded: it counts as carried out.
    pub open spec fn carried_out(self) -> InstallerView {
        InstallerView {
            db: self.db,
            stored: self.pending.first().apply(self.stored),
            pending: self.pending.drop_first(),
        }
    }

    /// The next action has failed: it is dropped with those behind it, and the
    /// record in memory is again what is stored.
    pub open spec fn failed(self) -> InstallerView {
        InstallerView { db: self.stored, stored: self.stored, pending: Seq::empty() }
    }

    /// As many actions as given have succeeded, one after the other.
    pub open spec fn after(self, successes: nat) -> InstallerView
        decreases successes,
    {
        if successes == 0 {
            self
        } else {
            self.after((successes - 1) as nat).carried_out()
        }
    }

    /// Actions that leave the record alone are queued.
    pub open spec fn queued(self, actions: Seq<ActionView>) -> InstallerView {
        InstallerView { pending: self.pending + actions, ..self }
    }

    /// A request to uninstall is decided on: the formulas leave the record in
    /// memory, then what the sweep removes, and their removals are queued in
    /// that order.
    pub open spec fn uninstalled(self, names: Seq<Seq<char>>) -> InstallerView {
        InstallerView {
            db: self.db.uninstalled(names),
            stored: self.stored,
            pending: self.pending + (action::removals(self.db, ownership::distinct(names))
                + action::removals(self.db, self.db.autoremoved(names))),
        }
    }
}

pub struct Installer {
    db: Database,
    stored: Database,
    pending: Vec<Action>,
}

impl View for Installer {
    type V = InstallerView;

    closed spec fn view(&self) -> InstallerView {
        InstallerView {
            db: self.db@,
            stored: self.stored@,
            pending: action::action_views(self.pending@),
        }
    }
}

/// What a request to uninstall removed: what was asked for, and what the sweep
/// took away after it.
#[derive(Debug, PartialEq, Eq)]
pub struct UninstallResult {
    pub requested: Vec<String>,
    pub autoremoved: Vec<String>,
}

impl Installer {
    pub closed spec fn wf(&self) -> bool {
        &&& self.db.wf()
        &&& self.stored.wf()
        &&& self@.consistent()
    }

    /// An installer that is in order is consistent.
    pub proof fn lemma_wf_consistent(&self)
        requires
            self.wf(),
        ensures
            self@.consistent(),
    {
    }

    /// An installer over a stored record.
    pub fn new(db: Database) -> (installer: Self)
        requires
            db.wf(),
        ensures
            installer.wf(),
            installer@ == (InstallerView { db: db@, stored: db@, pending: Seq::empty() }),
    {
        let stored = db.duplicate();
        let installer = Installer { db, stored, pending: Vec::new() };
        proof {
            db.lemma_wf_valid();
            assert(installer@.pending =~= Seq::empty());
        }
        installer
    }

    /// The record in memory.
    pub fn db(&self) -> (db: &Database)
        requires
            self.wf(),
        ensures
            db.wf(),
            db@ == self@.db,
    {
        &self.db
    }

    /// The action that the machine has to carry out next.
    pub fn next_action(&self) -> (next: Option<&Action>)
        ensures
            next is Some <==> self@.pending.len() > 0,
            next matches Some(next) ==> next@ == self@.pending.first(),
            match next {
                None => true,
                Some(Action::UnlinkKeg { keg_name, version }) => self@.pending[0] == (
                ActionView::UnlinkKeg { keg_name: keg_name@, version: version@ }),
                Some(Action::RecordUninstall { name }) => self@.pending[0] == (
                ActionView::RecordUninstall { name: name@ }),
                Some(Action::RemoveKeg { keg_name, version }) => self@.pending[0] == (
                ActionView::RemoveKeg { keg_name: keg_name@, version: version@ }),
                Some(Action::RemoveStoreEntry { store_key }) => self@.pending[0] == (
                ActionView::RemoveStoreEntry { store_key: store_key@ }),
                Some(Action::DeleteStoreRef { store_key }) => self@.pending[0] == (
                ActionView::DeleteStoreRef { store_key: store_key@ }),
                Some(Action::Heading { text }) => self@.pending[0] == (ActionView::Heading {
                    text: text@,
                }),
                Some(Action::Info { text }) => self@.pending[0] == (ActionView::Info {
                    text: text@,
                }),
                Some(Action::Print { text }) => self@.pending[0] == (ActionView::Print {
                    text: text@,
                }),
            },
    {
        if self.pending.len() > 0 {
            Some(&self.pending[0])
        } else {
            None
        }
    }

    /// Takes the machine's report on the next action. After a success the
    /// action counts as carried out. After a failure the actions behind it are
    /// dropped, the record in memory is again what is stored, and the failure
    /// is handed back.
    pub fn settle(&mut self, outcome: Result<(), Error>) -> (result: Result<(), Error>)
        requires
            old(self).wf(),
            old(self)@.pending.len() > 0,
        ensures
            final(self).wf(),
            result == outcome,
            outcome is Ok ==> final(self)@ == old(self)@.carried_out(),
            outcome is Err ==> final(self)@ == old(self)@.failed(),
            final(self)@.db == if outcome is Ok {
                old(self)@.db
            } else {
                old(self)@.stored
            },
            outcome is Err ==> final(self)@.stored == old(self)@.stored
                && final(self)@.pending.len() == 0,
            outcome is Ok ==> final(self)@.pending == old(self)@.pending.skip(1),
            outcome is Ok ==> match old(self)@.pending[0] {
                ActionView::RecordUninstall { name } => {
                    &&& final(self)@.stored.kegs == old(self)@.stored.kegs.remove(name)
                    &&& forall|edge: (Seq<char>, Seq<char>)| #[trigger]
                        final(self)@.stored.edges.contains(edge)
                            <==> old(self)@.stored.edges.contains(edge) && edge.0 != name
                    &&& final(self)@.stored.store_keys == old(self)@.stored.store_keys
                },
                ActionView::DeleteStoreRef { store_key } => {
                    &&& final(self)@.stored.kegs == old(self)@.stored.kegs
                    &&& final(self)@.stored.edges == old(self)@.stored.edges
                    &&& forall|key: Seq<char>| #[trigger]
                        final(self)@.stored.store_keys.contains(key)
                            <==> old(self)@.stored.store_keys.contains(key) && key != store_key
                },
                _ => final(self)@.stored == old(self)@.stored,
            },
    {
        match &outcome {
            Ok(_) => {
                let done = self.pending.remove(0);
                match &done {
                    Action::RecordUninstall { name } => {
                        self.stored.record_uninstall(name.as_str());
                    },
                    Action::DeleteStoreRef { store_key } => {
                        self.stored.delete_store_ref(store_key.as_str());
                    },
                    _ => {},
                }
                proof {
                    let queue = old(self)@.pending;
                    assert(self@.pending =~= queue.drop_first());
                    assert(queue =~= seq![queue.first()] + queue.drop_first());
                    action::lemma_apply_all_add(
                        old(self)@.stored,
                        seq![queue.first()],
                        queue.drop_first(),
                    );
                    action::lemma_apply_one(old(self)@.stored, queue.first());
                    self.stored.lemma_wf_valid();
                    assert(queue.drop_first() =~= queue.skip(1));
                    match queue[0] {
                        ActionView::RecordUninstall { name } => {
                            assert(self@.stored.kegs =~= old(self)@.stored.kegs.remove(name));
                        },
                        ActionView::DeleteStoreRef { store_key } => {
                            let keep = ownership::other_than(store_key);
                            ownership::lemma_filter_members(old(self)@.stored.store_keys, keep);
                            assert forall|key: Seq<char>| #[trigger]
                                self@.stored.store_keys.contains(key)
                                    <==> old(self)@.stored.store_keys.contains(key) && key
                                    != store_key by {
                                assert(old(self)@.stored.store_keys.filter(keep).contains(key)
                                    <==> old(self)@.stored.store_keys.contains(key) && keep(key));
                            }
                        },
                        _ => {},
                    }
                }
            },
            Err(_) => {
                self.db = self.stored.duplicate();
                self.pending = Vec::new();
                proof {
                    self.stored.lemma_wf_valid();
                    assert(self@.pending =~= Seq::empty());
                }
            },
        }
        outcome
    }

    /// Queues an action that leaves the record alone.
    pub(crate) fn queue(&mut self, action: Action)
        requires
            old(self).wf(),
            action@ is Heading || action@ is Info || action@ is Print,
        ensures
            final(self).wf(),
            final(self)@ == (InstallerView {
                pending: old(self)@.pending.push(action@),
                ..old(self)@
            }),
    {
        self.pending.push(action);
        proof {
            assert(self@.pending =~= old(self)@.pending.push(action@));
            assert(self@.pending.drop_last() =~= old(self)@.pending);
        }
    }

    /// Removes a formula in a version: its links, its record, its keg.
    pub fn uninstall_by_version(&mut self, name: &str, version: &str) -> (result: Result<(), Error>)
        requires
            old(self).wf(),
        ensures
            final(self).wf(),
            result is Ok,
            final(self)@ == (InstallerView {
                db: old(self)@.db.without(set![name@]),
                stored: old(self)@.stored,
                pending: old(self)@.pending + action::removal(name@, version@),
            }),
            final(self)@.pending.len() == old(self)@.pending.len() + 3,
            forall|from: int|
                0 <= from <= name@.len() && (from == 0 || name@[from - 1] == '/')
                    && !(#[trigger] name@.subrange(from, name@.len() as int)).contains('/') ==> {
                    let at = old(self)@.pending.len() as int;
                    let keg_name = name@.subrange(from, name@.len() as int);
                    &&& final(self)@.pending[at] == (ActionView::UnlinkKeg {
                        keg_name,
                        version: version@,
                    })
                    &&& final(self)@.pending[at + 1] == (ActionView::RecordUninstall {
                        name: name@,
                    })
                    &&& final(self)@.pending[at + 2] == (ActionView::RemoveKeg {
                        keg_name,
                        version: version@,
                    })
                },
            final(self)@.db.kegs == old(self)@.db.kegs.remove(name@),
            forall|edge: (Seq<char>, Seq<char>)| #[trigger]
                final(self)@.db.edges.contains(edge) <==> old(self)@.db.edges.contains(edge)
                    && edge.0 != name@,
            final(self)@.db.store_keys == old(self)@.db.store_keys,
    {
        let keg_name = formula_token(name);
        self.pending.push(
            Action::UnlinkKeg { keg_name: keg_name.to_owned(), version: version.to_owned() },
        );
        self.db.record_uninstall(name);
        self.pending.push(Action::RecordUninstall { name: name.to_owned() });
        self.pending.push(
            Action::RemoveKeg { keg_name: keg_name.to_owned(), version: version.to_owned() },
        );
        proof {
            let steps = action::removal(name@, version@);
            assert(self@.pending =~= old(self)@.pending + steps);
            action::lemma_apply_all_add(self@.stored, old(self)@.pending, steps);
            action::lemma_apply_removal(old(self)@.db, name@, version@);
            self.db.lemma_wf_valid();
            assert(self@.db.kegs =~= old(self)@.db.kegs.remove(name@));
            assert forall|from: int|
                0 <= from <= name@.len() && (from == 0 || name@[from - 1] == '/')
                    && !(#[trigger] name@.subrange(from, name@.len() as int)).contains(
                    '/',
                ) implies text::token(name@) == name@.subrange(from, name@.len() as int) by {
                let rest = name@.subrange(from, name@.len() as int);
                assert forall|k: int| from <= k < name@.len() implies name@[k] != '/' by {
                    assert(rest.contains(rest[k - from]));
                }
                action_laws::law_removal_concerns_its_own_keg(name@, version@, from);
            }
        }
        Ok(())
    }

    /// Removes the orphans, and those that this makes orphans, until there is
    /// none. Hands back their names in the order of removal.
    pub fn autoremove(&mut self) -> (result: Result<Vec<String>, Error>)
        requires
            old(self).wf(),
        ensures
            final(self).wf(),
            result matches Ok(removed) && text::texts(removed@) == old(self)@.db.sweep_order(),
            final(self)@ == (InstallerView {
                db: old(self)@.db.swept(),
                stored: old(self)@.stored,
                pending: old(self)@.pending + action::removals(
                    old(self)@.db,
                    old(self)@.db.sweep_order(),
                ),
            }),
    {
        let mut removed: Vec<String> = Vec::new();
        let ghost start = self@;
        proof {
            assert(text::texts(removed@) =~= Seq::empty());
            assert(self@.pending =~= start.pending + action::removals(start.db, Seq::empty()));
            assert(Seq::<Seq<char>>::empty() + start.db.sweep_order() =~= start.db.sweep_order());
        }
        loop
            invariant
                self.wf(),
                start.db.valid(),
                self@.stored == start.stored,
                self@.db.kegs.submap_of(start.db.kegs),
                self@.db.swept() == start.db.swept(),
                text::texts(removed@) + self@.db.sweep_order() == start.db.sweep_order(),
                self@.pending == start.pending + action::removals(start.db, text::texts(removed@)),
            ensures
                self@.db.orphans().is_empty(),
            decreases self@.db.kegs.dom().len(),
        {
            let ghost round = self@.db;
            let ghost above = text::texts(removed@);
            let orphans = self.db.list_orphans();
            let ghost names = text::ascending(round.orphans());
            proof {
                self.db.lemma_wf_valid();
                round.kegs.dom().lemma_len_filter(|name: Seq<char>| round.is_orphan(name));
                text::lemma_ascending(round.orphans());
                assert(database::keg_views(orphans@).len() == names.len());
            }
            if orphans.is_empty() {
                proof {
                    assert(round.orphans() =~= Set::empty());
                }
                break;
            }
            proof {
                assert(names.to_set().contains(names[0]));
                round.lemma_sweep_shrinks();
                assert(names.take(0).to_set() =~= Set::empty());
                round.lemma_without_none();
                assert(above + names.take(0) =~= above);
            }
            let mut i: usize = 0;
            while i < orphans.len()
                invariant
                    self.wf(),
                    i <= orphans@.len(),
                    orphans@.len() == names.len(),
                    round.valid(),
                    round.kegs.submap_of(start.db.kegs),
                    names.to_set() == round.orphans(),
                    database::keg_views(orphans@) == round.rows(names),
                    self@.stored == start.stored,
                    self@.db == round.without(names.take(i as int).to_set()),
                    text::texts(removed@) == above + names.take(i as int),
                    self@.pending == start.pending + action::removals(
                        start.db,
                        text::texts(removed@),
                    ),
                decreases orphans@.len() - i,
            {
                let ghost listed = text::texts(removed@);
                proof {
                    assert(names.to_set().contains(names[i as int]));
                    assert(round.installed(names[i as int]));
                    assert(database::keg_views(orphans@)[i as int] == round.rows(names)[i as int]);
                    assert(orphans@[i as int]@ == round.kegs[names[i as int]]);
                }
                let orphan = &orphans[i];
                match self.uninstall_by_version(orphan.name.as_str(), orphan.version.as_str()) {
                    Ok(()) => {},
                    Err(error) => {
                        return Err(error);
                    },
                }
                removed.push(orphan.name.clone());
                i = i + 1;
                proof {
                    let name = names[i - 1];
                    assert(names.take(i as int) =~= names.take(i - 1).push(name));
                    text::lemma_push_members(names.take(i - 1), name);
                    round.lemma_without_twice(names.take(i - 1).to_set(), set![name]);
                    assert(text::texts(removed@) =~= listed.push(name));
                    assert(above + names.take(i as int) =~= listed.push(name));
                    assert(listed.push(name).drop_last() =~= listed);
                    assert(round.kegs.dom().contains(name));
                    assert(start.db.kegs.dom().contains(name));
                    assert(start.db.kegs[name] == round.kegs[name]);
                    assert(orphan@ == round.kegs[name]);
                    assert(listed.push(name).last() == name);
                    assert(action::removals(start.db, listed.push(name)) == action::removals(
                        start.db,
                        listed,
                    ) + action::removal(orphan.name@, orphan.version@));
                    assert(self@.pending =~= start.pending + action::removals(
                        start.db,
                        text::texts(removed@),
                    ));
                }
            }
            proof {
                assert(names.take(i as int) =~= names);
                assert(above + (names + self@.db.sweep_order()) =~= (above + names)
                    + self@.db.sweep_order());
            }
        }
        proof {
            assert(self@.db.sweep_order() =~= Seq::empty());
            assert(text::texts(removed@) + self@.db.sweep_order() =~= text::texts(removed@));
        }
        Ok(removed)
    }

    /// Uninstalls a set of formulas, then sweeps. Nothing changes where the
    /// request is refused: a formula is not installed, or, unless `force` is
    /// given, one that stays depends on it.
    pub fn uninstall_many(&mut self, names: &[String], force: bool) -> (result: Result<
        UninstallResult,
        Error,
    >)
        requires
            old(self).wf(),
        ensures
            final(self).wf(),
            match result {
                Ok(done) => {
                    &&& old(self)@.db.refusal(text::texts(names@), force) is None
                    &&& text::texts(done.requested@) == ownership::distinct(text::texts(names@))
                    &&& text::texts(done.autoremoved@) == old(self)@.db.autoremoved(
                        text::texts(names@),
                    )
                    &&& final(self)@ == old(self)@.uninstalled(text::texts(names@))
                },
                Err(error) => {
                    &&& old(self)@.db.refusal(text::texts(names@), force) == Some(error@)
                    &&& final(self)@ == old(self)@
                },
            },
    {
        let requested = distinct_names(names);
        let ghost wanted = text::texts(requested@);
        let ghost start = self@;
        let ghost missing = |name: Seq<char>| !start.db.installed(name);
        let mut versions: Vec<String> = Vec::new();
        let mut i: usize = 0;
        assert(wanted.skip(0) =~= wanted);
        while i < requested.len()
            invariant
                self.wf(),
                self@ == start,
                i <= requested@.len(),
                wanted == text::texts(requested@),
                wanted == ownership::distinct(text::texts(names@)),
                missing == (|name: Seq<char>| !start.db.installed(name)),
                versions@.len() == i,
                forall|k: int|
                    0 <= k < i ==> start.db.installed(#[trigger] wanted[k]) && versions@[k]@
                        == start.db.kegs[wanted[k]].version,
                ownership::first_where(wanted, missing) == ownership::first_where(
                    wanted.skip(i as int),
                    missing,
                ),
                *self == *old(self),
            decreases requested@.len() - i,
        {
            assert(wanted.skip(i as int).first() == wanted[i as int]);
            assert(wanted.skip(i as int).drop_first() =~= wanted.skip(i + 1));
            let name = &requested[i];
            match self.db.get_installed(name.as_str()) {
                Some(keg) => {
                    versions.push(keg.version);
                },
                None => {
                    return Err(Error::NotInstalled { name: name.clone() });
                },
            }
            i = i + 1;
        }
        if !force {
            let ghost blocked = |name: Seq<char>| !start.db.blockers(name, wanted).is_empty();
            i = 0;
            while i < requested.len()
                invariant
                    self.wf(),
                    self@ == start,
                    !force,
                    i <= requested@.len(),
                    wanted == text::texts(requested@),
                    wanted == ownership::distinct(text::texts(names@)),
                    missing == (|name: Seq<char>| !start.db.installed(name)),
                    ownership::first_where(wanted, missing) is None,
                    blocked == (|name: Seq<char>| !start.db.blockers(name, wanted).is_empty()),
                    ownership::first_where(wanted, blocked) == ownership::first_where(
                        wanted.skip(i as int),
                        blocked,
                    ),
                    *self == *old(self),
                decreases requested@.len() - i,
            {
                assert(wanted.skip(i as int).first() == wanted[i as int]);
                assert(wanted.skip(i as int).drop_first() =~= wanted.skip(i + 1));
                let name = &requested[i];
                let dependents = self.outside_dependents(name.as_str(), requested.as_slice());
                let ghost blockers = start.db.blockers(name@, wanted);
                proof {
                    self.db.lemma_wf_valid();
                    start.db.lemma_blockers_finite(name@, wanted);
                    text::lemma_ascending(blockers);
                    assert(text::texts(dependents@).len() == dependents@.len());
                }
                if !dependents.is_empty() {
                    proof {
                        assert(text::texts(dependents@).to_set().contains(
                            text::texts(dependents@)[0],
                        ));
                    }
                    return Err(Error::RequiredBy { name: name.clone(), dependents });
                }
                proof {
                    assert(blockers =~= Set::empty());
                }
                i = i + 1;
            }
        }
        i = 0;
        proof {
            assert(wanted.take(0).to_set() =~= Set::empty());
            start.db.lemma_without_none();
            assert(start.pending + action::removals(start.db, wanted.take(0)) =~= start.pending);
        }
        while i < requested.len()
            invariant
                self.wf(),
                i <= requested@.len(),
                wanted == text::texts(requested@),
                versions@.len() == requested@.len(),
                forall|k: int|
                    0 <= k < wanted.len() ==> versions@[k]@ == start.db.kegs[#[trigger] wanted[k]].version,
                self@.stored == start.stored,
                self@.db == start.db.without(wanted.take(i as int).to_set()),
                self@.pending == start.pending + action::removals(
                    start.db,
                    wanted.take(i as int),
                ),
            decreases requested@.len() - i,
        {
            match self.uninstall_by_version(requested[i].as_str(), versions[i].as_str()) {
                Ok(()) => {},
                Err(error) => {
                    return Err(error);
                },
            }
            i = i + 1;
            proof {
                let name = wanted[i - 1];
                let above = wanted.take(i - 1);
                assert(wanted.take(i as int) =~= above.push(name));
                text::lemma_push_members(above, name);
                start.db.lemma_without_twice(above.to_set(), set![name]);
                assert(above.push(name).drop_last() =~= above);
                assert(self@.pending =~= start.pending + action::removals(
                    start.db,
                    wanted.take(i as int),
                ));
            }
        }
        let ghost rest = self@.db;
        proof {
            assert(wanted.take(i as int) =~= wanted);
        }
        match self.autoremove() {
            Ok(autoremoved) => {
                proof {
                    self.db.lemma_wf_valid();
                    rest.lemma_sweep_installed();
                    action::lemma_removals_agree(rest, start.db, rest.sweep_order());
                    assert(self@.pending =~= start.pending + (action::removals(start.db, wanted)
                        + action::removals(start.db, rest.sweep_order())));
                }
                Ok(UninstallResult { requested, autoremoved })
            },
            Err(error) => Err(error),
        }
    }

    /// The installed formulas that directly depend on `name` and are not among
    /// `removed`, in alphabetical order.
    fn outside_dependents(&self, name: &str, removed: &[String]) -> (outside: Vec<String>)
        requires
            self.wf(),
        ensures
            text::texts(outside@) == text::ascending(
                self@.db.blockers(name@, text::texts(removed@)),
            ),
    {
        let dependents = self.db.installed_dependents(name);
        let ghost all = text::texts(dependents@);
        let ghost set = text::texts(removed@);
        let ghost keep = |dependent: Seq<char>| !set.contains(dependent);
        let mut outside: Vec<String> = Vec::new();
        let mut i: usize = 0;
        proof {
            reveal(Seq::filter);
            assert(all.take(0).filter(keep) =~= Seq::empty());
        }
        while i < dependents.len()
            invariant
                i <= dependents@.len(),
                all == text::texts(dependents@),
                set == text::texts(removed@),
                keep == (|dependent: Seq<char>| !set.contains(dependent)),
                text::texts(outside@) == all.take(i as int).filter(keep),
            decreases dependents@.len() - i,
        {
            let ghost listed = text::texts(outside@);
            proof {
                reveal(Seq::filter);
                assert(all.take(i + 1).drop_last() =~= all.take(i as int));
                assert(all.take(i + 1).last() == all[i as int]);
            }
            if !holds_text(removed, dependents[i].as_str()) {
                outside.push(dependents[i].clone());
                assert(text::texts(outside@) =~= listed.push(all[i as int]));
            }
            i = i + 1;
        }
        proof {
            assert(all.take(i as int) =~= all);
            self.db.lemma_wf_valid();
            self@.db.kegs.dom().lemma_len_filter(
                |dependent: Seq<char>| self@.db.declares(dependent, name@),
            );
            text::lemma_ascending(self@.db.dependents(name@));
            text::lemma_select_ascending(all, keep);
            assert(self@.db.blockers(name@, set) =~= all.to_set().filter(keep));
        }
        outside
    }

    /// Uninstalls one formula and sweeps, unless one that stays depends on it.
    pub fn uninstall(&mut self, name: &str) -> (result: Result<(), Error>)
        requires
            old(self).wf(),
        ensures
            final(self).wf(),
            match result {
                Ok(_) => {
                    &&& old(self)@.db.refusal(seq![name@], false) is None
                    &&& final(self)@ == old(self)@.uninstalled(seq![name@])
                },
                Err(error) => {
                    &&& old(self)@.db.refusal(seq![name@], false) == Some(error@)
                    &&& final(self)@ == old(self)@
                },
            },
    {
        let mut names: Vec<String> = Vec::new();
        names.push(name.to_owned());
        assert(text::texts(names@) =~= seq![name@]);
        match self.uninstall_many(names.as_slice(), false) {
            Ok(_) => Ok(()),
            Err(error) => Err(error),
        }
    }

    /// Uninstalls what the user asked for under a category, then sweeps. Where
    /// the category is empty, nothing happens.
    pub fn uninstall_category(&mut self, category: &str, force: bool) -> (result: Result<
        UninstallResult,
        Error,
    >)
        requires
            old(self).wf(),
        ensures
            final(self).wf(),
            ({
                let names = text::ascending(
                    old(self)@.db.in_category(text::trimmed(category@)),
                );
                if names.len() == 0 {
                    &&& result matches Ok(done)
                    &&& done.requested@.len() == 0
                    &&& done.autoremoved@.len() == 0
                    &&& final(self)@ == old(self)@
                } else {
                    match result {
                        Ok(done) => {
                            &&& old(self)@.db.refusal(names, force) is None
                            &&& text::texts(done.requested@) == names
                            &&& text::texts(done.autoremoved@) == old(self)@.db.autoremoved(names)
                            &&& final(self)@ == old(self)@.uninstalled(names)
                        },
                        Err(error) => {
                            &&& old(self)@.db.refusal(names, force) == Some(error@)
                            &&& final(self)@ == old(self)@
                        },
                    }
                }
            }),
    {
        let names = self.db.list_explicit_in_category(trim(category));
        proof {
            assert(text::texts(names@).len() == names@.len());
            let wanted = old(self)@.db.in_category(text::trimmed(category@));
            self.db.lemma_wf_valid();
            assert(wanted.subset_of(self@.db.kegs.dom()));
            vstd::set_lib::lemma_len_subset(wanted, self@.db.kegs.dom());
            text::lemma_ascending(wanted);
            ownership::lemma_distinct_ascending(text::ascending(wanted));
        }
        if names.is_empty() {
            return Ok(UninstallResult { requested: Vec::new(), autoremoved: Vec::new() });
        }
        self.uninstall_many(names.as_slice(), force)
    }

    /// Removes the store entries that no installed formula comes from, and
    /// hands back their keys.
    pub fn gc(&mut self) -> (result: Result<Vec<String>, Error>)
        requires
            old(self).wf(),
        ensures
            final(self).wf(),
            result matches Ok(removed) && text::texts(removed@) == old(self)@.db.unreferenced(),
            final(self)@ == (InstallerView {
                db: old(self)@.db.collected(),
                stored: old(self)@.stored,
                pending: old(self)@.pending + action::entry_removals(
                    old(self)@.db.unreferenced(),
                ),
            }),
            final(self)@.pending.len() == old(self)@.pending.len() + 2
                * old(self)@.db.unreferenced().len(),
            forall|k: int|
                0 <= k < old(self)@.db.unreferenced().len() ==> {
                    let at = old(self)@.pending.len() + 2 * k;
                    let store_key = #[trigger] old(self)@.db.unreferenced()[k];
                    &&& final(self)@.pending[at] == (ActionView::RemoveStoreEntry { store_key })
                    &&& final(self)@.pending[at + 1] == (ActionView::DeleteStoreRef { store_key })
                },
            final(self)@.db.kegs == old(self)@.db.kegs,
            final(self)@.db.edges == old(self)@.db.edges,
            forall|key: Seq<char>| #[trigger]
                final(self)@.db.store_keys.contains(key) <==> old(self)@.db.store_keys.contains(key)
                    && !old(self)@.db.unreferenced().contains(key),
    {
        let unreferenced = self.db.get_unreferenced_store_keys();
        let ghost keys = text::texts(unreferenced@);
        let ghost start = self@;
        let mut removed: Vec<String> = Vec::new();
        let mut i: usize = 0;
        proof {
            assert(self@.pending =~= start.pending + action::entry_removals(keys.take(0)));
            start.db.lemma_forget_none(keys.take(0));
        }
        while i < unreferenced.len()
            invariant
                self.wf(),
                i <= unreferenced@.len(),
                keys == text::texts(unreferenced@),
                self@.stored == start.stored,
                self@.db == start.db.without_store_keys(keys.take(i as int)),
                self@.pending == start.pending + action::entry_removals(keys.take(i as int)),
                text::texts(removed@) =~= keys.take(i as int),
            decreases unreferenced@.len() - i,
        {
            let ghost prior = self@;
            let store_key = &unreferenced[i];
            self.pending.push(Action::RemoveStoreEntry { store_key: store_key.clone() });
            self.db.delete_store_ref(store_key.as_str());
            self.pending.push(Action::DeleteStoreRef { store_key: store_key.clone() });
            removed.push(store_key.clone());
            i = i + 1;
            proof {
                let key = keys[i - 1];
                let steps = seq![
                    ActionView::RemoveStoreEntry { store_key: key },
                    ActionView::DeleteStoreRef { store_key: key },
                ];
                assert(self@.pending =~= prior.pending + steps);
                action::lemma_apply_all_add(self@.stored, prior.pending, steps);
                action::lemma_apply_entry_removal(prior.db, key);
                self.db.lemma_wf_valid();
                assert(keys.take(i as int) =~= keys.take(i - 1).push(key));
                assert(keys.take(i as int).drop_last() =~= keys.take(i - 1));
                start.db.lemma_forget_more(keys.take(i - 1), key);
                assert(self@.pending =~= start.pending + action::entry_removals(
                    keys.take(i as int),
                ));
            }
        }
        proof {
            assert(keys.take(i as int) =~= keys);
            start.db.lemma_forget_unreferenced();
            self.db.lemma_wf_valid();
            action_laws::lemma_entry_removals_len(keys);
            assert forall|k: int| 0 <= k < keys.len() implies {
                let at = start.pending.len() + 2 * k;
                let store_key = #[trigger] keys[k];
                &&& self@.pending[at] == (ActionView::RemoveStoreEntry { store_key })
                &&& self@.pending[at + 1] == (ActionView::DeleteStoreRef { store_key })
            } by {
                action_laws::law_entry_goes_before_its_record(keys, k);
            }
            assert forall|key: Seq<char>| #[trigger]
                self@.db.store_keys.contains(key) <==> start.db.store_keys.contains(key)
                    && !keys.contains(key) by {
                let keep = |key: Seq<char>| !keys.contains(key);
                ownership::lemma_filter_members(start.db.store_keys, keep);
                assert(start.db.without_store_keys(keys).store_keys == start.db.store_keys.filter(
                    keep,
                ));
                assert(start.db.store_keys.filter(keep).contains(key)
                    <==> start.db.store_keys.contains(key) && keep(key));
            }
        }
        Ok(removed)
    }

    /// Whether a formula is installed.
    pub fn is_installed(&self, name: &str) -> (yes: bool)
        requires
            self.wf(),
        ensures
            yes == self@.db.installed(name@),
    {
        self.db.is_installed(name)
    }

    /// The keg of an installed formula.
    pub fn get_installed(&self, name: &str) -> (keg: Option<InstalledKeg>)
        requires
            self.wf(),
        ensures
            keg is Some <==> self@.db.installed(name@),
            keg matches Some(keg) ==> keg@ == self@.db.kegs[name@],
    {
        self.db.get_installed(name)
    }

    /// The installed formulas, in alphabetical order.
    pub fn list_installed(&self) -> (list: Vec<InstalledKeg>)
        requires
            self.wf(),
        ensures
            database::keg_views(list@) == self@.db.rows(text::ascending(self@.db.kegs.dom())),
    {
        self.db.list_installed()
    }

    /// The installed formulas in alphabetical order, each with the installed
    /// formulas that directly depend on it.
    pub fn list_installed_with_ownership(&self) -> (list: Vec<InstalledFormula>)
        requires
            self.wf(),
        ensures
            database::formula_views(list@) == self@.db.formulas(
                text::ascending(self@.db.kegs.dom()),
            ),
    {
        self.db.list_installed_with_ownership()
    }
}

/// The names of a list, each once, in the order in which they first occur.
fn distinct_names(names: &[String]) -> (list: Vec<String>)
    ensures
        text::texts(list@) == ownership::distinct(text::texts(names@)),
{
    let mut list: Vec<String> = Vec::new();
    let mut i: usize = 0;
    let ghost all = text::texts(names@);
    assert(text::texts(list@) =~= all.take(0));
    while i < names.len()
        invariant
            i <= names@.len(),
            all == text::texts(names@),
            text::texts(list@) == ownership::distinct(all.take(i as int)),
        decreases names@.len() - i,
    {
        let ghost listed = text::texts(list@);
        proof {
            assert(all.take(i + 1).drop_last() =~= all.take(i as int));
            assert(all.take(i + 1).last() == all[i as int]);
        }
        if !holds_text(list.as_slice(), names[i].as_str()) {
            list.push(names[i].clone());
            assert(text::texts(list@) =~= listed.push(all[i as int]));
        }
        i = i + 1;
    }
    assert(all.take(i as int) =~= all);
    list
}

} // verus!
