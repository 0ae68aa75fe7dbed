//! The record of installed formulas, of what they depend on, and of the store
//! entries that they come from.

use vstd::prelude::*;

use crate::ownership;
use crate::ownership::FormulaView;
use crate::ownership::KegView;
use crate::ownership::Ownership;
use crate::text;
use crate::text::comes_before;
use crate::text::holds_text;
use crate::text::same_text;

verus! {

/// An installed formula: its version, the store entry that it comes from,
/// whether the user asked for it, and under which category.
#[derive(Debug, PartialEq, Eq)]
pub struct InstalledKeg {
    pub name: String,
    pub version: String,
    pub store_key: String,
    pub explicit: bool,
    pub explicit_category: Option<String>,
}

pub open spec fn text_option(text: Option<String>) -> Option<Seq<char>> {
    match text {
        Some(text) => Some(text@),
        None => None,
    }
}

impl View for InstalledKeg {
    type V = KegView;

    open spec fn view(&self) -> KegView {
        KegView {
            name: self.name@,
            version: self.version@,
            store_key: self.store_key@,
            explicit: self.explicit,
            explicit_category: text_option(self.explicit_category),
        }
    }
}

impl Clone for InstalledKeg {
    fn clone(&self) -> (copy: Self)
        ensures
            copy@ == self@,
    {
        InstalledKeg {
            name: self.name.clone(),
            version: self.version.clone(),
            store_key: self.store_key.clone(),
            explicit: self.explicit,
            explicit_category: match &self.explicit_category {
                Some(category) => Some(category.clone()),
                None => None,
            },
        }
    }
}

pub open spec fn keg_views(list: Seq<InstalledKeg>) -> Seq<KegView> {
    Seq::new(list.len(), |i: int| list[i]@)
}

/// An installed formula and the installed formulas that directly depend on it.
#[derive(Debug, PartialEq, Eq)]
pub struct InstalledFormula {
    pub keg: InstalledKeg,
    pub required_by: Vec<String>,
}

impl View for InstalledFormula {
    type V = FormulaView;

    open spec fn view(&self) -> FormulaView {
        FormulaView { keg: self.keg@, required_by: text::texts(self.required_by@) }
    }
}

pub open spec fn formula_views(list: Seq<InstalledFormula>) -> Seq<FormulaView> {
    Seq::new(list.len(), |i: int| list[i]@)
}

struct Edge {
    dependent: String,
    dependency: String,
}

impl Edge {
    spec fn pair(self) -> (Seq<char>, Seq<char>) {
        (self.dependent@, self.dependency@)
    }

    fn copy(&self) -> (copy: Self)
        ensures
            copy.pair() == self.pair(),
    {
        Edge { dependent: self.dependent.clone(), dependency: self.dependency.clone() }
    }
}

spec fn pairs(edges: Seq<Edge>) -> Seq<(Seq<char>, Seq<char>)> {
    Seq::new(edges.len(), |i: int| edges[i].pair())
}

/// The ownership record. Its kegs are kept in alphabetical order.
pub struct Database {
    kegs: Vec<InstalledKeg>,
    edges: Vec<Edge>,
    store_keys: Vec<String>,
}

spec fn keg_names(kegs: Seq<InstalledKeg>) -> Seq<Seq<char>> {
    Seq::new(kegs.len(), |i: int| kegs[i].name@)
}

spec fn keg_map(kegs: Seq<InstalledKeg>) -> Map<Seq<char>, KegView> {
    Map::new(
        |name: Seq<char>| keg_names(kegs).contains(name),
        |name: Seq<char>| kegs[keg_names(kegs).index_of(name)]@,
    )
}

impl View for Database {
    type V = Ownership;

    closed spec fn view(&self) -> Ownership {
        Ownership {
            kegs: keg_map(self.kegs@),
            edges: pairs(self.edges@).to_set(),
            store_keys: text::texts(self.store_keys@),
        }
    }
}

impl Database {
    /// The record is in order.
    pub closed spec fn wf(&self) -> bool {
        &&& text::is_ascending(keg_names(self.kegs@))
        &&& self@.valid()
    }

    /// A record that is in order describes a valid state.
    pub proof fn lemma_wf_valid(&self)
        requires
            self.wf(),
        ensures
            self@.valid(),
    {
    }

    /// A record of nothing.
    pub fn new() -> (db: Self)
        ensures
            db.wf(),
            db@ == Ownership::empty(),
            db@.kegs == Map::<Seq<char>, KegView>::empty(),
            db@.edges == Set::<(Seq<char>, Seq<char>)>::empty(),
            db@.store_keys == Seq::<Seq<char>>::empty(),
    {
        let db = Database { kegs: Vec::new(), edges: Vec::new(), store_keys: Vec::new() };
        assert(db@.kegs =~= Map::empty());
        assert(db@.edges =~= Set::empty());
        assert(db@.store_keys =~= Seq::empty());
        db
    }

    proof fn lemma_row(&self, i: int)
        requires
            self.wf(),
            0 <= i < self.kegs@.len(),
        ensures
            self@.kegs.contains_key(self.kegs@[i].name@),
            self@.kegs[self.kegs@[i].name@] == self.kegs@[i]@,
    {
        lemma_keg_row(self.kegs@, i);
    }

    proof fn lemma_domain(&self)
        ensures
            self@.kegs.dom() == keg_names(self.kegs@).to_set(),
    {
        assert(self@.kegs.dom() =~= keg_names(self.kegs@).to_set());
    }

    /// Where a formula is, or would have to stand.
    fn position(&self, name: &str) -> (at: usize)
        requires
            self.wf(),
        ensures
            at <= self.kegs@.len(),
            forall|k: int| 0 <= k < at ==> #[trigger] text::before(self.kegs@[k].name@, name@),
            self@.installed(name@) <==> at < self.kegs@.len() && self.kegs@[at as int].name@
                == name@,
            !self@.installed(name@) ==> forall|k: int|
                at <= k < self.kegs@.len() ==> #[trigger] text::before(name@, self.kegs@[k].name@),
    {
        let mut at: usize = 0;
        while at < self.kegs.len() && comes_before(self.kegs[at].name.as_str(), name)
            invariant
                at <= self.kegs@.len(),
                forall|k: int| 0 <= k < at ==> #[trigger] text::before(self.kegs@[k].name@, name@),
            decreases self.kegs@.len() - at,
        {
            at = at + 1;
        }
        proof {
            let names = keg_names(self.kegs@);
            if at < self.kegs@.len() {
                text::lemma_before_total(names[at as int], name@);
                assert(names.contains(names[at as int]));
                if names[at as int] != name@ {
                    assert forall|k: int| at <= k < self.kegs@.len() implies #[trigger] text::before(
                        name@,
                        self.kegs@[k].name@,
                    ) by {
                        if k > at {
                            assert(text::before(names[at as int], names[k]));
                            text::lemma_before_transitive(name@, names[at as int], names[k]);
                        }
                    }
                }
            }
            if self@.installed(name@) {
                let k = names.index_of(name@);
                assert(names[k] == name@);
                text::lemma_before_irreflexive(name@);
                assert(at <= k);
                if names[at as int] != name@ {
                    assert(text::before(name@, self.kegs@[k].name@));
                }
            }
        }
        at
    }

    /// Whether a formula is installed.
    pub fn is_installed(&self, name: &str) -> (yes: bool)
        requires
            self.wf(),
        ensures
            yes == self@.installed(name@),
    {
        let at = self.position(name);
        at < self.kegs.len() && same_text(self.kegs[at].name.as_str(), name)
    }

    /// The keg of an installed formula.
    pub fn get_installed(&self, name: &str) -> (keg: Option<InstalledKeg>)
        requires
            self.wf(),
        ensures
            keg is Some <==> self@.installed(name@),
            keg matches Some(keg) ==> keg@ == self@.kegs[name@],
    {
        let at = self.position(name);
        if at < self.kegs.len() && same_text(self.kegs[at].name.as_str(), name) {
            proof {
                self.lemma_row(at as int);
            }
            Some(self.kegs[at].clone())
        } else {
            None
        }
    }

    /// The installed formulas, in alphabetical order.
    pub fn list_installed(&self) -> (list: Vec<InstalledKeg>)
        requires
            self.wf(),
        ensures
            keg_views(list@) == self@.rows(text::ascending(self@.kegs.dom())),
    {
        let mut list: Vec<InstalledKeg> = Vec::new();
        let mut i: usize = 0;
        while i < self.kegs.len()
            invariant
                i <= self.kegs@.len(),
                keg_views(list@) == keg_views(self.kegs@.take(i as int)),
            decreases self.kegs@.len() - i,
        {
            let ghost listed = list@;
            list.push(self.kegs[i].clone());
            i = i + 1;
            assert(keg_views(list@) =~= keg_views(listed).push(self.kegs@[i - 1]@));
            assert(keg_views(self.kegs@.take(i as int)) =~= keg_views(self.kegs@.take(i - 1)).push(
                self.kegs@[i - 1]@,
            ));
        }
        proof {
            let names = keg_names(self.kegs@);
            self.lemma_domain();
            text::lemma_ascending_of_list(names);
            assert(self.kegs@.take(i as int) =~= self.kegs@);
            assert forall|k: int| 0 <= k < names.len() implies self@.kegs[names[k]]
                == self.kegs@[k]@ by {
                self.lemma_row(k);
            }
            assert(keg_views(list@) =~= self@.rows(names));
        }
        list
    }

    fn declared(&self, dependent: &str, dependency: &str) -> (yes: bool)
        ensures
            yes == self@.declares(dependent@, dependency@),
    {
        let mut i: usize = 0;
        let ghost all = pairs(self.edges@);
        while i < self.edges.len()
            invariant
                i <= self.edges@.len(),
                all == pairs(self.edges@),
                forall|k: int| 0 <= k < i ==> all[k] != (dependent@, dependency@),
            decreases self.edges@.len() - i,
        {
            let edge = &self.edges[i];
            if same_text(edge.dependent.as_str(), dependent) && same_text(
                edge.dependency.as_str(),
                dependency,
            ) {
                assert(all[i as int] == (dependent@, dependency@));
                assert(all.contains(all[i as int]));
                return true;
            }
            i = i + 1;
        }
        false
    }

    /// The installed formulas that directly depend on `name`, in alphabetical
    /// order.
    pub fn installed_dependents(&self, name: &str) -> (list: Vec<String>)
        requires
            self.wf(),
        ensures
            text::texts(list@) == text::ascending(self@.dependents(name@)),
    {
        let mut list: Vec<String> = Vec::new();
        let mut i: usize = 0;
        let ghost names = keg_names(self.kegs@);
        let ghost keep = |dependent: Seq<char>| self@.declares(dependent, name@);
        assert(names.take(0).filter(keep) =~= Seq::empty()) by {
            reveal(Seq::filter);
        }
        while i < self.kegs.len()
            invariant
                i <= self.kegs@.len(),
                names == keg_names(self.kegs@),
                keep == (|dependent: Seq<char>| self@.declares(dependent, name@)),
                text::texts(list@) == names.take(i as int).filter(keep),
            decreases self.kegs@.len() - i,
        {
            let ghost listed = list@;
            proof {
                lemma_filter_next(names, keep, i as int);
            }
            if self.declared(self.kegs[i].name.as_str(), name) {
                list.push(self.kegs[i].name.clone());
                assert(text::texts(list@) =~= text::texts(listed).push(names[i as int]));
            }
            i = i + 1;
        }
        proof {
            assert(names.take(i as int) =~= names);
            self.lemma_domain();
            text::lemma_select_ascending(names, keep);
        }
        list
    }

    /// Whether another installed formula depends on `name`.
    fn needed_by_another(&self, name: &str) -> (yes: bool)
        requires
            self.wf(),
        ensures
            yes <==> exists|other: Seq<char>|
                self@.installed(other) && other != name@ && #[trigger] self@.declares(
                    other,
                    name@,
                ),
    {
        let mut i: usize = 0;
        let ghost all = pairs(self.edges@);
        while i < self.edges.len()
            invariant
                i <= self.edges@.len(),
                self.wf(),
                all == pairs(self.edges@),
                forall|k: int|
                    0 <= k < i ==> (#[trigger] all[k]).1 != name@ || all[k].0 == name@,
            decreases self.edges@.len() - i,
        {
            let edge = &self.edges[i];
            if same_text(edge.dependency.as_str(), name) && !same_text(
                edge.dependent.as_str(),
                name,
            ) {
                proof {
                    assert(all.contains(all[i as int]));
                    assert(self@.edges.contains(all[i as int]));
                    assert(self@.declares(all[i as int].0, name@));
                }
                return true;
            }
            i = i + 1;
        }
        proof {
            assert forall|other: Seq<char>|
                self@.installed(other) && other != name@ implies !#[trigger] self@.declares(
                other,
                name@,
            ) by {
                if self@.declares(other, name@) {
                    assert(all.contains((other, name@)));
                    let k = choose|k: int| 0 <= k < all.len() && all[k] == (other, name@);
                    assert(all[k].1 == name@);
                }
            }
        }
        false
    }

    /// The orphans, in alphabetical order.
    pub fn list_orphans(&self) -> (list: Vec<InstalledKeg>)
        requires
            self.wf(),
        ensures
            keg_views(list@) == self@.rows(text::ascending(self@.orphans())),
    {
        let mut list: Vec<InstalledKeg> = Vec::new();
        let mut i: usize = 0;
        let ghost names = keg_names(self.kegs@);
        let ghost keep = |name: Seq<char>| self@.is_orphan(name);
        assert(names.take(0).filter(keep) =~= Seq::empty()) by {
            reveal(Seq::filter);
        }
        assert(keg_views(list@) =~= self@.rows(names.take(0).filter(keep)));
        while i < self.kegs.len()
            invariant
                i <= self.kegs@.len(),
                self.wf(),
                names == keg_names(self.kegs@),
                keep == (|name: Seq<char>| self@.is_orphan(name)),
                keg_views(list@) == self@.rows(names.take(i as int).filter(keep)),
            decreases self.kegs@.len() - i,
        {
            let ghost listed = list@;
            proof {
                self.lemma_row(i as int);
                lemma_filter_next(names, keep, i as int);
            }
            let keg = &self.kegs[i];
            if !keg.explicit && !self.needed_by_another(keg.name.as_str()) {
                list.push(keg.clone());
                assert(keg_views(list@) =~= keg_views(listed).push(keg@));
                assert(keg_views(list@) =~= self@.rows(names.take(i + 1).filter(keep)));
            }
            i = i + 1;
        }
        proof {
            assert(names.take(i as int) =~= names);
            self.lemma_domain();
            text::lemma_select_ascending(names, keep);
        }
        list
    }

    /// The formulas that were asked for under a category, in alphabetical
    /// order.
    pub fn list_explicit_in_category(&self, category: &str) -> (list: Vec<String>)
        requires
            self.wf(),
        ensures
            text::texts(list@) == text::ascending(self@.in_category(category@)),
    {
        let mut list: Vec<String> = Vec::new();
        let mut i: usize = 0;
        let ghost names = keg_names(self.kegs@);
        let ghost keep = |name: Seq<char>|
            self@.kegs[name].explicit && self@.kegs[name].explicit_category == Some(category@);
        assert(names.take(0).filter(keep) =~= Seq::empty()) by {
            reveal(Seq::filter);
        }
        while i < self.kegs.len()
            invariant
                i <= self.kegs@.len(),
                self.wf(),
                names == keg_names(self.kegs@),
                keep == (|name: Seq<char>|
                    self@.kegs[name].explicit && self@.kegs[name].explicit_category == Some(
                        category@,
                    )),
                text::texts(list@) == names.take(i as int).filter(keep),
            decreases self.kegs@.len() - i,
        {
            let ghost listed = list@;
            proof {
                self.lemma_row(i as int);
                lemma_filter_next(names, keep, i as int);
            }
            let keg = &self.kegs[i];
            let asked_for = match &keg.explicit_category {
                Some(own) => keg.explicit && same_text(own.as_str(), category),
                None => false,
            };
            if asked_for {
                list.push(keg.name.clone());
                assert(text::texts(list@) =~= text::texts(listed).push(names[i as int]));
            }
            i = i + 1;
        }
        proof {
            assert(names.take(i as int) =~= names);
            self.lemma_domain();
            text::lemma_select_ascending(names, keep);
        }
        list
    }

    /// The installed formulas in alphabetical order, each with the installed
    /// formulas that directly depend on it.
    pub fn list_installed_with_ownership(&self) -> (list: Vec<InstalledFormula>)
        requires
            self.wf(),
        ensures
            formula_views(list@) == self@.formulas(text::ascending(self@.kegs.dom())),
    {
        let kegs = self.list_installed();
        let ghost names = text::ascending(self@.kegs.dom());
        let mut list: Vec<InstalledFormula> = Vec::new();
        let mut i: usize = 0;
        proof {
            let own = keg_names(self.kegs@);
            self.lemma_domain();
            text::lemma_ascending_of_list(own);
            assert forall|k: int| 0 <= k < names.len() implies self@.kegs[names[k]].name
                == names[k] by {
                self.lemma_row(k);
            }
            assert(keg_views(kegs@).len() == names.len());
        }
        while i < kegs.len()
            invariant
                i <= kegs@.len(),
                kegs@.len() == names.len(),
                self.wf(),
                keg_views(kegs@) == self@.rows(names),
                forall|k: int|
                    0 <= k < names.len() ==> self@.kegs[#[trigger] names[k]].name == names[k],
                list@.len() == i,
                forall|k: int|
                    0 <= k < i ==> (#[trigger] list@[k])@ == self@.formulas(names)[k],
            decreases kegs@.len() - i,
        {
            assert(keg_views(kegs@)[i as int] == self@.rows(names)[i as int]);
            assert(kegs@[i as int]@ == self@.kegs[names[i as int]]);
            let keg = kegs[i].clone();
            let required_by = self.installed_dependents(keg.name.as_str());
            list.push(InstalledFormula { keg, required_by });
            i = i + 1;
        }
        assert(formula_views(list@) =~= self@.formulas(names));
        list
    }

    fn is_referenced(&self, store_key: &str) -> (yes: bool)
        requires
            self.wf(),
        ensures
            yes == self@.referenced(store_key@),
    {
        let mut i: usize = 0;
        while i < self.kegs.len()
            invariant
                i <= self.kegs@.len(),
                self.wf(),
                forall|k: int| 0 <= k < i ==> (#[trigger] self.kegs@[k]).store_key@ != store_key@,
            decreases self.kegs@.len() - i,
        {
            if same_text(self.kegs[i].store_key.as_str(), store_key) {
                proof {
                    self.lemma_row(i as int);
                    assert(self@.installed(self.kegs@[i as int].name@));
                }
                return true;
            }
            i = i + 1;
        }
        proof {
            if self@.referenced(store_key@) {
                let name = choose|name: Seq<char>| #[trigger]
                    self@.installed(name) && self@.kegs[name].store_key == store_key@;
                let k = keg_names(self.kegs@).index_of(name);
                self.lemma_row(k);
            }
        }
        false
    }

    /// The store entries on record that no installed formula comes from.
    pub fn get_unreferenced_store_keys(&self) -> (list: Vec<String>)
        requires
            self.wf(),
        ensures
            text::texts(list@) == self@.unreferenced(),
    {
        let mut list: Vec<String> = Vec::new();
        let mut i: usize = 0;
        let ghost keys = text::texts(self.store_keys@);
        let ghost keep = |key: Seq<char>| !self@.referenced(key);
        assert(keys.take(0).filter(keep) =~= Seq::empty()) by {
            reveal(Seq::filter);
        }
        while i < self.store_keys.len()
            invariant
                i <= self.store_keys@.len(),
                self.wf(),
                keys == text::texts(self.store_keys@),
                keep == (|key: Seq<char>| !self@.referenced(key)),
                text::texts(list@) == keys.take(i as int).filter(keep),
            decreases self.store_keys@.len() - i,
        {
            let ghost listed = list@;
            proof {
                lemma_filter_next(keys, keep, i as int);
            }
            if !self.is_referenced(self.store_keys[i].as_str()) {
                list.push(self.store_keys[i].clone());
                assert(text::texts(list@) =~= text::texts(listed).push(keys[i as int]));
            }
            i = i + 1;
        }
        assert(keys.take(i as int) =~= keys);
        list
    }

    /// Drops what `dependent` declares.
    fn drop_edges_of(&mut self, dependent: &str)
        ensures
            final(self).kegs == old(self).kegs,
            final(self).store_keys == old(self).store_keys,
            forall|edge: (Seq<char>, Seq<char>)| #[trigger]
                final(self)@.edges.contains(edge) <==> old(self)@.edges.contains(edge) && edge.0
                    != dependent@,
    {
        let mut kept: Vec<Edge> = Vec::new();
        let mut i: usize = 0;
        let ghost all = pairs(self.edges@);
        while i < self.edges.len()
            invariant
                i <= self.edges@.len(),
                *self == *old(self),
                all == pairs(self.edges@),
                forall|edge: (Seq<char>, Seq<char>)| #[trigger]
                    pairs(kept@).contains(edge) <==> all.take(i as int).contains(edge) && edge.0
                        != dependent@,
            decreases self.edges@.len() - i,
        {
            let ghost before = pairs(kept@);
            let ghost seen = all.take(i as int);
            if !same_text(self.edges[i].dependent.as_str(), dependent) {
                kept.push(self.edges[i].copy());
                assert(pairs(kept@) =~= before.push(all[i as int]));
            }
            i = i + 1;
            proof {
                assert(all.take(i as int) =~= seen.push(all[i - 1]));
                text::lemma_push_members(seen, all[i - 1]);
                text::lemma_push_members(before, all[i - 1]);
            }
        }
        assert(all.take(i as int) =~= all);
        self.edges = kept;
    }

    /// Takes a formula off the record, with what it declares. What others
    /// declare of it stays. Nothing happens where it is not installed.
    pub fn record_uninstall(&mut self, name: &str)
        requires
            old(self).wf(),
        ensures
            final(self).wf(),
            final(self)@ == old(self)@.without(set![name@]),
    {
        let at = self.position(name);
        let ghost names = keg_names(self.kegs@);
        if at < self.kegs.len() && same_text(self.kegs[at].name.as_str(), name) {
            self.kegs.remove(at);
            proof {
                let rest = keg_names(self.kegs@);
                assert forall|i: int, j: int| 0 <= i < j < rest.len() implies #[trigger] text::before(
                    rest[i],
                    rest[j],
                ) by {
                    let a = if i < at {
                        i
                    } else {
                        i + 1
                    };
                    let b = if j < at {
                        j
                    } else {
                        j + 1
                    };
                    assert(text::before(names[a], names[b]));
                }
                assert(self@.kegs =~= old(self)@.kegs.remove_keys(set![name@])) by {
                    lemma_remove_row(old(self).kegs@, at as int);
                }
            }
        } else {
            assert(self@.kegs =~= old(self)@.kegs.remove_keys(set![name@]));
        }
        self.drop_edges_of(name);
        proof {
            assert(self@.edges =~= old(self)@.without(set![name@]).edges);
            old(self)@.lemma_without_valid(set![name@]);
        }
    }

    /// Takes a store entry off the record.
    pub fn delete_store_ref(&mut self, store_key: &str)
        requires
            old(self).wf(),
        ensures
            final(self).wf(),
            final(self)@ == old(self)@.without_store_key(store_key@),
    {
        let mut kept: Vec<String> = Vec::new();
        let mut i: usize = 0;
        let ghost keys = text::texts(self.store_keys@);
        let ghost keep = ownership::other_than(store_key@);
        assert(keys.take(0).filter(keep) =~= Seq::empty()) by {
            reveal(Seq::filter);
        }
        while i < self.store_keys.len()
            invariant
                i <= self.store_keys@.len(),
                *self == *old(self),
                keys == text::texts(self.store_keys@),
                keep == ownership::other_than(store_key@),
                text::texts(kept@) == keys.take(i as int).filter(keep),
            decreases self.store_keys@.len() - i,
        {
            let ghost before = kept@;
            proof {
                lemma_filter_next(keys, keep, i as int);
            }
            if !same_text(self.store_keys[i].as_str(), store_key) {
                kept.push(self.store_keys[i].clone());
                assert(text::texts(kept@) =~= text::texts(before).push(keys[i as int]));
            }
            i = i + 1;
        }
        assert(keys.take(i as int) =~= keys);
        self.store_keys = kept;
        proof {
            ownership::lemma_filter_members(keys, keep);
            assert(old(self)@.valid());
            assert(self@ == old(self)@.without_store_key(store_key@));
        }
    }

    /// Puts an installed formula on the record, in no category.
    pub fn record_install(
        &mut self,
        name: &str,
        version: &str,
        store_key: &str,
        explicit: bool,
        dependencies: &[String],
    )
        requires
            old(self).wf(),
        ensures
            final(self).wf(),
            final(self)@ == old(self)@.with_install(
                name@,
                version@,
                store_key@,
                explicit,
                None,
                text::texts(dependencies@),
            ),
    {
        self.record_install_in_category(name, version, store_key, explicit, None, dependencies);
    }

    /// Puts an installed formula on the record. One that the user asked for
    /// stays so, asking for it sets its category, and what it declares is
    /// replaced by `dependencies`.
    pub fn record_install_in_category(
        &mut self,
        name: &str,
        version: &str,
        store_key: &str,
        explicit: bool,
        explicit_category: Option<&str>,
        dependencies: &[String],
    )
        requires
            old(self).wf(),
        ensures
            final(self).wf(),
            final(self)@ == old(self)@.with_install(
                name@,
                version@,
                store_key@,
                explicit,
                str_option(explicit_category),
                text::texts(dependencies@),
            ),
    {
        let ghost target = self@.with_install(
            name@,
            version@,
            store_key@,
            explicit,
            str_option(explicit_category),
            text::texts(dependencies@),
        );
        let at = self.position(name);
        let asked_category: Option<String> = match explicit_category {
            Some(category) => Some(category.to_owned()),
            None => None,
        };
        if at < self.kegs.len() && same_text(self.kegs[at].name.as_str(), name) {
            proof {
                self.lemma_row(at as int);
            }
            let category = if explicit {
                asked_category
            } else {
                self.kegs[at].clone().explicit_category
            };
            let keg = InstalledKeg {
                name: name.to_owned(),
                version: version.to_owned(),
                store_key: store_key.to_owned(),
                explicit: explicit || self.kegs[at].explicit,
                explicit_category: category,
            };
            self.kegs.set(at, keg);
            proof {
                assert(keg_names(self.kegs@) =~= keg_names(old(self).kegs@));
                lemma_replace_row(old(self).kegs@, at as int, keg);
                assert(self@.kegs =~= target.kegs);
            }
        } else {
            let keg = InstalledKeg {
                name: name.to_owned(),
                version: version.to_owned(),
                store_key: store_key.to_owned(),
                explicit,
                explicit_category: if explicit {
                    asked_category
                } else {
                    None
                },
            };
            self.kegs.insert(at, keg);
            proof {
                lemma_insert_row(old(self).kegs@, at as int, keg);
                assert(self@.kegs =~= target.kegs);
            }
        }
        self.drop_edges_of(name);
        self.add_edges(name, dependencies);
        assert(self@.edges =~= target.edges);
        self.add_store_key(store_key);
        proof {
            assert(target.kegs.dom() =~= old(self)@.kegs.dom().insert(name@));
            assert forall|edge: (Seq<char>, Seq<char>)| #[trigger]
                target.edges.contains(edge) implies target.kegs.contains_key(edge.0) by {
                if edge.0 != name@ {
                    assert(old(self)@.edges.contains(edge));
                }
            }
        }
    }

    fn add_store_key(&mut self, store_key: &str)
        ensures
            final(self).kegs == old(self).kegs,
            final(self).edges == old(self).edges,
            final(self)@ == old(self)@.with_store_key(store_key@),
    {
        if !holds_text(self.store_keys.as_slice(), store_key) {
            let ghost keys = text::texts(self.store_keys@);
            self.store_keys.push(store_key.to_owned());
            assert(text::texts(self.store_keys@) =~= keys.push(store_key@));
        }
    }

    /// Puts a store entry on the record.
    pub fn record_store_ref(&mut self, store_key: &str)
        requires
            old(self).wf(),
        ensures
            final(self).wf(),
            final(self)@ == old(self)@.with_store_key(store_key@),
    {
        self.add_store_key(store_key);
    }

    /// Lets `dependent` declare every one of `dependencies`.
    fn add_edges(&mut self, dependent: &str, dependencies: &[String])
        ensures
            final(self).kegs == old(self).kegs,
            final(self).store_keys == old(self).store_keys,
            forall|edge: (Seq<char>, Seq<char>)| #[trigger]
                final(self)@.edges.contains(edge) <==> old(self)@.edges.contains(edge) || (edge.0
                    == dependent@ && text::texts(dependencies@).contains(edge.1)),
    {
        let mut i: usize = 0;
        let ghost wanted = text::texts(dependencies@);
        while i < dependencies.len()
            invariant
                i <= dependencies@.len(),
                wanted == text::texts(dependencies@),
                self.kegs == old(self).kegs,
                self.store_keys == old(self).store_keys,
                forall|edge: (Seq<char>, Seq<char>)| #[trigger]
                    self@.edges.contains(edge) <==> old(self)@.edges.contains(edge) || (edge.0
                        == dependent@ && wanted.take(i as int).contains(edge.1)),
            decreases dependencies@.len() - i,
        {
            let ghost before = self@.edges;
            let ghost listed = pairs(self.edges@);
            let dependency = dependencies[i].as_str();
            if !self.declared(dependent, dependency) {
                self.edges.push(
                    Edge { dependent: dependent.to_owned(), dependency: dependency.to_owned() },
                );
                proof {
                    assert(pairs(self.edges@) =~= listed.push((dependent@, dependency@)));
                    text::lemma_push_members(listed, (dependent@, dependency@));
                }
            }
            i = i + 1;
            proof {
                assert(wanted.take(i as int) =~= wanted.take(i - 1).push(dependency@));
                text::lemma_push_members(wanted.take(i - 1), dependency@);
                assert forall|edge: (Seq<char>, Seq<char>)| #[trigger]
                    self@.edges.contains(edge) <==> before.contains(edge) || edge == (
                    dependent@,
                    dependency@,
                ) by {
                    assert(before.contains(edge) <==> listed.contains(edge));
                }
            }
        }
        assert(wanted.take(i as int) =~= wanted);
    }

    /// A second record of the same state.
    pub fn duplicate(&self) -> (copy: Self)
        requires
            self.wf(),
        ensures
            copy.wf(),
            copy@ == self@,
    {
        let mut kegs: Vec<InstalledKeg> = Vec::new();
        let mut i: usize = 0;
        while i < self.kegs.len()
            invariant
                i <= self.kegs@.len(),
                kegs@.len() == i,
                forall|k: int| 0 <= k < i ==> (#[trigger] kegs@[k])@ == self.kegs@[k]@,
            decreases self.kegs@.len() - i,
        {
            kegs.push(self.kegs[i].clone());
            i = i + 1;
        }
        let mut edges: Vec<Edge> = Vec::new();
        i = 0;
        while i < self.edges.len()
            invariant
                i <= self.edges@.len(),
                edges@.len() == i,
                forall|k: int| 0 <= k < i ==> (#[trigger] edges@[k]).pair() == self.edges@[k].pair(),
            decreases self.edges@.len() - i,
        {
            edges.push(self.edges[i].copy());
            i = i + 1;
        }
        let mut store_keys: Vec<String> = Vec::new();
        i = 0;
        while i < self.store_keys.len()
            invariant
                i <= self.store_keys@.len(),
                store_keys@.len() == i,
                forall|k: int| 0 <= k < i ==> (#[trigger] store_keys@[k])@ == self.store_keys@[k]@,
            decreases self.store_keys@.len() - i,
        {
            store_keys.push(self.store_keys[i].clone());
            i = i + 1;
        }
        let copy = Database { kegs, edges, store_keys };
        proof {
            assert forall|k: int| 0 <= k < kegs@.len() implies kegs@[k].name@
                == self.kegs@[k].name@ by {
                assert(kegs@[k]@ == self.kegs@[k]@);
            }
            assert(keg_names(kegs@) =~= keg_names(self.kegs@));
            assert(copy@.kegs =~= self@.kegs) by {
                assert forall|name: Seq<char>| copy@.kegs.contains_key(name) implies
                    copy@.kegs[name] == self@.kegs[name] by {
                    let k = keg_names(kegs@).index_of(name);
                    assert(kegs@[k]@ == self.kegs@[k]@);
                }
            }
            assert(pairs(edges@) =~= pairs(self.edges@));
            assert(text::texts(store_keys@) =~= text::texts(self.store_keys@));
        }
        copy
    }
}

pub open spec fn str_option(text: Option<&str>) -> Option<Seq<char>> {
    match text {
        Some(text) => Some(text@),
        None => None,
    }
}

proof fn lemma_remove_row(kegs: Seq<InstalledKeg>, at: int)
    requires
        text::is_ascending(keg_names(kegs)),
        text::is_ascending(keg_names(kegs.remove(at))),
        0 <= at < kegs.len(),
    ensures
        keg_map(kegs.remove(at)) == keg_map(kegs).remove_keys(set![kegs[at].name@]),
{
    let rest = kegs.remove(at);
    let gone = kegs[at].name@;
    let a = keg_map(rest);
    let b = keg_map(kegs).remove_keys(set![gone]);
    assert forall|name: Seq<char>| #[trigger] a.contains_key(name) implies b.contains_key(name)
        && a[name] == b[name] by {
        let k = keg_names(rest).index_of(name);
        let j = if k < at {
            k
        } else {
            k + 1
        };
        assert(rest[k] == kegs[j]);
        lemma_keg_row(rest, k);
        lemma_keg_row(kegs, j);
        lemma_names_distinct(kegs, j, at);
    }
    assert forall|name: Seq<char>| #[trigger] b.contains_key(name) implies a.contains_key(name) by {
        let j = keg_names(kegs).index_of(name);
        assert(j != at);
        let k = if j < at {
            j
        } else {
            j - 1
        };
        assert(rest[k] == kegs[j]);
        lemma_keg_row(rest, k);
    }
    assert(a =~= b);
}

proof fn lemma_replace_row(kegs: Seq<InstalledKeg>, at: int, keg: InstalledKeg)
    requires
        text::is_ascending(keg_names(kegs)),
        0 <= at < kegs.len(),
        kegs[at].name@ == keg.name@,
    ensures
        keg_map(kegs.update(at, keg)) == keg_map(kegs).insert(keg.name@, keg@),
{
    let now = kegs.update(at, keg);
    assert(keg_names(now) =~= keg_names(kegs));
    let a = keg_map(now);
    let b = keg_map(kegs).insert(keg.name@, keg@);
    lemma_keg_row(kegs, at);
    assert forall|name: Seq<char>| #[trigger] a.contains_key(name) implies b.contains_key(name)
        && a[name] == b[name] by {
        let k = keg_names(now).index_of(name);
        lemma_keg_row(now, k);
        if k != at {
            lemma_names_distinct(kegs, k, at);
            lemma_keg_row(kegs, k);
        }
    }
    assert(a =~= b);
}

proof fn lemma_insert_row(kegs: Seq<InstalledKeg>, at: int, keg: InstalledKeg)
    requires
        text::is_ascending(keg_names(kegs)),
        0 <= at <= kegs.len(),
        forall|k: int| 0 <= k < at ==> #[trigger] text::before(kegs[k].name@, keg.name@),
        forall|k: int| at <= k < kegs.len() ==> #[trigger] text::before(keg.name@, kegs[k].name@),
    ensures
        text::is_ascending(keg_names(kegs.insert(at, keg))),
        keg_map(kegs.insert(at, keg)) == keg_map(kegs).insert(keg.name@, keg@),
{
    let now = kegs.insert(at, keg);
    let names = keg_names(kegs);
    assert forall|i: int, j: int| 0 <= i < j < keg_names(now).len() implies #[trigger] text::before(
        keg_names(now)[i],
        keg_names(now)[j],
    ) by {
        if i != at && j != at {
            let a = if i < at {
                i
            } else {
                i - 1
            };
            let b = if j < at {
                j
            } else {
                j - 1
            };
            assert(text::before(names[a], names[b]));
        } else if i == at {
            assert(text::before(keg.name@, kegs[j - 1].name@));
        } else {
            assert(text::before(kegs[i].name@, keg.name@));
        }
    }
    let a = keg_map(now);
    let b = keg_map(kegs).insert(keg.name@, keg@);
    assert forall|name: Seq<char>| #[trigger] a.contains_key(name) implies b.contains_key(name)
        && a[name] == b[name] by {
        let k = keg_names(now).index_of(name);
        lemma_keg_row(now, k);
        if k != at {
            lemma_names_distinct(now, k, at);
            let j = if k < at {
                k
            } else {
                k - 1
            };
            assert(now[k] == kegs[j]);
            lemma_keg_row(kegs, j);
        }
    }
    assert forall|name: Seq<char>| #[trigger] b.contains_key(name) implies a.contains_key(name) by {
        lemma_keg_row(now, at);
        if name != keg.name@ {
            let j = keg_names(kegs).index_of(name);
            let k = if j < at {
                j
            } else {
                j + 1
            };
            assert(now[k] == kegs[j]);
            lemma_keg_row(now, k);
        }
    }
    assert(a =~= b);
}

proof fn lemma_names_distinct(kegs: Seq<InstalledKeg>, i: int, j: int)
    requires
        text::is_ascending(keg_names(kegs)),
        0 <= i < kegs.len(),
        0 <= j < kegs.len(),
        i != j,
    ensures
        kegs[i].name@ != kegs[j].name@,
{
    let names = keg_names(kegs);
    text::lemma_before_irreflexive(names[i]);
    if i < j {
        assert(text::before(names[i], names[j]));
    } else {
        assert(text::before(names[j], names[i]));
    }
}

proof fn lemma_filter_next<T>(list: Seq<T>, keep: spec_fn(T) -> bool, i: int)
    requires
        0 <= i < list.len(),
    ensures
        keep(list[i]) ==> list.take(i + 1).filter(keep) == list.take(i).filter(keep).push(list[i]),
        !keep(list[i]) ==> list.take(i + 1).filter(keep) == list.take(i).filter(keep),
{
    reveal(Seq::filter);
    assert(list.take(i + 1).drop_last() =~= list.take(i));
    assert(list.take(i + 1).last() == list[i]);
}

proof fn lemma_keg_row(kegs: Seq<InstalledKeg>, i: int)
    requires
        text::is_ascending(keg_names(kegs)),
        0 <= i < kegs.len(),
    ensures
        keg_map(kegs).contains_key(kegs[i].name@),
        keg_map(kegs)[kegs[i].name@] == kegs[i]@,
{
    let names = keg_names(kegs);
    assert(names[i] == kegs[i].name@);
    assert(names.contains(names[i]));
    let k = names.index_of(names[i]);
    assert(names[k] == names[i]);
    text::lemma_before_irreflexive(names[i]);
    if k < i {
        assert(text::before(names[k], names[i]));
    }
    if i < k {
        assert(text::before(names[i], names[k]));
    }
}

} // verus!
