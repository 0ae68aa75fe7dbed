//! The model of formula ownership: what is installed and why, which formula
//! declares which dependency, and what each operation makes of it.

use vstd::prelude::*;

use crate::error::ErrorView;
use crate::text;

verus! {

/// A list without what it already held further up.
pub open spec fn distinct(list: Seq<Seq<char>>) -> Seq<Seq<char>>
    decreases list.len(),
{
    if list.len() == 0 {
        list
    } else {
        let above = distinct(list.drop_last());
        if above.contains(list.last()) {
            above
        } else {
            above.push(list.last())
        }
    }
}

/// The condition of being another text than `text`.
pub open spec fn other_than(text: Seq<char>) -> spec_fn(Seq<char>) -> bool {
    |other: Seq<char>| other != text
}

/// The first member of a list that a condition holds of.
pub open spec fn first_where(
    list: Seq<Seq<char>>,
    condition: spec_fn(Seq<char>) -> bool,
) -> Option<Seq<char>>
    decreases list.len(),
{
    if list.len() == 0 {
        None
    } else if condition(list.first()) {
        Some(list.first())
    } else {
        first_where(list.drop_first(), condition)
    }
}

/// An installed formula.
#[verifier::ext_equal]
pub struct KegView {
    pub name: Seq<char>,
    pub version: Seq<char>,
    pub store_key: Seq<char>,
    pub explicit: bool,
    pub explicit_category: Option<Seq<char>>,
}

/// An installed formula and the installed formulas that directly depend on it.
#[verifier::ext_equal]
pub struct FormulaView {
    pub keg: KegView,
    pub required_by: Seq<Seq<char>>,
}

/// Everything that is known of the installed formulas.
#[verifier::ext_equal]
pub struct Ownership {
    /// The installed formulas, by name.
    pub kegs: Map<Seq<char>, KegView>,
    /// The pairs of a formula and a formula that it directly depends on.
    pub edges: Set<(Seq<char>, Seq<char>)>,
    /// The store entries on record.
    pub store_keys: Seq<Seq<char>>,
}

/// A list and its distinct list have the same members.
pub proof fn lemma_distinct_members(list: Seq<Seq<char>>)
    ensures
        distinct(list).no_duplicates(),
        distinct(list).to_set() == list.to_set(),
        forall|name: Seq<char>| #[trigger] distinct(list).contains(name) <==> list.contains(name),
    decreases list.len(),
{
    let all = distinct(list);
    if list.len() > 0 {
        let rest = list.drop_last();
        let above = distinct(rest);
        lemma_distinct_members(rest);
        assert(list =~= rest.push(list.last()));
        text::lemma_push_members(rest, list.last());
        text::lemma_push_members(above, list.last());
        assert forall|name: Seq<char>| #[trigger] all.contains(name) <==> list.contains(name) by {
            assert(above.contains(name) <==> rest.contains(name));
        }
    }
    assert forall|name: Seq<char>| all.to_set().contains(name) <==> list.to_set().contains(name) by {
        assert(all.contains(name) <==> list.contains(name));
    }
    assert(all.to_set() =~= list.to_set());
}

/// What the first member that a condition holds of says of the whole list.
pub proof fn lemma_first_where(list: Seq<Seq<char>>, condition: spec_fn(Seq<char>) -> bool)
    ensures
        match first_where(list, condition) {
            Some(name) => list.contains(name) && condition(name),
            None => forall|name: Seq<char>| #[trigger] list.contains(name) ==> !condition(name),
        },
    decreases list.len(),
{
    if list.len() > 0 {
        let rest = list.drop_first();
        assert(list[0] == list.first());
        lemma_first_where(rest, condition);
        assert forall|name: Seq<char>| #[trigger] list.contains(name) implies name == list.first()
            || rest.contains(name) by {
            let k = choose|k: int| 0 <= k < list.len() && list[k] == name;
            if k > 0 {
                assert(rest[k - 1] == name);
            }
        }
        assert forall|name: Seq<char>| #[trigger] rest.contains(name) implies list.contains(name) by {
            let k = choose|k: int| 0 <= k < rest.len() && rest[k] == name;
            assert(list[k + 1] == name);
        }
    }
}

/// A selection holds exactly the members that were selected, and nothing twice.
pub proof fn lemma_filter_members(list: Seq<Seq<char>>, keep: spec_fn(Seq<char>) -> bool)
    requires
        list.no_duplicates(),
    ensures
        list.filter(keep).no_duplicates(),
        forall|key: Seq<char>| #[trigger]
            list.filter(keep).contains(key) <==> list.contains(key) && keep(key),
    decreases list.len(),
{
    reveal(Seq::filter);
    if list.len() > 0 {
        let rest = list.drop_last();
        lemma_filter_members(rest, keep);
        assert(list =~= rest.push(list.last()));
        text::lemma_push_members(rest, list.last());
        text::lemma_push_members(rest.filter(keep), list.last());
        if rest.contains(list.last()) {
            let k = choose|k: int| 0 <= k < rest.len() && rest[k] == list.last();
            assert(list[k] == list[list.len() - 1]);
        }
        assert(!rest.filter(keep).contains(list.last()));
        assert(list.filter(keep).no_duplicates());
    }
}

proof fn lemma_filter_all(list: Seq<Seq<char>>, keep: spec_fn(Seq<char>) -> bool)
    requires
        forall|key: Seq<char>| #[trigger] keep(key),
    ensures
        list.filter(keep) == list,
    decreases list.len(),
{
    reveal(Seq::filter);
    if list.len() > 0 {
        lemma_filter_all(list.drop_last(), keep);
        assert(list =~= list.drop_last().push(list.last()));
    }
}

proof fn lemma_filter_twice(
    list: Seq<Seq<char>>,
    a: spec_fn(Seq<char>) -> bool,
    b: spec_fn(Seq<char>) -> bool,
    both: spec_fn(Seq<char>) -> bool,
)
    requires
        forall|key: Seq<char>| #[trigger] both(key) == (a(key) && b(key)),
    ensures
        list.filter(a).filter(b) == list.filter(both),
    decreases list.len(),
{
    reveal(Seq::filter);
    if list.len() > 0 {
        let rest = list.drop_last();
        lemma_filter_twice(rest, a, b, both);
        if a(list.last()) {
            assert(list.filter(a).drop_last() =~= rest.filter(a));
        }
        assert(both(list.last()) == (a(list.last()) && b(list.last())));
    }
}

pub proof fn lemma_filter_same(
    list: Seq<Seq<char>>,
    a: spec_fn(Seq<char>) -> bool,
    b: spec_fn(Seq<char>) -> bool,
)
    requires
        forall|k: int| 0 <= k < list.len() ==> a(#[trigger] list[k]) == b(list[k]),
    ensures
        list.filter(a) == list.filter(b),
    decreases list.len(),
{
    reveal(Seq::filter);
    if list.len() > 0 {
        let rest = list.drop_last();
        assert forall|k: int| 0 <= k < rest.len() implies a(#[trigger] rest[k]) == b(rest[k]) by {
            assert(rest[k] == list[k]);
        }
        lemma_filter_same(rest, a, b);
        assert(list[list.len() - 1] == list.last());
    }
}

/// A list that holds nothing twice is its own distinct list.
pub proof fn lemma_distinct_of_distinct(list: Seq<Seq<char>>)
    requires
        list.no_duplicates(),
    ensures
        distinct(list) == list,
    decreases list.len(),
{
    if list.len() > 0 {
        let rest = list.drop_last();
        lemma_distinct_of_distinct(rest);
        if rest.contains(list.last()) {
            let k = choose|k: int| 0 <= k < rest.len() && rest[k] == list.last();
            assert(list[k] == list[list.len() - 1]);
        }
        assert(list =~= rest.push(list.last()));
    }
}

pub proof fn lemma_distinct_ascending(list: Seq<Seq<char>>)
    requires
        text::is_ascending(list),
    ensures
        list.no_duplicates(),
        distinct(list) == list,
{
    assert forall|i: int, j: int| 0 <= i < list.len() && 0 <= j < list.len() && i != j implies list[i]
        != list[j] by {
        text::lemma_before_irreflexive(list[i]);
        if i < j {
            assert(text::before(list[i], list[j]));
        } else {
            assert(text::before(list[j], list[i]));
        }
    }
    lemma_distinct_of_distinct(list);
}

impl Ownership {
    /// Kegs are filed under their names, only installed formulas declare
    /// dependencies, and no store entry is on record twice.
    pub open spec fn valid(self) -> bool {
        &&& self.kegs.dom().finite()
        &&& forall|name: Seq<char>| #[trigger]
            self.kegs.contains_key(name) ==> self.kegs[name].name == name
        &&& forall|edge: (Seq<char>, Seq<char>)| #[trigger]
            self.edges.contains(edge) ==> self.kegs.contains_key(edge.0)
        &&& self.store_keys.no_duplicates()
    }

    /// Nothing is installed.
    pub open spec fn empty() -> Ownership {
        Ownership { kegs: Map::empty(), edges: Set::empty(), store_keys: Seq::empty() }
    }

    pub open spec fn installed(self, name: Seq<char>) -> bool {
        self.kegs.contains_key(name)
    }

    pub open spec fn declares(self, dependent: Seq<char>, dependency: Seq<char>) -> bool {
        self.edges.contains((dependent, dependency))
    }

    /// The installed formulas that directly depend on `name`.
    pub open spec fn dependents(self, name: Seq<char>) -> Set<Seq<char>> {
        self.kegs.dom().filter(|dependent: Seq<char>| self.declares(dependent, name))
    }

    /// Installed, not asked for, and no other installed formula depends on it.
    pub open spec fn is_orphan(self, name: Seq<char>) -> bool {
        &&& self.installed(name)
        &&& !self.kegs[name].explicit
        &&& forall|other: Seq<char>|
            self.installed(other) && other != name ==> !#[trigger] self.declares(other, name)
    }

    pub open spec fn orphans(self) -> Set<Seq<char>> {
        self.kegs.dom().filter(|name: Seq<char>| self.is_orphan(name))
    }

    /// The formulas that were asked for under a category.
    pub open spec fn in_category(self, category: Seq<char>) -> Set<Seq<char>> {
        self.kegs.dom().filter(
            |name: Seq<char>|
                self.kegs[name].explicit && self.kegs[name].explicit_category == Some(category),
        )
    }

    /// The kegs of a list of names.
    pub open spec fn rows(self, names: Seq<Seq<char>>) -> Seq<KegView> {
        Seq::new(names.len(), |i: int| self.kegs[names[i]])
    }

    /// The kegs of a list of names, each with what directly depends on it.
    pub open spec fn formulas(self, names: Seq<Seq<char>>) -> Seq<FormulaView> {
        Seq::new(
            names.len(),
            |i: int|
                FormulaView {
                    keg: self.kegs[names[i]],
                    required_by: text::ascending(self.dependents(names[i])),
                },
        )
    }

    /// What is left when some formulas are gone: their kegs and what they
    /// declared go with them, what others declare of them stays.
    pub open spec fn without(self, names: Set<Seq<char>>) -> Ownership {
        Ownership {
            kegs: self.kegs.remove_keys(names),
            edges: self.edges.filter(
                |edge: (Seq<char>, Seq<char>)| !names.contains(edge.0),
            ),
            store_keys: self.store_keys,
        }
    }

    /// A formula is installed, or installed anew. One that was asked for
    /// stays so; asking for it sets its category, and what it declares is
    /// replaced.
    pub open spec fn with_install(
        self,
        name: Seq<char>,
        version: Seq<char>,
        store_key: Seq<char>,
        explicit: bool,
        explicit_category: Option<Seq<char>>,
        dependencies: Seq<Seq<char>>,
    ) -> Ownership {
        let earlier = self.installed(name);
        Ownership {
            kegs: self.kegs.insert(
                name,
                KegView {
                    name,
                    version,
                    store_key,
                    explicit: explicit || (earlier && self.kegs[name].explicit),
                    explicit_category: if explicit {
                        explicit_category
                    } else if earlier {
                        self.kegs[name].explicit_category
                    } else {
                        None
                    },
                },
            ),
            edges: Set::new(
                |edge: (Seq<char>, Seq<char>)|
                    if edge.0 == name {
                        dependencies.contains(edge.1)
                    } else {
                        self.edges.contains(edge)
                    },
            ),
            store_keys: self.with_store_key(store_key).store_keys,
        }
    }

    /// A store entry is on record, behind those that were on it before.
    pub open spec fn with_store_key(self, store_key: Seq<char>) -> Ownership {
        if self.store_keys.contains(store_key) {
            self
        } else {
            Ownership { store_keys: self.store_keys.push(store_key), ..self }
        }
    }

    /// Some installed formula comes from the store entry.
    pub open spec fn referenced(self, store_key: Seq<char>) -> bool {
        exists|name: Seq<char>| #[trigger]
            self.installed(name) && self.kegs[name].store_key == store_key
    }

    /// The store entries on record that no installed formula comes from.
    pub open spec fn unreferenced(self) -> Seq<Seq<char>> {
        self.store_keys.filter(|key: Seq<char>| !self.referenced(key))
    }

    /// What is left when a store entry is taken off the record.
    pub open spec fn without_store_key(self, store_key: Seq<char>) -> Ownership {
        Ownership {
            store_keys: self.store_keys.filter(other_than(store_key)),
            ..self
        }
    }

    /// What is left when some store entries are taken off the record.
    pub open spec fn without_store_keys(self, gone: Seq<Seq<char>>) -> Ownership {
        Ownership {
            store_keys: self.store_keys.filter(|key: Seq<char>| !gone.contains(key)),
            ..self
        }
    }

    /// What is left when only the store entries stay on record that installed
    /// formulas come from.
    pub open spec fn collected(self) -> Ownership {
        Ownership {
            store_keys: self.store_keys.filter(|key: Seq<char>| self.referenced(key)),
            ..self
        }
    }

    /// The installed formulas that directly depend on `name` and are not to be
    /// removed with it.
    pub open spec fn blockers(self, name: Seq<char>, removed: Seq<Seq<char>>) -> Set<Seq<char>> {
        self.dependents(name).filter(|dependent: Seq<char>| !removed.contains(dependent))
    }

    /// Why a request to uninstall is refused: a formula is not installed, or,
    /// unless the request is forced, is needed by one that stays. `None` where
    /// it is not refused.
    pub open spec fn refusal(self, names: Seq<Seq<char>>, force: bool) -> Option<ErrorView> {
        let requested = distinct(names);
        match first_where(requested, |name: Seq<char>| !self.installed(name)) {
            Some(name) => Some(ErrorView::NotInstalled { name }),
            None => if force {
                None
            } else {
                match first_where(
                    requested,
                    |name: Seq<char>| !self.blockers(name, requested).is_empty(),
                ) {
                    Some(name) => Some(
                        ErrorView::RequiredBy {
                            name,
                            dependents: text::ascending(self.blockers(name, requested)),
                        },
                    ),
                    None => None,
                }
            },
        }
    }

    /// What is left when a request to uninstall is carried out: the formulas
    /// are removed, then the sweep runs.
    pub open spec fn uninstalled(self, names: Seq<Seq<char>>) -> Ownership {
        self.without(distinct(names).to_set()).swept()
    }

    /// What the sweep after a request to uninstall removes.
    pub open spec fn autoremoved(self, names: Seq<Seq<char>>) -> Seq<Seq<char>> {
        self.without(distinct(names).to_set()).sweep_order()
    }

    /// What is left when the orphans are removed, and those that this makes
    /// orphans, until there is none.
    pub open spec fn swept(self) -> Ownership
        decreases self.kegs.dom().len(),
        when self.kegs.dom().finite()
    {
        if self.orphans().is_empty() {
            self
        } else {
            proof {
                self.lemma_sweep_shrinks();
            }
            self.without(self.orphans()).swept()
        }
    }

    /// The names that the sweep removes, in the order of removal: round by
    /// round, and alphabetically in each round.
    pub open spec fn sweep_order(self) -> Seq<Seq<char>>
        decreases self.kegs.dom().len(),
        when self.kegs.dom().finite()
    {
        if self.orphans().is_empty() {
            Seq::empty()
        } else {
            proof {
                self.lemma_sweep_shrinks();
            }
            text::ascending(self.orphans()) + self.without(self.orphans()).sweep_order()
        }
    }

    pub proof fn lemma_sweep_shrinks(self)
        requires
            self.kegs.dom().finite(),
            !self.orphans().is_empty(),
        ensures
            self.without(self.orphans()).kegs.dom().finite(),
            self.without(self.orphans()).kegs.dom().len() < self.kegs.dom().len(),
    {
        let orphans = self.orphans();
        let rest = self.without(orphans).kegs.dom();
        assert(rest =~= self.kegs.dom().difference(orphans));
        let gone = choose|name: Seq<char>| orphans.contains(name);
        assert(rest.subset_of(self.kegs.dom().remove(gone)));
        vstd::set_lib::lemma_len_subset(rest, self.kegs.dom().remove(gone));
    }

    /// A sweep that is not over removes the orphans, then goes on.
    pub proof fn lemma_round(self)
        requires
            self.kegs.dom().finite(),
            !self.orphans().is_empty(),
        ensures
            text::is_ascending(text::ascending(self.orphans())),
            text::ascending(self.orphans()).to_set() == self.orphans(),
            self.sweep_order() == text::ascending(self.orphans()) + self.without(
                self.orphans(),
            ).sweep_order(),
            self.sweep_order().to_set() == self.orphans().union(
                self.without(self.orphans()).sweep_order().to_set(),
            ),
    {
        self.lemma_sweep_shrinks();
        self.kegs.dom().lemma_len_filter(|name: Seq<char>| self.is_orphan(name));
        text::lemma_ascending(self.orphans());
        let first = text::ascending(self.orphans());
        let more = self.without(self.orphans()).sweep_order();
        assert forall|name: Seq<char>| (first + more).contains(name) <==> first.contains(name)
            || more.contains(name) by {
            if first.contains(name) {
                let k = choose|k: int| 0 <= k < first.len() && first[k] == name;
                assert((first + more)[k] == name);
            }
            if more.contains(name) {
                let k = choose|k: int| 0 <= k < more.len() && more[k] == name;
                assert((first + more)[first.len() + k] == name);
            }
            if (first + more).contains(name) {
                let k = choose|k: int| 0 <= k < (first + more).len() && (first + more)[k] == name;
                if k < first.len() {
                    assert(first[k] == name);
                } else {
                    assert(more[k - first.len()] == name);
                }
            }
        }
        assert((first + more).to_set() =~= first.to_set().union(more.to_set()));
    }

    /// The sweep removes only what is installed.
    pub proof fn lemma_sweep_installed(self)
        requires
            self.kegs.dom().finite(),
        ensures
            forall|name: Seq<char>| #[trigger]
                self.sweep_order().contains(name) ==> self.installed(name),
        decreases self.kegs.dom().len(),
    {
        if !self.orphans().is_empty() {
            self.lemma_sweep_shrinks();
            let first = text::ascending(self.orphans());
            let rest = self.without(self.orphans());
            rest.lemma_sweep_installed();
            self.kegs.dom().lemma_len_filter(|name: Seq<char>| self.is_orphan(name));
            text::lemma_ascending(self.orphans());
            assert forall|name: Seq<char>| #[trigger] self.sweep_order().contains(name) implies self.installed(
                name,
            ) by {
                let k = choose|k: int|
                    0 <= k < self.sweep_order().len() && self.sweep_order()[k] == name;
                if k < first.len() {
                    assert(first.to_set().contains(first[k]));
                } else {
                    assert(rest.sweep_order()[k - first.len()] == name);
                    assert(rest.sweep_order().contains(name));
                    assert(rest.installed(name));
                }
            }
        }
    }

    pub proof fn lemma_blockers_finite(self, name: Seq<char>, removed: Seq<Seq<char>>)
        requires
            self.kegs.dom().finite(),
        ensures
            self.blockers(name, removed).finite(),
    {
        vstd::set_lib::lemma_len_subset(self.blockers(name, removed), self.kegs.dom());
    }

    pub proof fn lemma_forget_none(self, gone: Seq<Seq<char>>)
        requires
            gone.len() == 0,
        ensures
            self.without_store_keys(gone) == self,
    {
        lemma_filter_all(self.store_keys, |key: Seq<char>| !gone.contains(key));
    }

    pub proof fn lemma_forget_more(self, gone: Seq<Seq<char>>, more: Seq<char>)
        ensures
            self.without_store_keys(gone).without_store_key(more) == self.without_store_keys(
                gone.push(more),
            ),
    {
        let a = |key: Seq<char>| !gone.contains(key);
        let b = other_than(more);
        let all = gone.push(more);
        let c = |key: Seq<char>| !all.contains(key);
        assert forall|key: Seq<char>| #[trigger] c(key) == (a(key) && b(key)) by {
            text::lemma_push_members(gone, more);
        }
        lemma_filter_twice(self.store_keys, a, b, c);
        let first = self.without_store_keys(gone);
        let second = first.without_store_key(more);
        assert(first.store_keys == self.store_keys.filter(a));
        assert(second.store_keys == first.store_keys.filter(b));
        assert(self.without_store_keys(all).store_keys == self.store_keys.filter(c));
        assert(second =~= self.without_store_keys(all));
    }

    pub proof fn lemma_forget_unreferenced(self)
        ensures
            self.without_store_keys(self.unreferenced()) == self.collected(),
    {
        let loose = |key: Seq<char>| !self.referenced(key);
        let gone = self.unreferenced();
        let a = |key: Seq<char>| !gone.contains(key);
        let b = |key: Seq<char>| self.referenced(key);
        assert forall|k: int| 0 <= k < self.store_keys.len() implies a(
            #[trigger] self.store_keys[k],
        ) == b(self.store_keys[k]) by {
            let key = self.store_keys[k];
            if loose(key) {
                self.store_keys.lemma_filter_contains(loose, k);
            }
            if gone.contains(key) {
                let j = choose|j: int| 0 <= j < gone.len() && gone[j] == key;
                self.store_keys.lemma_filter_pred(loose, j);
            }
        }
        lemma_filter_same(self.store_keys, a, b);
    }

    pub proof fn lemma_without_valid(self, names: Set<Seq<char>>)
        requires
            self.valid(),
        ensures
            self.without(names).valid(),
    {
        let rest = self.without(names);
        assert(rest.kegs.dom() =~= self.kegs.dom().difference(names));
        assert forall|name: Seq<char>| #[trigger] rest.kegs.contains_key(name) implies rest.kegs[name].name == name by {
            assert(self.kegs.contains_key(name));
        }
    }

    /// Removing in two steps is removing at once.
    pub proof fn lemma_without_twice(self, first: Set<Seq<char>>, second: Set<Seq<char>>)
        ensures
            self.without(first).without(second) == self.without(first.union(second)),
    {
        let a = self.without(first).without(second);
        let b = self.without(first.union(second));
        assert(a.kegs =~= b.kegs);
        assert(a.edges =~= b.edges);
    }

    /// Removing nothing changes nothing.
    pub proof fn lemma_without_none(self)
        ensures
            self.without(Set::empty()) == self,
    {
        let a = self.without(Set::empty());
        assert(a.kegs =~= self.kegs);
        assert(a.edges =~= self.edges);
    }
}

} // verus!
