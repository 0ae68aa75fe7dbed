//! Texts: the order of names, lists of names, joining, trimming, and the part
//! of a formula name that its keg is filed under.

use vstd::prelude::*;
use vstd::string::StrSliceExecFns;
use vstd::string::StringExecFns;

verus! {

/// The characters of every text of a list.
pub open spec fn texts(list: Seq<String>) -> Seq<Seq<char>> {
    Seq::new(list.len(), |i: int| list[i]@)
}

/// What a list holds with one more item.
pub proof fn lemma_push_members<T>(list: Seq<T>, item: T)
    ensures
        forall|x: T| #[trigger] list.push(item).contains(x) <==> list.contains(x) || x == item,
        list.push(item).to_set() == list.to_set().union(set![item]),
{
    assert forall|x: T| #[trigger] list.push(item).contains(x) <==> list.contains(x) || x
        == item by {
        assert(list.push(item)[list.len() as int] == item);
        if list.contains(x) {
            let k = choose|k: int| 0 <= k < list.len() && list[k] == x;
            assert(list.push(item)[k] == x);
        }
        if list.push(item).contains(x) && x != item {
            let k = choose|k: int| 0 <= k < list.len() + 1 && list.push(item)[k] == x;
            assert(list[k] == x);
        }
    }
    assert(list.push(item).to_set() =~= list.to_set().union(set![item])) by {
        assert forall|x: T| list.push(item).to_set().contains(x) <==> list.to_set().union(
            set![item],
        ).contains(x) by {
            assert(list.push(item).contains(x) <==> list.contains(x) || x == item);
        }
    }
}

/// `a` and `b` agree up to `i`, where `a` ends or goes on with the smaller
/// code point.
pub open spec fn parts_at(a: Seq<char>, b: Seq<char>, i: int) -> bool {
    &&& 0 <= i <= a.len()
    &&& i < b.len()
    &&& forall|k: int| 0 <= k < i ==> a[k] == b[k]
    &&& i == a.len() || a[i] < b[i]
}

/// `a` comes before `b` in alphabetical order: by code point, a prefix first.
pub open spec fn before(a: Seq<char>, b: Seq<char>) -> bool {
    exists|i: int| parts_at(a, b, i)
}

/// Every text of the list comes before those that follow it.
pub open spec fn is_ascending(list: Seq<Seq<char>>) -> bool {
    forall|i: int, j: int| 0 <= i < j < list.len() ==> #[trigger] before(list[i], list[j])
}

/// The members of a finite set in alphabetical order.
pub open spec fn ascending(members: Set<Seq<char>>) -> Seq<Seq<char>> {
    choose|list: Seq<Seq<char>>| is_ascending(list) && #[trigger] list.to_set() == members
}

pub proof fn lemma_before_irreflexive(a: Seq<char>)
    ensures
        !before(a, a),
{
}

pub proof fn lemma_before_transitive(a: Seq<char>, b: Seq<char>, c: Seq<char>)
    requires
        before(a, b),
        before(b, c),
    ensures
        before(a, c),
{
    let i = choose|i: int| parts_at(a, b, i);
    let j = choose|j: int| parts_at(b, c, j);
    let k = if i < j {
        i
    } else {
        j
    };
    assert(parts_at(a, c, k));
}

pub proof fn lemma_before_total(a: Seq<char>, b: Seq<char>)
    ensures
        a == b || before(a, b) || before(b, a),
    decreases a.len(),
{
    if a.len() == 0 {
        if b.len() == 0 {
            assert(a =~= b);
        } else {
            assert(parts_at(a, b, 0));
        }
    } else if b.len() == 0 {
        assert(parts_at(b, a, 0));
    } else if a[0] != b[0] {
        if a[0] < b[0] {
            assert(parts_at(a, b, 0));
        } else {
            assert(parts_at(b, a, 0));
        }
    } else {
        let x = a.drop_first();
        let y = b.drop_first();
        lemma_before_total(x, y);
        if x == y {
            assert(a =~= seq![a[0]] + x);
            assert(b =~= seq![b[0]] + y);
        } else if before(x, y) {
            let i = choose|i: int| parts_at(x, y, i);
            assert forall|k: int| 0 <= k < i + 1 implies a[k] == b[k] by {
                if k > 0 {
                    assert(x[k - 1] == y[k - 1]);
                }
            }
            assert(parts_at(a, b, i + 1));
        } else {
            let i = choose|i: int| parts_at(y, x, i);
            assert forall|k: int| 0 <= k < i + 1 implies b[k] == a[k] by {
                if k > 0 {
                    assert(y[k - 1] == x[k - 1]);
                }
            }
            assert(parts_at(b, a, i + 1));
        }
    }
}

/// Two ascending lists of the same members are the same list.
pub proof fn lemma_ascending_unique(p: Seq<Seq<char>>, q: Seq<Seq<char>>)
    requires
        is_ascending(p),
        is_ascending(q),
        p.to_set() == q.to_set(),
    ensures
        p == q,
    decreases p.len(),
{
    if p.len() == 0 {
        if q.len() > 0 {
            assert(q.to_set().contains(q[0]));
            assert(p.contains(q[0]));
        }
        assert(p =~= q);
    } else {
        assert(p.to_set().contains(p.last()));
        assert(q.contains(p.last()));
        assert(q.to_set().contains(q.last()));
        assert(p.contains(q.last()));
        let i = choose|i: int| 0 <= i < q.len() && q[i] == p.last();
        let j = choose|j: int| 0 <= j < p.len() && p[j] == q.last();
        if p.last() != q.last() {
            assert(before(q[i], q[q.len() - 1]));
            assert(before(p[j], p[p.len() - 1]));
            lemma_before_transitive(p.last(), q.last(), p.last());
            lemma_before_irreflexive(p.last());
        }
        let x = p.drop_last();
        let y = q.drop_last();
        assert(is_ascending(x)) by {
            assert forall|a: int, b: int| 0 <= a < b < x.len() implies #[trigger] before(x[a], x[b]) by {
                assert(before(p[a], p[b]));
            }
        }
        assert(is_ascending(y)) by {
            assert forall|a: int, b: int| 0 <= a < b < y.len() implies #[trigger] before(y[a], y[b]) by {
                assert(before(q[a], q[b]));
            }
        }
        assert forall|t: Seq<char>| x.to_set().contains(t) <==> y.to_set().contains(t) by {
            if x.to_set().contains(t) {
                assert(x.contains(t));
                let a = choose|a: int| 0 <= a < x.len() && x[a] == t;
                assert(p[a] == t);
                assert(p.to_set().contains(t));
                assert(q.contains(t));
                let b = choose|b: int| 0 <= b < q.len() && q[b] == t;
                if b == q.len() - 1 {
                    assert(before(p[a], p[p.len() - 1]));
                    lemma_before_irreflexive(t);
                }
                assert(y[b] == t);
                assert(y.contains(t));
            }
            if y.to_set().contains(t) {
                assert(y.contains(t));
                let a = choose|a: int| 0 <= a < y.len() && y[a] == t;
                assert(q[a] == t);
                assert(q.to_set().contains(t));
                assert(p.contains(t));
                let b = choose|b: int| 0 <= b < p.len() && p[b] == t;
                if b == p.len() - 1 {
                    assert(before(q[a], q[q.len() - 1]));
                    lemma_before_irreflexive(t);
                }
                assert(x[b] == t);
                assert(x.contains(t));
            }
        }
        assert(x.to_set() =~= y.to_set());
        lemma_ascending_unique(x, y);
        assert(p =~= x.push(p.last()));
        assert(q =~= y.push(q.last()));
    }
}

/// An ascending list is the one that `ascending` picks for its members.
pub proof fn lemma_ascending_of_list(list: Seq<Seq<char>>)
    requires
        is_ascending(list),
    ensures
        ascending(list.to_set()) == list,
{
    lemma_ascending_unique(ascending(list.to_set()), list);
}

proof fn lemma_insert_ascending(list: Seq<Seq<char>>, item: Seq<char>) -> (more: Seq<Seq<char>>)
    requires
        is_ascending(list),
        !list.contains(item),
    ensures
        is_ascending(more),
        more.to_set() == list.to_set().insert(item),
    decreases list.len(),
{
    if list.len() == 0 {
        let more = seq![item];
        assert(more[0] == item);
        assert(more.to_set() =~= list.to_set().insert(item));
        more
    } else {
        let rest = list.drop_last();
        let last = list.last();
        assert(list[list.len() - 1] == last);
        lemma_before_total(last, item);
        assert forall|a: int, b: int| 0 <= a < b < rest.len() implies #[trigger] before(
            rest[a],
            rest[b],
        ) by {
            assert(before(list[a], list[b]));
        }
        if before(last, item) {
            let more = list.push(item);
            assert forall|a: int, b: int| 0 <= a < b < more.len() implies #[trigger] before(
                more[a],
                more[b],
            ) by {
                if b < list.len() {
                    assert(before(list[a], list[b]));
                } else if a < list.len() - 1 {
                    assert(before(list[a], list[list.len() - 1]));
                    lemma_before_transitive(list[a], last, item);
                }
            }
            assert(more[list.len() as int] == item);
            assert forall|t: Seq<char>| list.contains(t) implies more.contains(t) by {
                let k = choose|k: int| 0 <= k < list.len() && list[k] == t;
                assert(more[k] == t);
            }
            assert forall|t: Seq<char>| more.contains(t) && t != item implies list.contains(t) by {
                let k = choose|k: int| 0 <= k < more.len() && more[k] == t;
                assert(list[k] == t);
            }
            assert(more.to_set() =~= list.to_set().insert(item));
            more
        } else {
            if rest.contains(item) {
                let k = choose|k: int| 0 <= k < rest.len() && rest[k] == item;
                assert(list[k] == item);
            }
            let inner = lemma_insert_ascending(rest, item);
            let more = inner.push(last);
            assert forall|a: int| 0 <= a < inner.len() implies before(#[trigger] inner[a], last) by {
                assert(inner.to_set().contains(inner[a]));
                if inner[a] != item {
                    assert(rest.to_set().contains(inner[a]));
                    let k = choose|k: int| 0 <= k < rest.len() && rest[k] == inner[a];
                    assert(before(list[k], list[list.len() - 1]));
                }
            }
            assert forall|a: int, b: int| 0 <= a < b < more.len() implies #[trigger] before(
                more[a],
                more[b],
            ) by {
                if b < inner.len() {
                    assert(before(inner[a], inner[b]));
                } else {
                    assert(before(inner[a], last));
                }
            }
            assert(more[inner.len() as int] == last);
            assert forall|t: Seq<char>| more.to_set().contains(t) <==> inner.to_set().contains(t)
                || t == last by {
                if inner.contains(t) {
                    let k = choose|k: int| 0 <= k < inner.len() && inner[k] == t;
                    assert(more[k] == t);
                }
                if more.contains(t) && t != last {
                    let k = choose|k: int| 0 <= k < more.len() && more[k] == t;
                    assert(inner[k] == t);
                }
            }
            assert forall|t: Seq<char>| list.to_set().contains(t) <==> rest.to_set().contains(t)
                || t == last by {
                if rest.contains(t) {
                    let k = choose|k: int| 0 <= k < rest.len() && rest[k] == t;
                    assert(list[k] == t);
                }
                if list.contains(t) && t != last {
                    let k = choose|k: int| 0 <= k < list.len() && list[k] == t;
                    assert(rest[k] == t);
                }
            }
            assert(more.to_set() =~= list.to_set().insert(item));
            more
        }
    }
}

/// Every finite set has its members in alphabetical order.
pub proof fn lemma_ascending(members: Set<Seq<char>>)
    requires
        members.finite(),
    ensures
        is_ascending(ascending(members)),
        ascending(members).to_set() == members,
    decreases members.len(),
{
    if members.is_empty() {
        let list = Seq::<Seq<char>>::empty();
        assert(list.to_set() =~= members);
        assert(is_ascending(list));
    } else {
        let item = members.choose();
        let rest = members.remove(item);
        lemma_ascending(rest);
        assert(!ascending(rest).contains(item)) by {
            if ascending(rest).contains(item) {
                assert(ascending(rest).to_set().contains(item));
            }
        }
        let list = lemma_insert_ascending(ascending(rest), item);
        assert(list.to_set() =~= members);
    }
}

/// What a selection from an ascending list leaves is again ascending, and
/// holds exactly the members that were selected.
pub proof fn lemma_select_ascending(list: Seq<Seq<char>>, keep: spec_fn(Seq<char>) -> bool)
    requires
        is_ascending(list),
    ensures
        is_ascending(list.filter(keep)),
        list.filter(keep).to_set() == list.to_set().filter(keep),
        ascending(list.to_set().filter(keep)) == list.filter(keep),
    decreases list.len(),
{
    reveal(Seq::filter);
    let kept = list.filter(keep);
    if list.len() > 0 {
        let rest = list.drop_last();
        assert(is_ascending(rest)) by {
            assert forall|a: int, b: int| 0 <= a < b < rest.len() implies #[trigger] before(
                rest[a],
                rest[b],
            ) by {
                assert(before(list[a], list[b]));
            }
        }
        lemma_select_ascending(rest, keep);
        let kept_rest = rest.filter(keep);
        assert forall|t: Seq<char>| list.to_set().contains(t) <==> rest.to_set().contains(t) || t
            == list.last() by {
            if list.contains(t) {
                let a = choose|a: int| 0 <= a < list.len() && list[a] == t;
                if a < rest.len() {
                    assert(rest[a] == t);
                }
            }
            if rest.contains(t) {
                let a = choose|a: int| 0 <= a < rest.len() && rest[a] == t;
                assert(list[a] == t);
            }
            assert(list[list.len() - 1] == list.last());
        }
        if keep(list.last()) {
            assert(kept == kept_rest.push(list.last()));
            assert forall|a: int, b: int| 0 <= a < b < kept.len() implies #[trigger] before(
                kept[a],
                kept[b],
            ) by {
                if b < kept_rest.len() {
                    assert(before(kept_rest[a], kept_rest[b]));
                } else {
                    assert(kept_rest.contains(kept_rest[a]));
                    assert(kept_rest.to_set().contains(kept[a]));
                    assert(rest.to_set().contains(kept[a]));
                    assert(rest.contains(kept[a]));
                    let c = choose|c: int| 0 <= c < rest.len() && rest[c] == kept[a];
                    assert(before(list[c], list[list.len() - 1]));
                }
            }
            assert forall|t: Seq<char>| kept.to_set().contains(t) <==> kept_rest.to_set().contains(
                t,
            ) || t == list.last() by {
                if kept.contains(t) {
                    let a = choose|a: int| 0 <= a < kept.len() && kept[a] == t;
                    if a < kept_rest.len() {
                        assert(kept_rest[a] == t);
                    }
                }
                if kept_rest.contains(t) {
                    let a = choose|a: int| 0 <= a < kept_rest.len() && kept_rest[a] == t;
                    assert(kept[a] == t);
                }
                assert(kept[kept_rest.len() as int] == list.last());
            }
        }
        assert(kept.to_set() =~= list.to_set().filter(keep));
    } else {
        assert(kept.to_set() =~= list.to_set().filter(keep));
    }
    lemma_ascending_of_list(kept);
}

/// The characters of a text.
pub fn chars_of(text: &str) -> (chars: Vec<char>)
    ensures
        chars@ == text@,
{
    let mut chars: Vec<char> = Vec::new();
    for c in it: text.chars()
        invariant
            chars@ == text@.take(it.index()),
            it.seq() == text@,
    {
        chars.push(c);
    }
    assert(text@.take(text@.len() as int) =~= text@);
    chars
}

/// Whether two texts are the same.
pub fn same_text(a: &str, b: &str) -> (same: bool)
    ensures
        same == (a@ == b@),
{
    let x = chars_of(a);
    let y = chars_of(b);
    if x.len() != y.len() {
        return false;
    }
    let mut i: usize = 0;
    while i < x.len()
        invariant
            i <= x.len(),
            x.len() == y.len(),
            x@ == a@,
            y@ == b@,
            forall|k: int| 0 <= k < i ==> x@[k] == y@[k],
        decreases x.len() - i,
    {
        if x[i] != y[i] {
            return false;
        }
        i = i + 1;
    }
    assert(a@ =~= b@);
    true
}

/// Whether `a` comes before `b` in alphabetical order.
pub fn comes_before(a: &str, b: &str) -> (yes: bool)
    ensures
        yes == before(a@, b@),
{
    let x = chars_of(a);
    let y = chars_of(b);
    let mut i: usize = 0;
    while i < x.len() && i < y.len() && x[i] == y[i]
        invariant
            i <= x.len(),
            i <= y.len(),
            x@ == a@,
            y@ == b@,
            forall|k: int| 0 <= k < i ==> x@[k] == y@[k],
        decreases x.len() - i,
    {
        i = i + 1;
    }
    if i < y.len() && (i == x.len() || x[i] < y[i]) {
        assert(parts_at(a@, b@, i as int));
        true
    } else {
        assert(!before(a@, b@)) by {
            if before(a@, b@) {
                let k = choose|k: int| parts_at(a@, b@, k);
                assert(a@[k] == x@[k]);
                if i < k {
                    assert(a@[i as int] == b@[i as int]);
                }
            }
        }
        false
    }
}

/// Whether a list holds a text.
pub fn holds_text(list: &[String], text: &str) -> (yes: bool)
    ensures
        yes == texts(list@).contains(text@),
{
    let mut i: usize = 0;
    while i < list.len()
        invariant
            i <= list.len(),
            forall|k: int| 0 <= k < i ==> list@[k]@ != text@,
        decreases list.len() - i,
    {
        if same_text(list[i].as_str(), text) {
            assert(texts(list@)[i as int] == text@);
            return true;
        }
        i = i + 1;
    }
    false
}

/// The texts of a list one after the other, with `separator` between them.
pub open spec fn joined(list: Seq<Seq<char>>, separator: Seq<char>) -> Seq<char>
    decreases list.len(),
{
    if list.len() == 0 {
        Seq::empty()
    } else if list.len() == 1 {
        list.last()
    } else {
        joined(list.drop_last(), separator) + (separator + list.last())
    }
}

/// Joins the texts of a list.
pub fn join(list: &[String], separator: &str) -> (text: String)
    ensures
        text@ == joined(texts(list@), separator@),
{
    let mut text = String::new();
    let mut i: usize = 0;
    let ghost all = texts(list@);
    while i < list.len()
        invariant
            i <= list.len(),
            all == texts(list@),
            text@ == joined(all.take(i as int), separator@),
        decreases list.len() - i,
    {
        proof {
            assert(all.take(i + 1).drop_last() =~= all.take(i as int));
            assert(all.take(i + 1).last() == list@[i as int]@);
        }
        if i > 0 {
            text.append(separator);
        }
        text.append(list[i].as_str());
        i = i + 1;
        assert(text@ =~= joined(all.take(i as int), separator@));
    }
    assert(all.take(all.len() as int) =~= all);
    text
}

/// The characters with the Unicode property White_Space.
pub open spec fn is_white_space(c: char) -> bool {
    ||| '\u{9}' <= c <= '\u{d}'
    ||| c == '\u{20}'
    ||| c == '\u{85}'
    ||| c == '\u{a0}'
    ||| c == '\u{1680}'
    ||| '\u{2000}' <= c <= '\u{200a}'
    ||| c == '\u{2028}'
    ||| c == '\u{2029}'
    ||| c == '\u{202f}'
    ||| c == '\u{205f}'
    ||| c == '\u{3000}'
}

fn white_space(c: char) -> (yes: bool)
    ensures
        yes == is_white_space(c),
{
    ('\u{9}' <= c && c <= '\u{d}') || c == '\u{20}' || c == '\u{85}' || c == '\u{a0}' || c
        == '\u{1680}' || ('\u{2000}' <= c && c <= '\u{200a}') || c == '\u{2028}' || c
        == '\u{2029}' || c == '\u{202f}' || c == '\u{205f}' || c == '\u{3000}'
}

/// A text without the white space that it begins and ends with.
pub open spec fn trimmed(text: Seq<char>) -> Seq<char>
    decreases text.len(),
{
    if text.len() == 0 {
        text
    } else if is_white_space(text.first()) {
        trimmed(text.drop_first())
    } else if is_white_space(text.last()) {
        trimmed(text.drop_last())
    } else {
        text
    }
}

/// Trimming what was trimmed changes nothing.
pub proof fn lemma_trimmed_again(text: Seq<char>)
    ensures
        trimmed(trimmed(text)) == trimmed(text),
    decreases text.len(),
{
    if text.len() > 0 {
        if is_white_space(text.first()) {
            lemma_trimmed_again(text.drop_first());
        } else if is_white_space(text.last()) {
            lemma_trimmed_again(text.drop_last());
        }
    }
}

/// Cuts the white space off both ends of a text.
pub fn trim(text: &str) -> (rest: &str)
    ensures
        rest@ == trimmed(text@),
{
    let chars = chars_of(text);
    let mut from: usize = 0;
    let mut to: usize = chars.len();
    assert(text@.subrange(0, to as int) =~= text@);
    while from < to && white_space(chars[from])
        invariant
            chars@ == text@,
            from <= to,
            to == chars.len(),
            trimmed(text@) == trimmed(text@.subrange(from as int, to as int)),
        decreases to - from,
    {
        assert(text@.subrange(from as int, to as int).drop_first() =~= text@.subrange(
            from + 1,
            to as int,
        ));
        from = from + 1;
    }
    while from < to && white_space(chars[to - 1])
        invariant
            chars@ == text@,
            from <= to,
            to <= chars.len(),
            from < to ==> !is_white_space(chars@[from as int]),
            trimmed(text@) == trimmed(text@.subrange(from as int, to as int)),
        decreases to - from,
    {
        assert(text@.subrange(from as int, to as int).drop_last() =~= text@.subrange(
            from as int,
            to - 1,
        ));
        to = to - 1;
    }
    text.substring_char(from, to)
}

/// The part of a formula name after its last slash: `terraform` for
/// `hashicorp/tap/terraform`, the whole name where there is no slash.
pub open spec fn token(name: Seq<char>) -> Seq<char>
    decreases name.len(),
{
    if name.len() == 0 || name.last() == '/' {
        Seq::empty()
    } else {
        token(name.drop_last()).push(name.last())
    }
}

proof fn lemma_token_after_slash(name: Seq<char>, from: int)
    requires
        0 <= from <= name.len(),
        from == 0 || name[from - 1] == '/',
        forall|k: int| from <= k < name.len() ==> name[k] != '/',
    ensures
        token(name) == name.subrange(from, name.len() as int),
    decreases name.len(),
{
    if from < name.len() {
        lemma_token_after_slash(name.drop_last(), from);
        assert(name.drop_last().subrange(from, name.len() - 1).push(name.last())
            =~= name.subrange(from, name.len() as int));
    } else {
        assert(name.subrange(from, name.len() as int) =~= Seq::empty());
    }
}

/// The name that a formula's keg is filed under.
pub fn formula_token(name: &str) -> (part: &str)
    ensures
        part@ == token(name@),
{
    let chars = chars_of(name);
    let mut from: usize = chars.len();
    while from > 0 && chars[from - 1] != '/'
        invariant
            chars@ == name@,
            from <= chars.len(),
            forall|k: int| from <= k < chars.len() ==> chars@[k] != '/',
        decreases from,
    {
        from = from - 1;
    }
    proof {
        lemma_token_after_slash(name@, from as int);
    }
    name.substring_char(from, chars.len())
}

} // verus!
