//! What holds of texts: their order, joining, trimming, and the names that kegs
//! are filed under.

use vstd::prelude::*;

use crate::text;

verus! {

/// A list of texts is read item by item.
pub proof fn law_texts_item_by_item(list: Seq<String>, i: int)
    ensures
        text::texts(list).len() == list.len(),
        0 <= i < list.len() ==> text::texts(list)[i] == list[i]@,
{
}

/// A text comes before every text that goes on where it ends.
pub proof fn law_prefix_comes_first(a: Seq<char>, more: Seq<char>)
    requires
        more.len() > 0,
    ensures
        text::before(a, a + more),
        !text::before(a + more, a),
{
    assert(text::parts_at(a, a + more, a.len() as int));
    if text::before(a + more, a) {
        text::lemma_before_transitive(a, a + more, a);
        text::lemma_before_irreflexive(a);
    }
}

/// Where two texts first differ, the smaller character comes first, whatever
/// follows.
pub proof fn law_first_difference_decides(
    common: Seq<char>,
    small: char,
    large: char,
    x: Seq<char>,
    y: Seq<char>,
)
    requires
        small < large,
    ensures
        text::before(common.push(small) + x, common.push(large) + y),
        !text::before(common.push(large) + y, common.push(small) + x),
{
    let a = common.push(small) + x;
    let b = common.push(large) + y;
    assert(text::parts_at(a, b, common.len() as int));
    if text::before(b, a) {
        text::lemma_before_transitive(a, b, a);
        text::lemma_before_irreflexive(a);
    }
}

/// Of two different texts exactly one comes before the other.
pub proof fn law_order_is_total(a: Seq<char>, b: Seq<char>)
    ensures
        a == b || text::before(a, b) || text::before(b, a),
        !(text::before(a, b) && text::before(b, a)),
        !text::before(a, a),
{
    text::lemma_before_total(a, b);
    text::lemma_before_irreflexive(a);
    if text::before(a, b) && text::before(b, a) {
        text::lemma_before_transitive(a, b, a);
    }
}

/// The alphabetical list of a finite set holds every member once, and none
/// before one that should precede it.
pub proof fn law_ascending(members: Set<Seq<char>>, i: int, j: int)
    requires
        members.finite(),
    ensures
        forall|member: Seq<char>| #[trigger]
            text::ascending(members).contains(member) <==> members.contains(member),
        0 <= i < j < text::ascending(members).len() ==> text::before(
            text::ascending(members)[i],
            text::ascending(members)[j],
        ) && text::ascending(members)[i] != text::ascending(members)[j],
        text::ascending(members).len() == members.len(),
{
    let list = text::ascending(members);
    text::lemma_ascending(members);
    assert forall|member: Seq<char>| #[trigger] list.contains(member) <==> members.contains(
        member,
    ) by {
        assert(list.to_set().contains(member) <==> list.contains(member));
    }
    assert forall|a: int, b: int| 0 <= a < list.len() && 0 <= b < list.len() && a != b implies list[a]
        != list[b] by {
        text::lemma_before_irreflexive(list[a]);
        if a < b {
            assert(text::before(list[a], list[b]));
        } else {
            assert(text::before(list[b], list[a]));
        }
    }
    list.unique_seq_to_set();
}

/// How many characters the first texts of a list take, with a gap behind each.
pub open spec fn offset(list: Seq<Seq<char>>, gap: nat, upto: int) -> int
    decreases upto,
{
    if upto <= 0 {
        0
    } else {
        offset(list, gap, upto - 1) + list[upto - 1].len() + gap
    }
}

proof fn lemma_offset_grows(list: Seq<Seq<char>>, gap: nat, i: int, j: int)
    requires
        0 <= i <= j,
    ensures
        0 <= offset(list, gap, i) <= offset(list, gap, j),
        i < j ==> offset(list, gap, i) + list[i].len() + gap <= offset(list, gap, j),
    decreases j,
{
    if i < j {
        lemma_offset_grows(list, gap, i, j - 1);
        if i < j - 1 {
            lemma_offset_grows(list, gap, i, j - 1);
        }
    } else if j > 0 {
        lemma_offset_grows(list, gap, i - 1, j - 1);
    }
}

proof fn lemma_offset_take(list: Seq<Seq<char>>, gap: nat, cut: int, upto: int)
    requires
        0 <= upto <= cut <= list.len(),
    ensures
        offset(list.take(cut), gap, upto) == offset(list, gap, upto),
    decreases upto,
{
    if upto > 0 {
        lemma_offset_take(list, gap, cut, upto - 1);
    }
}

/// Joining keeps every text of the list, whole and in its place: behind those
/// before it and one separator for each of them. Nothing else is in the result.
pub proof fn law_join_keeps_every_text(list: Seq<Seq<char>>, separator: Seq<char>, i: int)
    requires
        0 <= i < list.len(),
    ensures
        ({
            let all = text::joined(list, separator);
            let at = offset(list, separator.len(), i);
            &&& 0 <= at
            &&& at + list[i].len() <= all.len()
            &&& all.subrange(at, at + list[i].len()) == list[i]
            &&& i > 0 ==> separator.len() <= at && all.subrange(at - separator.len(), at)
                == separator
            &&& all.len() == offset(list, separator.len(), list.len() as int) - separator.len()
        }),
    decreases list.len(),
{
    let gap = separator.len();
    let all = text::joined(list, separator);
    let at = offset(list, gap, i);
    lemma_offset_grows(list, gap, 0, i);
    lemma_offset_grows(list, gap, i, list.len() as int);
    if list.len() == 1 {
        assert(offset(list, gap, 0) == 0);
        assert(all.subrange(0, list[0].len() as int) =~= list[0]);
    } else {
        let rest = list.drop_last();
        let part = text::joined(rest, separator);
        let last = list.len() - 1;
        assert(rest =~= list.take(last));
        lemma_offset_take(list, gap, last, last);
        law_join_keeps_every_text(rest, separator, last - 1);
        assert(part.len() == offset(list, gap, last) - gap);
        assert(offset(list, gap, list.len() as int) == offset(list, gap, last) + list[last].len()
            + gap);
        if i < last {
            law_join_keeps_every_text(rest, separator, i);
            lemma_offset_take(list, gap, last, i);
            assert(all.subrange(at, at + list[i].len()) =~= part.subrange(at, at + list[i].len()));
            if i > 0 {
                assert(all.subrange(at - gap, at) =~= part.subrange(at - gap, at));
            }
        } else {
            assert(all.subrange(at, at + list[i].len()) =~= list[i]);
            assert(all.subrange(at - gap, at) =~= separator);
        }
    }
}

/// Joining two lists in one is joining each and putting a separator between.
pub proof fn law_join_of_two_lists(a: Seq<Seq<char>>, b: Seq<Seq<char>>, separator: Seq<char>)
    requires
        a.len() > 0,
        b.len() > 0,
    ensures
        text::joined(a + b, separator) == text::joined(a, separator) + separator + text::joined(
            b,
            separator,
        ),
    decreases b.len(),
{
    let all = a + b;
    assert(all.drop_last() =~= a + b.drop_last());
    assert(all.last() == b.last());
    if b.len() == 1 {
        assert(a + b.drop_last() =~= a);
        assert(text::joined(b, separator) == b.last());
        assert(text::joined(all, separator) =~= text::joined(a, separator) + separator
            + text::joined(b, separator));
    } else {
        law_join_of_two_lists(a, b.drop_last(), separator);
        assert(text::joined(all, separator) =~= text::joined(a, separator) + separator
            + text::joined(b, separator));
    }
}

/// Joining one text gives that text, joining none gives none.
pub proof fn law_join_of_one_or_none(one: Seq<char>, separator: Seq<char>)
    ensures
        text::joined(seq![one], separator) == one,
        text::joined(Seq::empty(), separator) == Seq::<char>::empty(),
{
}

/// White space is what Unicode gives the property White_Space.
pub proof fn law_white_space(c: char)
    ensures
        text::is_white_space(c) <==> seq![
            '\u{9}', '\u{a}', '\u{b}', '\u{c}', '\u{d}', '\u{20}', '\u{85}', '\u{a0}', '\u{1680}',
            '\u{2000}', '\u{2001}', '\u{2002}', '\u{2003}', '\u{2004}', '\u{2005}', '\u{2006}',
            '\u{2007}', '\u{2008}', '\u{2009}', '\u{200a}', '\u{2028}', '\u{2029}', '\u{202f}',
            '\u{205f}', '\u{3000}',
        ].contains(c),
{
    let all = seq![
        '\u{9}', '\u{a}', '\u{b}', '\u{c}', '\u{d}', '\u{20}', '\u{85}', '\u{a0}', '\u{1680}',
        '\u{2000}', '\u{2001}', '\u{2002}', '\u{2003}', '\u{2004}', '\u{2005}', '\u{2006}',
        '\u{2007}', '\u{2008}', '\u{2009}', '\u{200a}', '\u{2028}', '\u{2029}', '\u{202f}',
        '\u{205f}', '\u{3000}',
    ];
    assert(all.len() == 25);
    if text::is_white_space(c) {
        let i: int = if c <= '\u{d}' {
            c as int - 9
        } else if c == '\u{20}' {
            5
        } else if c == '\u{85}' {
            6
        } else if c == '\u{a0}' {
            7
        } else if c == '\u{1680}' {
            8
        } else if c <= '\u{200a}' {
            c as int - 0x2000 + 9
        } else if c == '\u{2028}' {
            20
        } else if c == '\u{2029}' {
            21
        } else if c == '\u{202f}' {
            22
        } else if c == '\u{205f}' {
            23
        } else {
            24
        };
        assert(all[i] == c);
    }
}

/// Every text is some white space, a core that neither begins nor ends with
/// any, and some white space again. Trimming leaves the core.
pub proof fn law_trim_leaves_the_core(front: Seq<char>, core: Seq<char>, back: Seq<char>)
    requires
        forall|k: int| 0 <= k < front.len() ==> text::is_white_space(#[trigger] front[k]),
        forall|k: int| 0 <= k < back.len() ==> text::is_white_space(#[trigger] back[k]),
        core.len() > 0 ==> !text::is_white_space(core.first()) && !text::is_white_space(
            core.last(),
        ),
    ensures
        text::trimmed(front + core + back) == core,
    decreases front.len() + back.len(),
{
    let whole = front + core + back;
    if front.len() > 0 {
        let less = front.drop_first();
        assert(text::is_white_space(front[0]));
        assert forall|k: int| 0 <= k < less.len() implies text::is_white_space(
            #[trigger] less[k],
        ) by {
            assert(text::is_white_space(front[k + 1]));
        }
        assert(whole.first() == front[0]);
        assert(whole.drop_first() =~= less + core + back);
        law_trim_leaves_the_core(less, core, back);
    } else if back.len() > 0 {
        let less = back.drop_last();
        assert(text::is_white_space(back[back.len() - 1]));
        assert forall|k: int| 0 <= k < less.len() implies text::is_white_space(
            #[trigger] less[k],
        ) by {
            assert(text::is_white_space(back[k]));
        }
        assert(whole.last() == back[back.len() - 1]);
        if core.len() > 0 {
            assert(whole.first() == core.first());
            assert(whole.drop_last() =~= front + core + less);
            law_trim_leaves_the_core(front, core, less);
        } else {
            let more = back.drop_first();
            assert(text::is_white_space(back[0]));
            assert forall|k: int| 0 <= k < more.len() implies text::is_white_space(
                #[trigger] more[k],
            ) by {
                assert(text::is_white_space(back[k + 1]));
            }
            assert(whole.first() == back[0]);
            assert(whole.drop_first() =~= front + core + more);
            law_trim_leaves_the_core(front, core, more);
        }
    } else {
        assert(whole =~= core);
    }
}

/// A keg is filed under everything behind the last slash of the formula's name,
/// whatever characters that holds.
pub proof fn law_token_is_all_behind_the_last_slash(tap: Seq<char>, rest: Seq<char>)
    requires
        !rest.contains('/'),
    ensures
        text::token(rest) == rest,
        text::token(tap.push('/') + rest) == rest,
    decreases rest.len(),
{
    let name = tap.push('/') + rest;
    if rest.len() > 0 {
        let less = rest.drop_last();
        assert(rest[rest.len() - 1] == rest.last());
        assert(rest.contains(rest.last()));
        assert(!less.contains('/')) by {
            if less.contains('/') {
                let k = choose|k: int| 0 <= k < less.len() && less[k] == '/';
                assert(rest[k] == '/');
            }
        }
        law_token_is_all_behind_the_last_slash(tap, less);
        assert(name.drop_last() =~= tap.push('/') + less);
        assert(name.last() == rest.last());
        assert(rest =~= less.push(rest.last()));
    } else {
        assert(name =~= tap.push('/'));
        assert(name.last() == '/');
        assert(rest =~= Seq::empty());
    }
}

} // verus!
