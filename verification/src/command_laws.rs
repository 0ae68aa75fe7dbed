//! What the commands say, piece by piece, and in which order.

use vstd::prelude::*;

use crate::action;
use crate::action::ActionView;
use crate::commands;
use crate::commands::autoremove;
use crate::commands::list;
use crate::commands::uninstall;
use crate::database;
use crate::error::Error;
use crate::error::ErrorView;
use crate::installer::InstallerView;
use crate::laws;
use crate::ownership;
use crate::ownership::FormulaView;
use crate::style;
use crate::text;
use crate::text_laws;

verus! {

/// A text that is set off is shown whole, plain or between two codes.
pub proof fn law_styling_shows_the_text(shown: Seq<char>, whole: Seq<char>)
    ensures
        style::shows_bold(shown, whole) ==> shown == whole || {
            &&& shown.len() == whole.len() + 8
            &&& shown.subrange(4, 4int + whole.len()) == whole
            &&& shown.take(4) == seq!['\u{1b}', '[', '1', 'm']
            &&& shown.skip(4int + whole.len()) == seq!['\u{1b}', '[', '0', 'm']
        },
        style::shows_dim(shown, whole) ==> shown == whole || {
            &&& shown.len() == whole.len() + 8
            &&& shown.subrange(4, 4int + whole.len()) == whole
            &&& shown.take(4) == seq!['\u{1b}', '[', '2', 'm']
            &&& shown.skip(4int + whole.len()) == seq!['\u{1b}', '[', '0', 'm']
        },
{
    reveal_strlit("\u{1b}[1m");
    reveal_strlit("\u{1b}[2m");
    reveal_strlit("\u{1b}[0m");
    let bold = "\u{1b}[1m"@ + whole + "\u{1b}[0m"@;
    let dim = "\u{1b}[2m"@ + whole + "\u{1b}[0m"@;
    assert(bold.subrange(4, 4int + whole.len()) =~= whole);
    assert(bold.take(4) =~= seq!['\u{1b}', '[', '1', 'm']);
    assert(bold.skip(4int + whole.len()) =~= seq!['\u{1b}', '[', '0', 'm']);
    assert(dim.subrange(4, 4int + whole.len()) =~= whole);
    assert(dim.take(4) =~= seq!['\u{1b}', '[', '2', 'm']);
    assert(dim.skip(4int + whole.len()) =~= seq!['\u{1b}', '[', '0', 'm']);
}

/// A list of names between a head and a tail: each name stands whole in its
/// place, a comma and a blank before it unless it is the first, and there is
/// room for nothing else.
proof fn lemma_names_in_place(
    head: Seq<char>,
    names: Seq<Seq<char>>,
    tail: Seq<char>,
    whole: Seq<char>,
    i: int,
)
    requires
        0 <= i < names.len(),
        whole == head + text::joined(names, ", "@) + tail,
    ensures
        ({
            let at = head.len() + text_laws::offset(names, 2, i);
            &&& whole.take(head.len() as int) == head
            &&& whole.subrange(at, at + names[i].len()) == names[i]
            &&& i > 0 ==> whole.subrange(at - 2, at) == seq![',', ' ']
            &&& whole.len() == head.len() + text_laws::offset(names, 2, names.len() as int) - 2
                + tail.len()
            &&& whole.skip(whole.len() - tail.len()) == tail
        }),
{
    let part = text::joined(names, ", "@);
    let off = text_laws::offset(names, 2, i);
    let at = head.len() + off;
    reveal_strlit(", ");
    assert(", "@ =~= seq![',', ' ']);
    text_laws::law_join_keeps_every_text(names, ", "@, i);
    assert(whole.take(head.len() as int) =~= head);
    assert(whole.subrange(at, at + names[i].len()) =~= part.subrange(off, off + names[i].len()));
    if i > 0 {
        assert(whole.subrange(at - 2, at) =~= part.subrange(off - 2, off));
    }
    assert(whole.skip(whole.len() - tail.len()) =~= tail);
}

/// The label of a formula that others depend on names every one of them, in
/// order, each whole and in its place, and holds nothing else but the words
/// before and the bracket behind.
pub proof fn law_label_names_every_dependent(
    explicit: bool,
    category: Option<Seq<char>>,
    required_by: Seq<Seq<char>>,
    i: int,
)
    requires
        0 <= i < required_by.len(),
    ensures
        ({
            let label = list::label(explicit, category, required_by);
            let head = if !explicit {
                "implicit (required by "@
            } else if category is None {
                "explicit (also required by "@
            } else {
                "explicit ["@ + category->Some_0 + "] (also required by "@
            };
            let at = head.len() + text_laws::offset(required_by, 2, i);
            &&& label.take(head.len() as int) == head
            &&& label.subrange(at, at + required_by[i].len()) == required_by[i]
            &&& i > 0 ==> label.subrange(at - 2, at) == seq![',', ' ']
            &&& label.len() == head.len() + text_laws::offset(
                required_by,
                2,
                required_by.len() as int,
            ) - 2 + 1
            &&& label.last() == ')'
        }),
{
    let label = list::label(explicit, category, required_by);
    let names = text::joined(required_by, ", "@);
    reveal_strlit(")");
    reveal_strlit("implicit (required by ");
    reveal_strlit("explicit");
    reveal_strlit("explicit [");
    reveal_strlit("]");
    reveal_strlit(" (also required by ");
    reveal_strlit("explicit (also required by ");
    reveal_strlit("] (also required by ");
    if !explicit {
        lemma_names_in_place("implicit (required by "@, required_by, ")"@, label, i);
    } else {
        match category {
            None => {
                let head = "explicit (also required by "@;
                assert(head =~= "explicit"@ + " (also required by "@);
                assert(label =~= head + names + ")"@);
                lemma_names_in_place(head, required_by, ")"@, label, i);
            },
            Some(category) => {
                let head = "explicit ["@ + category + "] (also required by "@;
                assert("] (also required by "@ =~= "]"@ + " (also required by "@);
                assert(head =~= "explicit ["@ + category + "]"@ + " (also required by "@);
                assert(label =~= head + names + ")"@);
                lemma_names_in_place(head, required_by, ")"@, label, i);
            },
        }
    }
    assert(label.skip(label.len() - 1)[0] == label.last());
}

/// The label of a formula that nothing depends on says whether it was asked
/// for and under which category.
pub proof fn law_label_without_dependents(explicit: bool, category: Option<Seq<char>>)
    ensures
        ({
            let label = list::label(explicit, category, Seq::empty());
            &&& !explicit ==> label == "implicit (orphan)"@
            &&& explicit && category is None ==> label == "explicit"@
            &&& explicit && category is Some ==> {
                let name = category->Some_0;
                &&& label.len() == 10int + name.len() + 1int
                &&& label.take(10) == "explicit ["@
                &&& label.subrange(10, 10int + name.len()) == name
                &&& label.last() == ']'
            }
        }),
{
    let label = list::label(explicit, category, Seq::empty());
    reveal_strlit("explicit [");
    reveal_strlit("]");
    if explicit && category is Some {
        let name = category->Some_0;
        assert(label.take(10) =~= "explicit ["@);
        assert(label.subrange(10, 10int + name.len()) =~= name);
    }
}

/// A command that fails hands out the error that it met.
pub proof fn law_failure_is_handed_out(error: Error)
    ensures
        commands::failure(Err(error)) == Some(error@),
        commands::failure(Ok(())) is None,
{
}

/// A category that is handed over is the one that is shown.
pub proof fn law_category_is_shown_as_given(category: Option<&str>, kept: Option<String>)
    ensures
        category matches Some(name) ==> database::str_option(category) == Some(name@),
        category is None ==> database::str_option(category) is None,
        kept matches Some(name) ==> database::text_option(kept) == Some(name@),
        kept is None ==> database::text_option(kept) is None,
{
}

/// The line of a formula holds its name, its version and its label, whole, in
/// this order, a blank between them.
pub proof fn law_line(name: Seq<char>, version: Seq<char>, label: Seq<char>)
    ensures
        ({
            let line = list::line_text(name, version, label);
            &&& line.len() == name.len() + 1int + version.len() + 1 + label.len()
            &&& line.take(name.len() as int) == name
            &&& line[name.len() as int] == ' '
            &&& line.subrange(name.len() + 1int, name.len() + 1int + version.len()) == version
            &&& line[name.len() + 1int + version.len()] == ' '
            &&& line.skip(name.len() + 1int + version.len() + 1) == label
        }),
{
    let line = list::line_text(name, version, label);
    reveal_strlit(" ");
    assert(line.take(name.len() as int) =~= name);
    assert(line.subrange(name.len() + 1int, name.len() + 1int + version.len()) =~= version);
    assert(line.skip(name.len() + 1int + version.len() + 1) =~= label);
}

/// The list prints one line for each formula, in their order, with the name
/// and the version of its keg and with what is said of its dependents. Where
/// there is no formula, it says so.
pub proof fn law_list_prints_each(lines: Seq<ActionView>, formulas: Seq<FormulaView>, i: int)
    requires
        list::prints_all(lines, formulas),
    ensures
        formulas.len() == 0 ==> lines == seq![
            ActionView::Print { text: "No formulas installed."@ },
        ],
        formulas.len() > 0 ==> lines.len() == formulas.len(),
        0 <= i < formulas.len() ==> {
            let keg = formulas[i].keg;
            let label = list::label(keg.explicit, keg.explicit_category, formulas[i].required_by);
            let bold = "\u{1b}[1m"@ + keg.name + "\u{1b}[0m"@;
            let dim = "\u{1b}[2m"@ + keg.version + "\u{1b}[0m"@;
            exists|name: Seq<char>, version: Seq<char>|
                {
                    &&& name == keg.name || name == bold
                    &&& version == keg.version || version == dim
                    &&& lines[i] == (ActionView::Print {
                        text: #[trigger] list::line_text(name, version, label),
                    })
                }
        },
{
    if 0 <= i < formulas.len() {
        assert(list::prints(lines[i], formulas[i]));
        let keg = formulas[i].keg;
        let label = list::label(keg.explicit, keg.explicit_category, formulas[i].required_by);
        let (name, version) = choose|name: Seq<char>, version: Seq<char>|
            {
                &&& #[trigger] style::shows_bold(name, keg.name)
                &&& #[trigger] style::shows_dim(version, keg.version)
                &&& lines[i] == (ActionView::Print {
                    text: list::line_text(name, version, label),
                })
            };
        assert(lines[i] == (ActionView::Print { text: list::line_text(name, version, label) }));
    }
}

/// The report of a sweep names every formula that it removed, in the order of
/// removal, or says that there was none.
pub proof fn law_report_names_every_formula(removed: Seq<Seq<char>>, i: int)
    ensures
        removed.len() == 0 ==> autoremove::report_text(removed) == "No unused dependencies."@,
        0 <= i < removed.len() ==> {
            let report = autoremove::report_text(removed);
            let head = "Removed unused dependencies: "@;
            let at = head.len() + text_laws::offset(removed, 2, i);
            &&& report.take(head.len() as int) == head
            &&& report.subrange(at, at + removed[i].len()) == removed[i]
            &&& i > 0 ==> report.subrange(at - 2, at) == seq![',', ' ']
            &&& report.len() == head.len() + text_laws::offset(removed, 2, removed.len() as int)
                - 2
        },
{
    if 0 <= i < removed.len() {
        let report = autoremove::report_text(removed);
        let head = "Removed unused dependencies: "@;
        assert(report =~= head + text::joined(removed, ", "@) + Seq::empty());
        lemma_names_in_place(head, removed, Seq::empty(), report, i);
    }
}

/// The messages of the uninstall command carry what they are about whole,
/// between their fixed words.
pub proof fn law_uninstall_messages(shown: Seq<char>, names: Seq<Seq<char>>, i: int)
    ensures
        ({
            let head = uninstall::heading_text(shown);
            let before = "Uninstalling "@.len() as int;
            &&& head.take(before) == "Uninstalling "@
            &&& head.subrange(before, before + shown.len()) == shown
            &&& head.skip(before + shown.len()) == "..."@
        }),
        ({
            let empty = uninstall::empty_category_text(shown);
            let before = "No explicitly installed formulas in category '"@.len() as int;
            &&& empty.take(before) == "No explicitly installed formulas in category '"@
            &&& empty.subrange(before, before + shown.len()) == shown
            &&& empty.skip(before + shown.len()) == "'."@
        }),
        ({
            let unused = uninstall::unused_text(shown);
            let before = "Removed unused dependency "@.len() as int;
            &&& unused.take(before) == "Removed unused dependency "@
            &&& unused.skip(before) == shown
        }),
        0 <= i < names.len() ==> {
            let head = uninstall::category_heading_text(shown, names);
            let before = "Uninstalled category "@ + shown + ": "@;
            let at = before.len() + text_laws::offset(names, 2, i);
            &&& head.take(before.len() as int) == before
            &&& head.subrange(at, at + names[i].len()) == names[i]
            &&& i > 0 ==> head.subrange(at - 2, at) == seq![',', ' ']
            &&& head.len() == before.len() + text_laws::offset(names, 2, names.len() as int) - 2
        },
{
    let head = uninstall::heading_text(shown);
    let a = "Uninstalling "@.len() as int;
    assert(head.take(a) =~= "Uninstalling "@);
    assert(head.subrange(a, a + shown.len()) =~= shown);
    assert(head.skip(a + shown.len()) =~= "..."@);
    let empty = uninstall::empty_category_text(shown);
    let b = "No explicitly installed formulas in category '"@.len() as int;
    assert(empty.take(b) =~= "No explicitly installed formulas in category '"@);
    assert(empty.subrange(b, b + shown.len()) =~= shown);
    assert(empty.skip(b + shown.len()) =~= "'."@);
    let unused = uninstall::unused_text(shown);
    let c = "Removed unused dependency "@.len() as int;
    assert(unused.take(c) =~= "Removed unused dependency "@);
    assert(unused.skip(c) =~= shown);
    if 0 <= i < names.len() {
        let whole = uninstall::category_heading_text(shown, names);
        let before = "Uninstalled category "@ + shown + ": "@;
        assert(whole =~= before + text::joined(names, ", "@) + Seq::empty());
        lemma_names_in_place(before, names, Seq::empty(), whole, i);
    }
}

/// Uninstalling by name announces all the names first. Where the request is
/// refused, this is all. Else the removals follow, three actions for each
/// formula that goes, and then a message for each that the sweep removed, in
/// its order.
pub proof fn law_uninstall_says_what_it_does(
    start: InstallerView,
    end: InstallerView,
    failure: Option<ErrorView>,
    names: Seq<Seq<char>>,
    force: bool,
    i: int,
)
    requires
        start.consistent(),
        uninstall::uninstalls(start, end, failure, names, force),
    ensures
        ({
            let from = start.pending.len() as int;
            let all = text::joined(names, ", "@);
            let swept = start.db.autoremoved(names);
            let count = ownership::distinct(names).len() + swept.len();
            &&& end.stored == start.stored
            &&& end.pending.take(from) == start.pending
            &&& end.pending.len() == from + 1 + if failure is None {
                3 * count + swept.len()
            } else {
                0
            }
            &&& end.pending[from] == (ActionView::Heading {
                text: "Uninstalling "@ + all + "..."@,
            }) || end.pending[from] == (ActionView::Heading {
                text: "Uninstalling "@ + ("\u{1b}[1m"@ + all + "\u{1b}[0m"@) + "..."@,
            })
            &&& failure == start.db.refusal(names, force)
            &&& failure is Some ==> end.db == start.db
            &&& failure is None ==> {
                &&& end.db == start.db.uninstalled(names)
                &&& end.pending.subrange(from + 1, from + 1 + 3 * count) == start.uninstalled(
                    names,
                ).pending.skip(from)
                &&& 0 <= i < swept.len() ==> end.pending[from + 1 + 3 * count + i] == (
                ActionView::Info { text: "Removed unused dependency "@ + swept[i] })
            }
        }),
{
    let from = start.pending.len() as int;
    let all = text::joined(names, ", "@);
    let swept = start.db.autoremoved(names);
    let requested = ownership::distinct(names);
    let count = requested.len() + swept.len();
    let shown = choose|shown: Seq<char>|
        {
            let announced = start.queued(
                seq![ActionView::Heading { text: uninstall::heading_text(shown) }],
            );
            &&& #[trigger] style::shows_bold(shown, all)
            &&& failure == start.db.refusal(names, force)
            &&& end == if failure is None {
                announced.uninstalled(names).queued(uninstall::unused_infos(swept))
            } else {
                announced
            }
        };
    let announced = start.queued(
        seq![ActionView::Heading { text: uninstall::heading_text(shown) }],
    );
    lemma_queue_len(start, names);
    let steps = action::removals(start.db, requested) + action::removals(start.db, swept);
    let infos = uninstall::unused_infos(swept);
    assert(steps.len() == 3 * count);
    assert(end.pending.take(from) =~= start.pending);
    if failure is None {
        assert(end.pending =~= announced.pending + steps + infos);
        assert(end.pending.subrange(from + 1, from + 1 + 3 * count) =~= steps);
        assert(start.uninstalled(names).pending.skip(from) =~= steps);
        if 0 <= i < swept.len() {
            assert(end.pending[from + 1 + 3 * count + i] == infos[i]);
        }
    }
}

proof fn lemma_queue_len(start: InstallerView, names: Seq<Seq<char>>)
    ensures
        action::removals(start.db, ownership::distinct(names)).len() == 3 * ownership::distinct(
            names,
        ).len(),
        action::removals(start.db, start.db.autoremoved(names)).len() == 3 * start.db.autoremoved(
            names,
        ).len(),
{
    laws::lemma_removals_len(start.db, ownership::distinct(names));
    laws::lemma_removals_len(start.db, start.db.autoremoved(names));
}

/// Uninstalling a category removes first, then names the category with all
/// formulas that were asked to go, then those that the sweep removed. An empty
/// category is named and nothing else happens.
pub proof fn law_uninstall_category_says_what_it_does(
    start: InstallerView,
    end: InstallerView,
    failure: Option<ErrorView>,
    category: Seq<char>,
    force: bool,
    i: int,
)
    requires
        start.consistent(),
        uninstall::uninstalls_category(start, end, failure, category, force),
    ensures
        ({
            let from = start.pending.len() as int;
            let names = text::ascending(start.db.in_category(category));
            let all = text::joined(names, ", "@);
            let swept = start.db.autoremoved(names);
            let count = names.len() + swept.len();
            &&& end.stored == start.stored
            &&& end.pending.take(from) == start.pending
            &&& names.len() == 0 ==> {
                &&& failure is None
                &&& end.db == start.db
                &&& end.pending.len() == from + 1
                &&& end.pending[from] == (ActionView::Info {
                    text: "No explicitly installed formulas in category '"@ + category + "'."@,
                })
            }
            &&& names.len() > 0 ==> failure == start.db.refusal(names, force)
            &&& failure is Some ==> end == start
            &&& names.len() > 0 && failure is None ==> {
                &&& end.db == start.db.uninstalled(names)
                &&& end.pending.len() == from + 3 * count + 1 + swept.len()
                &&& end.pending.take(from + 3 * count) == start.uninstalled(names).pending
                &&& end.pending[from + 3 * count] == (ActionView::Heading {
                    text: "Uninstalled category "@ + category + ": "@ + all,
                }) || end.pending[from + 3 * count] == (ActionView::Heading {
                    text: "Uninstalled category "@ + ("\u{1b}[1m"@ + category + "\u{1b}[0m"@)
                        + ": "@ + all,
                })
                &&& 0 <= i < swept.len() ==> end.pending[from + 3 * count + 1 + i] == (
                ActionView::Info { text: "Removed unused dependency "@ + swept[i] })
            }
        }),
{
    let from = start.pending.len() as int;
    let members = start.db.in_category(category);
    let names = text::ascending(members);
    let swept = start.db.autoremoved(names);
    let count = names.len() + swept.len();
    vstd::set_lib::lemma_len_subset(members, start.db.kegs.dom());
    text::lemma_ascending(members);
    ownership::lemma_distinct_ascending(names);
    lemma_queue_len(start, names);
    let removed = start.uninstalled(names);
    let infos = uninstall::unused_infos(swept);
    assert(removed.pending.take(from) =~= start.pending);
    if names.len() == 0 {
        assert(end.pending.take(from) =~= start.pending);
    } else if failure is None {
        let shown = choose|shown: Seq<char>|
            {
                &&& #[trigger] style::shows_bold(shown, category)
                &&& end == removed.queued(
                    seq![
                        ActionView::Heading {
                            text: uninstall::category_heading_text(shown, names),
                        },
                    ],
                ).queued(infos)
            };
        let heading = ActionView::Heading { text: uninstall::category_heading_text(shown, names) };
        assert(end.pending =~= removed.pending.push(heading) + infos);
        assert(removed.pending.len() == from + 3 * count);
        assert(end.pending.take(from + 3 * count) =~= removed.pending);
        assert(end.pending.take(from) =~= start.pending);
        if 0 <= i < swept.len() {
            assert(end.pending[from + 3 * count + 1 + i] == infos[i]);
        }
    } else {
        assert(end.pending.take(from) =~= start.pending);
    }
}

} // verus!
