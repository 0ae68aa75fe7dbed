use zerobrew::database::Database;
use zerobrew::text::comes_before;
use zerobrew::text::formula_token;
use zerobrew::text::holds_text;
use zerobrew::text::join;
use zerobrew::text::same_text;
use zerobrew::text::trim;

fn texts(list: &[&str]) -> Vec<String> {
    list.iter().map(|text| text.to_string()).collect()
}

#[test]
fn ownership_queries_handle_shared_and_recursive_dependencies() {
    let mut db = Database::new();
    db.record_install("ffmpeg", "7.1", "f", true, &texts(&["x264"]));
    db.record_install("vlc", "4.0", "v", true, &texts(&["x264"]));
    db.record_install("x264", "1", "x", false, &texts(&["nasm"]));
    db.record_install("nasm", "2", "n", false, &[]);

    assert_eq!(db.installed_dependents("x264"), vec!["ffmpeg", "vlc"]);
    assert!(db.list_orphans().is_empty());
}

#[test]
fn direct_installs_replace_or_clear_category_while_dependencies_preserve_it() {
    let mut db = Database::new();
    db.record_install_in_category("ffmpeg", "1", "a", true, Some("experiment-a"), &[]);
    assert_eq!(
        db.get_installed("ffmpeg").unwrap().explicit_category.as_deref(),
        Some("experiment-a")
    );

    db.record_install_in_category("ffmpeg", "1", "a", false, None, &[]);
    assert_eq!(
        db.get_installed("ffmpeg").unwrap().explicit_category.as_deref(),
        Some("experiment-a")
    );

    db.record_install_in_category("ffmpeg", "1", "a", true, None, &[]);
    assert_eq!(db.get_installed("ffmpeg").unwrap().explicit_category, None);
}

#[test]
fn new_implicit_formula_has_no_category() {
    let mut db = Database::new();
    db.record_install_in_category("lib", "1", "l", false, Some("base"), &[]);
    assert_eq!(db.get_installed("lib").unwrap().explicit_category, None);
    assert!(db.list_explicit_in_category("base").is_empty());
}

#[test]
fn category_lists_explicit_formulas_alphabetically() {
    let mut db = Database::new();
    db.record_install_in_category("vlc", "1", "v", true, Some("experiment-a"), &[]);
    db.record_install_in_category("jq", "1", "j", true, Some("experiment-a"), &[]);
    db.record_install_in_category("wget", "1", "w", true, Some("base"), &[]);
    db.record_install("curl", "1", "c", true, &[]);
    assert_eq!(db.list_explicit_in_category("experiment-a"), vec!["jq", "vlc"]);
}

#[test]
fn explicit_formula_is_promoted_and_never_demoted() {
    let mut db = Database::new();
    db.record_install("x264", "1", "x", false, &[]);
    assert!(!db.get_installed("x264").unwrap().explicit);
    db.record_install("x264", "2", "y", true, &[]);
    assert!(db.get_installed("x264").unwrap().explicit);
    db.record_install("x264", "3", "z", false, &[]);
    let keg = db.get_installed("x264").unwrap();
    assert!(keg.explicit);
    assert_eq!(keg.version, "3");
    assert_eq!(keg.store_key, "z");
    assert_eq!(db.get_unreferenced_store_keys(), vec!["x", "y"]);
}

#[test]
fn install_replaces_what_the_formula_declares() {
    let mut db = Database::new();
    db.record_install("olddep", "1", "o", false, &[]);
    db.record_install("newdep", "1", "n", false, &[]);
    db.record_install("app", "1", "a", true, &texts(&["olddep"]));
    db.record_install("app", "2", "b", true, &texts(&["newdep", "newdep"]));
    assert!(db.installed_dependents("olddep").is_empty());
    assert_eq!(db.installed_dependents("newdep"), vec!["app"]);
    let orphans: Vec<String> = db.list_orphans().into_iter().map(|keg| keg.name).collect();
    assert_eq!(orphans, vec!["olddep"]);
}

#[test]
fn removal_drops_outgoing_and_keeps_incoming_declarations() {
    let mut db = Database::new();
    db.record_install("app", "1", "a", true, &texts(&["lib"]));
    db.record_install("lib", "1", "l", false, &texts(&["core"]));
    db.record_install("core", "1", "c", false, &[]);
    db.record_uninstall("lib");
    assert_eq!(db.installed_dependents("lib"), vec!["app"]);
    assert!(db.installed_dependents("core").is_empty());
    assert!(!db.is_installed("lib"));
    db.record_uninstall("lib");
    assert_eq!(db.list_installed().len(), 2);
}

#[test]
fn list_is_alphabetical_with_sorted_dependents() {
    let mut db = Database::new();
    db.record_install("wget", "1", "w", true, &texts(&["openssl@3"]));
    db.record_install("openssl@3", "3.5", "o", true, &[]);
    db.record_install("ffmpeg", "7.1", "f", true, &texts(&["openssl@3"]));
    let list = db.list_installed_with_ownership();
    let shown: Vec<(String, Vec<String>)> =
        list.into_iter().map(|formula| (formula.keg.name, formula.required_by)).collect();
    assert_eq!(
        shown,
        vec![
            ("ffmpeg".to_string(), vec![]),
            ("openssl@3".to_string(), texts(&["ffmpeg", "wget"])),
            ("wget".to_string(), vec![]),
        ]
    );
}

#[test]
fn store_entries_leave_the_record_one_by_one() {
    let mut db = Database::new();
    db.record_install("b", "1", "key-b", true, &[]);
    db.record_install("a", "1", "key-a", true, &[]);
    db.record_uninstall("a");
    db.record_uninstall("b");
    assert_eq!(db.get_unreferenced_store_keys(), vec!["key-b", "key-a"]);
    db.delete_store_ref("key-b");
    assert_eq!(db.get_unreferenced_store_keys(), vec!["key-a"]);
    db.delete_store_ref("key-c");
    assert_eq!(db.get_unreferenced_store_keys(), vec!["key-a"]);
}

#[test]
fn store_entry_without_a_formula_can_be_on_record() {
    let mut db = Database::new();
    db.record_store_ref("old");
    db.record_store_ref("key-a");
    db.record_store_ref("old");
    db.record_install("a", "1", "key-a", true, &[]);
    assert_eq!(db.get_unreferenced_store_keys(), vec!["old"]);
}

#[test]
fn copy_of_a_record_is_independent() {
    let mut db = Database::new();
    db.record_install_in_category("a", "1", "k", true, Some("base"), &texts(&["b"]));
    let mut copy = db.duplicate();
    assert_eq!(copy.list_installed(), db.list_installed());
    copy.record_uninstall("a");
    assert!(db.is_installed("a"));
    assert_eq!(db.installed_dependents("b"), vec!["a"]);
}

#[test]
fn token_is_what_follows_the_last_slash() {
    assert_eq!(formula_token("terraform"), "terraform");
    assert_eq!(formula_token("hashicorp/tap/terraform"), "terraform");
    assert_eq!(formula_token("a/"), "");
    assert_eq!(formula_token(""), "");
}

#[test]
fn trim_agrees_with_std() {
    for text in [
        "",
        "  ",
        "a",
        "  experiment-a  ",
        "\t a b \r\n",
        "\u{a0}\u{2003}x\u{3000}",
        "\u{85}\u{1680}y\u{2028}\u{2029}\u{202f}\u{205f}",
        "\u{200b}z\u{200b}",
        "\u{b}\u{c}w",
        "\u{180e}v",
    ] {
        assert_eq!(trim(text), text.trim());
    }
}

#[test]
fn white_space_agrees_with_std_on_every_character() {
    for code in 0u32..=0x10ffff {
        if let Some(c) = char::from_u32(code) {
            let text = c.to_string();
            assert_eq!(trim(&text), text.trim());
        }
    }
}

#[test]
fn join_puts_the_separator_between() {
    assert_eq!(join(&[], ", "), "");
    assert_eq!(join(&texts(&["a"]), ", "), "a");
    assert_eq!(join(&texts(&["a", "", "c"]), ", "), "a, , c");
}

#[test]
fn order_is_that_of_std() {
    let list = ["", "A", "Z", "a", "aa", "ab", "b", "b/c", "\u{e9}", "\u{10348}", "\u{ffe0}"];
    for a in list {
        for b in list {
            assert_eq!(comes_before(a, b), a < b);
            assert_eq!(same_text(a, b), a == b);
        }
    }
    assert!(holds_text(&texts(&["a", "b"]), "b"));
    assert!(!holds_text(&texts(&["a", "b"]), "c"));
}
