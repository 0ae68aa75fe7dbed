use zerobrew::action::Action;
use zerobrew::database::Database;
use zerobrew::error::Error;
use zerobrew::installer::Installer;

fn texts(list: &[&str]) -> Vec<String> {
    list.iter().map(|text| text.to_string()).collect()
}

fn installer_with_graph(edges: &[(&str, bool, &[&str])]) -> Installer {
    let mut db = Database::new();
    for (name, explicit, dependencies) in edges {
        db.record_install(name, "1.0.0", name, *explicit, &texts(dependencies));
    }
    Installer::new(db)
}

fn show(action: &Action) -> String {
    match action {
        Action::UnlinkKeg { keg_name, version } => format!("unlink {keg_name}/{version}"),
        Action::RecordUninstall { name } => format!("record {name}"),
        Action::RemoveKeg { keg_name, version } => format!("remove {keg_name}/{version}"),
        Action::RemoveStoreEntry { store_key } => format!("entry {store_key}"),
        Action::DeleteStoreRef { store_key } => format!("ref {store_key}"),
        Action::Heading { text } => format!("heading {text}"),
        Action::Info { text } => format!("info {text}"),
        Action::Print { text } => format!("print {text}"),
    }
}

/// Carries every action out and tells what they were.
fn carry_out(installer: &mut Installer) -> Vec<String> {
    let mut done = Vec::new();
    while let Some(action) = installer.next_action() {
        done.push(show(action));
        installer.settle(Ok(())).unwrap();
    }
    done
}

/// Carries some actions out and fails at the next.
fn fail_after(installer: &mut Installer, successes: usize) -> Error {
    for _ in 0..successes {
        installer.settle(Ok(())).unwrap();
    }
    let failure = Error::External { message: "disk full".to_string() };
    installer.settle(Err(failure)).unwrap_err()
}

fn installed_names(installer: &Installer) -> Vec<String> {
    installer.list_installed().into_iter().map(|keg| keg.name).collect()
}

#[test]
fn protected_uninstall_reports_installed_dependents() {
    let mut installer =
        installer_with_graph(&[("ffmpeg", true, &["x264"]), ("x264", false, &[])]);

    let err = installer
        .uninstall_many(&["x264".to_string()], false)
        .unwrap_err();
    assert!(matches!(
        err,
        Error::RequiredBy { name, dependents }
            if name == "x264" && dependents == vec!["ffmpeg"]
    ));
    assert!(installer.is_installed("x264"));
}

#[test]
fn removing_last_parent_recursively_removes_orphans() {
    let mut installer = installer_with_graph(&[
        ("ffmpeg", true, &["x264"]),
        ("x264", false, &["nasm"]),
        ("nasm", false, &[]),
    ]);

    let result = installer
        .uninstall_many(&["ffmpeg".to_string()], false)
        .unwrap();
    assert_eq!(result.requested, vec!["ffmpeg"]);
    assert_eq!(result.autoremoved, vec!["x264", "nasm"]);
    assert!(installer.list_installed().is_empty());
}

#[test]
fn force_removal_retains_incoming_declaration() {
    let mut installer =
        installer_with_graph(&[("ffmpeg", true, &["x264"]), ("x264", false, &[])]);

    installer
        .uninstall_many(&["x264".to_string()], true)
        .unwrap();
    assert_eq!(installer.db().installed_dependents("x264"), vec!["ffmpeg"]);
}

#[test]
fn shared_dependency_survives_until_final_parent_is_removed() {
    let mut installer = installer_with_graph(&[
        ("ffmpeg", true, &["x264"]),
        ("vlc", true, &["x264"]),
        ("x264", false, &[]),
    ]);

    let first = installer
        .uninstall_many(&["ffmpeg".to_string()], false)
        .unwrap();
    assert!(first.autoremoved.is_empty());
    assert!(installer.is_installed("x264"));

    let second = installer
        .uninstall_many(&["vlc".to_string()], false)
        .unwrap();
    assert_eq!(second.autoremoved, vec!["x264"]);
}

#[test]
fn batch_removal_allows_edges_within_requested_set() {
    let mut installer =
        installer_with_graph(&[("ffmpeg", true, &["x264"]), ("x264", false, &[])]);

    let result = installer
        .uninstall_many(&["x264".to_string(), "ffmpeg".to_string()], false)
        .unwrap();
    assert_eq!(result.requested, vec!["x264", "ffmpeg"]);
    assert!(result.autoremoved.is_empty());
    assert!(installer.list_installed().is_empty());
}

#[test]
fn uninstall_cleans_everything() {
    let mut installer = installer_with_graph(&[("uninstallme", true, &[])]);
    assert!(installer.is_installed("uninstallme"));

    installer.uninstall("uninstallme").unwrap();

    assert!(!installer.is_installed("uninstallme"));
    assert_eq!(
        carry_out(&mut installer),
        vec![
            "unlink uninstallme/1.0.0",
            "record uninstallme",
            "remove uninstallme/1.0.0"
        ]
    );
    assert!(!installer.is_installed("uninstallme"));
}

#[test]
fn gc_removes_unreferenced_store_entries() {
    let mut db = Database::new();
    db.record_install("gctest", "1.0.0", "0a1b", true, &[]);
    let mut installer = Installer::new(db);

    installer.uninstall("gctest").unwrap();
    let uninstalled = carry_out(&mut installer);
    assert!(!uninstalled.contains(&"entry 0a1b".to_string()));

    let removed = installer.gc().unwrap();
    assert_eq!(removed.len(), 1);
    assert_eq!(removed[0], "0a1b");

    assert_eq!(carry_out(&mut installer), vec!["entry 0a1b", "ref 0a1b"]);
    assert!(installer.db().get_unreferenced_store_keys().is_empty());
}

#[test]
fn gc_does_not_remove_referenced_store_entries() {
    let mut db = Database::new();
    db.record_install("keepme", "1.0.0", "0a1b", true, &[]);
    let mut installer = Installer::new(db);

    let removed = installer.gc().unwrap();
    assert!(removed.is_empty());
    assert!(installer.next_action().is_none());
}

#[test]
fn uninstall_accepts_full_tap_reference_after_install() {
    let mut db = Database::new();
    db.record_install("hashicorp/tap/terraform", "1.10.0", "0a1b", true, &[]);
    let mut installer = Installer::new(db);

    assert!(installer.is_installed("hashicorp/tap/terraform"));
    assert!(!installer.is_installed("terraform"));
    installer.uninstall("hashicorp/tap/terraform").unwrap();
    assert!(!installer.is_installed("hashicorp/tap/terraform"));
    assert_eq!(
        carry_out(&mut installer),
        vec![
            "unlink terraform/1.10.0",
            "record hashicorp/tap/terraform",
            "remove terraform/1.10.0"
        ]
    );
}

#[test]
fn uninstalling_non_installed_tap_ref_does_not_remove_core_formula() {
    let mut db = Database::new();
    db.record_install("terraform", "1.10.0", "0a1b", true, &[]);
    let mut installer = Installer::new(db);
    assert!(installer.is_installed("terraform"));

    let err = installer.uninstall("hashicorp/tap/terraform").unwrap_err();
    assert!(matches!(err, Error::NotInstalled { .. }));
    assert!(installer.is_installed("terraform"));
    assert!(installer.next_action().is_none());
}

#[test]
fn missing_formula_is_named() {
    let mut installer = installer_with_graph(&[("jq", true, &[])]);
    let err = installer
        .uninstall_many(&texts(&["jq", "wget", "curl"]), true)
        .unwrap_err();
    assert_eq!(err, Error::NotInstalled { name: "wget".to_string() });
    assert_eq!(installed_names(&installer), vec!["jq"]);
    assert!(installer.next_action().is_none());
}

#[test]
fn missing_formula_comes_before_blocked_one() {
    let mut installer = installer_with_graph(&[("a", true, &["b"]), ("b", true, &[])]);
    let err = installer.uninstall_many(&texts(&["b", "c"]), false).unwrap_err();
    assert_eq!(err, Error::NotInstalled { name: "c".to_string() });
}

#[test]
fn first_blocked_formula_is_reported_with_sorted_dependents() {
    let mut installer = installer_with_graph(&[
        ("z", true, &["lib", "tool"]),
        ("b", true, &["lib"]),
        ("a", true, &["lib"]),
        ("lib", true, &[]),
        ("tool", true, &[]),
    ]);
    let err = installer
        .uninstall_many(&texts(&["a", "lib", "tool"]), false)
        .unwrap_err();
    assert_eq!(
        err,
        Error::RequiredBy { name: "lib".to_string(), dependents: texts(&["b", "z"]) }
    );
    assert_eq!(installed_names(&installer), vec!["a", "b", "lib", "tool", "z"]);
}

#[test]
fn repeated_names_count_once() {
    let mut installer = installer_with_graph(&[("a", true, &[]), ("b", true, &[])]);
    let result = installer.uninstall_many(&texts(&["b", "a", "b", "a"]), false).unwrap();
    assert_eq!(result.requested, vec!["b", "a"]);
    assert_eq!(carry_out(&mut installer).len(), 6);
}

#[test]
fn empty_request_only_sweeps() {
    let mut installer = installer_with_graph(&[("a", true, &[]), ("b", false, &[])]);
    let result = installer.uninstall_many(&[], false).unwrap();
    assert!(result.requested.is_empty());
    assert_eq!(result.autoremoved, vec!["b"]);
    assert_eq!(installed_names(&installer), vec!["a"]);
}

#[test]
fn sweep_goes_round_by_round_and_alphabetically_in_each() {
    let mut installer = installer_with_graph(&[
        ("app", true, &["m", "b"]),
        ("m", false, &["a"]),
        ("b", false, &["z"]),
        ("a", false, &[]),
        ("z", false, &[]),
    ]);
    let result = installer.uninstall_many(&texts(&["app"]), false).unwrap();
    assert_eq!(result.autoremoved, vec!["b", "m", "a", "z"]);
}

#[test]
fn second_sweep_removes_nothing() {
    let mut installer = installer_with_graph(&[
        ("a", false, &["b"]),
        ("b", false, &["c"]),
        ("c", false, &[]),
        ("d", true, &[]),
    ]);
    assert_eq!(installer.autoremove().unwrap(), vec!["a", "b", "c"]);
    assert_eq!(installed_names(&installer), vec!["d"]);
    assert!(installer.autoremove().unwrap().is_empty());
}

#[test]
fn sweep_spares_explicit_formulas_and_what_they_need() {
    let mut installer = installer_with_graph(&[
        ("app", true, &["lib"]),
        ("lib", false, &["core"]),
        ("core", false, &[]),
        ("tool", true, &[]),
    ]);
    assert!(installer.autoremove().unwrap().is_empty());
    assert_eq!(installed_names(&installer), vec!["app", "core", "lib", "tool"]);
}

#[test]
fn formulas_that_need_one_another_stay() {
    let mut installer = installer_with_graph(&[("a", false, &["b"]), ("b", false, &["a"])]);
    assert!(installer.autoremove().unwrap().is_empty());
    assert_eq!(installed_names(&installer), vec!["a", "b"]);
}

#[test]
fn formula_that_needs_itself_is_an_orphan() {
    let mut installer = installer_with_graph(&[("a", false, &["a"])]);
    assert_eq!(installer.autoremove().unwrap(), vec!["a"]);
}

#[test]
fn forced_uninstall_leaves_dependents_and_reinstall_restores_them() {
    let mut installer =
        installer_with_graph(&[("ffmpeg", true, &["x264"]), ("x264", true, &[])]);
    installer.uninstall_many(&texts(&["x264"]), true).unwrap();
    assert!(installer.is_installed("ffmpeg"));
    assert!(!installer.is_installed("x264"));

    let mut db = installer.db().duplicate();
    db.record_install("x264", "2.0.0", "x264-2", false, &[]);
    assert_eq!(db.installed_dependents("x264"), vec!["ffmpeg"]);
    let mut installer = Installer::new(db);
    assert!(installer.uninstall("x264").is_err());
}

#[test]
fn unforced_uninstall_keeps_every_dependency_of_what_stays() {
    let mut installer = installer_with_graph(&[
        ("app", true, &["lib"]),
        ("other", true, &["lib", "extra"]),
        ("lib", false, &["core"]),
        ("core", false, &[]),
        ("extra", false, &[]),
    ]);
    let result = installer.uninstall_many(&texts(&["other"]), false).unwrap();
    assert_eq!(result.autoremoved, vec!["extra"]);
    assert_eq!(installed_names(&installer), vec!["app", "core", "lib"]);
}

#[test]
fn order_of_a_request_makes_no_difference_to_what_is_left() {
    let graph: &[(&str, bool, &[&str])] = &[
        ("a", true, &["lib"]),
        ("b", true, &["lib"]),
        ("c", true, &[]),
        ("lib", false, &[]),
    ];
    let mut first = installer_with_graph(graph);
    let mut second = installer_with_graph(graph);
    let one = first.uninstall_many(&texts(&["a", "b"]), false).unwrap();
    let two = second.uninstall_many(&texts(&["b", "a", "b"]), false).unwrap();
    assert_eq!(one.autoremoved, two.autoremoved);
    assert_eq!(installed_names(&first), installed_names(&second));
}

#[test]
fn everything_can_go_without_force() {
    let mut installer = installer_with_graph(&[
        ("app", true, &["lib"]),
        ("lib", false, &["core"]),
        ("core", false, &[]),
    ]);
    let names = installed_names(&installer);
    let result = installer.uninstall_many(&names, false).unwrap();
    assert_eq!(result.requested, vec!["app", "core", "lib"]);
    assert!(result.autoremoved.is_empty());
    assert!(installer.list_installed().is_empty());
}

#[test]
fn uninstall_of_any_version_is_carried_out() {
    let mut installer = installer_with_graph(&[("user/tap/jq", true, &[])]);
    installer.uninstall_by_version("user/tap/jq", "0.9").unwrap();
    assert_eq!(
        carry_out(&mut installer),
        vec!["unlink jq/0.9", "record user/tap/jq", "remove jq/0.9"]
    );
    assert!(!installer.is_installed("user/tap/jq"));
}

#[test]
fn failure_before_the_record_keeps_the_formula() {
    let mut installer = installer_with_graph(&[("a", true, &["b"]), ("b", false, &[])]);
    installer.uninstall("a").unwrap();
    assert!(installer.list_installed().is_empty());
    let failure = fail_after(&mut installer, 1);
    assert_eq!(failure, Error::External { message: "disk full".to_string() });
    assert_eq!(installed_names(&installer), vec!["a", "b"]);
    assert!(installer.next_action().is_none());
}

#[test]
fn failure_after_the_record_skips_the_sweep() {
    let mut installer = installer_with_graph(&[("a", true, &["b"]), ("b", false, &[])]);
    installer.uninstall("a").unwrap();
    fail_after(&mut installer, 2);
    assert_eq!(installed_names(&installer), vec!["b"]);
    assert_eq!(installer.autoremove().unwrap(), vec!["b"]);
}

#[test]
fn failure_in_the_sweep_keeps_what_it_did_not_reach() {
    let mut installer = installer_with_graph(&[
        ("a", true, &["b", "c"]),
        ("b", false, &[]),
        ("c", false, &[]),
    ]);
    installer.uninstall("a").unwrap();
    fail_after(&mut installer, 5);
    assert_eq!(installed_names(&installer), vec!["c"]);
}

#[test]
fn failed_collection_keeps_the_entry_on_record() {
    let mut db = Database::new();
    db.record_install("a", "1", "key-a", true, &[]);
    db.record_install("b", "1", "key-b", true, &[]);
    db.record_uninstall("a");
    db.record_uninstall("b");
    let mut installer = Installer::new(db);
    assert_eq!(installer.gc().unwrap(), vec!["key-a", "key-b"]);
    fail_after(&mut installer, 3);
    assert_eq!(installer.db().get_unreferenced_store_keys(), vec!["key-b"]);
}

#[test]
fn shared_store_entry_is_collected_after_its_last_formula() {
    let mut db = Database::new();
    db.record_install("a", "1", "shared", true, &[]);
    db.record_install("b", "1", "shared", true, &[]);
    let mut installer = Installer::new(db);
    installer.uninstall("a").unwrap();
    assert!(installer.gc().unwrap().is_empty());
    installer.uninstall("b").unwrap();
    assert_eq!(installer.gc().unwrap(), vec!["shared"]);
    assert!(installer.gc().unwrap().is_empty());
}

#[test]
fn category_goes_as_one_set() {
    let mut db = Database::new();
    db.record_install_in_category("app", "1", "app", true, Some("experiment-a"), &texts(&["lib", "own"]));
    db.record_install_in_category("lib", "1", "lib", true, Some("experiment-a"), &[]);
    db.record_install_in_category("base", "1", "base", true, Some("base"), &texts(&["shared"]));
    db.record_install("own", "1", "own", false, &texts(&["shared"]));
    db.record_install("shared", "1", "shared", false, &[]);
    let mut installer = Installer::new(db);
    let result = installer.uninstall_category("  experiment-a\n", false).unwrap();
    assert_eq!(result.requested, vec!["app", "lib"]);
    assert_eq!(result.autoremoved, vec!["own"]);
    assert_eq!(installed_names(&installer), vec!["base", "shared"]);
    assert!(installer.db().list_explicit_in_category("experiment-a").is_empty());
}

#[test]
fn category_is_protected_and_can_be_forced() {
    let mut db = Database::new();
    db.record_install_in_category("lib", "1", "lib", true, Some("experiment-a"), &[]);
    db.record_install("app", "1", "app", true, &texts(&["lib"]));
    let mut installer = Installer::new(db);
    let err = installer.uninstall_category("experiment-a", false).unwrap_err();
    assert_eq!(
        err,
        Error::RequiredBy { name: "lib".to_string(), dependents: texts(&["app"]) }
    );
    let result = installer.uninstall_category("experiment-a", true).unwrap();
    assert_eq!(result.requested, vec!["lib"]);
    assert_eq!(installed_names(&installer), vec!["app"]);
}

#[test]
fn empty_category_does_not_even_sweep() {
    let mut installer = installer_with_graph(&[("a", false, &[])]);
    let result = installer.uninstall_category("experiment-a", false).unwrap();
    assert!(result.requested.is_empty());
    assert!(result.autoremoved.is_empty());
    assert_eq!(installed_names(&installer), vec!["a"]);
    assert!(installer.next_action().is_none());
}

#[test]
fn installed_keg_is_handed_out() {
    let installer = installer_with_graph(&[("a", false, &[])]);
    let keg = installer.get_installed("a").unwrap();
    assert_eq!(keg.version, "1.0.0");
    assert_eq!(keg.store_key, "a");
    assert!(!keg.explicit);
    assert!(installer.get_installed("b").is_none());
}
