use zerobrew::action::Action;
use zerobrew::commands::autoremove;
use zerobrew::commands::list;
use zerobrew::commands::list::ownership_label;
use zerobrew::commands::ui_error;
use zerobrew::commands::uninstall;
use zerobrew::database::Database;
use zerobrew::error::Error;
use zerobrew::installer::Installer;

fn texts(list: &[&str]) -> Vec<String> {
    list.iter().map(|text| text.to_string()).collect()
}

fn names(list: &[&str]) -> Vec<Result<String, Error>> {
    list.iter().map(|text| Ok(text.to_string())).collect()
}

fn small_graph() -> Database {
    let mut db = Database::new();
    db.record_install("ffmpeg", "7.1", "f", true, &texts(&["x264"]));
    db.record_install("x264", "r3108", "x", false, &[]);
    db
}

/// The texts for the terminal, in order; everything is carried out.
fn output(installer: &mut Installer) -> Vec<String> {
    let mut shown = Vec::new();
    while let Some(action) = installer.next_action() {
        match action {
            Action::Heading { text } => shown.push(format!("heading {text}")),
            Action::Info { text } => shown.push(format!("info {text}")),
            Action::Print { text } => shown.push(format!("print {text}")),
            Action::RecordUninstall { name } => shown.push(format!("record {name}")),
            _ => {}
        }
        installer.settle(Ok(())).unwrap();
    }
    shown
}

#[test]
fn labels_all_ownership_states() {
    assert_eq!(ownership_label(true, None, &[]), "explicit");
    assert_eq!(
        ownership_label(true, None, &["ffmpeg".into(), "wget".into()]),
        "explicit (also required by ffmpeg, wget)"
    );
    assert_eq!(
        ownership_label(false, None, &["ffmpeg".into()]),
        "implicit (required by ffmpeg)"
    );
    assert_eq!(ownership_label(false, None, &[]), "implicit (orphan)");
    assert_eq!(
        ownership_label(true, Some("experiment-a"), &[]),
        "explicit [experiment-a]"
    );
    assert_eq!(
        ownership_label(true, Some("experiment-a"), &["suite".into()]),
        "explicit [experiment-a] (also required by suite)"
    );
}

#[test]
fn category_of_an_implicit_formula_is_not_shown() {
    assert_eq!(ownership_label(false, Some("base"), &[]), "implicit (orphan)");
}

#[test]
fn list_of_nothing_says_so() {
    let mut installer = Installer::new(Database::new());
    list::execute(&mut installer).unwrap();
    assert_eq!(output(&mut installer), vec!["print No formulas installed."]);
}

#[test]
fn list_is_plain_without_colors() {
    console::set_colors_enabled(false);
    let mut installer = Installer::new(small_graph());
    list::execute(&mut installer).unwrap();
    assert_eq!(
        output(&mut installer),
        vec![
            "print ffmpeg 7.1 explicit",
            "print x264 r3108 implicit (required by ffmpeg)"
        ]
    );
}

#[test]
fn list_sets_names_and_versions_off() {
    console::set_colors_enabled(true);
    let mut db = Database::new();
    db.record_install_in_category("jq", "1.7", "j", true, Some("base"), &[]);
    let mut installer = Installer::new(db);
    list::execute(&mut installer).unwrap();
    assert_eq!(
        output(&mut installer),
        vec!["print \u{1b}[1mjq\u{1b}[0m \u{1b}[2m1.7\u{1b}[0m explicit [base]"]
    );
}

#[test]
fn list_shows_orphans_until_a_sweep() {
    console::set_colors_enabled(false);
    let mut db = Database::new();
    db.record_install("nasm", "2", "n", false, &[]);
    let mut installer = Installer::new(db);
    list::execute(&mut installer).unwrap();
    assert_eq!(output(&mut installer), vec!["print nasm 2 implicit (orphan)"]);
    autoremove::execute(&mut installer).unwrap();
    assert_eq!(
        output(&mut installer),
        vec!["record nasm", "info Removed unused dependencies: nasm"]
    );
    list::execute(&mut installer).unwrap();
    assert_eq!(output(&mut installer), vec!["print No formulas installed."]);
}

#[test]
fn autoremove_reports_in_order_of_removal() {
    let mut db = Database::new();
    db.record_install("x264", "1", "x", false, &texts(&["nasm"]));
    db.record_install("nasm", "2", "n", false, &[]);
    let mut installer = Installer::new(db);
    autoremove::execute(&mut installer).unwrap();
    assert_eq!(
        output(&mut installer),
        vec![
            "record x264",
            "record nasm",
            "info Removed unused dependencies: x264, nasm"
        ]
    );
}

#[test]
fn autoremove_with_nothing_to_do_says_so() {
    let mut installer = Installer::new(small_graph());
    autoremove::execute(&mut installer).unwrap();
    assert_eq!(output(&mut installer), vec!["info No unused dependencies."]);
}

#[test]
fn uninstall_announces_then_removes_then_reports() {
    console::set_colors_enabled(false);
    let mut installer = Installer::new(small_graph());
    uninstall::execute(&mut installer, names(&["ffmpeg"]), false, false, None).unwrap();
    assert_eq!(
        output(&mut installer),
        vec![
            "heading Uninstalling ffmpeg...",
            "record ffmpeg",
            "record x264",
            "info Removed unused dependency x264"
        ]
    );
}

#[test]
fn uninstall_shows_names_in_bold() {
    console::set_colors_enabled(true);
    let mut installer = Installer::new(small_graph());
    uninstall::execute(&mut installer, names(&["x264", "ffmpeg"]), false, false, None).unwrap();
    assert_eq!(
        output(&mut installer)[0],
        "heading Uninstalling \u{1b}[1mx264, ffmpeg\u{1b}[0m..."
    );
}

#[test]
fn refused_uninstall_stays_at_the_announcement() {
    console::set_colors_enabled(false);
    let mut installer = Installer::new(small_graph());
    let err = uninstall::execute(&mut installer, names(&["x264"]), false, false, None).unwrap_err();
    assert_eq!(
        err,
        Error::RequiredBy { name: "x264".to_string(), dependents: texts(&["ffmpeg"]) }
    );
    assert_eq!(output(&mut installer), vec!["heading Uninstalling x264..."]);
    assert!(installer.is_installed("x264"));
}

#[test]
fn forced_uninstall_goes_through() {
    console::set_colors_enabled(false);
    let mut installer = Installer::new(small_graph());
    uninstall::execute(&mut installer, names(&["x264"]), true, false, None).unwrap();
    assert_eq!(
        output(&mut installer),
        vec!["heading Uninstalling x264...", "record x264"]
    );
    assert!(installer.is_installed("ffmpeg"));
}

#[test]
fn first_rejected_name_ends_the_command() {
    let mut installer = Installer::new(small_graph());
    let formulas = vec![
        Ok("ffmpeg".to_string()),
        Err(Error::External { message: "first".to_string() }),
        Err(Error::External { message: "second".to_string() }),
    ];
    let err = uninstall::execute(&mut installer, formulas, false, false, None).unwrap_err();
    assert_eq!(err, Error::External { message: "first".to_string() });
    assert!(installer.next_action().is_none());
}

#[test]
fn uninstall_all_needs_no_force() {
    console::set_colors_enabled(false);
    let mut installer = Installer::new(small_graph());
    uninstall::execute(&mut installer, vec![], false, true, None).unwrap();
    assert_eq!(
        output(&mut installer),
        vec![
            "heading Uninstalling ffmpeg, x264...",
            "record ffmpeg",
            "record x264"
        ]
    );
    uninstall::execute(&mut installer, vec![], false, true, None).unwrap();
    assert_eq!(output(&mut installer), vec!["info No formulas installed."]);
}

#[test]
fn uninstall_of_a_category_is_announced_afterwards() {
    console::set_colors_enabled(true);
    let mut db = Database::new();
    db.record_install_in_category("app", "1", "a", true, Some("base"), &texts(&["lib"]));
    db.record_install("lib", "1", "l", false, &[]);
    let mut installer = Installer::new(db);
    let category = Some(" base ".to_string());
    uninstall::execute(&mut installer, vec![], false, false, category).unwrap();
    assert_eq!(
        output(&mut installer),
        vec![
            "record app",
            "record lib",
            "heading Uninstalled category \u{1b}[1mbase\u{1b}[0m: app",
            "info Removed unused dependency lib"
        ]
    );
}

#[test]
fn category_wins_over_names_and_all() {
    let mut installer = Installer::new(small_graph());
    let category = Some("\tbase\n".to_string());
    uninstall::execute(&mut installer, names(&["ffmpeg"]), true, true, category).unwrap();
    assert_eq!(
        output(&mut installer),
        vec!["info No explicitly installed formulas in category 'base'."]
    );
    assert!(installer.is_installed("ffmpeg"));
}

#[test]
fn failed_announcement_removes_nothing() {
    let mut installer = Installer::new(small_graph());
    uninstall::execute(&mut installer, names(&["ffmpeg"]), false, false, None).unwrap();
    let err = installer.settle(Err(ui_error("broken pipe"))).unwrap_err();
    assert_eq!(
        err,
        Error::StoreCorruption {
            message: "failed to write CLI output: broken pipe".to_string()
        }
    );
    assert!(installer.is_installed("ffmpeg"));
    assert!(installer.is_installed("x264"));
    assert!(installer.next_action().is_none());
}
