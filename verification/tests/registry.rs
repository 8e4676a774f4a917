use launcher::apps::{Installed, RunError};

fn entry(name: &str, command: &str) -> String {
    format!("[Desktop Entry]\nName={name}\nExec={command}")
}

#[test]
fn all_aggregates_in_priority_order() {
    let installed = Installed::new(
        Some(vec![entry("UserApp", "u")]),
        Some(vec![entry("SysApp", "s")]),
        Some(vec![entry("PakApp", "p")]),
    );
    let all = installed.all().unwrap();
    let names: Vec<&str> = all.iter().map(|i| i.name.as_str()).collect();
    assert_eq!(names, vec!["UserApp", "PakApp", "SysApp"]);
}

#[test]
fn duplicate_names_not_deduplicated() {
    let installed = Installed::new(
        Some(vec![entry("Same", "user-side")]),
        Some(vec![entry("Same", "system-side")]),
        Some(vec![]),
    );
    let all = installed.all().unwrap();
    assert_eq!(all.len(), 2);
    assert_eq!(all[0].command, "user-side");
    assert_eq!(all[1].command, "system-side");
}

#[test]
fn system_failure_surfaces_even_when_user_succeeds() {
    let installed = Installed::new(Some(vec![entry("UserApp", "u")]), None, Some(vec![]));
    match installed.all() {
        Err(RunError::System) => {},
        other => panic!("expected the system source's failure, got {:?}", other),
    }
}

#[test]
fn user_failure_surfaces_first() {
    let installed = Installed::new(None, None, None);
    assert!(matches!(installed.all(), Err(RunError::User)));
}

#[test]
fn flatpak_failure_surfaces_last() {
    let installed = Installed::new(Some(vec![]), Some(vec![]), None);
    assert!(matches!(installed.all(), Err(RunError::Flatpak)));
}

#[test]
fn malformed_texts_are_skipped() {
    let installed = Installed::new(
        Some(vec![
            "not an entry at all".to_string(),
            entry("Good", "g"),
            "[Desktop Entry]\nName=NoExecHere".to_string(),
        ]),
        Some(vec![]),
        Some(vec![]),
    );
    let user = installed.user().unwrap();
    assert_eq!(user.len(), 1);
    assert_eq!(user[0].name, "Good");
}

#[test]
fn per_source_listing() {
    let installed = Installed::new(
        Some(vec![entry("U", "u")]),
        Some(vec![entry("S", "s")]),
        None,
    );
    assert_eq!(installed.user().unwrap().len(), 1);
    assert_eq!(installed.system().unwrap().len(), 1);
    assert!(installed.flatpak().is_none());
}

#[test]
fn suppressed_entries_do_not_appear() {
    let installed = Installed::new(
        Some(vec![
            entry("Visible", "v"),
            format!("{}\nNoDisplay=true", entry("Hidden", "h")),
        ]),
        Some(vec![]),
        Some(vec![]),
    );
    let user = installed.user().unwrap();
    assert_eq!(user.len(), 1);
    assert_eq!(user[0].name, "Visible");
}

#[test]
fn display_keeps_detail_flag() {
    assert!(launcher::apps::Display::new(true).0);
    assert!(!launcher::apps::Display::new(false).0);
}
