use launcher::apps::{Ini, Installed, RunError};
use launcher::launch::Spawn;

fn entry(name: &str, command: &str) -> String {
    format!("[Desktop Entry]\nName={name}\nExec={command}")
}

fn terminal_entry(name: &str, command: &str) -> String {
    format!("[Desktop Entry]\nName={name}\nExec={command}\nTerminal=true")
}

fn sources(user: Vec<String>) -> Installed {
    Installed::new(Some(user), Some(vec![]), Some(vec![]))
}

fn plain_ini(name: &str, command: &str, terminal: bool) -> Ini {
    Ini {
        name: name.to_string(),
        command: command.to_string(),
        terminal,
        actions: vec![],
    }
}

#[test]
fn placeholders_are_stripped() {
    let installed = sources(vec![entry("Firefox", "firefox %u --private")]);
    let cmd = Spawn::new("Firefox".to_string(), None).run(&installed, false).unwrap();
    assert_eq!(cmd.argv, vec!["firefox", "--private"]);
    assert!(!cmd.show_output);
}

#[test]
fn every_reserved_placeholder_is_stripped() {
    let spawn = Spawn::new("A".to_string(), None);
    let ini = plain_ini("A", "p %f %F %u %U %d %D %n %N %k %v %m %c %i %s q", false);
    let cmd = spawn.sys_exec(ini, false).unwrap();
    assert_eq!(cmd.argv, vec!["p", "q"]);
}

#[test]
fn placeholder_lookalikes_survive() {
    let spawn = Spawn::new("A".to_string(), None);
    let ini = plain_ini("A", "p %x %ff file%u %% % q", false);
    let cmd = spawn.sys_exec(ini, false).unwrap();
    assert_eq!(cmd.argv, vec!["p", "%x", "%ff", "file%u", "%%", "%", "q"]);
}

#[test]
fn terminal_program_is_prepended() {
    let installed = sources(vec![terminal_entry("Vim", "vim %f")]);
    let cmd = Spawn::new("Vim".to_string(), Some("kitty".to_string()))
        .run(&installed, true)
        .unwrap();
    assert_eq!(cmd.argv, vec!["kitty", "-e", "vim"]);
    assert!(cmd.show_output);
}

#[test]
fn no_terminal_configured_fails_by_name() {
    let installed = sources(vec![terminal_entry("Vim", "vim")]);
    match Spawn::new("Vim".to_string(), None).run(&installed, false) {
        Err(RunError::NoTerminal(name)) => assert_eq!(name, "Vim"),
        other => panic!("expected the missing-terminal failure, got {:?}", other),
    }
}

#[test]
fn terminal_not_prepended_when_not_required() {
    let installed = sources(vec![entry("Calc", "calc")]);
    let cmd = Spawn::new("Calc".to_string(), Some("kitty".to_string()))
        .run(&installed, false)
        .unwrap();
    assert_eq!(cmd.argv, vec!["calc"]);
}

#[test]
fn unknown_name_fails_as_not_found() {
    let installed = sources(vec![entry("Firefox", "firefox")]);
    match Spawn::new("Chromium".to_string(), None).run(&installed, false) {
        Err(RunError::NotFound(name)) => assert_eq!(name, "Chromium"),
        other => panic!("expected the not-found failure, got {:?}", other),
    }
}

#[test]
fn one_failed_lookup_does_not_spoil_the_next() {
    let installed = sources(vec![entry("Firefox", "firefox")]);
    assert!(matches!(
        Spawn::new("Missing".to_string(), None).run(&installed, false),
        Err(RunError::NotFound(_))
    ));
    assert!(Spawn::new("Firefox".to_string(), None).run(&installed, false).is_ok());
}

#[test]
fn lookup_is_case_insensitive() {
    let installed = sources(vec![entry("Firefox", "firefox")]);
    let cmd = Spawn::new("firefox".to_string(), None).run(&installed, false).unwrap();
    assert_eq!(cmd.argv, vec!["firefox"]);
    assert!(Spawn::new("FIREFOX".to_string(), None).run(&installed, false).is_ok());
}

#[test]
fn first_match_in_priority_order_wins() {
    let installed = Installed::new(
        Some(vec![entry("Same", "user-variant")]),
        Some(vec![entry("Same", "system-variant")]),
        Some(vec![]),
    );
    let cmd = Spawn::new("same".to_string(), None).run(&installed, false).unwrap();
    assert_eq!(cmd.argv, vec!["user-variant"]);
}

#[test]
fn source_failure_aborts_resolution() {
    let installed = Installed::new(Some(vec![entry("A", "a")]), None, Some(vec![]));
    assert!(matches!(
        Spawn::new("A".to_string(), None).run(&installed, false),
        Err(RunError::System)
    ));
}

#[test]
fn empty_command_line_is_refused() {
    let spawn = Spawn::new("A".to_string(), None);
    assert!(matches!(
        spawn.sys_exec(plain_ini("A", "", false), false),
        Err(RunError::Exec(_))
    ));
    assert!(matches!(
        spawn.sys_exec(plain_ini("A", "%f %U", false), false),
        Err(RunError::Exec(_))
    ));
}

#[test]
fn terminal_wrapping_applies_to_stripped_tokens() {
    let spawn = Spawn::new("A".to_string(), Some("xterm".to_string()));
    let cmd = spawn.sys_exec(plain_ini("A", "htop %f --tree", true), true).unwrap();
    assert_eq!(cmd.argv, vec!["xterm", "-e", "htop", "--tree"]);
    assert!(cmd.show_output);
}

#[test]
fn whitespace_runs_make_single_tokens() {
    let spawn = Spawn::new("A".to_string(), None);
    let cmd = spawn.sys_exec(plain_ini("A", "  prog   one\t two  ", false), false).unwrap();
    assert_eq!(cmd.argv, vec!["prog", "one", "two"]);
}
