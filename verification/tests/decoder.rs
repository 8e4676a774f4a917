use launcher::apps::ApplicationEntry;

fn decode(text: &str) -> Option<launcher::apps::Ini> {
    ApplicationEntry::new(text.to_string()).decode()
}

#[test]
fn minimal_entry_decodes() {
    let ini = decode("[Desktop Entry]\nName=Firefox\nExec=firefox %u").unwrap();
    assert_eq!(ini.name, "Firefox");
    assert_eq!(ini.command, "firefox %u");
    assert!(!ini.terminal);
    assert!(ini.actions.is_empty());
}

#[test]
fn empty_text_rejected() {
    assert!(decode("").is_none());
}

#[test]
fn wrong_first_line_rejected() {
    assert!(decode("Name=X\nExec=Y").is_none());
    assert!(decode("[Desktop Entry] \nName=X\nExec=Y").is_none());
    assert!(decode("[desktop entry]\nName=X\nExec=Y").is_none());
}

#[test]
fn header_after_comments_accepted() {
    let ini = decode("# a comment\n[Desktop Entry]\n# another\nName=A\nExec=a").unwrap();
    assert_eq!(ini.name, "A");
    assert_eq!(ini.command, "a");
}

#[test]
fn missing_name_rejected() {
    assert!(decode("[Desktop Entry]\nExec=a").is_none());
}

#[test]
fn missing_exec_rejected() {
    assert!(decode("[Desktop Entry]\nName=A").is_none());
}

#[test]
fn no_display_true_suppresses() {
    assert!(decode("[Desktop Entry]\nName=A\nExec=a\nNoDisplay=true").is_none());
    assert!(decode("[Desktop Entry]\nName=A\nExec=a\nNoDisplay=True").is_none());
    assert!(decode("[Desktop Entry]\nNoDisplay=true\nName=A\nExec=a").is_none());
}

#[test]
fn no_display_false_kept() {
    let ini = decode("[Desktop Entry]\nName=A\nExec=a\nNoDisplay=false").unwrap();
    assert_eq!(ini.name, "A");
}

#[test]
fn no_display_garbage_kept() {
    assert!(decode("[Desktop Entry]\nName=A\nExec=a\nNoDisplay=maybe").is_some());
}

#[test]
fn terminal_true_variants() {
    assert!(decode("[Desktop Entry]\nName=A\nExec=a\nTerminal=true").unwrap().terminal);
    assert!(decode("[Desktop Entry]\nName=A\nExec=a\nTerminal=True").unwrap().terminal);
}

#[test]
fn terminal_false_variants() {
    assert!(!decode("[Desktop Entry]\nName=A\nExec=a\nTerminal=false").unwrap().terminal);
    assert!(!decode("[Desktop Entry]\nName=A\nExec=a\nTerminal=False").unwrap().terminal);
}

#[test]
fn terminal_garbage_coerces_to_false() {
    let ini = decode("[Desktop Entry]\nName=A\nExec=a\nTerminal=garbage").unwrap();
    assert!(!ini.terminal);
}

#[test]
fn terminal_absent_defaults_to_false() {
    assert!(!decode("[Desktop Entry]\nName=A\nExec=a").unwrap().terminal);
}

#[test]
fn unknown_keys_ignored() {
    let ini = decode("[Desktop Entry]\nName=A\nIcon=a.png\nExec=a\nCategories=Net;").unwrap();
    assert_eq!(ini.name, "A");
    assert_eq!(ini.command, "a");
}

#[test]
fn lines_without_separator_ignored() {
    let ini = decode("[Desktop Entry]\nName=A\njust some words\nExec=a\n").unwrap();
    assert_eq!(ini.command, "a");
}

#[test]
fn action_section_populates_actions() {
    let ini = decode(
        "[Desktop Entry]\nName=Firefox\nExec=firefox\n[Desktop Action new-window]\nName=New Window\nExec=firefox --new-window",
    )
    .unwrap();
    assert_eq!(ini.name, "Firefox");
    assert_eq!(ini.command, "firefox");
    assert_eq!(ini.actions.len(), 1);
    let (id, act) = &ini.actions[0];
    assert_eq!(id, "new-window");
    assert_eq!(act.name.as_deref(), Some("New Window"));
    assert_eq!(act.command.as_deref(), Some("firefox --new-window"));
    assert_eq!(act.terminal, None);
}

#[test]
fn incomplete_action_preserved() {
    let ini = decode("[Desktop Entry]\nName=A\nExec=a\n[Desktop Action half]\nName=Half").unwrap();
    assert_eq!(ini.actions.len(), 1);
    let (id, act) = &ini.actions[0];
    assert_eq!(id, "half");
    assert_eq!(act.name.as_deref(), Some("Half"));
    assert_eq!(act.command, None);
}

#[test]
fn two_action_sections() {
    let ini = decode(
        "[Desktop Entry]\nName=A\nExec=a\n[Desktop Action one]\nName=One\n[Desktop Action two]\nName=Two\nTerminal=true",
    )
    .unwrap();
    assert_eq!(ini.actions.len(), 2);
    assert_eq!(ini.actions[0].0, "one");
    assert_eq!(ini.actions[0].1.name.as_deref(), Some("One"));
    assert_eq!(ini.actions[1].0, "two");
    assert_eq!(ini.actions[1].1.terminal, Some(true));
}

#[test]
fn base_keys_after_action_go_to_action() {
    // Once an action section opens, later key/value lines feed that action,
    // not the base section.
    let ini = decode("[Desktop Entry]\nName=A\nExec=a\n[Desktop Action x]\nTerminal=true").unwrap();
    assert!(!ini.terminal);
    assert_eq!(ini.actions[0].1.terminal, Some(true));
}

#[test]
fn no_display_inside_action_does_not_suppress() {
    let ini =
        decode("[Desktop Entry]\nName=A\nExec=a\n[Desktop Action x]\nNoDisplay=true").unwrap();
    assert_eq!(ini.name, "A");
}

#[test]
fn permissive_action_detection() {
    // Any line holding the marker in the right shape opens an action section,
    // even outside the strict header grammar.
    let ini = decode("[Desktop Entry]\nName=A\nExec=a\nGreeting=Action time]\nName=Inner").unwrap();
    assert_eq!(ini.name, "A");
    assert_eq!(ini.actions.len(), 1);
    assert_eq!(ini.actions[0].0, "time");
    assert_eq!(ini.actions[0].1.name.as_deref(), Some("Inner"));
}

#[test]
fn reopened_action_keeps_fields() {
    let ini = decode(
        "[Desktop Entry]\nName=A\nExec=a\n[Desktop Action x]\nName=One\n[Desktop Action x]\nExec=two",
    )
    .unwrap();
    assert_eq!(ini.actions.len(), 1);
    assert_eq!(ini.actions[0].1.name.as_deref(), Some("One"));
    assert_eq!(ini.actions[0].1.command.as_deref(), Some("two"));
}

#[test]
fn trailing_newline_harmless() {
    let ini = decode("[Desktop Entry]\nName=A\nExec=a\n").unwrap();
    assert_eq!(ini.name, "A");
}

#[test]
fn value_may_contain_equals() {
    let ini = decode("[Desktop Entry]\nName=A=B\nExec=a --flag=1").unwrap();
    assert_eq!(ini.name, "A=B");
    assert_eq!(ini.command, "a --flag=1");
}
