use dionysus::app_core::desktop::{
    desktop_file_to_app_entry, exec_to_argv, DesktopRecord, LaunchError,
};
use dionysus::app_core::IconRef;
use std::path::PathBuf;

fn argv(exec: &str) -> Option<Vec<String>> {
    match exec_to_argv(exec) {
        Ok(argv) => Some(argv),
        Err(LaunchError::EmptyCommand) => None,
        Err(LaunchError::Io(err)) => panic!("unexpected error {err}"),
    }
}

fn words(list: &[&str]) -> Option<Vec<String>> {
    Some(list.iter().map(|s| s.to_string()).collect())
}

#[test]
fn exec_lines_are_split_at_white_space() {
    assert_eq!(argv("firefox"), words(&["firefox"]));
    assert_eq!(argv("  gimp-2.10   --new-instance\t"), words(&["gimp-2.10", "--new-instance"]));
    assert_eq!(argv("a\u{3000}b\u{a0}c"), words(&["a", "b", "c"]));
}

#[test]
fn field_codes_and_what_follows_are_dropped() {
    assert_eq!(argv("firefox %u"), words(&["firefox"]));
    assert_eq!(argv("code --new-window %F --extra"), words(&["code", "--new-window"]));
    assert_eq!(argv("app%f"), words(&["app"]));
}

#[test]
fn empty_commands_are_refused() {
    assert_eq!(argv(""), None);
    assert_eq!(argv("    "), None);
    assert_eq!(argv("%U"), None);
    assert_eq!(argv("  \t %f firefox"), None);
}

fn record() -> DesktopRecord {
    DesktopRecord {
        appid: String::from("org.example.App"),
        path: PathBuf::from("/usr/share/applications/org.example.App.desktop"),
        hidden: false,
        no_display: false,
        full_name: Some(String::from("Example Application")),
        name: Some(String::from("Example")),
        exec_command: Some(String::from("example %U")),
        terminal: true,
        icon: Some(IconRef::ThemedName(String::from("example"))),
    }
}

#[test]
fn records_become_app_entries() {
    let entry = desktop_file_to_app_entry(&record()).expect("entry");
    assert_eq!(entry.id, "org.example.App");
    assert_eq!(entry.name, "Example Application");
    assert_eq!(entry.exec_command, "example %U");
    assert_eq!(entry.desktop_path, PathBuf::from("/usr/share/applications/org.example.App.desktop"));
    assert!(entry.terminal);
    assert!(!entry.hidden && !entry.nodisplay);
    assert!(matches!(entry.icon, Some(IconRef::ThemedName(ref n)) if n == "example"));
}

#[test]
fn display_name_falls_back_to_name_then_id() {
    let mut r = record();
    r.full_name = None;
    assert_eq!(desktop_file_to_app_entry(&r).expect("entry").name, "Example");
    r.name = None;
    assert_eq!(desktop_file_to_app_entry(&r).expect("entry").name, "org.example.App");
}

#[test]
fn hidden_undisplayed_and_commandless_records_are_skipped() {
    let mut r = record();
    r.hidden = true;
    assert!(desktop_file_to_app_entry(&r).is_none());
    let mut r = record();
    r.no_display = true;
    assert!(desktop_file_to_app_entry(&r).is_none());
    let mut r = record();
    r.exec_command = None;
    assert!(desktop_file_to_app_entry(&r).is_none());
}
