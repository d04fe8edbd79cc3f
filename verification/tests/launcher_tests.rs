use dionysus::app_core::desktop::LaunchError as ExecError;
use dionysus::app_core::freq_store::FrequencyTable;
use dionysus::app_core::{AppEntry, LaunchError, Launcher};
use dionysus::selection::{select_next, select_prev, selected_or_first};
use std::path::PathBuf;

fn app(id: &str, name: &str) -> AppEntry {
    AppEntry {
        id: id.to_string(),
        desktop_path: PathBuf::from(format!("/tmp/{id}.desktop")),
        name: name.to_string(),
        exec_command: name.to_string(),
        icon: None,
        terminal: false,
        nodisplay: false,
        hidden: false,
    }
}

#[test]
fn query_and_selection_are_updated_by_core_operations() {
    let apps = vec![app("one", "Terminal"), app("two", "Browser")];
    let mut launcher = Launcher::new(apps, FrequencyTable::new(), 5);

    assert_eq!(launcher.selected_index(), Some(0));
    launcher.move_selection_down();
    assert_eq!(
        launcher.selected().map(|entry| entry.id.as_str()),
        Some("two")
    );

    launcher.set_query("term");
    assert_eq!(launcher.results().len(), 1);
    assert_eq!(
        launcher.selected().map(|entry| entry.id.as_str()),
        Some("one")
    );
}

#[test]
fn reset_clears_query_and_selects_first_result() {
    let apps = vec![app("one", "Terminal"), app("two", "Browser")];
    let mut launcher = Launcher::new(apps, FrequencyTable::new(), 5);

    launcher.set_query("browser");
    launcher.reset();

    assert_eq!(launcher.query(), "");
    assert_eq!(launcher.results().len(), 2);
    assert_eq!(launcher.selected_index(), Some(0));
}

#[test]
fn selection_stays_within_the_results() {
    let apps = vec![app("one", "Terminal"), app("two", "Browser"), app("three", "Files")];
    let mut launcher = Launcher::new(apps, FrequencyTable::new(), 5);

    launcher.move_selection_up();
    assert_eq!(launcher.selected_index(), Some(0));
    launcher.move_selection_down();
    launcher.move_selection_down();
    launcher.move_selection_down();
    assert_eq!(launcher.selected_index(), Some(2));
    launcher.move_selection_up();
    assert_eq!(launcher.selected_index(), Some(1));
}

#[test]
fn no_results_means_no_selection() {
    let apps = vec![app("one", "Terminal")];
    let mut launcher = Launcher::new(apps, FrequencyTable::new(), 5);

    launcher.set_query("qqq");
    assert!(launcher.results().is_empty());
    assert_eq!(launcher.selected_index(), None);
    assert!(launcher.selected().is_none());
    launcher.move_selection_down();
    launcher.move_selection_up();
    assert_eq!(launcher.selected_index(), None);

    let mut empty = Launcher::new(Vec::new(), FrequencyTable::new(), 5);
    assert_eq!(empty.selected_index(), None);
    empty.reset();
    assert!(empty.results().is_empty());
}

#[test]
fn catalog_and_limit_are_kept() {
    let apps = vec![app("a", "A"), app("b", "B"), app("c", "C")];
    let mut launcher = Launcher::new(apps, FrequencyTable::new(), 2);

    assert_eq!(launcher.catalog().len(), 3);
    assert_eq!(launcher.results().len(), 2);
    launcher.set_query("c");
    assert_eq!(launcher.query(), "c");
    assert_eq!(launcher.catalog().len(), 3);
    assert_eq!(launcher.results()[0].id, "c");
}

#[test]
fn recorded_launches_change_the_ranking_after_a_refresh() {
    let apps = vec![app("a", "Alpha"), app("b", "Beta")];
    let mut launcher = Launcher::new(apps, FrequencyTable::new(), 5);
    assert_eq!(launcher.results()[0].id, "a");

    launcher.record_launch("b");
    assert_eq!(launcher.frequency("b"), 1);
    assert_eq!(launcher.frequency("a"), 0);
    // The results are those of before the launch until they are refreshed.
    assert_eq!(launcher.results()[0].id, "a");

    launcher.refresh_results();
    assert_eq!(launcher.results()[0].id, "b");
    assert_eq!(launcher.selected_index(), Some(0));
    assert_eq!(launcher.frequencies().count("b"), 1);
}

#[test]
fn launch_command_finds_the_first_entry_with_the_id() {
    let mut first = app("term", "Terminal");
    first.exec_command = String::from("xterm -e %f");
    let mut second = app("term", "Other");
    second.exec_command = String::from("other");
    let mut broken = app("broken", "Broken");
    broken.exec_command = String::from("   %U");
    let launcher = Launcher::new(vec![first, second, broken], FrequencyTable::new(), 5);

    match launcher.launch_command("term") {
        Ok(argv) => assert_eq!(argv, vec!["xterm".to_string(), "-e".to_string()]),
        Err(err) => panic!("unexpected error {err:?}"),
    }
    assert!(matches!(launcher.launch_command("missing"), Err(LaunchError::NoSelection)));
    assert!(matches!(
        launcher.launch_command("broken"),
        Err(LaunchError::Execution(ExecError::EmptyCommand))
    ));
}

#[test]
fn list_selection_positions() {
    assert_eq!(selected_or_first(0, 0), None);
    assert_eq!(selected_or_first(3, 1), Some(1));
    assert_eq!(selected_or_first(3, u32::MAX), Some(0));
    assert_eq!(select_prev(3, 0), Some(0));
    assert_eq!(select_prev(3, 2), Some(1));
    assert_eq!(select_prev(0, 2), None);
    assert_eq!(select_next(3, 1), Some(2));
    assert_eq!(select_next(3, 2), Some(2));
    assert_eq!(select_next(3, 9), Some(1));
    assert_eq!(select_next(0, 0), None);
}
