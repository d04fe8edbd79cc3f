use dionysus::app_core::freq_store::{parse_frequencies, render_frequencies, FrequencyTable};
use dionysus::app_core::search_worker::{SearchCommand, SearchWorkerState, WorkerStep};
use dionysus::app_core::AppEntry;
use std::collections::HashMap;
use std::path::PathBuf;

#[test]
fn counts_default_to_zero() {
    let table = FrequencyTable::new();
    assert_eq!(table.count("anything"), 0);
}

#[test]
fn later_pairs_replace_earlier_ones() {
    let table = FrequencyTable::from_entries(vec![
        (String::from("a"), 1),
        (String::from("b"), 2),
        (String::from("a"), 5),
    ]);
    assert_eq!(table.count("a"), 5);
    assert_eq!(table.count("b"), 2);
    assert_eq!(table.entries().len(), 2);
}

#[test]
fn recording_a_launch_adds_one() {
    let mut table = FrequencyTable::new();
    table.record_launch("x");
    table.record_launch("x");
    table.record_launch("y");
    assert_eq!(table.count("x"), 2);
    assert_eq!(table.count("y"), 1);
    table.insert(String::from("x"), 40);
    table.record_launch("x");
    assert_eq!(table.count("x"), 41);
}

#[test]
fn frequency_files_are_parsed() {
    let table = parse_frequencies("{\"firefox.desktop\": 12, \"kitty.desktop\": 3}").expect("valid");
    assert_eq!(table.count("firefox.desktop"), 12);
    assert_eq!(table.count("kitty.desktop"), 3);
    assert_eq!(table.count("other"), 0);

    let empty = parse_frequencies("{}").expect("valid");
    assert!(empty.entries().is_empty());
}

#[test]
fn invalid_frequency_files_are_refused() {
    assert!(parse_frequencies("").is_err());
    assert!(parse_frequencies("[1, 2]").is_err());
    assert!(parse_frequencies("{\"a\": -1}").is_err());
    assert!(parse_frequencies("{\"a\": \"many\"}").is_err());
}

#[test]
fn rendered_frequencies_parse_back() {
    let table = FrequencyTable::from_entries(vec![(String::from("a"), 1), (String::from("b"), 20)]);
    let text = render_frequencies(&table).expect("rendered");
    let parsed: HashMap<String, u64> = serde_json::from_str(&text).expect("json");
    assert_eq!(parsed.len(), 2);
    assert_eq!(parsed["a"], 1);
    assert_eq!(parsed["b"], 20);
    let back = parse_frequencies(&text).expect("valid");
    assert_eq!(back.count("b"), 20);
}

fn app(id: &str) -> AppEntry {
    AppEntry {
        id: id.to_string(),
        desktop_path: PathBuf::from(format!("/tmp/{id}.desktop")),
        name: id.to_string(),
        exec_command: id.to_string(),
        icon: None,
        terminal: false,
        nodisplay: false,
        hidden: false,
    }
}

#[test]
fn the_search_worker_keeps_apps_and_counts_and_answers_queries() {
    let mut state = SearchWorkerState::new(1);
    assert!(matches!(state.handle(SearchCommand::ReloadApps(vec![app("a"), app("b")])), WorkerStep::Continue));
    assert_eq!(state.apps.len(), 2);
    let freq = FrequencyTable::from_entries(vec![(String::from("a"), 4)]);
    assert!(matches!(state.handle(SearchCommand::UpdateFreq(freq)), WorkerStep::Continue));
    assert_eq!(state.freq.count("a"), 4);
    match state.handle(SearchCommand::Query(String::from("  "))) {
        WorkerStep::Answer(result) => {
            assert_eq!(result.query, "  ");
            let ids: Vec<&str> = result.items.iter().map(|a| a.id.as_str()).collect();
            assert_eq!(ids, vec!["a"]);
        }
        other => panic!("unexpected step {other:?}"),
    }
    match state.handle(SearchCommand::Query(String::from("b"))) {
        WorkerStep::Answer(result) => {
            let ids: Vec<&str> = result.items.iter().map(|a| a.id.as_str()).collect();
            assert_eq!(ids, vec!["b"]);
        }
        other => panic!("unexpected step {other:?}"),
    }
    assert_eq!(state.apps.len(), 2);
    assert!(matches!(state.handle(SearchCommand::Stop), WorkerStep::Stop));
}
