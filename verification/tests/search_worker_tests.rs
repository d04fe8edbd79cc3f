use dionysus::app_core::freq_store::FrequencyTable;
use dionysus::app_core::search_worker::{SearchCommand, SearchWorkerState, WorkerStep};
use dionysus::app_core::AppEntry;
use std::path::PathBuf;

fn app(id: &str, name: &str) -> AppEntry {
    AppEntry {
        id: id.to_string(),
        desktop_path: PathBuf::from(format!("/tmp/{id}.desktop")),
        name: name.to_string(),
        exec_command: name.to_string(),
        icon: None,
        terminal: false,
        nodisplay: false,
        hidden: false,
    }
}

/// What the search worker answers to `query` after receiving `apps` and
/// `freq`.
fn rank_apps(apps: &[AppEntry], freq: &FrequencyTable, query: &str, limit: usize) -> Vec<AppEntry> {
    let mut worker = SearchWorkerState::new(limit);
    worker.handle(SearchCommand::ReloadApps(apps.to_vec()));
    worker.handle(SearchCommand::UpdateFreq(FrequencyTable::from_entries(freq.entries().clone())));
    match worker.handle(SearchCommand::Query(query.to_string())) {
        WorkerStep::Answer(result) => {
            assert_eq!(result.query, query);
            result.items
        }
        other => panic!("unexpected step {other:?}"),
    }
}

#[test]
fn rank_apps_prioritizes_score_over_frequency() {
    let apps = vec![app("high", "almanac"), app("low", "atlas")];
    let mut freq = FrequencyTable::new();
    freq.insert("high".to_string(), 1);
    freq.insert("low".to_string(), 500);

    let ranked = rank_apps(&apps, &freq, "alma", 10);
    assert_eq!(ranked.first().map(|a| a.id.as_str()), Some("high"));
}

#[test]
fn rank_apps_uses_frequency_for_equal_scores() {
    let apps = vec![app("a", "terminal"), app("b", "terminal")];
    let mut freq = FrequencyTable::new();
    freq.insert("a".to_string(), 2);
    freq.insert("b".to_string(), 10);

    let ranked = rank_apps(&apps, &freq, "term", 10);
    assert_eq!(ranked.first().map(|a| a.id.as_str()), Some("b"));
}

#[test]
fn rank_apps_is_deterministic_when_score_and_frequency_match() {
    let apps = vec![app("b", "terminal"), app("a", "terminal")];
    let freq = FrequencyTable::new();

    let ranked = rank_apps(&apps, &freq, "term", 10);
    let ids: Vec<&str> = ranked.iter().map(|a| a.id.as_str()).collect();
    assert_eq!(ids, vec!["a", "b"]);
}
