use dionysus::app_core::freq_store::FrequencyTable;
use dionysus::app_core::search::{fuzzy_score, rank_apps, Score};
use dionysus::app_core::AppEntry;
use std::path::PathBuf;

fn app(id: &str, name: &str) -> AppEntry {
    AppEntry {
        id: id.to_string(),
        desktop_path: PathBuf::from(format!("/tmp/{id}.desktop")),
        name: name.to_string(),
        exec_command: name.to_string(),
        icon: None,
        terminal: false,
        nodisplay: false,
        hidden: false,
    }
}

fn ids(ranked: &[AppEntry]) -> Vec<&str> {
    ranked.iter().map(|entry| entry.id.as_str()).collect()
}

// The ranking scenarios, as stated beside `rank_apps`.

#[test]
fn search_score_takes_priority_over_frequency() {
    let apps = vec![app("high", "almanac"), app("low", "atlas")];
    let frequencies = FrequencyTable::from_entries(vec![(String::from("low"), 500)]);

    let ranked = rank_apps(&apps, &frequencies, "alma", 10);
    assert_eq!(ranked.first().map(|entry| entry.id.as_str()), Some("high"));
}

#[test]
fn search_frequency_breaks_equal_scores() {
    let apps = vec![app("a", "terminal"), app("b", "terminal")];
    let frequencies =
        FrequencyTable::from_entries(vec![(String::from("a"), 2), (String::from("b"), 10)]);

    let ranked = rank_apps(&apps, &frequencies, "term", 10);
    assert_eq!(ranked.first().map(|entry| entry.id.as_str()), Some("b"));
}

#[test]
fn search_id_breaks_equal_score_and_frequency() {
    let apps = vec![app("b", "terminal"), app("a", "terminal")];

    let ranked = rank_apps(&apps, &FrequencyTable::new(), "term", 10);
    let ids: Vec<&str> = ranked.iter().map(|entry| entry.id.as_str()).collect();
    assert_eq!(ids, vec!["a", "b"]);
}

// The same scenarios, as the integration tests state them.

#[test]
fn search_tests_score_takes_priority_over_frequency() {
    let apps = vec![app("high", "almanac"), app("low", "atlas")];
    let frequencies = FrequencyTable::from_entries(vec![(String::from("low"), 500)]);

    let ranked = rank_apps(&apps, &frequencies, "alma", 10);
    assert_eq!(ranked.first().map(|entry| entry.id.as_str()), Some("high"));
}

#[test]
fn search_tests_frequency_breaks_equal_scores() {
    let apps = vec![app("a", "terminal"), app("b", "terminal")];
    let frequencies =
        FrequencyTable::from_entries(vec![(String::from("a"), 2), (String::from("b"), 10)]);

    let ranked = rank_apps(&apps, &frequencies, "term", 10);
    assert_eq!(ranked.first().map(|entry| entry.id.as_str()), Some("b"));
}

#[test]
fn search_tests_id_breaks_equal_score_and_frequency() {
    let apps = vec![app("b", "terminal"), app("a", "terminal")];

    let ranked = rank_apps(&apps, &FrequencyTable::new(), "term", 10);
    let ids: Vec<&str> = ranked.iter().map(|entry| entry.id.as_str()).collect();
    assert_eq!(ids, vec!["a", "b"]);
}

#[test]
fn empty_query_orders_by_frequency_then_id() {
    let apps = vec![app("c", "Gamma"), app("b", "Beta"), app("a", "Alpha"), app("d", "Delta")];
    let frequencies =
        FrequencyTable::from_entries(vec![(String::from("d"), 3), (String::from("b"), 7)]);

    let ranked = rank_apps(&apps, &frequencies, "   ", 10);
    assert_eq!(ids(&ranked), vec!["b", "d", "a", "c"]);
}

#[test]
fn results_are_truncated_to_the_limit() {
    let apps = vec![app("c", "Gamma"), app("b", "Beta"), app("a", "Alpha")];

    let ranked = rank_apps(&apps, &FrequencyTable::new(), "", 2);
    assert_eq!(ids(&ranked), vec!["a", "b"]);
    let ranked = rank_apps(&apps, &FrequencyTable::new(), "a", 0);
    assert!(ranked.is_empty());
}

#[test]
fn non_matching_applications_are_left_out() {
    let apps = vec![app("fx", "Firefox"), app("term", "Terminal"), app("files", "Files")];

    let ranked = rank_apps(&apps, &FrequencyTable::new(), "  FI ", 10);
    // "fi" is a substring of "files" (1 + 2/5) and "firefox" (1 + 2/7).
    assert_eq!(ids(&ranked), vec!["files", "fx"]);

    let ranked = rank_apps(&apps, &FrequencyTable::new(), "tml", 10);
    // Only "terminal" holds t, m, l in order.
    assert_eq!(ids(&ranked), vec!["term"]);

    let ranked = rank_apps(&apps, &FrequencyTable::new(), "zzz", 10);
    assert!(ranked.is_empty());
}

#[test]
fn substring_matches_rank_above_subsequence_matches() {
    // "fx" is a substring of "fxrx" but only an in-order match in "firefox".
    let apps = vec![app("fx", "Firefox"), app("sub", "Fxrx")];

    let ranked = rank_apps(&apps, &FrequencyTable::new(), "fx", 10);
    assert_eq!(ids(&ranked), vec!["sub", "fx"]);
}

#[test]
fn fuzzy_score_values() {
    assert_eq!(
        fuzzy_score("Term", "terminal"),
        Some(Score::Substring { query_bytes: 4, name_bytes: 8 })
    );
    assert_eq!(
        fuzzy_score("tml", "Terminal"),
        Some(Score::Subsequence { matched: 3, name_chars: 8 })
    );
    assert_eq!(fuzzy_score("xyz", "Terminal"), None);
    // Lengths of a substring match are counted in UTF-8 bytes.
    assert_eq!(
        fuzzy_score("é", "café"),
        Some(Score::Substring { query_bytes: 2, name_bytes: 5 })
    );
    // Lengths of an in-order match are counted in characters.
    assert_eq!(
        fuzzy_score("cé", "caFé"),
        Some(Score::Subsequence { matched: 2, name_chars: 4 })
    );
}

#[test]
fn shorter_names_rank_first_among_substring_matches() {
    let apps = vec![app("long", "Terminal Emulator"), app("short", "Terminal")];

    let ranked = rank_apps(&apps, &FrequencyTable::new(), "term", 10);
    assert_eq!(ids(&ranked), vec!["short", "long"]);
}
