use nyaland::history::{DownloadHistory, DownloadHistoryEntry};
use nyaland::state::DownloadState;

fn entry(hash: &str, name: &str, state: DownloadState) -> DownloadHistoryEntry {
    DownloadHistoryEntry {
        hash: hash.to_string(),
        name: name.to_string(),
        magnet: format!("magnet:?xt=urn:btih:{}", hash),
        save_path: "/tmp/dl".to_string(),
        total_size: 100,
        state,
        added_date: "2024-01-01T00:00:00Z".to_string(),
        completed_date: None,
        error: None,
    }
}

#[test]
fn upsert_appends_new_entries_in_order() {
    let mut h = DownloadHistory::default();
    h.upsert(entry("a", "A", DownloadState::Queued));
    h.upsert(entry("b", "B", DownloadState::Queued));
    let names: Vec<&str> = h.all().iter().map(|e| e.name.as_str()).collect();
    assert_eq!(names, vec!["A", "B"]);
}

#[test]
fn get_after_upsert_returns_the_entry() {
    let mut h = DownloadHistory::new();
    h.upsert(entry("a", "A", DownloadState::Queued));
    h.upsert(entry("a", "A2", DownloadState::Finished));
    assert_eq!(h.all().len(), 1);
    let got = h.get("a").unwrap();
    assert_eq!(got.name, "A2");
    assert_eq!(got.state, DownloadState::Finished);
}

#[test]
fn upsert_replaces_in_place() {
    let mut h = DownloadHistory::new();
    h.upsert(entry("a", "A", DownloadState::Queued));
    h.upsert(entry("b", "B", DownloadState::Queued));
    h.upsert(entry("a", "A2", DownloadState::Queued));
    let names: Vec<&str> = h.all().iter().map(|e| e.name.as_str()).collect();
    assert_eq!(names, vec!["A2", "B"]);
}

#[test]
fn upsert_leaves_other_entries() {
    let mut h = DownloadHistory::new();
    h.upsert(entry("a", "A", DownloadState::Queued));
    h.upsert(entry("b", "B", DownloadState::Queued));
    assert_eq!(h.get("a").unwrap().name, "A");
}

#[test]
fn upsert_twice_is_upsert_once() {
    let mut once = DownloadHistory::new();
    once.upsert(entry("a", "A", DownloadState::Queued));
    let mut twice = DownloadHistory::new();
    twice.upsert(entry("a", "A", DownloadState::Queued));
    twice.upsert(entry("a", "A", DownloadState::Queued));
    assert_eq!(once.all().len(), twice.all().len());
    assert_eq!(once.all()[0].name, twice.all()[0].name);
}

#[test]
fn remove_returns_and_forgets() {
    let mut h = DownloadHistory::new();
    h.upsert(entry("a", "A", DownloadState::Queued));
    h.upsert(entry("b", "B", DownloadState::Queued));
    let r = h.remove("a").unwrap();
    assert_eq!(r.name, "A");
    assert!(h.get("a").is_none());
    assert_eq!(h.all().len(), 1);
    assert!(h.remove("a").is_none());
    assert!(h.remove("zzz").is_none());
}

#[test]
fn get_missing_is_none() {
    let h = DownloadHistory::new();
    assert!(h.get("a").is_none());
    assert!(h.all().is_empty());
}

#[test]
fn finished_lists_only_finished_in_order() {
    let mut h = DownloadHistory::new();
    h.upsert(entry("a", "A", DownloadState::Finished));
    h.upsert(entry("b", "B", DownloadState::Downloading));
    h.upsert(entry("c", "C", DownloadState::Finished));
    h.upsert(entry("d", "D", DownloadState::Error));
    let names: Vec<&str> = h.finished().iter().map(|e| e.name.as_str()).collect();
    assert_eq!(names, vec!["A", "C"]);
}
