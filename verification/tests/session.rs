use nyaland::magnet::download_key;
use nyaland::session::{
    download_state_from_report, engine_trackers, AddOutcome, EngineState, TorrentReport,
    TorrentSessionInner,
};
use nyaland::settings::AppSettings;
use nyaland::state::DownloadState;

const MAGNET: &str = "magnet:?xt=urn:btih:ABCDEF0123456789ABCDEF0123456789ABCDEF01&dn=Show%201&tr=udp%3A%2F%2Ft";
const KEY: &str = "abcdef0123456789abcdef0123456789abcdef01";

fn session() -> TorrentSessionInner {
    TorrentSessionInner::new(AppSettings::with_save_path("/tmp/dl".to_string()))
}

fn report(finished: bool, state: EngineState, live: Option<(u64, u64)>) -> TorrentReport {
    TorrentReport {
        name: Some("Real Name".to_string()),
        total_bytes: 1000,
        progress_bytes: 250,
        finished,
        state,
        live_rates: live,
    }
}

#[test]
fn new_download_is_connecting() {
    let mut s = session();
    let (key, ask) = s.begin_download(MAGNET, "/tmp/dl", "2024-01-01");
    assert_eq!(key, KEY);
    assert!(ask);
    let h = s.get(KEY).unwrap();
    assert_eq!(h.state, DownloadState::Connecting);
    assert_eq!(h.name, "Show 1");
    assert_eq!(h.torrent_id, None);
    assert_eq!(h.save_path, "/tmp/dl");
    assert_eq!(h.magnet, MAGNET);
    assert_eq!(h.added_date, "2024-01-01");
    assert_eq!(h.total_size, 0);
}

#[test]
fn second_begin_does_not_ask_again() {
    let mut s = session();
    s.begin_download(MAGNET, "/tmp/dl", "d1");
    let (key, ask) = s.begin_download(MAGNET, "/elsewhere", "d2");
    assert_eq!(key, KEY);
    assert!(!ask);
    let h = s.get(KEY).unwrap();
    assert_eq!(h.save_path, "/tmp/dl");
    assert_eq!(h.added_date, "d1");
    assert_eq!(s.downloads().len(), 1);
}

#[test]
fn failed_download_restarts() {
    let mut s = session();
    s.begin_download(MAGNET, "/tmp/dl", "d1");
    s.apply_add_outcome(KEY, AddOutcome::Failed { message: "boom".to_string() });
    {
        let h = s.get(KEY).unwrap();
        assert_eq!(h.state, DownloadState::Error);
        assert_eq!(h.error, Some("boom".to_string()));
    }
    let (_, ask) = s.begin_download(MAGNET, "/other", "d2");
    assert!(ask);
    let h = s.get(KEY).unwrap();
    assert_eq!(h.state, DownloadState::Connecting);
    assert_eq!(h.error, None);
    assert_eq!(h.added_date, "d2");
    assert_eq!(h.save_path, "/tmp/dl");
}

#[test]
fn list_only_outcome_is_an_error() {
    let mut s = session();
    s.begin_download(MAGNET, "/tmp/dl", "d1");
    s.apply_add_outcome(KEY, AddOutcome::ListOnly);
    let h = s.get(KEY).unwrap();
    assert_eq!(h.state, DownloadState::Error);
    assert_eq!(h.error, Some("List-only response".to_string()));
}

#[test]
fn added_outcome_records_engine_id() {
    let mut s = session();
    s.begin_download(MAGNET, "/tmp/dl", "d1");
    s.apply_add_outcome(KEY, AddOutcome::Added { id: 7, name: Some("Real".to_string()), total_bytes: 99 });
    let h = s.get(KEY).unwrap();
    assert_eq!(h.torrent_id, Some(7));
    assert_eq!(h.name, "Real");
    assert_eq!(h.total_size, 99);
    assert_eq!(h.state, DownloadState::Downloading);
    assert_eq!(s.engine_ids(), vec![(KEY.to_string(), 7)]);
    assert_eq!(s.engine_id(KEY), Some(Some(7)));
}

#[test]
fn already_managed_without_name_keeps_name() {
    let mut s = session();
    s.begin_download(MAGNET, "/tmp/dl", "d1");
    s.apply_add_outcome(KEY, AddOutcome::AlreadyManaged { id: 3, name: None, total_bytes: 5 });
    let h = s.get(KEY).unwrap();
    assert_eq!(h.name, "Show 1");
    assert_eq!(h.torrent_id, Some(3));
}

#[test]
fn outcome_for_removed_download_is_ignored() {
    let mut s = session();
    s.apply_add_outcome(KEY, AddOutcome::ListOnly);
    assert!(!s.contains(KEY));
    assert!(s.downloads().is_empty());
}

#[test]
fn report_refreshes_download() {
    let mut s = session();
    s.begin_download(MAGNET, "/tmp/dl", "d1");
    s.apply_add_outcome(KEY, AddOutcome::Added { id: 1, name: None, total_bytes: 0 });
    s.apply_report(KEY, &report(false, EngineState::Live, Some((10, 20))));
    let h = s.get(KEY).unwrap();
    assert_eq!(h.name, "Real Name");
    assert_eq!(h.total_size, 1000);
    assert_eq!(h.downloaded, 250);
    assert_eq!(h.download_rate, 10);
    assert_eq!(h.upload_rate, 20);
    assert_eq!(h.state, DownloadState::Downloading);
    s.apply_report(KEY, &report(true, EngineState::Paused, None));
    let h = s.get(KEY).unwrap();
    assert_eq!(h.state, DownloadState::Finished);
    assert_eq!(h.download_rate, 0);
}

#[test]
fn report_states() {
    assert_eq!(download_state_from_report(true, &EngineState::Error, false), DownloadState::Finished);
    assert_eq!(download_state_from_report(false, &EngineState::Paused, true), DownloadState::Paused);
    assert_eq!(download_state_from_report(false, &EngineState::Live, true), DownloadState::Downloading);
    assert_eq!(download_state_from_report(false, &EngineState::Live, false), DownloadState::Connecting);
    assert_eq!(download_state_from_report(false, &EngineState::Initializing, false), DownloadState::Connecting);
    assert_eq!(download_state_from_report(false, &EngineState::Error, true), DownloadState::Error);
}

#[test]
fn pause_and_resume() {
    let mut s = session();
    s.begin_download(MAGNET, "/tmp/dl", "d1");
    s.apply_report(KEY, &report(false, EngineState::Live, Some((10, 20))));
    assert_eq!(s.finish_pause(KEY, Ok(())), Ok(true));
    let h = s.get(KEY).unwrap();
    assert_eq!(h.state, DownloadState::Paused);
    assert_eq!(h.download_rate, 0);
    assert_eq!(h.upload_rate, 20);
    assert_eq!(s.finish_resume(KEY, Ok(())), Ok(true));
    assert_eq!(s.get(KEY).unwrap().state, DownloadState::Downloading);
}

#[test]
fn engine_error_changes_nothing() {
    let mut s = session();
    s.begin_download(MAGNET, "/tmp/dl", "d1");
    assert_eq!(s.finish_pause(KEY, Err("engine".to_string())), Err("engine".to_string()));
    assert_eq!(s.get(KEY).unwrap().state, DownloadState::Connecting);
    assert_eq!(s.finish_resume(KEY, Err("later".to_string())), Err("later".to_string()));
    assert_eq!(s.get(KEY).unwrap().state, DownloadState::Connecting);
}

#[test]
fn unknown_download_is_not_found() {
    let mut s = session();
    assert_eq!(s.finish_pause("nope", Ok(())), Err("Download not found".to_string()));
    assert_eq!(s.finish_resume("nope", Ok(())), Err("Download not found".to_string()));
    assert_eq!(s.take_download("nope"), Err("Download not found".to_string()));
    assert_eq!(s.engine_id("nope"), None);
}

#[test]
fn remove_after_begin() {
    let mut s = session();
    s.begin_download(MAGNET, "/tmp/dl", "d1");
    assert_eq!(s.take_download(KEY), Ok(None));
    assert!(!s.contains(KEY));
    assert!(s.downloads().is_empty());
    assert_eq!(s.take_download(KEY), Err("Download not found".to_string()));
}

#[test]
fn remove_hands_back_engine_id() {
    let mut s = session();
    s.begin_download(MAGNET, "/tmp/dl", "d1");
    s.apply_add_outcome(KEY, AddOutcome::Added { id: 42, name: None, total_bytes: 1 });
    assert_eq!(s.take_download(KEY), Ok(Some(42)));
}

#[test]
fn downloads_without_hash_are_keyed_by_fnv() {
    let mut s = session();
    let m = "magnet:?dn=nohash";
    let (key, ask) = s.begin_download(m, "/tmp/dl", "d");
    assert!(ask);
    assert_eq!(key, download_key(m));
    assert!(s.contains(&key));
}

#[test]
fn settings_can_be_replaced() {
    let mut s = session();
    s.begin_download(MAGNET, "/tmp/dl", "d1");
    s.set_settings(AppSettings::with_save_path("/other".to_string()));
    assert_eq!(s.settings().save_path, "/other");
    assert!(s.contains(KEY));
}

#[test]
fn trackers_for_engine_are_sorted_unique() {
    let m = "magnet:?tr=udp%3A%2F%2Fb&tr=http://a&tr=udp://b&tr=http://a";
    assert_eq!(engine_trackers(m), vec!["http://a".to_string(), "udp://b".to_string()]);
}

#[test]
fn reports_refresh_only_their_rows() {
    let mut s = session();
    s.begin_download(MAGNET, "/tmp/dl", "d1");
    let other = "magnet:?xt=urn:btih:1111111111111111111111111111111111111111&dn=Other";
    let (other_key, _) = s.begin_download(other, "/tmp/dl", "d2");
    s.apply_add_outcome(KEY, AddOutcome::Added { id: 7, name: None, total_bytes: 0 });
    let ids = s.engine_ids();
    assert_eq!(ids, vec![(KEY.to_string(), 7)]);
    let reports = vec![
        (KEY.to_string(), report(false, EngineState::Live, Some((5, 6)))),
        ("unknown".to_string(), report(true, EngineState::Live, None)),
    ];
    s.apply_reports(&reports);
    let h = s.get(KEY).unwrap();
    assert_eq!(h.name, "Real Name");
    assert_eq!(h.downloaded, 250);
    assert_eq!(h.download_rate, 5);
    assert_eq!(h.state, DownloadState::Downloading);
    let o = s.get(&other_key).unwrap();
    assert_eq!(o.name, "Other");
    assert_eq!(o.state, DownloadState::Connecting);
    assert!(!s.contains("unknown"));
    assert_eq!(s.downloads().len(), 2);
}

#[test]
fn engine_ids_lists_each_download_once() {
    let mut s = session();
    s.begin_download(MAGNET, "/tmp/dl", "d1");
    s.begin_download(MAGNET, "/tmp/dl", "d2");
    s.apply_add_outcome(KEY, AddOutcome::Added { id: 3, name: None, total_bytes: 0 });
    s.apply_add_outcome(KEY, AddOutcome::AlreadyManaged { id: 3, name: None, total_bytes: 0 });
    assert_eq!(s.engine_ids(), vec![(KEY.to_string(), 3)]);
}
