//! The table of downloads that a torrent session keeps, and the decisions taken on it
//! when a download is added, when the engine reports on it, and when the user pauses,
//! resumes or removes it. The engine itself is driven from outside; each step here
//! takes what the engine answered as a plain value.
use vstd::prelude::*;
use crate::magnet::{
    display_name_defined, download_key, download_key_spec, extract_trackers_from_magnet,
    magnet_display_name, magnet_trackers, truncate_magnet,
};
use crate::order::{sort_dedup_strings, string_set, strictly_sorted_strings};
use crate::settings::{AppSettings, opt_str_view};
use crate::state::DownloadState;

verus! {

/// What the session remembers of one download. (The fraction done is not stored: it is
/// `downloaded / total_size`, or 0 while the size is unknown.)
pub struct TorrentHandle {
    pub name: String,
    pub torrent_id: Option<usize>,
    pub download_rate: u64,
    pub upload_rate: u64,
    pub total_size: u64,
    pub downloaded: u64,
    pub num_peers: u32,
    pub state: DownloadState,
    pub save_path: String,
    pub added_date: String,
    pub magnet: String,
    pub error: Option<String>,
}

/// A `TorrentHandle` with its strings seen as character sequences.
pub struct TorrentHandleView {
    pub name: Seq<char>,
    pub torrent_id: Option<usize>,
    pub download_rate: u64,
    pub upload_rate: u64,
    pub total_size: u64,
    pub downloaded: u64,
    pub num_peers: u32,
    pub state: DownloadState,
    pub save_path: Seq<char>,
    pub added_date: Seq<char>,
    pub magnet: Seq<char>,
    pub error: Option<Seq<char>>,
}

impl View for TorrentHandle {
    type V = TorrentHandleView;

    open spec fn view(&self) -> TorrentHandleView {
        TorrentHandleView {
            name: self.name@,
            torrent_id: self.torrent_id,
            download_rate: self.download_rate,
            upload_rate: self.upload_rate,
            total_size: self.total_size,
            downloaded: self.downloaded,
            num_peers: self.num_peers,
            state: self.state,
            save_path: self.save_path@,
            added_date: self.added_date@,
            magnet: self.magnet@,
            error: opt_str_view(self.error),
        }
    }
}

/// One row of the table: a download and its key.
pub struct TrackedDownload {
    pub hash: String,
    pub handle: TorrentHandle,
}

/// The engine's progress report on a torrent.
pub enum EngineState {
    Initializing,
    Live,
    Paused,
    Error,
}

/// What the engine reports of one torrent it manages.
pub struct TorrentReport {
    pub name: Option<String>,
    pub total_bytes: u64,
    pub progress_bytes: u64,
    pub finished: bool,
    pub state: EngineState,
    /// Download and upload speed, in bytes per second, while the torrent is live.
    pub live_rates: Option<(u64, u64)>,
}

/// How the engine answered a request to add a torrent.
pub enum AddOutcome {
    /// Added now, under this id.
    Added { id: usize, name: Option<String>, total_bytes: u64 },
    /// The engine had it already, under this id.
    AlreadyManaged { id: usize, name: Option<String>, total_bytes: u64 },
    /// The engine only listed the torrent's files.
    ListOnly,
    /// The engine failed, with this message.
    Failed { message: String },
}

/// The downloads of a session and the settings it runs with.
///
/// The downloads are a table keyed by the download key, held as a list of rows whose
/// keys are distinct (the type invariant). A `HashMap<String, _>` gets no specification
/// from vstd for `String` keys, and vstd's `StringHashMap` offers no way to list its
/// entries, which `downloads` and `engine_ids` need; the order of the rows carries no
/// meaning, and no contract speaks of it.
pub struct TorrentSessionInner {
    downloads: Vec<TrackedDownload>,
    settings: AppSettings,
}

/// The first index `>= i` of a row keyed `k`.
pub open spec fn slot_from(es: Seq<TrackedDownload>, k: Seq<char>, i: int) -> Option<int>
    decreases es.len() - i,
{
    if i < 0 || i >= es.len() {
        None
    } else if es[i].hash@ == k {
        Some(i)
    } else {
        slot_from(es, k, i + 1)
    }
}

/// The first index of a row keyed `k`.
pub open spec fn slot_of(es: Seq<TrackedDownload>, k: Seq<char>) -> Option<int> {
    slot_from(es, k, 0)
}

/// No two rows share a key.
pub open spec fn keys_distinct(es: Seq<TrackedDownload>) -> bool {
    forall|i: int, j: int|
        0 <= i < es.len() && 0 <= j < es.len() && i != j ==> #[trigger] es[i].hash@
            != #[trigger] es[j].hash@
}

/// The rows seen as a map from key to download.
pub open spec fn table_view(es: Seq<TrackedDownload>) -> Map<Seq<char>, TorrentHandleView> {
    Map::new(
        |k: Seq<char>| slot_of(es, k) is Some,
        |k: Seq<char>| es[slot_of(es, k)->0].handle@,
    )
}

/// A download just added: connecting, nothing known of it yet.
pub open spec fn fresh_handle(
    name: Seq<char>,
    save_path: Seq<char>,
    added_date: Seq<char>,
    magnet: Seq<char>,
) -> TorrentHandleView {
    TorrentHandleView {
        name,
        torrent_id: None,
        download_rate: 0,
        upload_rate: 0,
        total_size: 0,
        downloaded: 0,
        num_peers: 0,
        state: DownloadState::Connecting,
        save_path,
        added_date,
        magnet,
        error: None,
    }
}

/// A failed download started over: connecting again, counters cleared, name,
/// folder and link kept.
pub open spec fn reset_handle(h: TorrentHandleView, added_date: Seq<char>) -> TorrentHandleView {
    TorrentHandleView {
        torrent_id: None,
        download_rate: 0,
        upload_rate: 0,
        total_size: 0,
        downloaded: 0,
        num_peers: 0,
        state: DownloadState::Connecting,
        added_date,
        error: None,
        ..h
    }
}

/// The name reported by the engine, or the one kept so far.
pub open spec fn name_or(reported: Option<String>, kept: Seq<char>) -> Seq<char> {
    match reported {
        Some(n) => n@,
        None => kept,
    }
}

/// A download once the engine has answered the request to add it.
pub open spec fn outcome_applied(h: TorrentHandleView, o: AddOutcome) -> TorrentHandleView {
    match o {
        AddOutcome::Added { id, name, total_bytes } => TorrentHandleView {
            torrent_id: Some(id),
            name: name_or(name, h.name),
            total_size: total_bytes,
            state: DownloadState::Downloading,
            ..h
        },
        AddOutcome::AlreadyManaged { id, name, total_bytes } => TorrentHandleView {
            torrent_id: Some(id),
            name: name_or(name, h.name),
            total_size: total_bytes,
            state: DownloadState::Downloading,
            ..h
        },
        AddOutcome::ListOnly => TorrentHandleView {
            state: DownloadState::Error,
            error: Some("List-only response"@),
            ..h
        },
        AddOutcome::Failed { message } => TorrentHandleView {
            state: DownloadState::Error,
            error: Some(message@),
            ..h
        },
    }
}

/// The state shown for a torrent the engine reports on.
pub open spec fn state_from_report(finished: bool, state: EngineState, live: bool) -> DownloadState {
    if finished {
        DownloadState::Finished
    } else {
        match state {
            EngineState::Paused => DownloadState::Paused,
            EngineState::Live => if live {
                DownloadState::Downloading
            } else {
                DownloadState::Connecting
            },
            EngineState::Initializing => DownloadState::Connecting,
            EngineState::Error => DownloadState::Error,
        }
    }
}

/// A download refreshed from the engine's report.
pub open spec fn report_applied(h: TorrentHandleView, r: TorrentReport) -> TorrentHandleView {
    TorrentHandleView {
        name: name_or(r.name, h.name),
        total_size: r.total_bytes,
        downloaded: r.progress_bytes,
        download_rate: match r.live_rates {
            Some(rates) => rates.0,
            None => 0,
        },
        upload_rate: match r.live_rates {
            Some(rates) => rates.1,
            None => 0,
        },
        state: state_from_report(r.finished, r.state, r.live_rates is Some),
        ..h
    }
}

/// A paused download: no longer receiving.
pub open spec fn paused_handle(h: TorrentHandleView) -> TorrentHandleView {
    TorrentHandleView { state: DownloadState::Paused, download_rate: 0, ..h }
}

/// A resumed download.
pub open spec fn resumed_handle(h: TorrentHandleView) -> TorrentHandleView {
    TorrentHandleView { state: DownloadState::Downloading, ..h }
}

/// The table after starting the download of `magnet` (key `download_key_spec(magnet)`),
/// and whether the engine is to be asked to add it.
pub open spec fn begin_spec(
    t: Map<Seq<char>, TorrentHandleView>,
    magnet: Seq<char>,
    save_path: Seq<char>,
    added_date: Seq<char>,
) -> (Map<Seq<char>, TorrentHandleView>, bool) {
    let k = download_key_spec(magnet);
    if !t.contains_key(k) {
        (t.insert(k, fresh_handle(magnet_display_name(magnet), save_path, added_date, magnet)), true)
    } else if t[k].state == DownloadState::Error {
        (t.insert(k, reset_handle(t[k], added_date)), true)
    } else {
        (t, false)
    }
}

/// Starting a download that is already under way again changes nothing and does not ask
/// the engine again; this holds in particular of a second start right after a first.
pub proof fn law_begin_twice(
    t: Map<Seq<char>, TorrentHandleView>,
    magnet: Seq<char>,
    save1: Seq<char>,
    date1: Seq<char>,
    save2: Seq<char>,
    date2: Seq<char>,
)
    ensures
        begin_spec(begin_spec(t, magnet, save1, date1).0, magnet, save2, date2) == (
            begin_spec(t, magnet, save1, date1).0,
            false,
        ),
{
}

/// Starting a download whose key is already kept, in any state but `Error` (connecting,
/// downloading, paused or finished), changes nothing and does not ask the engine: only a
/// failed download is started over.
pub proof fn law_begin_keeps_existing(
    t: Map<Seq<char>, TorrentHandleView>,
    magnet: Seq<char>,
    save_path: Seq<char>,
    added_date: Seq<char>,
)
    requires
        t.contains_key(download_key_spec(magnet)),
        t[download_key_spec(magnet)].state != DownloadState::Error,
    ensures
        begin_spec(t, magnet, save_path, added_date).0 == t,
        !begin_spec(t, magnet, save_path, added_date).1,
{
}

/// Starting a download whose key is not kept yet adds it, connecting, with no engine id
/// and nothing transferred, under the folder, date and link given, and asks the engine;
/// no other download changes.
pub proof fn law_begin_new(
    t: Map<Seq<char>, TorrentHandleView>,
    magnet: Seq<char>,
    save_path: Seq<char>,
    added_date: Seq<char>,
)
    requires
        !t.contains_key(download_key_spec(magnet)),
    ensures
        ({
            let k = download_key_spec(magnet);
            let (t2, ask) = begin_spec(t, magnet, save_path, added_date);
            &&& ask
            &&& t2.dom() == t.dom().insert(k)
            &&& forall|j: Seq<char>| #[trigger] t.contains_key(j) ==> t2[j] == t[j]
            &&& t2[k].state == DownloadState::Connecting
            &&& t2[k].torrent_id is None
            &&& t2[k].downloaded == 0 && t2[k].total_size == 0
            &&& t2[k].download_rate == 0 && t2[k].upload_rate == 0
            &&& t2[k].save_path == save_path
            &&& t2[k].added_date == added_date
            &&& t2[k].magnet == magnet
            &&& t2[k].error is None
        }),
{
    let k = download_key_spec(magnet);
    let t2 = begin_spec(t, magnet, save_path, added_date).0;
    assert(t2.dom() =~= t.dom().insert(k));
}

/// Removing a download that was just started for the first time leaves the table as it was.
pub proof fn law_remove_after_begin(
    t: Map<Seq<char>, TorrentHandleView>,
    magnet: Seq<char>,
    save_path: Seq<char>,
    added_date: Seq<char>,
)
    requires
        !t.contains_key(download_key_spec(magnet)),
    ensures
        begin_spec(t, magnet, save_path, added_date).0.remove(download_key_spec(magnet)) == t,
{
    assert(begin_spec(t, magnet, save_path, added_date).0.remove(download_key_spec(magnet)) =~= t);
}

/// A failed download, started again, connects afresh: no engine id, no error, counters
/// cleared, and the engine is asked again.
pub proof fn law_restart_after_error(
    t: Map<Seq<char>, TorrentHandleView>,
    magnet: Seq<char>,
    save_path: Seq<char>,
    added_date: Seq<char>,
)
    requires
        t.contains_key(download_key_spec(magnet)),
        t[download_key_spec(magnet)].state == DownloadState::Error,
    ensures
        ({
            let (t2, ask) = begin_spec(t, magnet, save_path, added_date);
            let h = t2[download_key_spec(magnet)];
            &&& ask
            &&& h.state == DownloadState::Connecting
            &&& h.torrent_id is None
            &&& h.error is None
            &&& h.downloaded == 0 && h.total_size == 0
            &&& h.magnet == t[download_key_spec(magnet)].magnet
            &&& h.save_path == t[download_key_spec(magnet)].save_path
        }),
{
}

/// Whatever else it says, a report that the torrent is finished shows it finished.
pub proof fn law_finished_report(h: TorrentHandleView, r: TorrentReport)
    requires
        r.finished,
    ensures
        report_applied(h, r).state == DownloadState::Finished,
        report_applied(h, r).downloaded == r.progress_bytes,
        report_applied(h, r).total_size == r.total_bytes,
{
}

/// A report takes the engine's figures: the size and bytes done it reports; the rates it
/// reports while the torrent is live, and no transfer at all (both rates 0) when it is not;
/// the reported name when there is one.
pub proof fn law_report_figures(h: TorrentHandleView, r: TorrentReport)
    ensures
        report_applied(h, r).total_size == r.total_bytes,
        report_applied(h, r).downloaded == r.progress_bytes,
        r.live_rates is None ==> report_applied(h, r).download_rate == 0
            && report_applied(h, r).upload_rate == 0,
        r.live_rates matches Some((d, u)) ==> report_applied(h, r).download_rate == d
            && report_applied(h, r).upload_rate == u,
        r.name matches Some(n) ==> report_applied(h, r).name == n@,
        r.name is None ==> report_applied(h, r).name == h.name,
{
}

/// Pausing, resuming, and any answer of the engine keep what identifies a download: its
/// link, its folder and the date it was added.
pub proof fn law_identity_kept(h: TorrentHandleView, o: AddOutcome, r: TorrentReport)
    ensures
        paused_handle(h).magnet == h.magnet && paused_handle(h).save_path == h.save_path
            && paused_handle(h).added_date == h.added_date,
        resumed_handle(h).magnet == h.magnet && resumed_handle(h).save_path == h.save_path
            && resumed_handle(h).added_date == h.added_date,
        outcome_applied(h, o).magnet == h.magnet && outcome_applied(h, o).save_path == h.save_path
            && outcome_applied(h, o).added_date == h.added_date,
        report_applied(h, r).magnet == h.magnet && report_applied(h, r).save_path == h.save_path
            && report_applied(h, r).added_date == h.added_date,
{
}

/// Pausing then resuming a download leaves it receiving nothing until the next report,
/// and otherwise as it was, but downloading.
pub proof fn law_pause_then_resume(h: TorrentHandleView)
    ensures
        resumed_handle(paused_handle(h)) == (TorrentHandleView {
            state: DownloadState::Downloading,
            download_rate: 0,
            ..h
        }),
{
}

/// The table after the reports, applied one after the other.
pub open spec fn reports_applied(
    t: Map<Seq<char>, TorrentHandleView>,
    rs: Seq<(String, TorrentReport)>,
) -> Map<Seq<char>, TorrentHandleView>
    decreases rs.len(),
{
    if rs.len() == 0 {
        t
    } else {
        let t0 = reports_applied(t, rs.drop_last());
        let k = rs.last().0@;
        if t0.contains_key(k) {
            t0.insert(k, report_applied(t0[k], rs.last().1))
        } else {
            t0
        }
    }
}

/// A refresh from reports on distinct downloads keeps the same downloads; each download
/// reported on is refreshed from its report, and every other is left as it was.
pub proof fn law_refresh_from_reports(
    t: Map<Seq<char>, TorrentHandleView>,
    rs: Seq<(String, TorrentReport)>,
    k: Seq<char>,
)
    requires
        forall|a: int, b: int| 0 <= a < b < rs.len() ==> (#[trigger] rs[a]).0@ != (#[trigger] rs[b]).0@,
    ensures
        reports_applied(t, rs).dom() == t.dom(),
        forall|i: int|
            0 <= i < rs.len() && t.contains_key(k) && (#[trigger] rs[i]).0@ == k ==> reports_applied(
                t,
                rs,
            )[k] == report_applied(t[k], rs[i].1),
        t.contains_key(k) && (forall|i: int| 0 <= i < rs.len() ==> (#[trigger] rs[i]).0@ != k)
            ==> reports_applied(t, rs)[k] == t[k],
    decreases rs.len(),
{
    if rs.len() > 0 {
        let rs0 = rs.drop_last();
        let t0 = reports_applied(t, rs0);
        let last = rs.last();
        assert forall|a: int, b: int| 0 <= a < b < rs0.len() implies (#[trigger] rs0[a]).0@
            != (#[trigger] rs0[b]).0@ by {
            assert(rs0[a] == rs[a]);
            assert(rs0[b] == rs[b]);
        }
        law_refresh_from_reports(t, rs0, k);
        assert(reports_applied(t, rs).dom() =~= t.dom());
        assert forall|i: int|
            0 <= i < rs.len() && t.contains_key(k) && (#[trigger] rs[i]).0@ == k implies reports_applied(
            t,
            rs,
        )[k] == report_applied(t[k], rs[i].1) by {
            if i < rs.len() - 1 {
                assert(rs0[i] == rs[i]);
                assert(rs[i].0@ != rs[rs.len() - 1].0@);
            } else {
                assert forall|j: int| 0 <= j < rs0.len() implies (#[trigger] rs0[j]).0@ != k by {
                    assert(rs0[j] == rs[j]);
                    assert(rs[j].0@ != rs[rs.len() - 1].0@);
                }
            }
        }
        if t.contains_key(k) && (forall|i: int| 0 <= i < rs.len() ==> (#[trigger] rs[i]).0@ != k) {
            assert forall|j: int| 0 <= j < rs0.len() implies (#[trigger] rs0[j]).0@ != k by {
                assert(rs0[j] == rs[j]);
            }
            assert(rs[rs.len() - 1].0@ != k);
        }
    }
}

/// The error message for a key that the table does not hold.
pub open spec fn not_found_message() -> Seq<char> {
    "Download not found"@
}

/// What `slot_from` finds: the first row keyed `k`, or none at all.
pub proof fn lemma_slot_from(es: Seq<TrackedDownload>, k: Seq<char>, i: int)
    requires
        0 <= i,
    ensures
        slot_from(es, k, i) matches Some(j) ==> i <= j < es.len() && es[j].hash@ == k
            && forall|m: int| i <= m < j ==> #[trigger] es[m].hash@ != k,
        slot_from(es, k, i) is None ==> forall|m: int|
            i <= m < es.len() ==> #[trigger] es[m].hash@ != k,
    decreases es.len() - i,
{
    if i >= es.len() {
    } else if es[i].hash@ == k {
    } else {
        lemma_slot_from(es, k, i + 1);
    }
}

/// With distinct keys, the row keyed `es[i].hash` is row `i`.
pub proof fn lemma_slot_distinct(es: Seq<TrackedDownload>, i: int)
    requires
        keys_distinct(es),
        0 <= i < es.len(),
    ensures
        slot_of(es, es[i].hash@) == Some(i),
{
    lemma_slot_from(es, es[i].hash@, 0);
    match slot_of(es, es[i].hash@) {
        Some(j) => {
            if j < i {
                assert(es[i].hash@ != es[i].hash@);
            }
            if j > i {
                assert(es[j].hash@ != es[i].hash@);
            }
        },
        None => {
            assert(es[i].hash@ != es[i].hash@);
        },
    }
}

/// A key carried by no row has no slot.
pub proof fn lemma_slot_absent(es: Seq<TrackedDownload>, k: Seq<char>)
    requires
        forall|m: int| 0 <= m < es.len() ==> #[trigger] es[m].hash@ != k,
    ensures
        slot_of(es, k) is None,
{
    lemma_slot_from(es, k, 0);
    if let Some(j) = slot_of(es, k) {
        assert(es[j].hash@ != k);
    }
}

/// With distinct keys, the map holds exactly the rows.
pub proof fn lemma_view_rows(es: Seq<TrackedDownload>)
    requires
        keys_distinct(es),
    ensures
        forall|i: int|
            0 <= i < es.len() ==> table_view(es).contains_key(#[trigger] es[i].hash@)
                && table_view(es)[es[i].hash@] == es[i].handle@,
        forall|k: Seq<char>|
            #[trigger] table_view(es).contains_key(k) ==> exists|i: int|
                0 <= i < es.len() && es[i].hash@ == k,
{
    assert forall|i: int| 0 <= i < es.len() implies table_view(es).contains_key(
        #[trigger] es[i].hash@,
    ) && table_view(es)[es[i].hash@] == es[i].handle@ by {
        lemma_slot_distinct(es, i);
    }
    assert forall|k: Seq<char>| #[trigger] table_view(es).contains_key(k) implies exists|i: int|
        0 <= i < es.len() && es[i].hash@ == k by {
        lemma_slot_from(es, k, 0);
    }
}

/// The map of `es` is determined by where each key lies: a map built from the rows of
/// `es` with distinct keys is `table_view(es)`.
pub proof fn lemma_view_is(es: Seq<TrackedDownload>, m: Map<Seq<char>, TorrentHandleView>)
    requires
        keys_distinct(es),
        forall|i: int|
            0 <= i < es.len() ==> m.contains_key(#[trigger] es[i].hash@) && m[es[i].hash@]
                == es[i].handle@,
        forall|k: Seq<char>|
            #[trigger] m.contains_key(k) ==> exists|i: int| 0 <= i < es.len() && es[i].hash@ == k,
    ensures
        table_view(es) == m,
{
    lemma_view_rows(es);
    assert forall|k: Seq<char>| #[trigger] table_view(es).contains_key(k) == m.contains_key(k) by {
        if m.contains_key(k) {
            let i = choose|i: int| 0 <= i < es.len() && es[i].hash@ == k;
            assert(table_view(es).contains_key(es[i].hash@));
        }
        if table_view(es).contains_key(k) {
            let i = choose|i: int| 0 <= i < es.len() && es[i].hash@ == k;
            assert(m.contains_key(es[i].hash@));
        }
    }
    assert forall|k: Seq<char>| #[trigger] table_view(es).contains_key(k) implies table_view(es)[k]
        == m[k] by {
        let i = choose|i: int| 0 <= i < es.len() && es[i].hash@ == k;
        assert(table_view(es)[es[i].hash@] == es[i].handle@);
    }
    assert(table_view(es) =~= m);
}

/// Replacing a row's download, under the same key.
pub proof fn lemma_view_update(es: Seq<TrackedDownload>, i: int, x: TrackedDownload)
    requires
        keys_distinct(es),
        0 <= i < es.len(),
        x.hash@ == es[i].hash@,
    ensures
        keys_distinct(es.update(i, x)),
        table_view(es.update(i, x)) == table_view(es).insert(x.hash@, x.handle@),
{
    let new = es.update(i, x);
    let m = table_view(es).insert(x.hash@, x.handle@);
    lemma_view_rows(es);
    assert forall|a: int, b: int|
        0 <= a < new.len() && 0 <= b < new.len() && a != b implies #[trigger] new[a].hash@
        != #[trigger] new[b].hash@ by {
        assert(new[a].hash@ == es[a].hash@);
        assert(new[b].hash@ == es[b].hash@);
    }
    assert forall|j: int| 0 <= j < new.len() implies m.contains_key(#[trigger] new[j].hash@)
        && m[new[j].hash@] == new[j].handle@ by {
        if j != i {
            assert(new[j] == es[j]);
            assert(es[j].hash@ != es[i].hash@);
        }
    }
    assert forall|k: Seq<char>| #[trigger] m.contains_key(k) implies exists|j: int|
        0 <= j < new.len() && new[j].hash@ == k by {
        if k == x.hash@ {
            assert(new[i].hash@ == k);
        } else {
            let j = choose|j: int| 0 <= j < es.len() && es[j].hash@ == k;
            assert(new[j].hash@ == k);
        }
    }
    lemma_view_is(new, m);
}

/// Appending a row under a new key.
pub proof fn lemma_view_push(es: Seq<TrackedDownload>, x: TrackedDownload)
    requires
        keys_distinct(es),
        !table_view(es).contains_key(x.hash@),
    ensures
        keys_distinct(es.push(x)),
        table_view(es.push(x)) == table_view(es).insert(x.hash@, x.handle@),
{
    let new = es.push(x);
    let m = table_view(es).insert(x.hash@, x.handle@);
    lemma_view_rows(es);
    assert forall|a: int, b: int|
        0 <= a < new.len() && 0 <= b < new.len() && a != b implies #[trigger] new[a].hash@
        != #[trigger] new[b].hash@ by {
        if a == es.len() {
            assert(table_view(es).contains_key(es[b].hash@));
        } else if b == es.len() {
            assert(table_view(es).contains_key(es[a].hash@));
        } else {
            assert(es[a].hash@ != es[b].hash@);
        }
    }
    assert forall|j: int| 0 <= j < new.len() implies m.contains_key(#[trigger] new[j].hash@)
        && m[new[j].hash@] == new[j].handle@ by {
        if j < es.len() {
            assert(new[j] == es[j]);
            assert(table_view(es).contains_key(es[j].hash@));
        }
    }
    assert forall|k: Seq<char>| #[trigger] m.contains_key(k) implies exists|j: int|
        0 <= j < new.len() && new[j].hash@ == k by {
        if k == x.hash@ {
            assert(new[es.len() as int].hash@ == k);
        } else {
            let j = choose|j: int| 0 <= j < es.len() && es[j].hash@ == k;
            assert(new[j].hash@ == k);
        }
    }
    lemma_view_is(new, m);
}

/// Removing a row.
pub proof fn lemma_view_remove(es: Seq<TrackedDownload>, i: int)
    requires
        keys_distinct(es),
        0 <= i < es.len(),
    ensures
        keys_distinct(es.remove(i)),
        table_view(es.remove(i)) == table_view(es).remove(es[i].hash@),
{
    let new = es.remove(i);
    let key = es[i].hash@;
    let m = table_view(es).remove(key);
    lemma_view_rows(es);
    assert forall|j: int| 0 <= j < new.len() implies #[trigger] new[j] == (if j < i {
        es[j]
    } else {
        es[j + 1]
    }) by {}
    assert forall|a: int, b: int|
        0 <= a < new.len() && 0 <= b < new.len() && a != b implies #[trigger] new[a].hash@
        != #[trigger] new[b].hash@ by {
        let a2 = if a < i { a } else { a + 1 };
        let b2 = if b < i { b } else { b + 1 };
        assert(new[a] == es[a2]);
        assert(new[b] == es[b2]);
        assert(es[a2].hash@ != es[b2].hash@);
    }
    assert forall|j: int| 0 <= j < new.len() implies m.contains_key(#[trigger] new[j].hash@)
        && m[new[j].hash@] == new[j].handle@ by {
        let j2 = if j < i { j } else { j + 1 };
        assert(new[j] == es[j2]);
        assert(es[j2].hash@ != es[i].hash@);
    }
    assert forall|k: Seq<char>| #[trigger] m.contains_key(k) implies exists|j: int|
        0 <= j < new.len() && new[j].hash@ == k by {
        let j = choose|j: int| 0 <= j < es.len() && es[j].hash@ == k;
        if j < i {
            assert(new[j].hash@ == k);
        } else {
            assert(j != i);
            assert(new[j - 1].hash@ == k);
        }
    }
    lemma_view_is(new, m);
}

impl TorrentSessionInner {
    /// The downloads, keyed by their keys.
    pub closed spec fn table(&self) -> Map<Seq<char>, TorrentHandleView> {
        table_view(self.downloads@)
    }

    /// The settings the session runs with.
    pub closed spec fn settings_spec(&self) -> AppSettings {
        self.settings
    }

    /// The settings the session runs with.
    pub fn settings(&self) -> (r: &AppSettings)
        ensures
            *r == self.settings_spec(),
    {
        &self.settings
    }

    /// Replaces the settings; the downloads are kept.
    pub fn set_settings(&mut self, settings: AppSettings)
        ensures
            final(self).settings_spec() == settings,
            final(self).table() == old(self).table(),
    {
        proof {
            use_type_invariant(&*self);
        }
        self.settings = settings;
    }

    /// The rows carry distinct keys.
    #[verifier::type_invariant]
    spec fn wf(self) -> bool {
        keys_distinct(self.downloads@)
    }

    /// A session with no downloads.
    pub fn new(settings: AppSettings) -> (s: Self)
        ensures
            s.table() == Map::<Seq<char>, TorrentHandleView>::empty(),
            s.settings_spec() == settings,
    {
        let s = TorrentSessionInner { downloads: Vec::new(), settings };
        assert(s.table() =~= Map::<Seq<char>, TorrentHandleView>::empty());
        s
    }

    /// Index of the row keyed `hash`.
    fn slot(&self, hash: &str) -> (r: Option<usize>)
        ensures
            match r {
                Some(i) => i < self.downloads@.len() && self.downloads@[i as int].hash@ == hash@,
                None => !self.table().contains_key(hash@),
            },
    {
        proof {
            use_type_invariant(&*self);
        }
        let key = hash.to_owned();
        let mut i: usize = 0;
        while i < self.downloads.len()
            invariant
                i <= self.downloads@.len(),
                key@ == hash@,
                forall|m: int| 0 <= m < i ==> #[trigger] self.downloads@[m].hash@ != hash@,
            decreases self.downloads.len() - i,
        {
            if self.downloads[i].hash == key {
                return Some(i);
            }
            i = i + 1;
        }
        proof {
            lemma_slot_absent(self.downloads@, hash@);
        }
        None
    }

    /// Whether a download is kept under `hash`.
    pub fn contains(&self, hash: &str) -> (r: bool)
        ensures
            r == self.table().contains_key(hash@),
    {
        proof {
            use_type_invariant(&*self);
        }
        match self.slot(hash) {
            Some(i) => {
                proof {
                    lemma_view_rows(self.downloads@);
                }
                true
            },
            None => false,
        }
    }

    /// The download kept under `hash`.
    pub fn get(&self, hash: &str) -> (r: Option<&TorrentHandle>)
        ensures
            match r {
                Some(h) => self.table().contains_key(hash@) && self.table()[hash@] == h@,
                None => !self.table().contains_key(hash@),
            },
    {
        proof {
            use_type_invariant(&*self);
        }
        match self.slot(hash) {
            Some(i) => {
                proof {
                    lemma_view_rows(self.downloads@);
                }
                Some(&self.downloads[i].handle)
            },
            None => None,
        }
    }

    /// Every download with its key, each once, in some order.
    pub fn downloads(&self) -> (r: &[TrackedDownload])
        ensures
            keys_distinct(r@),
            table_view(r@) == self.table(),
            forall|i: int|
                0 <= i < r@.len() ==> self.table().contains_key(#[trigger] r@[i].hash@)
                    && self.table()[r@[i].hash@] == r@[i].handle@,
            forall|k: Seq<char>|
                #[trigger] self.table().contains_key(k) ==> exists|i: int|
                    0 <= i < r@.len() && r@[i].hash@ == k,
    {
        proof {
            use_type_invariant(&*self);
        }
        proof {
            lemma_view_rows(self.downloads@);
        }
        self.downloads.as_slice()
    }

    /// The downloads that the engine knows, with their engine ids.
    pub fn engine_ids(&self) -> (r: Vec<(String, usize)>)
        ensures
            forall|i: int|
                0 <= i < r@.len() ==> self.table().contains_key(#[trigger] r@[i].0@)
                    && self.table()[r@[i].0@].torrent_id == Some(r@[i].1),
            forall|k: Seq<char>|
                #[trigger] self.table().contains_key(k) && self.table()[k].torrent_id is Some
                    ==> exists|i: int| 0 <= i < r@.len() && r@[i].0@ == k,
            forall|a: int, b: int| 0 <= a < b < r@.len() ==> (#[trigger] r@[a]).0@ != (#[trigger] r@[b]).0@,
    {
        proof {
            use_type_invariant(&*self);
        }
        proof {
            lemma_view_rows(self.downloads@);
        }
        let mut out: Vec<(String, usize)> = Vec::new();
        let mut i: usize = 0;
        while i < self.downloads.len()
            invariant
                i <= self.downloads@.len(),
                keys_distinct(self.downloads@),
                forall|j: int|
                    0 <= j < self.downloads@.len() ==> table_view(self.downloads@).contains_key(
                        #[trigger] self.downloads@[j].hash@,
                    ) && table_view(self.downloads@)[self.downloads@[j].hash@]
                        == self.downloads@[j].handle@,
                forall|j: int|
                    0 <= j < out@.len() ==> self.table().contains_key(#[trigger] out@[j].0@)
                        && self.table()[out@[j].0@].torrent_id == Some(out@[j].1),
                forall|m: int|
                    0 <= m < i && (#[trigger] self.downloads@[m]).handle.torrent_id is Some
                        ==> exists|j: int| 0 <= j < out@.len() && out@[j].0@ == self.downloads@[m].hash@,
                forall|j: int| #![trigger out@[j]]
                    0 <= j < out@.len() ==> exists|m: int|
                        0 <= m < i && #[trigger] self.downloads@[m].hash@ == out@[j].0@,
                forall|a: int, b: int|
                    0 <= a < b < out@.len() ==> (#[trigger] out@[a]).0@ != (#[trigger] out@[b]).0@,
            decreases self.downloads.len() - i,
        {
            let row = &self.downloads[i];
            let ghost old_out = out@;
            match row.handle.torrent_id {
                Some(id) => {
                    let key = row.hash.clone();
                    proof {
                        assert forall|j: int| 0 <= j < old_out.len() implies old_out[j].0@
                            != self.downloads@[i as int].hash@ by {
                            let m = choose|m: int| 0 <= m < i && #[trigger] self.downloads@[m].hash@ == old_out[j].0@;
                            assert(self.downloads@[m].hash@ != self.downloads@[i as int].hash@);
                        }
                    }
                    out.push((key, id));
                    assert(out@[out@.len() - 1].0@ == self.downloads@[i as int].hash@);
                    assert forall|a: int, b: int|
                        0 <= a < b < out@.len() implies (#[trigger] out@[a]).0@ != (#[trigger] out@[b]).0@ by {
                        if b == out@.len() - 1 {
                            assert(out@[a] == old_out[a]);
                        } else {
                            assert(out@[a] == old_out[a]);
                            assert(out@[b] == old_out[b]);
                        }
                    }
                    assert forall|j: int| #![trigger out@[j]] 0 <= j < out@.len() implies exists|m: int|
                        0 <= m < i + 1 && #[trigger] self.downloads@[m].hash@ == out@[j].0@ by {
                        if j < old_out.len() {
                            assert(out@[j] == old_out[j]);
                            let m = choose|m: int| 0 <= m < i && #[trigger] self.downloads@[m].hash@ == old_out[j].0@;
                        } else {
                            assert(self.downloads@[i as int].hash@ == out@[j].0@);
                        }
                    }
                },
                None => {
                    assert forall|j: int| #![trigger out@[j]] 0 <= j < out@.len() implies exists|m: int|
                        0 <= m < i + 1 && #[trigger] self.downloads@[m].hash@ == out@[j].0@ by {
                        let m = choose|m: int| 0 <= m < i && #[trigger] self.downloads@[m].hash@ == out@[j].0@;
                    }
                },
            }
            assert forall|m: int|
                0 <= m < i + 1 && (#[trigger] self.downloads@[m]).handle.torrent_id is Some
                    implies exists|j: int| 0 <= j < out@.len() && out@[j].0@ == self.downloads@[m].hash@ by {
                if m < i {
                    let j = choose|j: int| 0 <= j < old_out.len() && old_out[j].0@ == self.downloads@[m].hash@;
                    assert(out@[j] == old_out[j]);
                } else {
                    assert(out@[out@.len() - 1].0@ == self.downloads@[i as int].hash@);
                }
            }
            i = i + 1;
        }
        proof {
            assert forall|k: Seq<char>|
                #[trigger] self.table().contains_key(k) && self.table()[k].torrent_id is Some
                    implies exists|j: int| 0 <= j < out@.len() && out@[j].0@ == k by {
                let m = choose|m: int| 0 <= m < self.downloads@.len() && self.downloads@[m].hash@ == k;
                assert(self.downloads@[m].handle.torrent_id is Some);
            }
        }
        out
    }

    /// The engine id of the download kept under `hash`: `None` when there is no such
    /// download, `Some(None)` while the engine has not taken it yet.
    pub fn engine_id(&self, hash: &str) -> (r: Option<Option<usize>>)
        ensures
            match r {
                Some(id) => self.table().contains_key(hash@) && self.table()[hash@].torrent_id
                    == id,
                None => !self.table().contains_key(hash@),
            },
    {
        proof {
            use_type_invariant(&*self);
        }
        match self.get(hash) {
            Some(h) => Some(h.torrent_id),
            None => None,
        }
    }

    /// Replaces the download in row `i` by `f` of it.
    fn replace_handle(&mut self, i: usize, handle: TorrentHandle)
        requires
            i < old(self).downloads@.len(),
        ensures
            final(self).settings_spec() == old(self).settings_spec(),
            final(self).table() == old(self).table().insert(
                old(self).downloads@[i as int].hash@,
                handle@,
            ),
    {
        proof {
            use_type_invariant(&*self);
        }
        let hash = self.downloads[i].hash.clone();
        let row = TrackedDownload { hash, handle };
        proof {
            lemma_view_update(self.downloads@, i as int, row);
        }
        let mut rows: Vec<TrackedDownload> = Vec::new();
        std::mem::swap(&mut rows, &mut self.downloads);
        rows.set(i, row);
        self.downloads = rows;
    }

    /// Starts tracking the download of `magnet` into `save_path`, added at `added_date`.
    /// Returns the download's key and whether the engine is to be asked to add it: yes for
    /// a new download (which starts connecting) and for a failed one (which starts over);
    /// no for one already under way, which is left as it is.
    pub fn begin_download(&mut self, magnet: &str, save_path: &str, added_date: &str) -> (r: (
        String,
        bool,
    ))
        requires
            old(self).table().contains_key(download_key_spec(magnet@)) || display_name_defined(
                magnet@,
            ),
        ensures
            final(self).settings_spec() == old(self).settings_spec(),
            r.0@ == download_key_spec(magnet@),
            (final(self).table(), r.1) == begin_spec(
                old(self).table(),
                magnet@,
                save_path@,
                added_date@,
            ),
            old(self).table().contains_key(r.0@) && old(self).table()[r.0@].state
                != DownloadState::Error ==> final(self).table() == old(self).table() && !r.1,
            !old(self).table().contains_key(r.0@) ==> r.1 && final(self).table().contains_key(
                r.0@,
            ) && final(self).table()[r.0@].state == DownloadState::Connecting,
    {
        proof {
            use_type_invariant(&*self);
        }
        let key = download_key(magnet);
        match self.slot(key.as_str()) {
            Some(i) => {
                proof {
                    lemma_view_rows(self.downloads@);
                }
                let h = &self.downloads[i].handle;
                if h.state == DownloadState::Error {
                    let fresh = TorrentHandle {
                        name: h.name.clone(),
                        torrent_id: None,
                        download_rate: 0,
                        upload_rate: 0,
                        total_size: 0,
                        downloaded: 0,
                        num_peers: 0,
                        state: DownloadState::Connecting,
                        save_path: h.save_path.clone(),
                        added_date: added_date.to_owned(),
                        magnet: h.magnet.clone(),
                        error: None,
                    };
                    assert(fresh@ == reset_handle(self.table()[key@], added_date@));
                    self.replace_handle(i, fresh);
                    (key, true)
                } else {
                    (key, false)
                }
            },
            None => {
                let handle = TorrentHandle {
                    name: truncate_magnet(magnet),
                    torrent_id: None,
                    download_rate: 0,
                    upload_rate: 0,
                    total_size: 0,
                    downloaded: 0,
                    num_peers: 0,
                    state: DownloadState::Connecting,
                    save_path: save_path.to_owned(),
                    added_date: added_date.to_owned(),
                    magnet: magnet.to_owned(),
                    error: None,
                };
                let row = TrackedDownload { hash: key.clone(), handle };
                proof {
                    lemma_view_push(self.downloads@, row);
                }
                let mut rows: Vec<TrackedDownload> = Vec::new();
                std::mem::swap(&mut rows, &mut self.downloads);
                rows.push(row);
                self.downloads = rows;
                (key, true)
            },
        }
    }

    /// Records the engine's answer to the request to add the download kept under `hash`.
    /// Nothing changes when that download is no longer kept.
    pub fn apply_add_outcome(&mut self, hash: &str, outcome: AddOutcome)
        ensures
            final(self).settings_spec() == old(self).settings_spec(),
            old(self).table().contains_key(hash@) ==> final(self).table() == old(
                self,
            ).table().insert(hash@, outcome_applied(old(self).table()[hash@], outcome)),
            !old(self).table().contains_key(hash@) ==> final(self).table() == old(self).table(),
    {
        proof {
            use_type_invariant(&*self);
        }
        match self.slot(hash) {
            Some(i) => {
                proof {
                    lemma_view_rows(self.downloads@);
                }
                let h = &self.downloads[i].handle;
                let mut next = TorrentHandle {
                    name: h.name.clone(),
                    torrent_id: h.torrent_id,
                    download_rate: h.download_rate,
                    upload_rate: h.upload_rate,
                    total_size: h.total_size,
                    downloaded: h.downloaded,
                    num_peers: h.num_peers,
                    state: h.state,
                    save_path: h.save_path.clone(),
                    added_date: h.added_date.clone(),
                    magnet: h.magnet.clone(),
                    error: match &h.error {
                        Some(e) => Some(e.clone()),
                        None => None,
                    },
                };
                let ghost before = next@;
                assert(before == self.table()[hash@]);
                match outcome {
                    AddOutcome::Added { id, name, total_bytes } => {
                        next.torrent_id = Some(id);
                        match name {
                            Some(n) => next.name = n,
                            None => {},
                        }
                        next.total_size = total_bytes;
                        next.state = DownloadState::Downloading;
                    },
                    AddOutcome::AlreadyManaged { id, name, total_bytes } => {
                        next.torrent_id = Some(id);
                        match name {
                            Some(n) => next.name = n,
                            None => {},
                        }
                        next.total_size = total_bytes;
                        next.state = DownloadState::Downloading;
                    },
                    AddOutcome::ListOnly => {
                        next.state = DownloadState::Error;
                        next.error = Some(String::from_str("List-only response"));
                    },
                    AddOutcome::Failed { message } => {
                        next.state = DownloadState::Error;
                        next.error = Some(message);
                    },
                }
                assert(next@ == outcome_applied(before, outcome));
                self.replace_handle(i, next);
            },
            None => {},
        }
    }

    /// Refreshes the download kept under `hash` from the engine's report on it.
    /// Nothing changes when that download is no longer kept.
    pub fn apply_report(&mut self, hash: &str, report: &TorrentReport)
        ensures
            final(self).settings_spec() == old(self).settings_spec(),
            old(self).table().contains_key(hash@) ==> final(self).table() == old(
                self,
            ).table().insert(hash@, report_applied(old(self).table()[hash@], *report)),
            !old(self).table().contains_key(hash@) ==> final(self).table() == old(self).table(),
            old(self).table().contains_key(hash@) ==> ({
                let h = final(self).table()[hash@];
                &&& h.total_size == report.total_bytes
                &&& h.downloaded == report.progress_bytes
                &&& report.live_rates is None ==> h.download_rate == 0 && h.upload_rate == 0
                &&& report.live_rates matches Some((d, u)) ==> h.download_rate == d
                    && h.upload_rate == u
            }),
    {
        proof {
            use_type_invariant(&*self);
        }
        match self.slot(hash) {
            Some(i) => {
                proof {
                    lemma_view_rows(self.downloads@);
                }
                let h = &self.downloads[i].handle;
                let ghost before = h@;
                let live = report.live_rates.is_some();
                let state = download_state_from_report(report.finished, &report.state, live);
                let (dl, ul) = match report.live_rates {
                    Some(rates) => rates,
                    None => (0, 0),
                };
                let name = match &report.name {
                    Some(n) => n.clone(),
                    None => h.name.clone(),
                };
                let next = TorrentHandle {
                    name,
                    torrent_id: h.torrent_id,
                    download_rate: dl,
                    upload_rate: ul,
                    total_size: report.total_bytes,
                    downloaded: report.progress_bytes,
                    num_peers: h.num_peers,
                    state,
                    save_path: h.save_path.clone(),
                    added_date: h.added_date.clone(),
                    magnet: h.magnet.clone(),
                    error: match &h.error {
                        Some(e) => Some(e.clone()),
                        None => None,
                    },
                };
                assert(next@ == report_applied(before, *report));
                self.replace_handle(i, next);
            },
            None => {},
        }
    }

    /// Refreshes the downloads from the engine's reports, one after the other (a report
    /// on a download that is no longer kept changes nothing).
    pub fn apply_reports(&mut self, reports: &Vec<(String, TorrentReport)>)
        ensures
            final(self).settings_spec() == old(self).settings_spec(),
            final(self).table() == reports_applied(old(self).table(), reports@),
    {
        let mut i: usize = 0;
        while i < reports.len()
            invariant
                i <= reports@.len(),
                self.settings_spec() == old(self).settings_spec(),
                self.table() == reports_applied(old(self).table(), reports@.take(i as int)),
            decreases reports.len() - i,
        {
            assert(reports@.take(i + 1).drop_last() =~= reports@.take(i as int));
            assert(reports@.take(i + 1).last() == reports@[i as int]);
            self.apply_report(reports[i].0.as_str(), &reports[i].1);
            i = i + 1;
        }
        assert(reports@.take(reports@.len() as int) =~= reports@);
    }

    /// Ends a request to pause the download kept under `hash`, given what the engine
    /// answered (`Ok` when it was not asked). Unknown key: `Err("Download not found")`,
    /// nothing changes. Engine error: that error, nothing changes. Otherwise the download
    /// is paused and `Ok(true)` returned.
    pub fn finish_pause(&mut self, hash: &str, engine: Result<(), String>) -> (r: Result<
        bool,
        String,
    >)
        ensures
            final(self).settings_spec() == old(self).settings_spec(),
            !old(self).table().contains_key(hash@) ==> (r matches Err(e) && e@
                == not_found_message()) && final(self).table() == old(self).table(),
            old(self).table().contains_key(hash@) && engine is Err ==> (r matches Err(e)
                && engine matches Err(g) && e == g) && final(self).table() == old(self).table(),
            old(self).table().contains_key(hash@) && engine is Ok ==> r == Ok::<bool, String>(
                true,
            ) && final(self).table() == old(self).table().insert(
                hash@,
                paused_handle(old(self).table()[hash@]),
            ),
    {
        proof {
            use_type_invariant(&*self);
        }
        match self.slot(hash) {
            None => Err(String::from_str("Download not found")),
            Some(i) => {
                proof {
                    lemma_view_rows(self.downloads@);
                }
                match engine {
                    Err(e) => Err(e),
                    Ok(()) => {
                        let h = &self.downloads[i].handle;
                        let next = TorrentHandle {
                            name: h.name.clone(),
                            torrent_id: h.torrent_id,
                            download_rate: 0,
                            upload_rate: h.upload_rate,
                            total_size: h.total_size,
                            downloaded: h.downloaded,
                            num_peers: h.num_peers,
                            state: DownloadState::Paused,
                            save_path: h.save_path.clone(),
                            added_date: h.added_date.clone(),
                            magnet: h.magnet.clone(),
                            error: match &h.error {
                                Some(e) => Some(e.clone()),
                                None => None,
                            },
                        };
                        assert(next@ == paused_handle(self.table()[hash@]));
                        self.replace_handle(i, next);
                        Ok(true)
                    },
                }
            },
        }
    }

    /// Ends a request to resume the download kept under `hash`, given what the engine
    /// answered (`Ok` when it was not asked). Unknown key: `Err("Download not found")`,
    /// nothing changes. Engine error: that error, nothing changes. Otherwise the download
    /// is marked downloading and `Ok(true)` returned.
    pub fn finish_resume(&mut self, hash: &str, engine: Result<(), String>) -> (r: Result<
        bool,
        String,
    >)
        ensures
            final(self).settings_spec() == old(self).settings_spec(),
            !old(self).table().contains_key(hash@) ==> (r matches Err(e) && e@
                == not_found_message()) && final(self).table() == old(self).table(),
            old(self).table().contains_key(hash@) && engine is Err ==> (r matches Err(e)
                && engine matches Err(g) && e == g) && final(self).table() == old(self).table(),
            old(self).table().contains_key(hash@) && engine is Ok ==> r == Ok::<bool, String>(
                true,
            ) && final(self).table() == old(self).table().insert(
                hash@,
                resumed_handle(old(self).table()[hash@]),
            ),
    {
        proof {
            use_type_invariant(&*self);
        }
        match self.slot(hash) {
            None => Err(String::from_str("Download not found")),
            Some(i) => {
                proof {
                    lemma_view_rows(self.downloads@);
                }
                match engine {
                    Err(e) => Err(e),
                    Ok(()) => {
                        let h = &self.downloads[i].handle;
                        let next = TorrentHandle {
                            name: h.name.clone(),
                            torrent_id: h.torrent_id,
                            download_rate: h.download_rate,
                            upload_rate: h.upload_rate,
                            total_size: h.total_size,
                            downloaded: h.downloaded,
                            num_peers: h.num_peers,
                            state: DownloadState::Downloading,
                            save_path: h.save_path.clone(),
                            added_date: h.added_date.clone(),
                            magnet: h.magnet.clone(),
                            error: match &h.error {
                                Some(e) => Some(e.clone()),
                                None => None,
                            },
                        };
                        assert(next@ == resumed_handle(self.table()[hash@]));
                        self.replace_handle(i, next);
                        Ok(true)
                    },
                }
            },
        }
    }

    /// Stops tracking the download kept under `hash` and hands back its engine id (for the
    /// engine to drop it). Unknown key: `Err("Download not found")`, nothing changes.
    pub fn take_download(&mut self, hash: &str) -> (r: Result<Option<usize>, String>)
        ensures
            final(self).settings_spec() == old(self).settings_spec(),
            !old(self).table().contains_key(hash@) ==> (r matches Err(e) && e@
                == not_found_message()) && final(self).table() == old(self).table(),
            old(self).table().contains_key(hash@) ==> r == Ok::<Option<usize>, String>(
                old(self).table()[hash@].torrent_id,
            ) && final(self).table() == old(self).table().remove(hash@),
    {
        proof {
            use_type_invariant(&*self);
        }
        match self.slot(hash) {
            None => Err(String::from_str("Download not found")),
            Some(i) => {
                proof {
                    lemma_view_rows(self.downloads@);
                    lemma_view_remove(self.downloads@, i as int);
                }
                let mut rows: Vec<TrackedDownload> = Vec::new();
                std::mem::swap(&mut rows, &mut self.downloads);
                let row = rows.remove(i);
                self.downloads = rows;
                Ok(row.handle.torrent_id)
            },
        }
    }
}

/// The state shown for a torrent, from the engine's report.
pub fn download_state_from_report(finished: bool, state: &EngineState, live: bool) -> (s:
    DownloadState)
    ensures
        s == state_from_report(finished, *state, live),
{
    if finished {
        DownloadState::Finished
    } else {
        match state {
            EngineState::Paused => DownloadState::Paused,
            EngineState::Live => if live {
                DownloadState::Downloading
            } else {
                DownloadState::Connecting
            },
            EngineState::Initializing => DownloadState::Connecting,
            EngineState::Error => DownloadState::Error,
        }
    }
}

/// The trackers handed to the engine with a magnet link: the link's trackers, each once,
/// in increasing order (as `sort_unstable` then `dedup`).
pub fn engine_trackers(magnet: &str) -> (r: Vec<String>)
    ensures
        strictly_sorted_strings(r@),
        string_set(r@) == magnet_trackers(magnet@).to_set(),
{
    let found = extract_trackers_from_magnet(magnet);
    proof {
        let vs = found@.map_values(|t: String| t@);
        assert forall|x: Seq<char>| string_set(found@).contains(x) <==> vs.to_set().contains(x) by {
            if string_set(found@).contains(x) {
                let i = choose|i: int| 0 <= i < found@.len() && #[trigger] found@[i]@ == x;
                assert(vs[i] == x);
            }
            if vs.to_set().contains(x) {
                let i = choose|i: int| 0 <= i < vs.len() && vs[i] == x;
                assert(found@[i]@ == x);
            }
        }
        assert(string_set(found@) =~= vs.to_set());
    }
    sort_dedup_strings(found)
}

} // verus!
