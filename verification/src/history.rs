//! The download history: a list of entries keyed by info-hash.
use vstd::prelude::*;
use crate::state::DownloadState;

verus! {

/// One download, as remembered in the history.
#[derive(Debug, Clone)]
pub struct DownloadHistoryEntry {
    pub hash: String,
    pub name: String,
    pub magnet: String,
    pub save_path: String,
    pub total_size: u64,
    pub state: DownloadState,
    pub added_date: String,
    pub completed_date: Option<String>,
    pub error: Option<String>,
}

/// The remembered downloads, in the order they were first recorded.
#[derive(Debug, Clone)]
pub struct DownloadHistory {
    pub entries: Vec<DownloadHistoryEntry>,
}

/// The first index `>= i` whose entry has hash `h`.
pub open spec fn position_from(es: Seq<DownloadHistoryEntry>, h: Seq<char>, i: int) -> Option<int>
    decreases es.len() - i,
{
    if i < 0 || i >= es.len() {
        None
    } else if es[i].hash@ == h {
        Some(i)
    } else {
        position_from(es, h, i + 1)
    }
}

/// The first index whose entry has hash `h`.
pub open spec fn position_of(es: Seq<DownloadHistoryEntry>, h: Seq<char>) -> Option<int> {
    position_from(es, h, 0)
}

/// The entry recorded under `h` (the first one, should there be several).
pub open spec fn lookup(es: Seq<DownloadHistoryEntry>, h: Seq<char>) -> Option<DownloadHistoryEntry> {
    match position_of(es, h) {
        Some(i) => Some(es[i]),
        None => None,
    }
}

/// `es` with `e` recorded: it replaces the first entry with the same hash, or is appended.
pub open spec fn upserted(es: Seq<DownloadHistoryEntry>, e: DownloadHistoryEntry) -> Seq<
    DownloadHistoryEntry,
> {
    match position_of(es, e.hash@) {
        Some(i) => es.update(i, e),
        None => es.push(e),
    }
}

/// `es` without the first entry recorded under `h`.
pub open spec fn removed(es: Seq<DownloadHistoryEntry>, h: Seq<char>) -> Seq<DownloadHistoryEntry> {
    match position_of(es, h) {
        Some(i) => es.remove(i),
        None => es,
    }
}

/// The entries whose state is `Finished`, in order.
pub open spec fn finished_of(es: Seq<DownloadHistoryEntry>) -> Seq<DownloadHistoryEntry>
    decreases es.len(),
{
    if es.len() == 0 {
        seq![]
    } else if es.last().state == DownloadState::Finished {
        finished_of(es.drop_last()).push(es.last())
    } else {
        finished_of(es.drop_last())
    }
}

/// No two entries share a hash.
pub open spec fn distinct_hashes(es: Seq<DownloadHistoryEntry>) -> bool {
    forall|i: int, j: int|
        0 <= i < es.len() && 0 <= j < es.len() && i != j ==> #[trigger] es[i].hash@
            != #[trigger] es[j].hash@
}

/// What `position_from` finds: the first matching index, or none at all.
pub proof fn lemma_position_from(es: Seq<DownloadHistoryEntry>, h: Seq<char>, i: int)
    requires
        0 <= i,
    ensures
        position_from(es, h, i) matches Some(j) ==> i <= j < es.len() && es[j].hash@ == h
            && forall|k: int| i <= k < j ==> #[trigger] es[k].hash@ != h,
        position_from(es, h, i) is None ==> forall|k: int|
            i <= k < es.len() ==> #[trigger] es[k].hash@ != h,
    decreases es.len() - i,
{
    if i >= es.len() {
    } else if es[i].hash@ == h {
    } else {
        lemma_position_from(es, h, i + 1);
    }
}

/// `position_of` is determined by where the first match lies.
pub proof fn lemma_position_of_is(es: Seq<DownloadHistoryEntry>, h: Seq<char>, j: int)
    requires
        0 <= j <= es.len(),
        j < es.len() ==> es[j].hash@ == h,
        forall|k: int| 0 <= k < j ==> #[trigger] es[k].hash@ != h,
    ensures
        position_of(es, h) == (if j < es.len() {
            Some(j)
        } else {
            None::<int>
        }),
{
    lemma_position_from(es, h, 0);
    match position_of(es, h) {
        Some(p) => {
            if p < j {
                assert(es[p].hash@ != h);
            }
            if p > j {
                assert(es[j].hash@ != h);
            }
        },
        None => {
            if j < es.len() {
                assert(es[j].hash@ != h);
            }
        },
    }
}

/// Recording `e` makes it the entry found under its hash.
pub proof fn law_lookup_after_upsert(es: Seq<DownloadHistoryEntry>, e: DownloadHistoryEntry)
    ensures
        lookup(upserted(es, e), e.hash@) == Some(e),
{
    let h = e.hash@;
    lemma_position_from(es, h, 0);
    let new = upserted(es, e);
    match position_of(es, h) {
        Some(i) => {
            assert forall|k: int| 0 <= k < i implies #[trigger] new[k].hash@ != h by {
                assert(new[k] == es[k]);
            }
            lemma_position_of_is(new, h, i);
        },
        None => {
            assert forall|k: int| 0 <= k < es.len() implies #[trigger] new[k].hash@ != h by {
                assert(new[k] == es[k]);
            }
            lemma_position_of_is(new, h, es.len() as int);
        },
    }
}

/// Recording `e` does not change what is found under any other hash.
pub proof fn law_lookup_other_after_upsert(
    es: Seq<DownloadHistoryEntry>,
    e: DownloadHistoryEntry,
    h: Seq<char>,
)
    requires
        h != e.hash@,
    ensures
        lookup(upserted(es, e), h) == lookup(es, h),
{
    lemma_position_from(es, h, 0);
    lemma_position_from(es, e.hash@, 0);
    let new = upserted(es, e);
    match position_of(es, h) {
        Some(i) => {
            assert forall|k: int| 0 <= k < i implies #[trigger] new[k].hash@ != h by {
                if k < es.len() {
                    assert(new[k] == es[k] || new[k] == e);
                }
            }
            assert(new[i] == es[i] || new[i] == e);
            lemma_position_of_is(new, h, i);
        },
        None => {
            assert forall|k: int| 0 <= k < new.len() implies #[trigger] new[k].hash@ != h by {
                if k < es.len() {
                    assert(new[k] == es[k] || new[k] == e);
                } else {
                    assert(new[k] == e);
                }
            }
            lemma_position_of_is(new, h, new.len() as int);
        },
    }
}

/// Recording an entry keeps the hashes distinct.
pub proof fn law_upsert_keeps_distinct(es: Seq<DownloadHistoryEntry>, e: DownloadHistoryEntry)
    requires
        distinct_hashes(es),
    ensures
        distinct_hashes(upserted(es, e)),
{
    lemma_position_from(es, e.hash@, 0);
    let new = upserted(es, e);
    match position_of(es, e.hash@) {
        Some(p) => {
            assert forall|i: int, j: int|
                0 <= i < new.len() && 0 <= j < new.len() && i != j implies #[trigger] new[i].hash@
                != #[trigger] new[j].hash@ by {
                if i == p {
                    assert(es[j].hash@ != es[p].hash@);
                } else if j == p {
                    assert(es[i].hash@ != es[p].hash@);
                } else {
                    assert(es[i].hash@ != es[j].hash@);
                }
            }
        },
        None => {
            assert forall|i: int, j: int|
                0 <= i < new.len() && 0 <= j < new.len() && i != j implies #[trigger] new[i].hash@
                != #[trigger] new[j].hash@ by {
                if i == es.len() {
                    assert(es[j].hash@ != e.hash@);
                } else if j == es.len() {
                    assert(es[i].hash@ != e.hash@);
                } else {
                    assert(es[i].hash@ != es[j].hash@);
                }
            }
        },
    }
}

/// Recording the same entry twice is the same as recording it once.
pub proof fn law_upsert_idempotent(es: Seq<DownloadHistoryEntry>, e: DownloadHistoryEntry)
    ensures
        upserted(upserted(es, e), e) == upserted(es, e),
{
    let h = e.hash@;
    lemma_position_from(es, h, 0);
    let new = upserted(es, e);
    match position_of(es, h) {
        Some(i) => {
            assert forall|k: int| 0 <= k < i implies #[trigger] new[k].hash@ != h by {
                assert(new[k] == es[k]);
            }
            lemma_position_of_is(new, h, i);
            assert(new.update(i, e) =~= new);
        },
        None => {
            assert forall|k: int| 0 <= k < es.len() implies #[trigger] new[k].hash@ != h by {
                assert(new[k] == es[k]);
            }
            lemma_position_of_is(new, h, es.len() as int);
            assert(new.update(es.len() as int, e) =~= new);
        },
    }
}

/// With distinct hashes, nothing is found under a hash once it is removed.
pub proof fn law_lookup_after_remove(es: Seq<DownloadHistoryEntry>, h: Seq<char>)
    requires
        distinct_hashes(es),
    ensures
        lookup(removed(es, h), h) is None,
{
    lemma_position_from(es, h, 0);
    let new = removed(es, h);
    match position_of(es, h) {
        Some(p) => {
            assert forall|k: int| 0 <= k < new.len() implies #[trigger] new[k].hash@ != h by {
                if k < p {
                    assert(new[k] == es[k]);
                } else {
                    assert(new[k] == es[k + 1]);
                    assert(es[k + 1].hash@ != es[p].hash@);
                }
            }
            lemma_position_of_is(new, h, new.len() as int);
        },
        None => {},
    }
}

/// Every entry whose state is `Finished` is among the finished entries.
pub proof fn law_every_finished_entry_listed(es: Seq<DownloadHistoryEntry>, k: int)
    requires
        0 <= k < es.len(),
        es[k].state == DownloadState::Finished,
    ensures
        finished_of(es).contains(es[k]),
    decreases es.len(),
{
    if k == es.len() - 1 {
        let f = finished_of(es);
        assert(f[f.len() - 1] == es[k]);
    } else {
        let t = es.drop_last();
        assert(t[k] == es[k]);
        law_every_finished_entry_listed(t, k);
        let prev = finished_of(t);
        let w = choose|w: int| 0 <= w < prev.len() && prev[w] == es[k];
        if es.last().state == DownloadState::Finished {
            assert(finished_of(es)[w] == prev[w]);
        }
    }
}

/// Every finished entry is one of the entries.
pub proof fn law_finished_are_entries(es: Seq<DownloadHistoryEntry>)
    ensures
        forall|k: int|
            0 <= k < finished_of(es).len() ==> es.contains(#[trigger] finished_of(es)[k])
                && finished_of(es)[k].state == DownloadState::Finished,
    decreases es.len(),
{
    if es.len() > 0 {
        law_finished_are_entries(es.drop_last());
        let prev = finished_of(es.drop_last());
        assert forall|k: int|
            0 <= k < finished_of(es).len() implies es.contains(#[trigger] finished_of(es)[k])
            && finished_of(es)[k].state == DownloadState::Finished by {
            if k < prev.len() {
                assert(finished_of(es)[k] == prev[k]);
                assert(es.drop_last().contains(prev[k]));
                let w = choose|w: int| 0 <= w < es.drop_last().len() && es.drop_last()[w] == prev[k];
                assert(es[w] == prev[k]);
            } else {
                assert(finished_of(es)[k] == es.last());
                assert(es[es.len() - 1] == es.last());
            }
        }
    }
}

impl Default for DownloadHistory {
    /// An empty history.
    fn default() -> (h: Self)
        ensures
            h.entries@ == Seq::<DownloadHistoryEntry>::empty(),
    {
        DownloadHistory { entries: Vec::new() }
    }
}

impl DownloadHistory {
    /// An empty history.
    pub fn new() -> (h: Self)
        ensures
            h.entries@ == Seq::<DownloadHistoryEntry>::empty(),
    {
        DownloadHistory { entries: Vec::new() }
    }

    /// Index of the first entry recorded under `hash`.
    pub fn position(&self, hash: &String) -> (r: Option<usize>)
        ensures
            match position_of(self.entries@, hash@) {
                Some(i) => r matches Some(j) && j as int == i,
                None => r is None,
            },
    {
        let mut i: usize = 0;
        while i < self.entries.len()
            invariant
                i <= self.entries@.len(),
                position_of(self.entries@, hash@) == position_from(self.entries@, hash@, i as int),
            decreases self.entries.len() - i,
        {
            if self.entries[i].hash == *hash {
                return Some(i);
            }
            i = i + 1;
        }
        None
    }

    /// Records `entry`: it replaces the first entry with the same hash, or is appended.
    pub fn upsert(&mut self, entry: DownloadHistoryEntry)
        ensures
            final(self).entries@ == upserted(old(self).entries@, entry),
    {
        match self.position(&entry.hash) {
            Some(i) => {
                proof {
                    lemma_position_from(self.entries@, entry.hash@, 0);
                }
                self.entries.set(i, entry);
            },
            None => {
                self.entries.push(entry);
            },
        }
    }

    /// Takes out the first entry recorded under `hash`, if there is one.
    pub fn remove(&mut self, hash: &str) -> (r: Option<DownloadHistoryEntry>)
        ensures
            r == lookup(old(self).entries@, hash@),
            final(self).entries@ == removed(old(self).entries@, hash@),
    {
        let key = hash.to_owned();
        match self.position(&key) {
            Some(i) => {
                proof {
                    lemma_position_from(self.entries@, hash@, 0);
                }
                Some(self.entries.remove(i))
            },
            None => None,
        }
    }

    /// The first entry recorded under `hash`.
    pub fn get(&self, hash: &str) -> (r: Option<&DownloadHistoryEntry>)
        ensures
            match lookup(self.entries@, hash@) {
                Some(e) => r matches Some(x) && *x == e,
                None => r is None,
            },
    {
        let key = hash.to_owned();
        match self.position(&key) {
            Some(i) => {
                proof {
                    lemma_position_from(self.entries@, hash@, 0);
                }
                let e = &self.entries[i];
                Some(e)
            },
            None => None,
        }
    }

    /// All entries, in order.
    pub fn all(&self) -> (r: &[DownloadHistoryEntry])
        ensures
            r@ == self.entries@,
    {
        self.entries.as_slice()
    }

    /// The entries whose state is `Finished`, in order.
    pub fn finished(&self) -> (r: Vec<&DownloadHistoryEntry>)
        ensures
            r@.len() == finished_of(self.entries@).len(),
            forall|k: int| 0 <= k < r@.len() ==> *r@[k] == finished_of(self.entries@)[k],
            forall|k: int|
                0 <= k < self.entries@.len() && #[trigger] self.entries@[k].state
                    == DownloadState::Finished ==> exists|j: int|
                    0 <= j < r@.len() && *r@[j] == self.entries@[k],
    {
        let mut out: Vec<&DownloadHistoryEntry> = Vec::new();
        let mut i: usize = 0;
        while i < self.entries.len()
            invariant
                i <= self.entries@.len(),
                out@.len() == finished_of(self.entries@.take(i as int)).len(),
                forall|k: int|
                    0 <= k < out@.len() ==> *out@[k] == finished_of(self.entries@.take(i as int))[k],
            decreases self.entries.len() - i,
        {
            let e = &self.entries[i];
            assert(self.entries@.take(i + 1).drop_last() =~= self.entries@.take(i as int));
            assert(self.entries@.take(i + 1).last() == self.entries@[i as int]);
            if e.state == DownloadState::Finished {
                out.push(e);
            }
            i = i + 1;
        }
        assert(self.entries@.take(self.entries@.len() as int) =~= self.entries@);
        assert forall|k: int|
            0 <= k < self.entries@.len() && #[trigger] self.entries@[k].state
                == DownloadState::Finished implies exists|j: int|
                0 <= j < out@.len() && *out@[j] == self.entries@[k] by {
            law_every_finished_entry_listed(self.entries@, k);
            let f = finished_of(self.entries@);
            let w = choose|w: int| 0 <= w < f.len() && f[w] == self.entries@[k];
            assert(*out@[w] == self.entries@[k]);
        }
        out
    }
}

} // verus!
