//! Reverse search: build a persisted, drive-spanning index of file hashes
//! ahead of time (see [`crate::scanner::indexer`]), then pick a single file and
//! find every other indexed copy of it, also on drives that aren't attached
//! right now, since matches are looked up by volume label and relative path
//! rather than a live filesystem path.
//!
//! The state here decides; reading files and saving the index is up to the
//! caller, which carries out the requests that the state makes and hands back
//! what came of them.

use crate::config::{ExtensionFilter, ScanConfig, ScanMode};
use crate::control::{self, JobControl};
use crate::index_db::{self, Entry, IndexDb, IndexedFile, VolumeUsage};
use crate::scanner::indexer::IndexEvent;
use crate::text;
use crate::volume;
use vstd::prelude::*;

verus! {

/// Whether files are being indexed.
#[derive(Debug)]
pub enum IndexState {
    Idle,
    Running { control: JobControl, scanned: usize, total: usize },
}

/// The hash of a file and the label of its volume are wanted.
#[derive(Debug, PartialEq)]
pub struct LookupRequest {
    pub ticket: u64,
    pub path: String,
}

/// An indexing pass whose files are in the index, which is to be saved.
#[derive(Clone, Copy, Debug, PartialEq, Eq, Structural)]
pub struct FinishedIndex {
    pub file_count: usize,
    pub drive_count: usize,
    pub elapsed_ms: u128,
}

/// The state of reverse search.
#[derive(Debug)]
pub struct ReverseSearchState {
    pub db: IndexDb,
    pub index_folders: Vec<String>,
    pub index_state: IndexState,
    pub picked_file: Option<String>,
    pub results: Vec<IndexedFile>,
    pub status: Option<String>,
    /// The number of the lookup that is under way.
    pub lookup: Option<u64>,
    /// The number of the last lookup asked for.
    pub tickets: u64,
}

/// The entries on a volume.
pub open spec fn on_volume(entries: Seq<Entry>, volume: (Seq<char>, Seq<char>)) -> Seq<Entry>
    decreases entries.len(),
{
    if entries.len() == 0 {
        seq![]
    } else if index_db::is_on(entries.last().1, volume.0, volume.1) {
        on_volume(entries.drop_last(), volume).push(entries.last())
    } else {
        on_volume(entries.drop_last(), volume)
    }
}

/// The index after indexing some volumes again.
pub open spec fn reindexed(
    entries: Seq<Entry>,
    new: Seq<Entry>,
    volumes: Seq<(Seq<char>, Seq<char>)>,
) -> Seq<Entry>
    decreases volumes.len(),
{
    if volumes.len() == 0 {
        entries
    } else {
        let v = volumes.last();
        index_db::without_volume(reindexed(entries, new, volumes.drop_last()), v.0, v.1)
            + on_volume(new, v)
    }
}

proof fn lemma_on_volume(entries: Seq<Entry>, volume: (Seq<char>, Seq<char>), e: Entry)
    ensures
        on_volume(entries, volume).contains(e) <==> entries.contains(e) && index_db::is_on(
            e.1,
            volume.0,
            volume.1,
        ),
    decreases entries.len(),
{
    if entries.len() > 0 {
        let t = entries.drop_last();
        let before = on_volume(t, volume);
        let all = on_volume(entries, volume);
        lemma_on_volume(t, volume, e);
        if before.contains(e) {
            let k = choose|k: int| 0 <= k < before.len() && before[k] == e;
            assert(all[k] == e);
        }
        if t.contains(e) {
            let k = choose|k: int| 0 <= k < t.len() && t[k] == e;
            assert(entries[k] == e);
        }
        if entries.contains(e) {
            let k = choose|k: int| 0 <= k < entries.len() && entries[k] == e;
            if k < t.len() {
                assert(t[k] == e);
            } else if index_db::is_on(e.1, volume.0, volume.1) {
                assert(all[before.len() as int] == e);
            }
        }
        if all.contains(e) && !before.contains(e) {
            let k = choose|k: int| 0 <= k < all.len() && all[k] == e;
            if k < before.len() {
                assert(before[k] == e);
            }
            assert(entries[entries.len() - 1] == e);
        }
    }
}

/// The volume of an entry.
pub open spec fn volume_of(e: Entry) -> (Seq<char>, Seq<char>) {
    (e.1.drive_letter@, e.1.volume_label@)
}

proof fn lemma_reindexed(
    entries: Seq<Entry>,
    new: Seq<Entry>,
    volumes: Seq<(Seq<char>, Seq<char>)>,
    e: Entry,
)
    ensures
        reindexed(entries, new, volumes).contains(e) <==> if volumes.contains(volume_of(e)) {
            new.contains(e)
        } else {
            entries.contains(e)
        },
    decreases volumes.len(),
{
    if volumes.len() > 0 {
        let v = volumes.last();
        let less = volumes.drop_last();
        let before = reindexed(entries, new, less);
        let kept = index_db::without_volume(before, v.0, v.1);
        let added = on_volume(new, v);
        let all = kept + added;
        lemma_reindexed(entries, new, less, e);
        index_db::lemma_without_volume(before, v.0, v.1, e);
        lemma_on_volume(new, v, e);
        assert(index_db::is_on(e.1, v.0, v.1) <==> volume_of(e) == v);
        if kept.contains(e) {
            let k = choose|k: int| 0 <= k < kept.len() && kept[k] == e;
            assert(all[k] == e);
        }
        if added.contains(e) {
            let k = choose|k: int| 0 <= k < added.len() && added[k] == e;
            assert(all[kept.len() + k] == e);
        }
        if all.contains(e) {
            let k = choose|k: int| 0 <= k < all.len() && all[k] == e;
            if k < kept.len() {
                assert(kept[k] == e);
            } else {
                assert(added[k - kept.len()] == e);
            }
        }
        if volumes.contains(volume_of(e)) {
            let k = choose|k: int| 0 <= k < volumes.len() && volumes[k] == volume_of(e);
            if k < less.len() {
                assert(less[k] == volume_of(e));
            }
        }
        if less.contains(volume_of(e)) {
            let k = choose|k: int| 0 <= k < less.len() && less[k] == volume_of(e);
            assert(volumes[k] == volume_of(e));
        }
        assert(volumes[volumes.len() - 1] == v);
    }
}

proof fn lemma_has_volume(entries: Seq<Entry>, i: int)
    requires
        0 <= i < entries.len(),
    ensures
        index_db::volumes(entries).contains(volume_of(entries[i])),
    decreases entries.len(),
{
    let t = entries.drop_last();
    let before = index_db::volumes(t);
    let all = index_db::volumes(entries);
    if i < t.len() {
        lemma_has_volume(t, i);
        assert(t[i] == entries[i]);
        let k = choose|k: int| 0 <= k < before.len() && before[k] == volume_of(entries[i]);
        assert(all[k] == before[k]);
    } else if !before.contains(volume_of(entries[i])) {
        assert(all[before.len() as int] == volume_of(entries[i]));
    }
}

/// After an indexing pass the index holds everything that the pass found. Of
/// the volumes it found anything on it holds nothing else, and of every other
/// volume just what it held before.
pub proof fn law_indexing_replaces_its_volumes(entries: Seq<Entry>, new: Seq<Entry>, e: Entry)
    ensures
        new.contains(e) ==> reindexed(entries, new, index_db::volumes(new)).contains(e),
        index_db::volumes(new).contains(volume_of(e)) ==> (reindexed(
            entries,
            new,
            index_db::volumes(new),
        ).contains(e) <==> new.contains(e)),
        !index_db::volumes(new).contains(volume_of(e)) ==> (reindexed(
            entries,
            new,
            index_db::volumes(new),
        ).contains(e) <==> entries.contains(e)),
{
    lemma_reindexed(entries, new, index_db::volumes(new), e);
    if new.contains(e) {
        let i = choose|i: int| 0 <= i < new.len() && new[i] == e;
        lemma_has_volume(new, i);
    }
}

/// The entries on a volume.
fn pick_volume(entries: &Vec<Entry>, drive_letter: &str, volume_label: &str) -> (r: Vec<Entry>)
    ensures
        r@ == on_volume(entries@, (drive_letter@, volume_label@)),
{
    let mut out: Vec<Entry> = Vec::new();
    let mut i: usize = 0;
    while i < entries.len()
        invariant
            i <= entries@.len(),
            out@ == on_volume(entries@.take(i as int), (drive_letter@, volume_label@)),
        decreases entries@.len() - i,
    {
        assert(entries@.take(i + 1).drop_last() =~= entries@.take(i as int));
        if text::text_eq(entries[i].1.drive_letter.as_str(), drive_letter) && text::text_eq(
            entries[i].1.volume_label.as_str(),
            volume_label,
        ) {
            out.push((entries[i].0.clone(), entries[i].1.clone()));
        }
        i = i + 1;
    }
    assert(entries@.take(entries@.len() as int) =~= entries@);
    out
}

/// Merges the entries of an indexing pass into the index, volume by volume;
/// gives the number of volumes.
fn merge_entries(db: &mut IndexDb, entries: Vec<Entry>) -> (r: usize)
    ensures
        final(db).entries@ == reindexed(
            old(db).entries@,
            entries@,
            index_db::volumes(entries@),
        ),
        final(db).usages == old(db).usages,
        r == index_db::volumes(entries@).len(),
{
    let pass: IndexDb = IndexDb { entries, usages: Vec::new() };
    let volumes = pass.indexed_drives();
    let ghost all = index_db::volumes(entries@);
    assert(volumes@.len() == index_db::pair_texts(volumes@).len());
    let mut i: usize = 0;
    while i < volumes.len()
        invariant
            i <= volumes@.len(),
            pass.entries == entries,
            all == index_db::pair_texts(volumes@),
            all == index_db::volumes(entries@),
            db.entries@ == reindexed(old(db).entries@, entries@, all.take(i as int)),
            db.usages == old(db).usages,
        decreases volumes@.len() - i,
    {
        assert(all.take(i + 1).drop_last() =~= all.take(i as int));
        assert(all[i as int] == (volumes@[i as int].0@, volumes@[i as int].1@));
        let own = pick_volume(&pass.entries, volumes[i].0.as_str(), volumes[i].1.as_str());
        db.reindex_volume(volumes[i].0.as_str(), volumes[i].1.as_str(), own);
        i = i + 1;
    }
    assert(all.take(all.len() as int) =~= all);
    volumes.len()
}

/// How full the volumes are, as measured last: the later of two measurements
/// counts.
pub open spec fn measured(
    list: Seq<(String, String, VolumeUsage)>,
    before: Option<VolumeUsage>,
    drive_letter: Seq<char>,
    volume_label: Seq<char>,
) -> Option<VolumeUsage> {
    match index_db::usage_of(list, drive_letter, volume_label) {
        Some(u) => Some(u),
        None => before,
    }
}

/// The measurement, if there is one.
pub open spec fn one_or_none(usage: Option<(String, String, VolumeUsage)>) -> Seq<
    (String, String, VolumeUsage),
> {
    match usage {
        Some(u) => seq![u],
        None => seq![],
    }
}

fn note_usages(db: &mut IndexDb, list: Vec<(String, String, VolumeUsage)>)
    ensures
        final(db).entries == old(db).entries,
        forall|d: Seq<char>, l: Seq<char>| #[trigger]
            index_db::usage_of(final(db).usages@, d, l) == measured(
                list@,
                index_db::usage_of(old(db).usages@, d, l),
                d,
                l,
            ),
{
    let ghost all = list@;
    for item in it: list
        invariant
            it.seq() == all,
            db.entries == old(db).entries,
            forall|d: Seq<char>, l: Seq<char>| #[trigger]
                index_db::usage_of(db.usages@, d, l) == measured(
                    all.take(it.index() as int),
                    index_db::usage_of(old(db).usages@, d, l),
                    d,
                    l,
                ),
    {
        assert(all.take(it.index() + 1).drop_last() =~= all.take(it.index() as int));
        assert(all.take(it.index() + 1).last() == item);
        let (drive_letter, volume_label, usage) = item;
        db.set_usage(drive_letter, volume_label, usage);
    }
    assert(all.take(all.len() as int) =~= all);
}

/// What the state says once an indexing pass is over.
pub open spec fn index_status(finished: FinishedIndex, save_error: Option<Seq<char>>) -> Seq<char> {
    match save_error {
        None => "Indexed "@ + text::decimal(finished.file_count as nat) + " file(s) across "@
            + text::decimal(finished.drive_count as nat) + " drive(s) in "@ + crate::ui::format::hms(
            finished.elapsed_ms as nat,
        ) + "."@,
        Some(e) => "Indexed "@ + text::decimal(finished.file_count as nat)
            + " file(s) but failed to save the index: "@ + e,
    }
}

/// Whether this is where a file would be found in the index.
pub open spec fn is_place_of(f: IndexedFile, path: Seq<char>, label: Option<String>) -> bool {
    &&& f.drive_letter@ == volume::drive_letter(path)
    &&& f.volume_label@ == (match label {
        Some(l) => if l@.len() > 0 {
            l@
        } else {
            volume::drive_letter(path)
        },
        None => volume::drive_letter(path),
    })
    &&& f.rel_path@ == volume::path_on_drive(path)
}

fn copy_matches(found: Vec<&IndexedFile>) -> (r: Vec<IndexedFile>)
    ensures
        r@ == found@.map_values(|f: &IndexedFile| *f),
{
    let mut out: Vec<IndexedFile> = Vec::new();
    let mut i: usize = 0;
    while i < found.len()
        invariant
            i <= found@.len(),
            out@ =~= found@.take(i as int).map_values(|f: &IndexedFile| *f),
        decreases found@.len() - i,
    {
        out.push(found[i].clone());
        i = i + 1;
    }
    assert(found@.take(found@.len() as int) =~= found@);
    out
}

impl ReverseSearchState {
    /// Nothing picked, over an index as it was loaded.
    pub fn new(db: IndexDb) -> (r: Self)
        ensures
            r.db == db,
            r.index_folders@.len() == 0,
            r.index_state is Idle,
            r.picked_file is None,
            r.results@.len() == 0,
            r.status is None,
            r.lookup is None,
            r.tickets == 0,
    {
        ReverseSearchState {
            db,
            index_folders: Vec::new(),
            index_state: IndexState::Idle,
            picked_file: None,
            results: Vec::new(),
            status: None,
            lookup: None,
            tickets: 0,
        }
    }

    /// Whether files are being indexed.
    pub fn is_indexing(&self) -> (r: bool)
        ensures
            r == (self.index_state is Running),
    {
        match self.index_state {
            IndexState::Running { .. } => true,
            IndexState::Idle => false,
        }
    }

    /// Whether indexing can be started: there are folders to index, and no
    /// indexing is under way.
    pub fn can_index(&self) -> (r: bool)
        ensures
            r == (self.index_folders@.len() > 0 && !(self.index_state is Running)),
    {
        self.index_folders.len() > 0 && !self.is_indexing()
    }

    /// Whether a lookup is under way.
    pub fn is_looking_up(&self) -> (r: bool)
        ensures
            r == (self.lookup is Some),
    {
        self.lookup.is_some()
    }

    /// Starts indexing the chosen folders: gives what to walk. Not without a
    /// folder, nor while indexing.
    pub fn start_indexing(&mut self) -> (r: Option<ScanConfig>)
        ensures
            r is None <==> (old(self).index_folders@.len() == 0 || old(self).index_state is Running),
            r is None ==> *final(self) == *old(self),
            r matches Some(c) ==> {
                &&& c.folders@ == old(self).index_folders@
                &&& !c.exclude_subfolders && !c.same_folder_only
                &&& c.min_size is None && c.max_size is None
                &&& c.extensions == ExtensionFilter::All
                &&& c.mode == ScanMode::ExactContent
                &&& c.similarity_threshold == 10
                &&& c.skip_archives
                &&& c.name_filter@.len() == 0
                &&& final(self).status is None
                &&& final(self).index_state matches IndexState::Running { control, scanned, total }
                    && !control.cancelled && !control.paused && scanned == 0 && total == 0
                &&& *final(self) == (ReverseSearchState {
                    status: final(self).status,
                    index_state: final(self).index_state,
                    ..*old(self)
                })
            },
    {
        if self.index_folders.len() == 0 || self.is_indexing() {
            return None;
        }
        let mut config: ScanConfig = ScanConfig::default();
        config.folders = text::copy_texts(&self.index_folders);
        self.status = None;
        self.index_state = IndexState::Running {
            control: JobControl::default(),
            scanned: 0,
            total: 0,
        };
        Some(config)
    }

    /// Whether the indexing is as before, but for its control.
    pub open spec fn same_index_run(self, other: ReverseSearchState) -> bool {
        match other.index_state {
            IndexState::Idle => self.index_state is Idle,
            IndexState::Running { control, scanned, total } => self.index_state matches
                IndexState::Running { control: c, scanned: s, total: t } && s == scanned && t
                == total,
        }
    }

    /// Has the indexing stopped.
    pub fn cancel_indexing(&mut self)
        ensures
            final(self).same_index_run(*old(self)),
            old(self).index_state matches IndexState::Running { control, .. } ==> (final(self).index_state matches IndexState::Running {
                control: c,
                ..
            } && c.cancelled && c.paused == control.paused),
            *final(self) == (ReverseSearchState {
                index_state: final(self).index_state,
                ..*old(self)
            }),
    {
        let mut state: IndexState = IndexState::Idle;
        std::mem::swap(&mut state, &mut self.index_state);
        if let IndexState::Running { control, scanned, total } = state {
            let mut control: JobControl = control;
            control.cancel();
            self.index_state = IndexState::Running { control, scanned, total };
        }
    }

    /// Whether the indexing is paused.
    pub fn is_index_paused(&self) -> (r: bool)
        ensures
            r == (self.index_state matches IndexState::Running { control, .. } && control.paused),
    {
        match &self.index_state {
            IndexState::Running { control, .. } => control.is_paused(),
            IndexState::Idle => false,
        }
    }

    /// Pauses the indexing or lets it go on.
    pub fn toggle_index_pause(&mut self)
        ensures
            final(self).same_index_run(*old(self)),
            old(self).index_state matches IndexState::Running { control, .. } ==> (final(self).index_state matches IndexState::Running {
                control: c,
                ..
            } && c.paused == !control.paused && c.cancelled == control.cancelled),
            *final(self) == (ReverseSearchState {
                index_state: final(self).index_state,
                ..*old(self)
            }),
    {
        let mut state: IndexState = IndexState::Idle;
        std::mem::swap(&mut state, &mut self.index_state);
        if let IndexState::Running { control, scanned, total } = state {
            let mut control: JobControl = control;
            let paused: bool = !control.is_paused();
            control.set_paused(paused);
            self.index_state = IndexState::Running { control, scanned, total };
        }
    }

    /// Takes what an indexing pass reports. A finished pass is merged into the
    /// index, which is then to be saved: see
    /// [`ReverseSearchState::finish_indexing`]. Nothing of a cancelled pass is
    /// added.
    pub fn take_index_event(&mut self, event: IndexEvent) -> (r: Option<FinishedIndex>)
        ensures
            old(self).index_state is Idle ==> r is None && *final(self) == *old(self),
            old(self).index_state matches IndexState::Running { control, .. } ==> match event {
                IndexEvent::Progress { scanned, total } => r is None && *final(self) == (
                ReverseSearchState {
                    index_state: IndexState::Running { control, scanned, total },
                    ..*old(self)
                }),
                IndexEvent::Done { elapsed_ms, .. } if control.cancelled => {
                    &&& r == Some(FinishedIndex { file_count: 0, drive_count: 0, elapsed_ms })
                    &&& *final(self) == *old(self)
                },
                IndexEvent::Done { entries, elapsed_ms, usage } => {
                    &&& r == Some(
                        FinishedIndex {
                            file_count: entries@.len() as usize,
                            drive_count: index_db::volumes(entries@).len() as usize,
                            elapsed_ms,
                        },
                    )
                    &&& final(self).db.entries@ == reindexed(
                        old(self).db.entries@,
                        entries@,
                        index_db::volumes(entries@),
                    )
                    &&& forall|d: Seq<char>, l: Seq<char>| #[trigger]
                        index_db::usage_of(final(self).db.usages@, d, l) == measured(
                            usage@,
                            index_db::usage_of(old(self).db.usages@, d, l),
                            d,
                            l,
                        )
                    &&& *final(self) == (ReverseSearchState {
                        db: final(self).db,
                        ..*old(self)
                    })
                },
            },
    {
        if !self.is_indexing() {
            return None;
        }
        match event {
            IndexEvent::Progress { scanned, total } => {
                let mut state: IndexState = IndexState::Idle;
                std::mem::swap(&mut state, &mut self.index_state);
                if let IndexState::Running { control, .. } = state {
                    self.index_state = IndexState::Running { control, scanned, total };
                }
                None
            },
            IndexEvent::Done { entries, elapsed_ms, usage } => {
                let cancelled: bool = match &self.index_state {
                    IndexState::Running { control, .. } => control.is_cancelled(),
                    IndexState::Idle => false,
                };
                if cancelled {
                    return Some(FinishedIndex { file_count: 0, drive_count: 0, elapsed_ms });
                }
                let file_count: usize = entries.len();
                let drive_count: usize = merge_entries(&mut self.db, entries);
                note_usages(&mut self.db, usage);
                Some(FinishedIndex { file_count, drive_count, elapsed_ms })
            },
        }
    }

    /// Whether the picked file, if there is one, has just been asked about, and
    /// nothing else has changed but the results, which are gone.
    pub open spec fn has_asked(
        self,
        before: ReverseSearchState,
        request: Option<LookupRequest>,
    ) -> bool {
        &&& self.results@.len() == 0
        &&& match self.picked_file {
            None => request is None && self.lookup is None && self.tickets == before.tickets,
            Some(path) => {
                &&& request matches Some(q)
                &&& q.path == path
                &&& self.lookup == Some(q.ticket)
                &&& self.tickets == q.ticket
                &&& q.ticket == control::next_ticket(before.tickets)
            },
        }
        &&& self == (ReverseSearchState {
            results: self.results,
            lookup: self.lookup,
            tickets: self.tickets,
            ..before
        })
    }

    fn refresh_results(&mut self) -> (r: Option<LookupRequest>)
        ensures
            final(self).has_asked(*old(self), r),
    {
        self.results = Vec::new();
        self.lookup = None;
        match &self.picked_file {
            None => None,
            Some(path) => {
                let path: String = path.clone();
                self.tickets = self.tickets.wrapping_add(1);
                self.lookup = Some(self.tickets);
                Some(LookupRequest { ticket: self.tickets, path })
            },
        }
    }

    /// Says how an indexing pass went, once the index has been saved or that
    /// has failed, and looks the picked file up again.
    pub fn finish_indexing(&mut self, finished: FinishedIndex, saved: Result<(), String>) -> (r:
        Option<LookupRequest>)
        ensures
            final(self).status matches Some(s) && s@ == index_status(
                finished,
                match saved {
                    Ok(()) => None,
                    Err(e) => Some(e@),
                },
            ),
            final(self).index_state is Idle,
            final(self).has_asked(
                (ReverseSearchState {
                    status: final(self).status,
                    index_state: final(self).index_state,
                    ..*old(self)
                }),
                r,
            ),
    {
        let start: String = "Indexed ".to_owned().concat(
            text::decimal_text(finished.file_count as u128).as_str(),
        );
        let status: String = match saved {
            Ok(()) => start.concat(" file(s) across ").concat(
                text::decimal_text(finished.drive_count as u128).as_str(),
            ).concat(" drive(s) in ").concat(
                crate::ui::format::format_duration_hms(finished.elapsed_ms).as_str(),
            ).concat("."),
            Err(e) => start.concat(" file(s) but failed to save the index: ").concat(e.as_str()),
        };
        self.status = Some(status);
        self.index_state = IndexState::Idle;
        self.refresh_results()
    }

    /// Picks the file to find matches for.
    pub fn pick_file(&mut self, path: String) -> (r: Option<LookupRequest>)
        ensures
            final(self).picked_file == Some(path),
            final(self).has_asked(
                (ReverseSearchState { picked_file: Some(path), ..*old(self) }),
                r,
            ),
    {
        self.picked_file = Some(path);
        self.refresh_results()
    }

    /// Takes what a lookup has come to: the hash of the picked file, or why it
    /// can't be read, and the label of its volume. A lookup that is no longer
    /// wanted is dropped. Says whether anything changed.
    pub fn take_lookup(
        &mut self,
        ticket: u64,
        hash: Result<[u8; 32], String>,
        label: Option<String>,
    ) -> (r: bool)
        ensures
            r == (old(self).lookup == Some(ticket)),
            !r ==> *final(self) == *old(self),
            r ==> {
                &&& final(self).lookup is None
                &&& match (old(self).picked_file, hash) {
                    (None, _) => final(self).results@.len() == 0 && final(self).status
                        == old(self).status,
                    (Some(path), Err(e)) => {
                        &&& final(self).results@.len() == 0
                        &&& final(self).status matches Some(s)
                        &&& s@ == "Couldn't read "@ + path@ + ": "@ + e@
                    },
                    (Some(path), Ok(h)) => {
                        &&& final(self).status == old(self).status
                        &&& forall|place: IndexedFile| #[trigger]
                            is_place_of(place, path@, label) ==> final(self).results@
                                == index_db::matching(
                                old(self).db.entries@,
                                index_db::hex(h@),
                                place,
                            )
                    },
                }
                &&& *final(self) == (ReverseSearchState {
                    lookup: final(self).lookup,
                    results: final(self).results,
                    status: final(self).status,
                    ..*old(self)
                })
            },
    {
        let wanted: bool = match self.lookup {
            Some(t) => t == ticket,
            None => false,
        };
        if !wanted {
            return false;
        }
        self.lookup = None;
        let path: String = match &self.picked_file {
            Some(p) => p.clone(),
            None => {
                self.results = Vec::new();
                return true;
            },
        };
        match hash {
            Err(e) => {
                self.status = Some(
                    "Couldn't read ".to_owned().concat(path.as_str()).concat(": ").concat(
                        e.as_str(),
                    ),
                );
                self.results = Vec::new();
            },
            Ok(h) => {
                let ghost given = label;
                let drive_letter: String = volume::drive_letter_of(path.as_str());
                let volume_label: String = volume::volume_info(drive_letter.as_str(), label).label;
                let probe = IndexedFile {
                    volume_label,
                    drive_letter,
                    rel_path: volume::rel_path_of(path.as_str()),
                    size: 0,
                    modified: 0,
                };
                let hash_hex: String = index_db::hex_encode(&h);
                let found = self.db.matches(hash_hex.as_str(), &probe);
                let results = copy_matches(found);
                assert forall|place: IndexedFile| #[trigger]
                    is_place_of(place, path@, given) implies results@ == index_db::matching(
                    self.db.entries@,
                    index_db::hex(h@),
                    place,
                ) by {
                    lemma_matching_place(self.db.entries@, index_db::hex(h@), probe, place);
                }
                self.results = results;
            },
        }
        true
    }

    /// Adds files to the index, with how full their volume is by now. The index
    /// is then to be saved.
    pub fn add_to_index(
        &mut self,
        entries: Vec<Entry>,
        usage: Option<(String, String, VolumeUsage)>,
    )
        ensures
            final(self).db.entries@ == index_db::without_places(
                old(self).db.entries@,
                entries@,
            ) + entries@,
            forall|d: Seq<char>, l: Seq<char>| #[trigger]
                index_db::usage_of(final(self).db.usages@, d, l) == measured(
                    one_or_none(usage),
                    index_db::usage_of(old(self).db.usages@, d, l),
                    d,
                    l,
                ),
            *final(self) == (ReverseSearchState { db: final(self).db, ..*old(self) }),
    {
        self.db.upsert(entries);
        let ghost list = one_or_none(usage);
        if let Some((drive_letter, volume_label, usage)) = usage {
            proof {
                assert(list.drop_last() =~= seq![]);
                reveal_with_fuel(index_db::usage_of, 2);
            }
            self.db.set_usage(drive_letter, volume_label, usage);
        }
    }
}

proof fn lemma_matching_place(
    entries: Seq<Entry>,
    hash: Seq<char>,
    a: IndexedFile,
    b: IndexedFile,
)
    requires
        a.drive_letter@ == b.drive_letter@,
        a.volume_label@ == b.volume_label@,
        a.rel_path@ == b.rel_path@,
    ensures
        index_db::matching(entries, hash, a) == index_db::matching(entries, hash, b),
    decreases entries.len(),
{
    if entries.len() > 0 {
        lemma_matching_place(entries.drop_last(), hash, a, b);
    }
}

/// After an indexing pass an entry is in the index exactly if the pass found it,
/// or if it was there before and the pass found nothing on its drive letter under
/// its label.
pub proof fn law_passes_replace_by_letter_and_label(
    entries: Seq<Entry>,
    new: Seq<Entry>,
    e: Entry,
)
    ensures
        reindexed(entries, new, index_db::volumes(new)).contains(e) <==> new.contains(e) || (
        entries.contains(e) && forall|i: int|
            0 <= i < new.len() ==> !((#[trigger] new[i]).1.drive_letter@ == e.1.drive_letter@
                && new[i].1.volume_label@ == e.1.volume_label@)),
{
    law_indexing_replaces_its_volumes(entries, new, e);
    index_db::law_every_volume_is_listed_once(new, 0);
    let vs = index_db::volumes(new);
    let v = (e.1.drive_letter@, e.1.volume_label@);
    if vs.contains(v) {
        let k = choose|k: int| 0 <= k < vs.len() && vs[k] == v;
        assert(index_db::is_volume_of_some(new, vs[k]));
        let j = choose|j: int|
            0 <= j < new.len() && (#[trigger] new[j]).1.drive_letter@ == vs[k].0
                && new[j].1.volume_label@ == vs[k].1;
        assert(new[j].1.drive_letter@ == e.1.drive_letter@);
    } else {
        assert forall|i: int| 0 <= i < new.len() implies !((#[trigger] new[i]).1.drive_letter@
            == e.1.drive_letter@ && new[i].1.volume_label@ == e.1.volume_label@) by {
            index_db::law_every_volume_is_listed_once(new, i);
        }
    }
}

/// Where a picked file is looked for: on its drive letter, under the label of
/// that volume, or under the letter where it has none, at its path on the drive.
pub proof fn law_files_are_looked_up_by_their_place(
    f: IndexedFile,
    path: Seq<char>,
    label: Option<String>,
)
    ensures
        is_place_of(f, path, label) <==> {
            &&& f.drive_letter@ == volume::drive_letter(path)
            &&& f.rel_path@ == volume::path_on_drive(path)
            &&& f.volume_label@ == (if label is Some && label->0@.len() > 0 {
                label->0@
            } else {
                volume::drive_letter(path)
            })
        },
{
}

/// A new measurement replaces the old one; without one the old one stays.
pub proof fn law_new_measurements_win(
    list: Seq<(String, String, VolumeUsage)>,
    u: (String, String, VolumeUsage),
    before: Option<VolumeUsage>,
    drive_letter: Seq<char>,
    volume_label: Seq<char>,
)
    ensures
        measured(seq![], before, drive_letter, volume_label) == before,
        measured(list.push(u), before, drive_letter, volume_label) == (if u.0@ == drive_letter
            && u.1@ == volume_label {
            Some(u.2)
        } else {
            measured(list, before, drive_letter, volume_label)
        }),
        one_or_none(Some(u)) == seq![u],
        one_or_none(None).len() == 0,
{
    index_db::law_the_last_measurement_counts(list, u, drive_letter, volume_label);
    assert(list.push(u).drop_last() =~= list);
}

/// What is said once an indexing pass is over.
pub proof fn law_indexing_is_summed_up(f: FinishedIndex, e: Seq<char>)
    ensures
        index_status(f, None) == "Indexed "@ + text::decimal(f.file_count as nat)
            + " file(s) across "@ + text::decimal(f.drive_count as nat) + " drive(s) in "@
            + crate::ui::format::hms(f.elapsed_ms as nat) + "."@,
        index_status(f, Some(e)) == "Indexed "@ + text::decimal(f.file_count as nat)
            + " file(s) but failed to save the index: "@ + e,
{
}

/// A file that was added to the index is found by its hash from any other
/// place.
pub proof fn law_added_files_are_found(
    entries: Seq<Entry>,
    new: Seq<Entry>,
    i: int,
    place: IndexedFile,
)
    requires
        0 <= i < new.len(),
        !index_db::same_place(new[i].1, place),
    ensures
        index_db::matching(
            index_db::without_places(entries, new) + new,
            new[i].0@,
            place,
        ).contains(new[i].1),
{
    let kept = index_db::without_places(entries, new);
    index_db::law_matches_are_the_copies(kept + new, new[i].0@, place, new[i].1);
    assert((kept + new)[kept.len() + i] == new[i]);
}

/// A file that an indexing pass found is found by its hash from any other
/// place.
pub proof fn law_indexed_files_are_found(
    entries: Seq<Entry>,
    new: Seq<Entry>,
    i: int,
    place: IndexedFile,
)
    requires
        0 <= i < new.len(),
        !index_db::same_place(new[i].1, place),
    ensures
        index_db::matching(
            reindexed(entries, new, index_db::volumes(new)),
            new[i].0@,
            place,
        ).contains(new[i].1),
{
    let all = reindexed(entries, new, index_db::volumes(new));
    law_indexing_replaces_its_volumes(entries, new, new[i]);
    index_db::law_matches_are_the_copies(all, new[i].0@, place, new[i].1);
    let k = choose|k: int| 0 <= k < all.len() && all[k] == new[i];
    assert(all[k].1 == new[i].1);
}

/// Looking up a file asks for it under a new number, so that an answer to an earlier
/// question is told apart, and clears what was found before; without a file nothing
/// is asked.
pub proof fn law_lookups_are_numbered(
    after: ReverseSearchState,
    before: ReverseSearchState,
    request: Option<LookupRequest>,
)
    requires
        after.has_asked(before, request),
    ensures
        after.results@.len() == 0,
        after.db == before.db,
        after.index_folders == before.index_folders,
        after.picked_file == before.picked_file,
        before.picked_file is None ==> request is None && after.lookup is None,
        before.picked_file matches Some(path) ==> {
            &&& request matches Some(q)
            &&& q.path == path
            &&& after.lookup == Some(q.ticket)
            &&& q.ticket == after.tickets
            &&& q.ticket != before.tickets
        },
{
}

/// Pausing or cancelling the indexing leaves how far it has come.
pub proof fn law_indexing_keeps_its_count(after: ReverseSearchState, before: ReverseSearchState)
    requires
        after.same_index_run(before),
    ensures
        after.index_state is Running <==> before.index_state is Running,
        match (before.index_state, after.index_state) {
            (
                IndexState::Running { control: _, scanned: a, total: b },
                IndexState::Running { control: _, scanned: x, total: y },
            ) => x == a && y == b,
            _ => true,
        },
{
}

} // verus!
