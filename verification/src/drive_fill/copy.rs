//! Copying folders onto the target.
//!
//! Reading and writing is left to the caller; what is copied where, what is
//! reported and when the copy stops is decided here.

use crate::index_db::{self, IndexedFile, VolumeUsage};
use crate::model::Timestamp;
use crate::paths;
use crate::scanner::hash::{self, ContentHasher};
use crate::volume::VolumeInfo;
use vstd::prelude::*;

verus! {

/// How much is copied at a time.
pub const COPY_BUF_SIZE: usize = 1_048_576;

/// Bytes between `Progress` events, so a fast copy doesn't flood the channel.
pub const PROGRESS_STEP: u64 = 8_388_608;

/// What a copy reports.
#[derive(Debug, PartialEq)]
pub enum CopyEvent {
    /// About to copy this source file.
    FileStarted { path: String },
    /// Cumulative bytes copied so far across the whole job.
    Progress { bytes_done: u64 },
    /// A file landed on the target; ready to add to the reverse-search index.
    FileCopied { hash_hex: String, file: IndexedFile },
    Error(String),
    /// The job ended. `aborted` explains an early stop other than the user
    /// cancelling (e.g. the target filled up).
    Done {
        aborted: Option<String>,
        /// The target volume's usage afterwards, measured by the worker
        /// rather than on the UI thread (a sleeping drive can take seconds to
        /// answer).
        usage: Option<(String, String, VolumeUsage)>,
    },
}

/// Where an entry found under `source` goes under `dest`.
pub open spec fn target_path(source: Seq<char>, dest: Seq<char>, entry: Seq<char>) -> Seq<char> {
    paths::join(
        dest,
        match paths::relative_to(entry, source) {
            Some(rel) => rel,
            None => entry,
        },
    )
}

/// Computes [`target_path`].
pub fn target_of(source: &str, dest: &str, entry: &str) -> (r: String)
    ensures
        r@ == target_path(source@, dest@, entry@),
{
    match paths::strip_base(entry, source) {
        Some(rel) => paths::join_paths(dest, rel.as_str()),
        None => paths::join_paths(dest, entry),
    }
}

/// How far a copy has come, and how far it has said so.
#[derive(Clone, Copy, Debug, PartialEq, Eq, Structural)]
pub struct CopyProgress {
    pub bytes_done: u64,
    pub last_reported: u64,
}

impl CopyProgress {
    /// Nothing copied yet.
    pub fn new() -> (r: Self)
        ensures
            r.bytes_done == 0,
            r.last_reported == 0,
    {
        CopyProgress { bytes_done: 0, last_reported: 0 }
    }

    /// Counts bytes that were copied, and says whether that is to be reported:
    /// once every `PROGRESS_STEP` bytes.
    pub fn count(&mut self, n: u64) -> (r: bool)
        requires
            old(self).bytes_done + n <= u64::MAX,
            old(self).last_reported <= old(self).bytes_done,
        ensures
            final(self).bytes_done == old(self).bytes_done + n,
            r == (final(self).bytes_done - old(self).last_reported >= PROGRESS_STEP),
            final(self).last_reported == (if r {
                final(self).bytes_done
            } else {
                old(self).last_reported
            }),
            final(self).last_reported <= final(self).bytes_done,
    {
        self.bytes_done = self.bytes_done + n;
        if self.bytes_done - self.last_reported >= PROGRESS_STEP {
            self.last_reported = self.bytes_done;
            true
        } else {
            false
        }
    }
}

/// Whether the file is indexed under its path on the volume it was copied to.
pub open spec fn is_indexed_at(
    f: IndexedFile,
    volume: VolumeInfo,
    target: Seq<char>,
    size: u64,
    modified: Timestamp,
) -> bool {
    &&& f.volume_label == volume.label
    &&& f.drive_letter == volume.drive_letter
    &&& f.rel_path@ == (match paths::relative_to(target, volume.drive_letter@.push('\\')) {
        Some(rel) => rel,
        None => target,
    })
    &&& f.size == size
    &&& f.modified == modified
}

/// What an entry of the source is.
#[derive(Clone, Copy, Debug, PartialEq, Eq, Structural)]
pub enum EntryKind {
    Folder,
    File,
    Other,
}

/// What is to be done about an entry of the source.
#[derive(Debug, PartialEq)]
pub enum EntryStep {
    /// Make this folder on the target, with all those above it.
    MakeFolder(String),
    /// Copy to this new file, reporting the event first.
    CopyFile(String, CopyEvent),
    /// Nothing: links and the like are not copied.
    Skip,
}

/// Decides what is to be done about an entry found under `source`, which is
/// copied to `dest`.
pub fn plan_entry(source: &str, dest: &str, entry: &str, kind: EntryKind) -> (r: EntryStep)
    ensures
        match kind {
            EntryKind::Folder => r matches EntryStep::MakeFolder(t) && t@ == target_path(
                source@,
                dest@,
                entry@,
            ),
            EntryKind::File => {
                &&& r matches EntryStep::CopyFile(t, e)
                &&& t@ == target_path(source@, dest@, entry@)
                &&& e matches CopyEvent::FileStarted { path }
                &&& path@ == entry@
            },
            EntryKind::Other => r is Skip,
        },
{
    match kind {
        EntryKind::Folder => EntryStep::MakeFolder(target_of(source, dest, entry)),
        EntryKind::File => EntryStep::CopyFile(
            target_of(source, dest, entry),
            CopyEvent::FileStarted { path: entry.to_owned() },
        ),
        EntryKind::Other => EntryStep::Skip,
    }
}

/// One file on its way to the target, hashed in the same pass that writes it.
#[derive(Debug)]
pub struct FileCopy {
    hasher: ContentHasher,
    size: u64,
}

impl FileCopy {
    /// What has been written so far.
    pub closed spec fn written(&self) -> Seq<u8> {
        self.hasher.content()
    }

    /// How much has been written so far.
    pub closed spec fn count(&self) -> u64 {
        self.size
    }

    /// Nothing written yet.
    pub fn new() -> (r: Self)
        ensures
            r.written() == Seq::<u8>::empty(),
            r.count() == 0,
    {
        FileCopy { hasher: ContentHasher::new(), size: 0 }
    }

    /// Counts a piece that was written.
    pub fn feed(&mut self, piece: &[u8])
        requires
            old(self).count() + piece@.len() <= u64::MAX,
        ensures
            final(self).written() == old(self).written() + piece@,
            final(self).count() == old(self).count() + piece@.len(),
    {
        self.hasher.feed(piece);
        self.size = self.size + piece.len() as u64;
    }

    /// The file is complete.
    pub fn finish(self, modified: Timestamp) -> (r: Copied)
        ensures
            r matches Copied::Whole { hash, size, modified: m } && hash@ == hash::blake3_digest(
                self.written(),
            ) && size == self.count() && m == modified,
    {
        Copied::Whole { hash: self.hasher.finish(), size: self.size, modified }
    }
}

/// How copying one file went.
#[derive(Debug, PartialEq)]
pub enum Copied {
    /// It landed on the target.
    Whole { hash: [u8; 32], size: u64, modified: Timestamp },
    /// It was cancelled part-way.
    Cancelled,
    /// The target is full.
    Full,
    /// Anything else went wrong.
    Failed(String),
}

impl Copied {
    /// Whether what was written stays on the target. A file interrupted by
    /// cancellation or an error is removed rather than left half-written.
    pub fn stays(&self) -> (r: bool)
        ensures
            r == (self is Whole),
    {
        match self {
            Copied::Whole { .. } => true,
            _ => false,
        }
    }
}

/// What follows from how copying one file went.
#[derive(Debug, PartialEq)]
pub enum AfterFile {
    /// Go on with the next, after reporting.
    Continue(Vec<CopyEvent>),
    /// Stop, for this reason if it wasn't cancelled.
    Stop(Option<String>),
}

/// Decides what follows from how copying one file went, with `bytes_done`
/// bytes copied by then: a copied file is reported for the reverse-search
/// index, a full target or a cancelled copy ends the job, any other error is
/// reported.
pub fn after_file(
    source: &str,
    target: &str,
    copied: Copied,
    bytes_done: u64,
    volume: Option<&VolumeInfo>,
) -> (r: AfterFile)
    ensures
        match copied {
            Copied::Whole { hash, size, modified } => {
                &&& r matches AfterFile::Continue(events)
                &&& events@.len() == (if volume is Some {
                    2int
                } else {
                    1
                })
                &&& events@[0] == (CopyEvent::Progress { bytes_done })
                &&& volume matches Some(v) ==> {
                    &&& events@[1] matches CopyEvent::FileCopied { hash_hex, file }
                    &&& hash_hex@ == index_db::hex(hash@)
                    &&& is_indexed_at(file, *v, target@, size, modified)
                }
            },
            Copied::Cancelled => r matches AfterFile::Stop(None),
            Copied::Full => r matches AfterFile::Stop(Some(m)) && m@
                == "The target ran out of space while copying "@ + source@ + "."@,
            Copied::Failed(e) => {
                &&& r matches AfterFile::Continue(events)
                &&& events@.len() == 1
                &&& events@[0] matches CopyEvent::Error(m)
                &&& m@ == "Couldn't copy "@ + source@ + ": "@ + e@
            },
        },
{
    match copied {
        Copied::Whole { hash, size, modified } => {
            let mut events: Vec<CopyEvent> = Vec::new();
            events.push(CopyEvent::Progress { bytes_done });
            if let Some(v) = volume {
                let mut root: String = v.drive_letter.clone();
                root.push('\\');
                let rel_path: String = match paths::strip_base(target, root.as_str()) {
                    Some(rel) => rel,
                    None => target.to_owned(),
                };
                events.push(
                    CopyEvent::FileCopied {
                        hash_hex: index_db::hex_encode(&hash),
                        file: IndexedFile {
                            volume_label: v.label.clone(),
                            drive_letter: v.drive_letter.clone(),
                            rel_path,
                            size,
                            modified,
                        },
                    },
                );
            }
            AfterFile::Continue(events)
        },
        Copied::Cancelled => AfterFile::Stop(None),
        Copied::Full => AfterFile::Stop(
            Some(
                "The target ran out of space while copying ".to_owned().concat(source).concat("."),
            ),
        ),
        Copied::Failed(e) => {
            let mut events: Vec<CopyEvent> = Vec::new();
            events.push(
                CopyEvent::Error(
                    "Couldn't copy ".to_owned().concat(source).concat(": ").concat(e.as_str()),
                ),
            );
            AfterFile::Continue(events)
        },
    }
}

/// Says that an entry of the source could not be read.
pub fn unreadable_entry(error: &str) -> (r: CopyEvent)
    ensures
        r matches CopyEvent::Error(m) && m@ == "Skipping entry: "@ + error@,
{
    CopyEvent::Error("Skipping entry: ".to_owned().concat(error))
}

/// Says that a folder could not be made on the target.
pub fn uncreated_folder(target: &str, error: &str) -> (r: CopyEvent)
    ensures
        r matches CopyEvent::Error(m) && m@ == "Couldn't create "@ + target@ + ": "@ + error@,
{
    CopyEvent::Error("Couldn't create ".to_owned().concat(target).concat(": ").concat(error))
}

/// A copied file is indexed under the label and the letter of the volume that it
/// was copied to, by its way from the root of that drive, with its own length
/// and time.
pub proof fn law_copies_are_indexed_by_their_way(
    f: IndexedFile,
    volume: VolumeInfo,
    target: Seq<char>,
    size: u64,
    modified: Timestamp,
)
    requires
        is_indexed_at(f, volume, target, size, modified),
    ensures
        f.volume_label@ == volume.label@,
        f.drive_letter@ == volume.drive_letter@,
        f.size == size,
        f.modified == modified,
        paths::relative_to(target, volume.drive_letter@.push('\\')) matches Some(rel) ==> f.rel_path@
            == rel,
        paths::relative_to(target, volume.drive_letter@.push('\\')) is None ==> f.rel_path@
            == target,
{
}

/// What lies under the source goes to the same place under the destination.
pub proof fn law_copies_go_under_the_destination(
    source: Seq<char>,
    dest: Seq<char>,
    entry: Seq<char>,
)
    ensures
        paths::relative_to(entry, source) matches Some(rel) ==> target_path(source, dest, entry)
            == paths::join(dest, rel),
        paths::relative_to(entry, source) is None ==> target_path(source, dest, entry)
            == paths::join(dest, entry),
        PROGRESS_STEP == 8 * 1024 * 1024,
        COPY_BUF_SIZE == 1024 * 1024,
{
}

/// Whether an entry lies under `source`, or is it, in a way that can be
/// repeated under `dest`: the folders are named, and what leads from `source`
/// to the entry doesn't read like a drive. Where paths are taken as they are
/// written, it must mean the same if read otherwise; there must be no `..` in
/// it if the destination is taken so.
pub open spec fn has_place(source: Seq<char>, dest: Seq<char>, entry: Seq<char>) -> bool {
    &&& paths::path_parts(source).len() > 0
    &&& paths::holds_names(dest)
    &&& paths::relative_to(entry, source) matches Some(rel)
    &&& rel.len() == 0 || {
        &&& paths::is_below(rel)
        &&& paths::reads_alike(
            entry,
            paths::path_parts(entry)[paths::path_parts(source).len() as int].1,
        )
        &&& paths::is_verbatim(dest) ==> paths::has_only_names(rel)
    }
}

/// A copy keeps the tree: what leads from the destination folder to the copy
/// is what leads from the source folder to the entry.
pub proof fn law_copies_keep_their_place(source: Seq<char>, dest: Seq<char>, entry: Seq<char>)
    requires
        has_place(source, dest, entry),
    ensures
        ({
            let way = paths::path_id(paths::relative_to(entry, source)->0);
            &&& paths::path_id(entry) == paths::path_id(source) + way
            &&& paths::path_id(target_path(source, dest, entry)) == paths::path_id(dest) + way
        }),
{
    let rel = paths::relative_to(entry, source)->0;
    if rel.len() == 0 {
        paths::lemma_join_nothing(dest, rel);
        paths::lemma_relative_nothing(entry, source);
    } else {
        paths::lemma_relative_id(entry, source);
        paths::lemma_join_id(dest, rel);
    }
}

/// No copy overwrites another: different entries have different copies.
pub proof fn law_copies_do_not_meet(
    source: Seq<char>,
    dest: Seq<char>,
    a: Seq<char>,
    b: Seq<char>,
)
    requires
        has_place(source, dest, a),
        has_place(source, dest, b),
    ensures
        paths::same_path(target_path(source, dest, a), target_path(source, dest, b))
            <==> paths::same_path(a, b),
{
    law_copies_keep_their_place(source, dest, a);
    law_copies_keep_their_place(source, dest, b);
    let x = paths::path_id(paths::relative_to(a, source)->0);
    let y = paths::path_id(paths::relative_to(b, source)->0);
    let s = paths::path_id(source);
    let d = paths::path_id(dest);
    if s + x == s + y {
        assert((s + x).skip(s.len() as int) =~= x && (s + y).skip(s.len() as int) =~= y);
    }
    if d + x == d + y {
        assert((d + x).skip(d.len() as int) =~= x && (d + y).skip(d.len() as int) =~= y);
    }
}

} // verus!
