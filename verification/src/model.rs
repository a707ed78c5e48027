//! What a scan finds and reports.

use vstd::prelude::*;

verus! {

/// A point in time: nanoseconds since the beginning of 1970 (UTC).
pub type Timestamp = i128;

/// A file found by a scan.
#[derive(Debug, PartialEq)]
pub struct FileEntry {
    pub path: String,
    pub size: u64,
    pub created: Timestamp,
    pub modified: Timestamp,
}

impl Clone for FileEntry {
    fn clone(&self) -> (r: Self)
        ensures
            r == *self,
    {
        FileEntry {
            path: self.path.clone(),
            size: self.size,
            created: self.created,
            modified: self.modified,
        }
    }
}

/// Files with the same content.
#[derive(Debug, PartialEq)]
pub struct DupeGroup {
    pub hash: [u8; 32],
    /// Sorted so that `files[0]` is the "original" (oldest `modified`, then
    /// shortest file name).
    pub files: Vec<FileEntry>,
}

/// An image or video file considered by `ScanMode::SimilarMedia`. Decoded
/// dimensions are what let that mode pick the highest-resolution copy as the
/// original, unlike `ScanMode::ExactContent`'s oldest-file rule.
#[derive(Debug, PartialEq)]
pub struct MediaEntry {
    pub path: String,
    pub size: u64,
    pub created: Timestamp,
    pub modified: Timestamp,
    pub width: u32,
    pub height: u32,
}

impl Clone for MediaEntry {
    fn clone(&self) -> (r: Self)
        ensures
            r == *self,
    {
        MediaEntry {
            path: self.path.clone(),
            size: self.size,
            created: self.created,
            modified: self.modified,
            width: self.width,
            height: self.height,
        }
    }
}

/// A cluster of images/videos that look like the same shot at different
/// resolutions. Sorted so that `files[0]` is the "original": highest
/// resolution first, oldest `modified` as a tiebreaker.
#[derive(Debug, PartialEq)]
pub struct SimilarGroup {
    pub files: Vec<MediaEntry>,
}

/// What a scan reports while it runs.
#[derive(Debug, PartialEq)]
pub enum ScanEvent {
    Progress { scanned: usize },
    /// Sent once, right before the (slow) full-file hashing pass begins, once
    /// the total bytes that pass need reading is known.
    HashPhaseStarted { total_bytes: u64 },
    /// Cumulative bytes hashed so far during the full-file hashing pass.
    HashProgress { bytes_done: u64 },
    GroupFound(DupeGroup),
    SimilarGroupFound(SimilarGroup),
    /// A batch of files found by `ScanMode::MatchingFiles`.
    FilesMatched(Vec<FileEntry>),
    Done { elapsed_ms: u128 },
    Error(String),
}

/// Progress from a background trash-deletion, so a large selection doesn't
/// freeze the UI or leave the user staring at nothing.
#[derive(Debug, PartialEq)]
pub enum DeleteEvent {
    /// The worker is about to delete `path`; drives the "currently deleting"
    /// readout.
    FileStarted { path: String },
    /// One file has been (attempted to be) deleted; `deleted` is false if it
    /// was missing or the trash call failed.
    FileDone { path: String, deleted: bool },
    Finished,
}

/// The groups as lists of files.
pub open spec fn file_lists(groups: Seq<DupeGroup>) -> Seq<Seq<FileEntry>> {
    groups.map_values(|g: DupeGroup| g.files@)
}

/// The groups as lists of media files.
pub open spec fn media_lists(groups: Seq<SimilarGroup>) -> Seq<Seq<MediaEntry>> {
    groups.map_values(|g: SimilarGroup| g.files@)
}

/// Lists of lists by their items.
pub open spec fn nested<T>(v: Seq<Vec<T>>) -> Seq<Seq<T>> {
    v.map_values(|x: Vec<T>| x@)
}

impl Clone for DupeGroup {
    fn clone(&self) -> (r: Self)
        ensures
            r.hash == self.hash,
            r.files@ == self.files@,
    {
        DupeGroup { hash: self.hash, files: copy_files(&self.files) }
    }
}

impl Clone for SimilarGroup {
    fn clone(&self) -> (r: Self)
        ensures
            r.files@ == self.files@,
    {
        SimilarGroup { files: copy_media(&self.files) }
    }
}

/// A copy of the list.
pub fn copy_files(files: &Vec<FileEntry>) -> (r: Vec<FileEntry>)
    ensures
        r@ == files@,
{
    let mut out: Vec<FileEntry> = Vec::new();
    let mut i: usize = 0;
    while i < files.len()
        invariant
            i <= files@.len(),
            out@ =~= files@.take(i as int),
        decreases files@.len() - i,
    {
        out.push(files[i].clone());
        i = i + 1;
    }
    assert(files@.take(files@.len() as int) =~= files@);
    out
}

/// A copy of the list.
pub fn copy_media(files: &Vec<MediaEntry>) -> (r: Vec<MediaEntry>)
    ensures
        r@ == files@,
{
    let mut out: Vec<MediaEntry> = Vec::new();
    let mut i: usize = 0;
    while i < files.len()
        invariant
            i <= files@.len(),
            out@ =~= files@.take(i as int),
        decreases files@.len() - i,
    {
        out.push(files[i].clone());
        i = i + 1;
    }
    assert(files@.take(files@.len() as int) =~= files@);
    out
}

} // verus!
