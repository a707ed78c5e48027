//! Indexing files for reverse search.
//!
//! Unlike the duplicate scan, which only pays for a full-file hash once a file
//! already shares a size (and then a partial hash) with something else in the
//! same scan, indexing fully hashes *every* file: the point is to find matches
//! against files that may not even be part of the current scan. Reading and
//! hashing files is up to the caller.

use crate::index_db::{self, Entry, IndexedFile, VolumeUsage};
use crate::model::{FileEntry, Timestamp};
use crate::sets::TextSet;
use crate::text;
use crate::volume::{self, DiskSpace, VolumeInfo};
use vstd::prelude::*;

verus! {

/// What an indexing pass reports.
#[derive(Debug, PartialEq)]
pub enum IndexEvent {
    Progress { scanned: usize, total: usize },
    Done {
        entries: Vec<Entry>,
        elapsed_ms: u128,
        /// How full each indexed drive is, measured at the end of the pass.
        usage: Vec<(String, String, VolumeUsage)>,
    },
}

/// The drive letters of the files, each once, in the order of their first
/// file.
pub open spec fn drives(files: Seq<FileEntry>) -> Seq<Seq<char>>
    decreases files.len(),
{
    if files.len() == 0 {
        seq![]
    } else {
        let before = drives(files.drop_last());
        let d = volume::drive_letter(files.last().path@);
        if before.contains(d) {
            before
        } else {
            before.push(d)
        }
    }
}

/// The drives whose volumes are to be looked up. A lookup asks the system, so
/// it's made once per drive letter rather than per file.
pub fn drives_of(files: &Vec<FileEntry>) -> (r: Vec<String>)
    ensures
        text::texts(r@) == drives(files@),
{
    let mut seen: TextSet = TextSet::new();
    let mut out: Vec<String> = Vec::new();
    let mut i: usize = 0;
    while i < files.len()
        invariant
            i <= files@.len(),
            text::texts(out@) =~= drives(files@.take(i as int)),
            forall|d: Seq<char>| #[trigger]
                seen@.contains(d) == drives(files@.take(i as int)).contains(d),
        decreases files@.len() - i,
    {
        let ghost known = drives(files@.take(i as int));
        assert(files@.take(i + 1).drop_last() =~= files@.take(i as int));
        let drive: String = volume::drive_letter_of(files[i].path.as_str());
        if !seen.contains(drive.as_str()) {
            let ghost before = out@;
            seen.insert(drive.clone());
            out.push(drive);
            assert(text::texts(out@) =~= text::texts(before).push(drive@));
            assert forall|d: Seq<char>| #[trigger]
                seen@.contains(d) == known.push(drive@).contains(d) by {
                if known.contains(d) {
                    let k = choose|k: int| 0 <= k < known.len() && known[k] == d;
                    assert(known.push(drive@)[k] == d);
                }
                assert(known.push(drive@)[known.len() as int] == drive@);
            }
        }
        i = i + 1;
    }
    assert(files@.take(files@.len() as int) =~= files@);
    out
}

/// The volume that was looked up for a drive letter.
pub open spec fn volume_at(volumes: Seq<VolumeInfo>, drive_letter: Seq<char>) -> Option<VolumeInfo>
    decreases volumes.len(),
{
    if volumes.len() == 0 {
        None
    } else if volumes[0].drive_letter@ == drive_letter {
        Some(volumes[0])
    } else {
        volume_at(volumes.skip(1), drive_letter)
    }
}

fn find_volume<'a>(volumes: &'a Vec<VolumeInfo>, drive_letter: &str) -> (r: Option<&'a VolumeInfo>)
    ensures
        match volume_at(volumes@, drive_letter@) {
            Some(v) => r matches Some(f) && *f == v,
            None => r is None,
        },
{
    let mut i: usize = 0;
    assert(volumes@.skip(0) =~= volumes@);
    while i < volumes.len()
        invariant
            i <= volumes@.len(),
            volume_at(volumes@, drive_letter@) == volume_at(
                volumes@.skip(i as int),
                drive_letter@,
            ),
        decreases volumes@.len() - i,
    {
        assert(volumes@.skip(i as int)[0] == volumes@[i as int]);
        assert(volumes@.skip(i as int).skip(1) =~= volumes@.skip(i + 1));
        if text::text_eq(volumes[i].drive_letter.as_str(), drive_letter) {
            return Some(&volumes[i]);
        }
        i = i + 1;
    }
    None
}

/// Whether this is the entry of a file: under its hash, on its volume.
pub open spec fn is_entry_of(
    e: Entry,
    file: FileEntry,
    hash: Seq<u8>,
    volume: VolumeInfo,
) -> bool {
    &&& e.0@ == index_db::hex(hash)
    &&& e.1.volume_label@ == volume.label@
    &&& e.1.drive_letter@ == volume::drive_letter(file.path@)
    &&& e.1.rel_path@ == volume::path_on_drive(file.path@)
    &&& e.1.size == file.size
    &&& e.1.modified == file.modified
}

/// The entry of a file that was hashed, if its volume is known.
pub fn index_entry(file: &FileEntry, hash: &[u8; 32], volumes: &Vec<VolumeInfo>) -> (r: Option<
    Entry,
>)
    ensures
        match volume_at(volumes@, volume::drive_letter(file.path@)) {
            Some(v) => r matches Some(e) && is_entry_of(e, *file, hash@, v),
            None => r is None,
        },
{
    let drive_letter: String = volume::drive_letter_of(file.path.as_str());
    match find_volume(volumes, drive_letter.as_str()) {
        Some(v) => Some(
            (
                index_db::hex_encode(hash),
                IndexedFile {
                    volume_label: v.label.clone(),
                    drive_letter,
                    rel_path: volume::rel_path_of(file.path.as_str()),
                    size: file.size,
                    modified: file.modified,
                },
            ),
        ),
        None => None,
    }
}

/// Whether these are the entries of the files, in order: of each that was
/// hashed and whose volume is known.
pub open spec fn are_entries(
    entries: Seq<Entry>,
    files: Seq<FileEntry>,
    hashes: Seq<Option<[u8; 32]>>,
    volumes: Seq<VolumeInfo>,
) -> bool
    decreases files.len(),
{
    if files.len() == 0 {
        entries.len() == 0
    } else {
        let known = volume_at(volumes, volume::drive_letter(files.last().path@));
        match (hashes[files.len() - 1], known) {
            (Some(h), Some(v)) => {
                &&& entries.len() > 0
                &&& is_entry_of(entries.last(), files.last(), h@, v)
                &&& are_entries(entries.drop_last(), files.drop_last(), hashes, volumes)
            },
            _ => are_entries(entries, files.drop_last(), hashes, volumes),
        }
    }
}

/// The entries of the files, given their hashes (none for a file that couldn't
/// be read, or wasn't since the pass was cancelled) and the volumes of their
/// drives.
pub fn index_entries(
    files: &Vec<FileEntry>,
    hashes: &Vec<Option<[u8; 32]>>,
    volumes: &Vec<VolumeInfo>,
) -> (r: Vec<Entry>)
    requires
        hashes@.len() == files@.len(),
    ensures
        are_entries(r@, files@, hashes@, volumes@),
{
    let mut out: Vec<Entry> = Vec::new();
    let mut i: usize = 0;
    while i < files.len()
        invariant
            i <= files@.len(),
            hashes@.len() == files@.len(),
            are_entries(out@, files@.take(i as int), hashes@, volumes@),
        decreases files@.len() - i,
    {
        assert(files@.take(i + 1).drop_last() =~= files@.take(i as int));
        let ghost before = out@;
        if let Some(hash) = &hashes[i] {
            if let Some(e) = index_entry(&files[i], hash, volumes) {
                out.push(e);
                assert(out@.drop_last() =~= before);
            }
        }
        i = i + 1;
    }
    assert(files@.take(files@.len() as int) =~= files@);
    out
}

/// Every file that was hashed and whose volume is known is indexed.
pub proof fn law_every_file_is_indexed(
    entries: Seq<Entry>,
    files: Seq<FileEntry>,
    hashes: Seq<Option<[u8; 32]>>,
    volumes: Seq<VolumeInfo>,
    i: int,
)
    requires
        are_entries(entries, files, hashes, volumes),
        0 <= i < files.len(),
        hashes[i] is Some,
        volume_at(volumes, volume::drive_letter(files[i].path@)) is Some,
    ensures
        exists|k: int|
            0 <= k < entries.len() && is_entry_of(
                #[trigger] entries[k],
                files[i],
                hashes[i]->0@,
                volume_at(volumes, volume::drive_letter(files[i].path@))->0,
            ),
    decreases files.len(),
{
    let known = volume_at(volumes, volume::drive_letter(files.last().path@));
    let both = hashes[files.len() - 1] is Some && known is Some;
    if i == files.len() - 1 {
        assert(is_entry_of(entries[entries.len() - 1], files[i], hashes[i]->0@, known->0));
    } else {
        let less = if both {
            entries.drop_last()
        } else {
            entries
        };
        assert(files.drop_last()[i] == files[i]);
        law_every_file_is_indexed(less, files.drop_last(), hashes, volumes, i);
        let k = choose|k: int|
            0 <= k < less.len() && is_entry_of(
                #[trigger] less[k],
                files[i],
                hashes[i]->0@,
                volume_at(volumes, volume::drive_letter(files[i].path@))->0,
            );
        assert(entries[k] == less[k]);
    }
}

/// What an indexed file is recorded as: under its hash in hexadecimal digits, with
/// the label of its volume, its drive letter and its path on that drive, its
/// length and its time.
pub proof fn law_entries_record_the_file(
    e: Entry,
    file: FileEntry,
    hash: Seq<u8>,
    volume: VolumeInfo,
)
    ensures
        is_entry_of(e, file, hash, volume) <==> {
            &&& e.0@ == index_db::hex(hash)
            &&& e.1.volume_label@ == volume.label@
            &&& e.1.drive_letter@ == volume::drive_letter(file.path@)
            &&& e.1.rel_path@ == volume::path_on_drive(file.path@)
            &&& e.1.size == file.size
            &&& e.1.modified == file.modified
        },
{
}

/// Nothing else is indexed: every entry is that of a file that was hashed, on the
/// volume that was looked up for its drive letter.
pub proof fn law_only_files_are_indexed(
    entries: Seq<Entry>,
    files: Seq<FileEntry>,
    hashes: Seq<Option<[u8; 32]>>,
    volumes: Seq<VolumeInfo>,
    k: int,
) -> (i: int)
    requires
        are_entries(entries, files, hashes, volumes),
        0 <= k < entries.len(),
    ensures
        0 <= i < files.len(),
        hashes[i] matches Some(h) && volume_at(volumes, volume::drive_letter(files[i].path@)) matches Some(
            v,
        ) && is_entry_of(entries[k], files[i], h@, v),
    decreases files.len(),
{
    let known = volume_at(volumes, volume::drive_letter(files.last().path@));
    let both = hashes[files.len() - 1] is Some && known is Some;
    let t = files.drop_last();
    if both {
        if k == entries.len() - 1 {
            files.len() - 1
        } else {
            let i = law_only_files_are_indexed(entries.drop_last(), t, hashes, volumes, k);
            assert(t[i] == files[i]);
            i
        }
    } else {
        let i = law_only_files_are_indexed(entries, t, hashes, volumes, k);
        assert(t[i] == files[i]);
        i
    }
}

/// The volume of a drive letter is the first that was looked up for it.
pub proof fn law_volumes_go_by_their_letter(volumes: Seq<VolumeInfo>, drive_letter: Seq<char>)
    ensures
        volume_at(volumes, drive_letter) is None ==> forall|i: int|
            0 <= i < volumes.len() ==> (#[trigger] volumes[i]).drive_letter@ != drive_letter,
        volume_at(volumes, drive_letter) matches Some(v) ==> exists|i: int|
            0 <= i < volumes.len() && #[trigger] volumes[i] == v && v.drive_letter@ == drive_letter
                && forall|j: int| 0 <= j < i ==> (#[trigger] volumes[j]).drive_letter@
                != drive_letter,
    decreases volumes.len(),
{
    if volumes.len() > 0 && volumes[0].drive_letter@ != drive_letter {
        let rest = volumes.skip(1);
        law_volumes_go_by_their_letter(rest, drive_letter);
        if let Some(v) = volume_at(rest, drive_letter) {
            let i = choose|i: int|
                0 <= i < rest.len() && #[trigger] rest[i] == v && v.drive_letter@ == drive_letter
                    && forall|j: int| 0 <= j < i ==> (#[trigger] rest[j]).drive_letter@
                    != drive_letter;
            assert(volumes[i + 1] == v);
            assert forall|j: int| 0 <= j < i + 1 implies (#[trigger] volumes[j]).drive_letter@
                != drive_letter by {
                if j > 0 {
                    assert(rest[j - 1] == volumes[j]);
                }
            }
        } else {
            assert forall|i: int| 0 <= i < volumes.len() implies (
            #[trigger] volumes[i]).drive_letter@ != drive_letter by {
                if i > 0 {
                    assert(rest[i - 1] == volumes[i]);
                }
            }
        }
    }
}

/// The drives that are looked up are those of the files, each once.
pub proof fn law_every_drive_is_looked_up_once(files: Seq<FileEntry>, i: int)
    ensures
        drives(files).no_duplicates(),
        0 <= i < files.len() ==> drives(files).contains(volume::drive_letter(files[i].path@)),
        forall|k: int|
            0 <= k < drives(files).len() ==> is_drive_of_some(files, #[trigger] drives(files)[k]),
    decreases files.len(),
{
    if files.len() > 0 {
        let t = files.drop_last();
        let before = drives(t);
        let all = drives(files);
        let d = volume::drive_letter(files.last().path@);
        law_every_drive_is_looked_up_once(t, i);
        if 0 <= i < t.len() {
            let w = volume::drive_letter(t[i].path@);
            let k = choose|k: int| 0 <= k < before.len() && before[k] == w;
            assert(all[k] == w);
        } else if i == t.len() && !before.contains(d) {
            assert(all[before.len() as int] == d);
        }
        assert forall|k: int| 0 <= k < all.len() implies is_drive_of_some(
            files,
            #[trigger] all[k],
        ) by {
            if k < before.len() {
                assert(is_drive_of_some(t, before[k]));
                let j = choose|j: int|
                    0 <= j < t.len() && volume::drive_letter((#[trigger] t[j]).path@) == before[k];
                assert(files[j] == t[j]);
            } else {
                assert(volume::drive_letter(files[files.len() - 1].path@) == all[k]);
            }
        }
    }
}

/// Whether some file lies on the drive.
pub open spec fn is_drive_of_some(files: Seq<FileEntry>, d: Seq<char>) -> bool {
    exists|j: int|
        0 <= j < files.len() && volume::drive_letter((#[trigger] files[j]).path@) == d
}

/// What is to be reported once `scanned` out of `total` files have been
/// hashed: progress, every two hundred files.
pub fn progress_after(scanned: usize, total: usize) -> (r: Option<IndexEvent>)
    ensures
        r == (if scanned % 200 == 0 {
            Some(IndexEvent::Progress { scanned, total })
        } else {
            None
        }),
{
    if scanned % 200 == 0 {
        Some(IndexEvent::Progress { scanned, total })
    } else {
        None
    }
}

/// How full a drive (e.g. `"D:"`) is, given the space the system reports for
/// it, if it's queryable.
pub fn volume_usage(drive_letter: &str, space: Option<DiskSpace>, now: Timestamp) -> (r: Option<
    VolumeUsage,
>)
    ensures
        r == (match space {
            Some(s) => if drive_letter@.len() > 0 {
                Some(VolumeUsage { total: s.total, free: s.free, recorded_at: now })
            } else {
                None
            },
            None => None,
        }),
{
    if drive_letter.is_empty() {
        return None;
    }
    match space {
        Some(s) => Some(VolumeUsage { total: s.total, free: s.free, recorded_at: now }),
        None => None,
    }
}

} // verus!
