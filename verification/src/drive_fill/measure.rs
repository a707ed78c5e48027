//! Sizing up folders.

use super::plan;
use crate::model::Timestamp;
use vstd::prelude::*;

verus! {

/// NTFS file-record size. Every file and folder costs one MFT record, which
/// grows the MFT out of the drive's free space, so it's counted on top of the
/// data clusters when estimating what a folder will really occupy.
pub const PER_ENTRY_OVERHEAD: u64 = 1024;

/// One top-level folder of the drive-fill source, sized up recursively.
#[derive(Debug, PartialEq)]
pub struct RootFolder {
    pub name: String,
    pub path: String,
    /// Sum of file sizes (what Explorer shows as "Size").
    pub size: u64,
    pub file_count: u64,
    pub dir_count: u64,
    pub created: Timestamp,
    pub modified: Timestamp,
    /// Every file's size, kept so the on-disk footprint can be computed
    /// exactly for whatever cluster size the target drive turns out to use.
    pub file_sizes: Vec<u64>,
}

/// The sizes rounded up to whole clusters, together.
pub open spec fn in_clusters(sizes: Seq<u64>, cluster: nat) -> nat
    decreases sizes.len(),
{
    if sizes.len() == 0 {
        0
    } else {
        in_clusters(sizes.drop_last(), cluster) + plan::ceil_div(sizes.last() as nat, cluster)
            * cluster
    }
}

/// `n`, or the largest size there is.
pub open spec fn capped(n: nat) -> u64 {
    if n <= u64::MAX {
        n as u64
    } else {
        u64::MAX
    }
}

impl RootFolder {
    /// The space this folder takes: its files in whole clusters, and a file
    /// record for each file and folder.
    pub open spec fn space(self, cluster: u64) -> nat {
        let c = if cluster > 1 {
            cluster as nat
        } else {
            1
        };
        in_clusters(self.file_sizes@, c) + (self.file_count + self.dir_count) as nat
            * PER_ENTRY_OVERHEAD as nat
    }

    /// Upper bound on the space this folder takes once copied to a drive with
    /// `cluster` bytes per cluster: each file rounded up to whole clusters,
    /// plus one file record per file and folder.
    pub fn footprint(&self, cluster: u64) -> (r: u64)
        ensures
            r == capped(self.space(cluster)),
    {
        let c: u64 = if cluster > 1 {
            cluster
        } else {
            1
        };
        let mut data: u64 = 0;
        let mut i: usize = 0;
        while i < self.file_sizes.len()
            invariant
                i <= self.file_sizes@.len(),
                c >= 1,
                data == capped(in_clusters(self.file_sizes@.take(i as int), c as nat)),
            decreases self.file_sizes@.len() - i,
        {
            let ghost sizes = self.file_sizes@;
            assert(sizes.take(i + 1).drop_last() =~= sizes.take(i as int));
            let s: u64 = self.file_sizes[i];
            let n: u64 = if s % c == 0 {
                s / c
            } else {
                assert(s / c < u64::MAX) by (nonlinear_arith)
                    requires
                        c >= 1,
                        s % c != 0,
                ;
                s / c + 1
            };
            assert(n == plan::ceil_div(s as nat, c as nat));
            let whole: u64 = match n.checked_mul(c) {
                Some(w) => w,
                None => 0xffff_ffff_ffff_ffff,
            };
            assert(whole == capped(plan::ceil_div(s as nat, c as nat) * c as nat)) by {
                assert(n * c >= 0) by (nonlinear_arith);
            }
            data = data.saturating_add(whole);
            i = i + 1;
        }
        assert(self.file_sizes@.take(self.file_sizes@.len() as int) =~= self.file_sizes@);
        let entries: u128 = self.file_count as u128 + self.dir_count as u128;
        let records: u128 = entries * 1024;
        let overhead: u64 = if records > 0xffff_ffff_ffff_ffff {
            0xffff_ffff_ffff_ffff
        } else {
            records as u64
        };
        data.saturating_add(overhead)
    }
}

/// What walking a folder comes across.
#[derive(Clone, Copy, Debug, PartialEq, Eq, Structural)]
pub enum Found {
    Folder,
    /// A file, with its length.
    File(u64),
    /// A link, an entry that can't be read, or a file without a length.
    Other,
}

/// The lengths of the files found.
pub open spec fn found_sizes(entries: Seq<Found>) -> Seq<u64>
    decreases entries.len(),
{
    if entries.len() == 0 {
        seq![]
    } else {
        match entries.last() {
            Found::File(n) => found_sizes(entries.drop_last()).push(n),
            _ => found_sizes(entries.drop_last()),
        }
    }
}

/// How many folders were found.
pub open spec fn found_folders(entries: Seq<Found>) -> nat
    decreases entries.len(),
{
    if entries.len() == 0 {
        0
    } else {
        found_folders(entries.drop_last()) + (if entries.last() is Folder {
            1nat
        } else {
            0nat
        })
    }
}

/// Totals a folder up from what walking it came across. A time that can't be
/// read counts as the beginning of 1970.
pub fn measure_folder(
    name: String,
    path: String,
    created: Option<Timestamp>,
    modified: Option<Timestamp>,
    entries: &Vec<Found>,
) -> (r: RootFolder)
    ensures
        r.name == name,
        r.path == path,
        r.created == (match created {
            Some(t) => t,
            None => 0,
        }),
        r.modified == (match modified {
            Some(t) => t,
            None => 0,
        }),
        r.file_sizes@ == found_sizes(entries@),
        r.file_count == found_sizes(entries@).len(),
        r.dir_count == found_folders(entries@),
        r.size == capped(total(found_sizes(entries@))),
{
    let created: Timestamp = match created {
        Some(t) => t,
        None => 0,
    };
    let modified: Timestamp = match modified {
        Some(t) => t,
        None => 0,
    };
    let mut size: u64 = 0;
    let mut dir_count: u64 = 0;
    let mut file_sizes: Vec<u64> = Vec::new();
    let mut i: usize = 0;
    while i < entries.len()
        invariant
            i <= entries@.len(),
            file_sizes@ == found_sizes(entries@.take(i as int)),
            size == capped(total(file_sizes@)),
            dir_count == found_folders(entries@.take(i as int)),
            dir_count <= i,
        decreases entries@.len() - i,
    {
        assert(entries@.take(i + 1).drop_last() =~= entries@.take(i as int));
        match entries[i] {
            Found::Folder => {
                dir_count = dir_count + 1;
            },
            Found::File(n) => {
                let ghost before = file_sizes@;
                file_sizes.push(n);
                assert(file_sizes@.drop_last() =~= before);
                size = size.saturating_add(n);
            },
            Found::Other => {},
        }
        i = i + 1;
    }
    assert(entries@.take(entries@.len() as int) =~= entries@);
    let file_count: u64 = file_sizes.len() as u64;
    RootFolder { name, path, size, file_count, dir_count, created, modified, file_sizes }
}

proof fn lemma_in_clusters(sizes: Seq<u64>, cluster: nat)
    requires
        cluster > 0,
    ensures
        in_clusters(sizes, cluster) >= total(sizes),
    decreases sizes.len(),
{
    if sizes.len() > 0 {
        lemma_in_clusters(sizes.drop_last(), cluster);
        plan::lemma_ceil_div(sizes.last() as nat, cluster);
    }
}

/// The sizes together.
pub open spec fn total(sizes: Seq<u64>) -> nat
    decreases sizes.len(),
{
    if sizes.len() == 0 {
        0
    } else {
        total(sizes.drop_last()) + sizes.last() as nat
    }
}

/// A folder never takes less space than its files are long.
pub proof fn law_footprint_covers_the_files(folder: RootFolder, cluster: u64)
    ensures
        folder.space(cluster) >= total(folder.file_sizes@),
{
    lemma_in_clusters(
        folder.file_sizes@,
        if cluster > 1 {
            cluster as nat
        } else {
            1
        },
    );
}

/// Each file takes whole clusters, as few as hold it: what one more file adds is
/// a multiple of the cluster, not less than its length and less than a cluster
/// more.
pub proof fn law_files_take_whole_clusters(sizes: Seq<u64>, size: u64, cluster: nat)
    requires
        cluster > 0,
    ensures
        in_clusters(Seq::<u64>::empty(), cluster) == 0,
        ({
            let added = in_clusters(sizes.push(size), cluster) - in_clusters(sizes, cluster);
            &&& added % (cluster as int) == 0
            &&& size <= added < size + cluster
        }),
{
    assert(sizes.push(size).drop_last() =~= sizes);
    plan::lemma_ceil_div(size as nat, cluster);
    let q = plan::ceil_div(size as nat, cluster);
    assert((q * cluster) % cluster == 0) by (nonlinear_arith)
        requires
            cluster > 0,
    ;
}

/// A folder takes its files in clusters of the drive, and a record of 1024 bytes
/// for each file and each folder in it.
pub proof fn law_space_counts_files_and_records(folder: RootFolder, cluster: u64)
    ensures
        cluster > 0 ==> folder.space(cluster) == in_clusters(folder.file_sizes@, cluster as nat)
            + 1024 * folder.file_count + 1024 * folder.dir_count,
        cluster == 0 ==> folder.space(cluster) == folder.space(1),
{
}

/// What walking a folder adds up to: the length of every file, in order, and
/// the number of folders; links and the like count for nothing.
pub proof fn law_everything_found_is_counted(entries: Seq<Found>, n: u64, sizes: Seq<u64>)
    ensures
        found_sizes(Seq::<Found>::empty()).len() == 0,
        found_folders(Seq::<Found>::empty()) == 0,
        found_sizes(entries.push(Found::File(n))) == found_sizes(entries).push(n),
        found_folders(entries.push(Found::File(n))) == found_folders(entries),
        found_sizes(entries.push(Found::Folder)) == found_sizes(entries),
        found_folders(entries.push(Found::Folder)) == found_folders(entries) + 1,
        found_sizes(entries.push(Found::Other)) == found_sizes(entries),
        found_folders(entries.push(Found::Other)) == found_folders(entries),
        total(Seq::<u64>::empty()) == 0,
        total(sizes.push(n)) == total(sizes) + n,
{
    assert(entries.push(Found::File(n)).drop_last() =~= entries);
    assert(entries.push(Found::Folder).drop_last() =~= entries);
    assert(entries.push(Found::Other).drop_last() =~= entries);
    assert(sizes.push(n).drop_last() =~= sizes);
}

/// What sizing up reports.
#[derive(Debug, PartialEq)]
pub enum MeasureEvent {
    Progress { done: usize, total: usize },
    Done(Vec<RootFolder>),
    Error(String),
}

/// An entry directly in the source.
#[derive(Debug, PartialEq)]
pub struct Listed {
    pub name: String,
    pub path: String,
    pub is_dir: bool,
}

/// The folders among the entries.
pub open spec fn folders_of(entries: Seq<Listed>) -> Seq<Listed>
    decreases entries.len(),
{
    if entries.len() == 0 {
        seq![]
    } else if entries.last().is_dir {
        folders_of(entries.drop_last()).push(entries.last())
    } else {
        folders_of(entries.drop_last())
    }
}

/// Of what lies directly in the source the folders are taken up, in order, and
/// nothing else.
pub proof fn law_only_folders_are_taken_up(entries: Seq<Listed>, e: Listed)
    ensures
        folders_of(Seq::<Listed>::empty()).len() == 0,
        e.is_dir ==> folders_of(entries.push(e)) == folders_of(entries).push(e),
        !e.is_dir ==> folders_of(entries.push(e)) == folders_of(entries),
{
    assert(entries.push(e).drop_last() =~= entries);
}

/// The subfolders of a source on their way to being totalled up.
#[derive(Debug)]
pub struct Measuring {
    pub roots: Vec<Listed>,
    /// How many of them have been taken up.
    pub done: usize,
    pub folders: Vec<RootFolder>,
}

impl Measuring {
    /// Starts on the immediate subfolders of `source`. Files sitting directly
    /// in it are ignored: only whole folders are placed on target drives. Where
    /// the source can't be read, gives what is to be reported instead.
    pub fn begin(source: &str, listing: Result<Vec<Listed>, String>) -> (r: Result<
        Self,
        Vec<MeasureEvent>,
    >)
        ensures
            match listing {
                Ok(entries) => r matches Ok(m) && m.roots@ == folders_of(entries@) && m.done == 0
                    && m.folders@.len() == 0,
                Err(e) => {
                    &&& r matches Err(events)
                    &&& events@.len() == 2
                    &&& events@[0] matches MeasureEvent::Error(m)
                    &&& m@ == "Couldn't read "@ + source@ + ": "@ + e@
                    &&& events@[1] matches MeasureEvent::Done(f)
                    &&& f@.len() == 0
                },
            },
    {
        match listing {
            Ok(entries) => {
                let ghost all = entries@;
                let mut roots: Vec<Listed> = Vec::new();
                for entry in it: entries
                    invariant
                        it.seq() == all,
                        roots@ == folders_of(all.take(it.index() as int)),
                {
                    assert(all.take(it.index() + 1).drop_last() =~= all.take(it.index() as int));
                    if entry.is_dir {
                        roots.push(entry);
                    }
                }
                assert(all.take(all.len() as int) =~= all);
                Ok(Measuring { roots, done: 0, folders: Vec::new() })
            },
            Err(e) => {
                let mut events: Vec<MeasureEvent> = Vec::new();
                events.push(
                    MeasureEvent::Error(
                        "Couldn't read ".to_owned().concat(source).concat(": ").concat(e.as_str()),
                    ),
                );
                events.push(MeasureEvent::Done(Vec::new()));
                Err(events)
            },
        }
    }

    /// Takes up the next folder: what to report, its name and its path.
    pub fn next(&mut self) -> (r: Option<(MeasureEvent, String, String)>)
        ensures
            final(self).roots == old(self).roots,
            final(self).folders == old(self).folders,
            match r {
                Some((event, name, path)) => {
                    &&& old(self).done < old(self).roots@.len()
                    &&& event == (MeasureEvent::Progress {
                        done: old(self).done,
                        total: old(self).roots@.len() as usize,
                    })
                    &&& name == old(self).roots@[old(self).done as int].name
                    &&& path == old(self).roots@[old(self).done as int].path
                    &&& final(self).done == old(self).done + 1
                },
                None => old(self).done >= old(self).roots@.len() && final(self).done
                    == old(self).done,
            },
    {
        if self.done < self.roots.len() {
            let i: usize = self.done;
            self.done = i + 1;
            Some(
                (
                    MeasureEvent::Progress { done: i, total: self.roots.len() },
                    self.roots[i].name.clone(),
                    self.roots[i].path.clone(),
                ),
            )
        } else {
            None
        }
    }

    /// Takes a folder that has been totalled up.
    pub fn take(&mut self, folder: RootFolder)
        ensures
            final(self).folders@ == old(self).folders@.push(folder),
            final(self).roots == old(self).roots,
            final(self).done == old(self).done,
    {
        self.folders.push(folder);
    }

    /// Ends, with whatever has been totalled up.
    pub fn finish(self) -> (r: MeasureEvent)
        ensures
            r == MeasureEvent::Done(self.folders),
    {
        MeasureEvent::Done(self.folders)
    }
}

} // verus!
