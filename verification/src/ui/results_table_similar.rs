//! The table of similar pictures and videos.

use crate::model::{MediaEntry, SimilarGroup};
use crate::view_cache;
use vstd::prelude::*;

verus! {

/// Indices, within a group's files, of the row that "wins" each highlighted
/// column, drawn in bold so a glance shows which copy is
/// largest/highest-res/oldest, independent of which one is the overall
/// `[Original]`.
#[derive(Clone, Copy, Debug, PartialEq, Eq, Structural)]
pub struct GroupHighlights {
    pub largest_size: usize,
    pub highest_resolution: usize,
    pub oldest_created: usize,
    pub oldest_modified: usize,
}

/// The sizes of the files.
pub open spec fn sizes(files: Seq<MediaEntry>) -> Seq<int> {
    files.map_values(|f: MediaEntry| f.size as int)
}

/// The numbers of pixels of the files.
pub open spec fn resolutions(files: Seq<MediaEntry>) -> Seq<int> {
    files.map_values(|f: MediaEntry| f.width * f.height)
}

/// The creation times of the files.
pub open spec fn creations(files: Seq<MediaEntry>) -> Seq<int> {
    files.map_values(|f: MediaEntry| f.created as int)
}

/// The modification times of the files.
pub open spec fn changes(files: Seq<MediaEntry>) -> Seq<int> {
    files.map_values(|f: MediaEntry| f.modified as int)
}

impl GroupHighlights {
    /// Finds the winners of a group: the last of the largest, the first of the
    /// oldest.
    pub fn compute(group: &SimilarGroup) -> (r: Self)
        ensures
            r.largest_size == view_cache::last_largest(sizes(group.files@)),
            r.highest_resolution == view_cache::last_largest(resolutions(group.files@)),
            r.oldest_created == view_cache::first_smallest(creations(group.files@)),
            r.oldest_modified == view_cache::first_smallest(changes(group.files@)),
    {
        let files: &Vec<MediaEntry> = &group.files;
        let mut by_size: Vec<i128> = Vec::new();
        let mut by_resolution: Vec<i128> = Vec::new();
        let mut by_created: Vec<i128> = Vec::new();
        let mut by_modified: Vec<i128> = Vec::new();
        let mut i: usize = 0;
        while i < files.len()
            invariant
                i <= files@.len(),
                view_cache::as_ints(by_size@) =~= sizes(files@.take(i as int)),
                view_cache::as_ints(by_resolution@) =~= resolutions(files@.take(i as int)),
                view_cache::as_ints(by_created@) =~= creations(files@.take(i as int)),
                view_cache::as_ints(by_modified@) =~= changes(files@.take(i as int)),
            decreases files@.len() - i,
        {
            let f: &MediaEntry = &files[i];
            assert(f.width * f.height <= 0xffff_ffff * 0xffff_ffff) by (nonlinear_arith)
                requires
                    f.width <= 0xffff_ffff,
                    f.height <= 0xffff_ffff,
            ;
            assert(f.width * f.height >= 0) by (nonlinear_arith);
            let ghost before = files@.take(i as int);
            let ghost now = files@.take(i + 1);
            let ghost sized = view_cache::as_ints(by_size@);
            let ghost resolved = view_cache::as_ints(by_resolution@);
            let ghost created = view_cache::as_ints(by_created@);
            let ghost modified = view_cache::as_ints(by_modified@);
            by_size.push(f.size as i128);
            by_resolution.push(f.width as i128 * f.height as i128);
            by_created.push(f.created);
            by_modified.push(f.modified);
            assert(now =~= before.push(*f));
            assert(view_cache::as_ints(by_size@) =~= sized.push(f.size as int));
            assert(sizes(now) =~= sizes(before).push(f.size as int));
            assert(view_cache::as_ints(by_resolution@) =~= resolved.push(f.width * f.height));
            assert(resolutions(now) =~= resolutions(before).push(f.width * f.height));
            assert(view_cache::as_ints(by_created@) =~= created.push(f.created as int));
            assert(creations(now) =~= creations(before).push(f.created as int));
            assert(view_cache::as_ints(by_modified@) =~= modified.push(f.modified as int));
            assert(changes(now) =~= changes(before).push(f.modified as int));
            i = i + 1;
        }
        assert(files@.take(files@.len() as int) =~= files@);
        GroupHighlights {
            largest_size: view_cache::find_last_largest(&by_size),
            highest_resolution: view_cache::find_last_largest(&by_resolution),
            oldest_created: view_cache::find_first_smallest(&by_created),
            oldest_modified: view_cache::find_first_smallest(&by_modified),
        }
    }
}

/// What is highlighted in a group: no file is larger, has more pixels, or is older
/// than the ones that are.
pub proof fn law_highlights_are_the_extremes(files: Seq<MediaEntry>, r: GroupHighlights, k: int)
    requires
        0 <= k < files.len(),
        // What `GroupHighlights::compute` finds.
        r.largest_size == view_cache::last_largest(sizes(files)),
        r.highest_resolution == view_cache::last_largest(resolutions(files)),
        r.oldest_created == view_cache::first_smallest(creations(files)),
        r.oldest_modified == view_cache::first_smallest(changes(files)),
    ensures
        r.largest_size < files.len() && files[k].size <= files[r.largest_size as int].size,
        r.highest_resolution < files.len() && files[k].width * files[k].height
            <= files[r.highest_resolution as int].width * files[r.highest_resolution as int].height,
        r.oldest_created < files.len() && files[r.oldest_created as int].created
            <= files[k].created,
        r.oldest_modified < files.len() && files[r.oldest_modified as int].modified
            <= files[k].modified,
{
    view_cache::lemma_smallest_in_range(sizes(files));
    view_cache::lemma_smallest_in_range(resolutions(files));
    view_cache::lemma_smallest_in_range(creations(files));
    view_cache::lemma_smallest_in_range(changes(files));
    view_cache::law_extremes(sizes(files), k);
    view_cache::law_extremes(resolutions(files), k);
    view_cache::law_extremes(creations(files), k);
    view_cache::law_extremes(changes(files), k);
}

} // verus!
