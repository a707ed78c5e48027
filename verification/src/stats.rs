//! Numbers about scan results.

use crate::model::{DupeGroup, FileEntry, MediaEntry, SimilarGroup};
use vstd::prelude::*;

verus! {

/// Aggregate numbers derived from the current duplicate groups, shown in the
/// statistics section so the user can see scan results at a glance. A number
/// that does not fit stays at its largest value.
#[derive(Clone, Copy, Debug, PartialEq, Eq, Structural)]
pub struct ScanStats {
    pub group_count: usize,
    pub total_file_count: usize,
    pub duplicate_file_count: usize,
    pub total_bytes: u64,
    pub wasted_bytes: u64,
}

impl Default for ScanStats {
    fn default() -> (r: Self)
        ensures
            r == no_stats(),
    {
        ScanStats {
            group_count: 0,
            total_file_count: 0,
            duplicate_file_count: 0,
            total_bytes: 0,
            wasted_bytes: 0,
        }
    }
}

/// The numbers about nothing.
pub open spec fn no_stats() -> ScanStats {
    ScanStats {
        group_count: 0,
        total_file_count: 0,
        duplicate_file_count: 0,
        total_bytes: 0,
        wasted_bytes: 0,
    }
}

/// The sizes of the files in each group.
pub open spec fn file_sizes(groups: Seq<DupeGroup>) -> Seq<Seq<u64>> {
    groups.map_values(|g: DupeGroup| g.files@.map_values(|f: FileEntry| f.size))
}

/// The sizes of the media files in each group.
pub open spec fn media_sizes(groups: Seq<SimilarGroup>) -> Seq<Seq<u64>> {
    groups.map_values(|g: SimilarGroup| g.files@.map_values(|f: MediaEntry| f.size))
}

/// The sum of the numbers.
pub open spec fn sum(s: Seq<u64>) -> nat
    decreases s.len(),
{
    if s.len() == 0 {
        0
    } else {
        sum(s.drop_last()) + s.last() as nat
    }
}

/// How many files the groups hold.
pub open spec fn count_all(sizes: Seq<Seq<u64>>) -> nat
    decreases sizes.len(),
{
    if sizes.len() == 0 {
        0
    } else {
        count_all(sizes.drop_last()) + sizes.last().len()
    }
}

/// The size of all files in the groups.
pub open spec fn sum_all(sizes: Seq<Seq<u64>>) -> nat
    decreases sizes.len(),
{
    if sizes.len() == 0 {
        0
    } else {
        sum_all(sizes.drop_last()) + sum(sizes.last())
    }
}

/// The size of all files in the groups but the first of each.
pub open spec fn sum_duplicates(sizes: Seq<Seq<u64>>) -> nat
    decreases sizes.len(),
{
    if sizes.len() == 0 {
        0
    } else {
        sum_duplicates(sizes.drop_last()) + sum(sizes.last().skip(1))
    }
}

/// `n`, or the largest count there is.
pub open spec fn capped_count(n: nat) -> usize {
    if n <= usize::MAX {
        n as usize
    } else {
        usize::MAX
    }
}

/// `n`, or the largest size there is.
pub open spec fn capped_size(n: nat) -> u64 {
    if n <= u64::MAX {
        n as u64
    } else {
        u64::MAX
    }
}

/// The numbers about groups with files of these sizes: the first file of each
/// group is the "original", every other one is a reclaimable duplicate.
pub open spec fn stats_of(sizes: Seq<Seq<u64>>) -> ScanStats {
    ScanStats {
        group_count: capped_count(sizes.len()),
        total_file_count: capped_count(count_all(sizes)),
        duplicate_file_count: capped_count((count_all(sizes) - sizes.len()) as nat),
        total_bytes: capped_size(sum_all(sizes)),
        wasted_bytes: capped_size(sum_duplicates(sizes)),
    }
}

/// No group is empty.
pub open spec fn none_empty(sizes: Seq<Seq<u64>>) -> bool {
    forall|g: int| 0 <= g < sizes.len() ==> (#[trigger] sizes[g]).len() > 0
}

proof fn lemma_count_all(sizes: Seq<Seq<u64>>)
    requires
        none_empty(sizes),
    ensures
        count_all(sizes) >= sizes.len(),
    decreases sizes.len(),
{
    if sizes.len() > 0 {
        assert(none_empty(sizes.drop_last())) by {
            assert forall|g: int| 0 <= g < sizes.len() - 1 implies (
            #[trigger] sizes.drop_last()[g]).len() > 0 by {
                assert(sizes[g].len() > 0);
            }
        }
        assert(sizes[sizes.len() - 1].len() > 0);
        lemma_count_all(sizes.drop_last());
    }
}

/// The duplicates of the groups are all their files but the originals, and
/// wasted space is what they take: nothing more than all files take.
pub proof fn law_wasted_at_most_total(sizes: Seq<Seq<u64>>)
    requires
        none_empty(sizes),
    ensures
        sum_duplicates(sizes) <= sum_all(sizes),
    decreases sizes.len(),
{
    if sizes.len() > 0 {
        assert(none_empty(sizes.drop_last())) by {
            assert forall|g: int| 0 <= g < sizes.len() - 1 implies (
            #[trigger] sizes.drop_last()[g]).len() > 0 by {
                assert(sizes[g].len() > 0);
            }
        }
        law_wasted_at_most_total(sizes.drop_last());
        assert(sizes[sizes.len() - 1].len() > 0);
        lemma_sum_skip(sizes.last());
    }
}

proof fn lemma_sum_skip(s: Seq<u64>)
    requires
        s.len() > 0,
    ensures
        sum(s) == s[0] + sum(s.skip(1)),
    decreases s.len(),
{
    if s.len() == 1 {
        assert(s.drop_last() =~= seq![]);
        assert(s.skip(1) =~= seq![]);
        assert(sum(s.drop_last()) == 0);
        assert(sum(s.skip(1)) == 0);
    } else {
        lemma_sum_skip(s.drop_last());
        assert(s.drop_last().skip(1) =~= s.skip(1).drop_last());
    }
}

/// Adds the files of one more group to the numbers.
fn add_group(stats: ScanStats, sizes: &Vec<u64>, Ghost(before): Ghost<Seq<Seq<u64>>>) -> (r:
    ScanStats)
    requires
        stats == stats_of(before),
        none_empty(before),
        sizes@.len() > 0,
    ensures
        r == stats_of(before.push(sizes@)),
{
    let ghost now = before.push(sizes@);
    assert(now.drop_last() =~= before);
    proof {
        lemma_count_all(before);
    }
    let mut total: u64 = stats.total_bytes;
    let mut wasted: u64 = stats.wasted_bytes;
    let mut i: usize = 0;
    while i < sizes.len()
        invariant
            i <= sizes@.len(),
            total == capped_size(sum_all(before) + sum(sizes@.take(i as int))),
            i == 0 ==> wasted == capped_size(sum_duplicates(before)),
            i > 0 ==> wasted == capped_size(
                sum_duplicates(before) + sum(sizes@.subrange(1, i as int)),
            ),
        decreases sizes@.len() - i,
    {
        assert(sizes@.take(i + 1).drop_last() =~= sizes@.take(i as int));
        total = total.saturating_add(sizes[i]);
        if i > 0 {
            assert(sizes@.subrange(1, i + 1).drop_last() =~= sizes@.subrange(1, i as int));
            wasted = wasted.saturating_add(sizes[i]);
        } else {
            assert(sizes@.subrange(1, 1) =~= seq![]);
            assert(sum(sizes@.subrange(1, 1)) == 0);
        }
        i = i + 1;
    }
    assert(sizes@.take(sizes@.len() as int) =~= sizes@);
    assert(sizes@.subrange(1, sizes@.len() as int) =~= sizes@.skip(1));
    ScanStats {
        group_count: stats.group_count.saturating_add(1),
        total_file_count: stats.total_file_count.saturating_add(sizes.len()),
        duplicate_file_count: stats.duplicate_file_count.saturating_add(sizes.len() - 1),
        total_bytes: total,
        wasted_bytes: wasted,
    }
}

/// The first file of a group is always the "original"; every other file in the
/// group is a reclaimable duplicate, so wasted space is each duplicate's own
/// size.
pub fn compute(groups: &[DupeGroup]) -> (r: ScanStats)
    requires
        none_empty(file_sizes(groups@)),
    ensures
        r == stats_of(file_sizes(groups@)),
{
    let ghost all = file_sizes(groups@);
    let mut stats = ScanStats::default();
    let mut g: usize = 0;
    assert(all.take(0) =~= seq![]);
    while g < groups.len()
        invariant
            g <= groups@.len(),
            all == file_sizes(groups@),
            none_empty(all),
            stats == stats_of(all.take(g as int)),
        decreases groups@.len() - g,
    {
        let files: &Vec<FileEntry> = &groups[g].files;
        let mut sizes: Vec<u64> = Vec::new();
        let mut i: usize = 0;
        while i < files.len()
            invariant
                i <= files@.len(),
                sizes@ =~= files@.take(i as int).map_values(|f: FileEntry| f.size),
            decreases files@.len() - i,
        {
            assert(files@.take(i + 1) =~= files@.take(i as int).push(files@[i as int]));
            sizes.push(files[i].size);
            i = i + 1;
        }
        assert(files@.take(files@.len() as int) =~= files@);
        assert(all[g as int] == sizes@);
        assert(none_empty(all.take(g as int)));
        stats = add_group(stats, &sizes, Ghost(all.take(g as int)));
        assert(all.take(g + 1) =~= all.take(g as int).push(sizes@));
        g = g + 1;
    }
    assert(all.take(all.len() as int) =~= all);
    stats
}

/// Same as `compute`, for `ScanMode::SimilarMedia` results.
pub fn compute_similar(groups: &[SimilarGroup]) -> (r: ScanStats)
    requires
        none_empty(media_sizes(groups@)),
    ensures
        r == stats_of(media_sizes(groups@)),
{
    let ghost all = media_sizes(groups@);
    let mut stats = ScanStats::default();
    let mut g: usize = 0;
    assert(all.take(0) =~= seq![]);
    while g < groups.len()
        invariant
            g <= groups@.len(),
            all == media_sizes(groups@),
            none_empty(all),
            stats == stats_of(all.take(g as int)),
        decreases groups@.len() - g,
    {
        let files: &Vec<MediaEntry> = &groups[g].files;
        let mut sizes: Vec<u64> = Vec::new();
        let mut i: usize = 0;
        while i < files.len()
            invariant
                i <= files@.len(),
                sizes@ =~= files@.take(i as int).map_values(|f: MediaEntry| f.size),
            decreases files@.len() - i,
        {
            assert(files@.take(i + 1) =~= files@.take(i as int).push(files@[i as int]));
            sizes.push(files[i].size);
            i = i + 1;
        }
        assert(files@.take(files@.len() as int) =~= files@);
        assert(all[g as int] == sizes@);
        assert(none_empty(all.take(g as int)));
        stats = add_group(stats, &sizes, Ghost(all.take(g as int)));
        assert(all.take(g + 1) =~= all.take(g as int).push(sizes@));
        g = g + 1;
    }
    assert(all.take(all.len() as int) =~= all);
    stats
}

/// What one more group with files adds to the numbers: one to the groups, its
/// files to the files, all of them but one to the duplicates, their sizes to the
/// size, and those of all but the first to the wasted space; as long as the
/// numbers fit.
pub proof fn law_groups_add_their_files(sizes: Seq<Seq<u64>>, g: Seq<u64>)
    requires
        none_empty(sizes),
        g.len() > 0,
    ensures
        stats_of(Seq::<Seq<u64>>::empty()) == (ScanStats {
            group_count: 0,
            total_file_count: 0,
            duplicate_file_count: 0,
            total_bytes: 0,
            wasted_bytes: 0,
        }),
        ({
            let s = stats_of(sizes);
            let t = stats_of(sizes.push(g));
            let all = g.fold_left(0int, |n: int, x: u64| n + x);
            let files = s.total_file_count + g.len();
            &&& files < usize::MAX ==> {
                &&& t.group_count == s.group_count + 1
                &&& t.total_file_count == files
                &&& t.duplicate_file_count == s.duplicate_file_count + g.len() - 1
            }
            &&& s.total_bytes + all < u64::MAX ==> {
                &&& t.total_bytes == s.total_bytes + all
                &&& t.wasted_bytes == s.wasted_bytes + all - g[0]
            }
        }),
{
    let now = sizes.push(g);
    assert(now.drop_last() =~= sizes);
    lemma_count_all(sizes);
    law_wasted_at_most_total(sizes);
    lemma_sum_skip(g);
    lemma_sum_fold(g);
}

proof fn lemma_sum_fold(s: Seq<u64>)
    ensures
        sum(s) == s.fold_left(0int, |n: int, x: u64| n + x),
    decreases s.len(),
{
    let f = |n: int, x: u64| n + x;
    reveal_with_fuel(Seq::fold_left, 2);
    if s.len() > 0 {
        lemma_sum_fold(s.drop_last());
        assert(s.fold_left(0int, f) == f(s.drop_last().fold_left(0int, f), s.last()));
    }
}

/// A number that does not fit stays at its largest value.
pub proof fn law_numbers_stay_at_their_largest(sizes: Seq<Seq<u64>>)
    ensures
        sum_all(sizes) > u64::MAX ==> stats_of(sizes).total_bytes == u64::MAX,
        sum_duplicates(sizes) > u64::MAX ==> stats_of(sizes).wasted_bytes == u64::MAX,
        count_all(sizes) > usize::MAX ==> stats_of(sizes).total_file_count == usize::MAX,
        sizes.len() > usize::MAX ==> stats_of(sizes).group_count == usize::MAX,
{
}

/// The sizes that the numbers are about are those of the files, group by group.
pub proof fn law_numbers_are_about_the_files(
    groups: Seq<DupeGroup>,
    similar: Seq<SimilarGroup>,
    g: int,
    a: int,
)
    ensures
        file_sizes(groups).len() == groups.len(),
        0 <= g < groups.len() ==> file_sizes(groups)[g].len() == groups[g].files@.len(),
        0 <= g < groups.len() && 0 <= a < groups[g].files@.len() ==> file_sizes(groups)[g][a]
            == groups[g].files@[a].size,
        media_sizes(similar).len() == similar.len(),
        0 <= g < similar.len() ==> media_sizes(similar)[g].len() == similar[g].files@.len(),
        0 <= g < similar.len() && 0 <= a < similar[g].files@.len() ==> media_sizes(similar)[g][a]
            == similar[g].files@[a].size,
{
}

/// The size of the first file of each group.
pub open spec fn sum_originals(sizes: Seq<Seq<u64>>) -> nat
    decreases sizes.len(),
{
    if sizes.len() == 0 {
        0
    } else {
        sum_originals(sizes.drop_last()) + sizes.last()[0] as nat
    }
}

/// Whether all numbers about groups with files of these sizes fit.
pub open spec fn stats_fit(sizes: Seq<Seq<u64>>) -> bool {
    count_all(sizes) <= usize::MAX && sum_all(sizes) <= u64::MAX
}

proof fn lemma_sums_add_up(a: Seq<Seq<u64>>, b: Seq<Seq<u64>>)
    ensures
        count_all(a + b) == count_all(a) + count_all(b),
        sum_all(a + b) == sum_all(a) + sum_all(b),
        sum_duplicates(a + b) == sum_duplicates(a) + sum_duplicates(b),
    decreases b.len(),
{
    if b.len() == 0 {
        assert(a + b =~= a);
    } else {
        lemma_sums_add_up(a, b.drop_last());
        assert((a + b).drop_last() =~= a + b.drop_last());
        assert((a + b).last() == b.last());
    }
}

/// Whether `z` is the sum of `x` and `y`, number by number.
pub open spec fn is_sum(x: ScanStats, y: ScanStats, z: ScanStats) -> bool {
    &&& z.group_count == x.group_count + y.group_count
    &&& z.total_file_count == x.total_file_count + y.total_file_count
    &&& z.duplicate_file_count == x.duplicate_file_count + y.duplicate_file_count
    &&& z.total_bytes == x.total_bytes + y.total_bytes
    &&& z.wasted_bytes == x.wasted_bytes + y.wasted_bytes
}

proof fn lemma_stats_add_up(a: Seq<Seq<u64>>, b: Seq<Seq<u64>>)
    requires
        none_empty(a),
        none_empty(b),
        stats_fit(a + b),
    ensures
        is_sum(stats_of(a), stats_of(b), stats_of(a + b)),
{
    lemma_sums_add_up(a, b);
    lemma_count_all(a);
    lemma_count_all(b);
    law_wasted_at_most_total(a);
    law_wasted_at_most_total(b);
}

/// The numbers about two lists of groups add up to those about both together.
pub proof fn law_stats_add_up(a: Seq<DupeGroup>, b: Seq<DupeGroup>)
    requires
        none_empty(file_sizes(a)),
        none_empty(file_sizes(b)),
        stats_fit(file_sizes(a + b)),
    ensures
        is_sum(
            stats_of(file_sizes(a)),
            stats_of(file_sizes(b)),
            stats_of(file_sizes(a + b)),
        ),
{
    assert(file_sizes(a + b) =~= file_sizes(a) + file_sizes(b));
    lemma_stats_add_up(file_sizes(a), file_sizes(b));
}

/// So do those about two lists of similar media.
pub proof fn law_similar_stats_add_up(a: Seq<SimilarGroup>, b: Seq<SimilarGroup>)
    requires
        none_empty(media_sizes(a)),
        none_empty(media_sizes(b)),
        stats_fit(media_sizes(a + b)),
    ensures
        is_sum(
            stats_of(media_sizes(a)),
            stats_of(media_sizes(b)),
            stats_of(media_sizes(a + b)),
        ),
{
    assert(media_sizes(a + b) =~= media_sizes(a) + media_sizes(b));
    lemma_stats_add_up(media_sizes(a), media_sizes(b));
}

proof fn lemma_originals_and_duplicates(sizes: Seq<Seq<u64>>)
    requires
        none_empty(sizes),
    ensures
        sum_all(sizes) == sum_duplicates(sizes) + sum_originals(sizes),
    decreases sizes.len(),
{
    if sizes.len() > 0 {
        assert(none_empty(sizes.drop_last())) by {
            assert forall|g: int| 0 <= g < sizes.len() - 1 implies (
            #[trigger] sizes.drop_last()[g]).len() > 0 by {
                assert(sizes[g].len() > 0);
            }
        }
        assert(sizes[sizes.len() - 1].len() > 0);
        lemma_originals_and_duplicates(sizes.drop_last());
        lemma_sum_skip(sizes.last());
    }
}

/// Every file is either the original of its group or a duplicate: there are as
/// many files as groups and duplicates, and they take what the originals and
/// the duplicates take.
pub proof fn law_originals_and_duplicates(sizes: Seq<Seq<u64>>)
    requires
        none_empty(sizes),
        stats_fit(sizes),
    ensures
        ({
            let s = stats_of(sizes);
            &&& s.group_count == sizes.len()
            &&& s.total_file_count == s.group_count + s.duplicate_file_count
            &&& s.total_bytes == s.wasted_bytes + sum_originals(sizes)
        }),
{
    lemma_count_all(sizes);
    lemma_originals_and_duplicates(sizes);
}

} // verus!
