//! The rows of the results views.

use crate::app::{SortColumn, SortDirection};
use crate::model::{DupeGroup, FileEntry, Timestamp};
use crate::paths;
use crate::selection::{self, group_looks_like_name_copy};
use crate::sorting;
use crate::text;
use vstd::prelude::*;

verus! {

/// One flattened, display-ready row for the exact-duplicates table and grid
/// views: pre-filtered (name-copy filter), pre-sorted, and with
/// `only_show_duplicates` already applied.
///
/// Both views, plus the status bar's totals, would otherwise redo this
/// filter/sort work from scratch on every single frame (including every frame
/// of a scroll or hover), which makes browsing large scan results laggy: a
/// scan spanning a large drive can produce hundreds of thousands of rows, and
/// resorting all of them 60 times a second is not free. `ExactRowsCache`
/// rebuilds this list only when something it actually depends on changes.
#[derive(Debug, PartialEq)]
pub struct RowInfo {
    pub path: String,
    pub size: u64,
    pub created: Timestamp,
    pub modified: Timestamp,
    pub hash: [u8; 32],
    pub group_idx: usize,
    pub is_original: bool,
    pub is_group_start: bool,
    pub is_last_in_group: bool,
    pub is_largest_size: bool,
    pub is_oldest_created: bool,
    pub is_oldest_modified: bool,
}

impl Clone for RowInfo {
    fn clone(&self) -> (r: Self)
        ensures
            r == *self,
    {
        RowInfo {
            path: self.path.clone(),
            size: self.size,
            created: self.created,
            modified: self.modified,
            hash: self.hash,
            group_idx: self.group_idx,
            is_original: self.is_original,
            is_group_start: self.is_group_start,
            is_last_in_group: self.is_last_in_group,
            is_largest_size: self.is_largest_size,
            is_oldest_created: self.is_oldest_created,
            is_oldest_modified: self.is_oldest_modified,
        }
    }
}

/// The first position of the smallest key; 0 if there are none.
pub open spec fn first_smallest(keys: Seq<int>) -> int
    decreases keys.len(),
{
    if keys.len() <= 1 {
        0
    } else {
        let m = first_smallest(keys.drop_last());
        if keys.last() < keys[m] {
            keys.len() - 1
        } else {
            m
        }
    }
}

/// The last position of the largest key; 0 if there are none.
pub open spec fn last_largest(keys: Seq<int>) -> int
    decreases keys.len(),
{
    if keys.len() <= 1 {
        0
    } else {
        let m = last_largest(keys.drop_last());
        if keys.last() >= keys[m] {
            keys.len() - 1
        } else {
            m
        }
    }
}

/// The positions found are positions.
pub proof fn lemma_smallest_in_range(keys: Seq<int>)
    ensures
        0 <= first_smallest(keys),
        0 <= last_largest(keys),
        keys.len() > 0 ==> first_smallest(keys) < keys.len() && last_largest(keys) < keys.len(),
    decreases keys.len(),
{
    if keys.len() > 1 {
        lemma_smallest_in_range(keys.drop_last());
    }
}

/// [`first_smallest`] finds a smallest key, and the first such;
/// [`last_largest`] finds a largest key, and the last such.
pub proof fn law_extremes(keys: Seq<int>, k: int)
    requires
        0 <= k < keys.len(),
    ensures
        keys[first_smallest(keys)] <= keys[k],
        k < first_smallest(keys) ==> keys[first_smallest(keys)] < keys[k],
        keys[last_largest(keys)] >= keys[k],
        k > last_largest(keys) ==> keys[last_largest(keys)] > keys[k],
    decreases keys.len(),
{
    if keys.len() > 1 {
        let t = keys.drop_last();
        lemma_smallest_in_range(t);
        if k < t.len() {
            law_extremes(t, k);
            assert(t[k] == keys[k]);
        } else {
            law_extremes(t, 0);
        }
        assert(t[first_smallest(t)] == keys[first_smallest(t)]);
        assert(t[last_largest(t)] == keys[last_largest(t)]);
    }
}

/// Finds the first position of the smallest key.
pub fn find_first_smallest(keys: &Vec<i128>) -> (r: usize)
    ensures
        r == first_smallest(as_ints(keys@)),
        keys@.len() > 0 ==> r < keys@.len(),
{
    let ghost all = as_ints(keys@);
    let mut m: usize = 0;
    let mut i: usize = 1;
    proof {
        lemma_smallest_in_range(all);
    }
    while i < keys.len()
        invariant
            1 <= i,
            keys@.len() > 0 ==> i <= keys@.len(),
            all == as_ints(keys@),
            keys@.len() > 0 ==> m < i && m == first_smallest(all.take(i as int)),
            keys@.len() == 0 ==> m == 0,
        decreases keys@.len() - i,
    {
        let ghost now = all.take(i + 1);
        assert(now.drop_last() =~= all.take(i as int));
        assert(now[m as int] == all[m as int]);
        if keys[i] < keys[m] {
            m = i;
        }
        i = i + 1;
    }
    assert(all.take(all.len() as int) =~= all);
    m
}

/// Finds the last position of the largest key.
pub fn find_last_largest(keys: &Vec<i128>) -> (r: usize)
    ensures
        r == last_largest(as_ints(keys@)),
        keys@.len() > 0 ==> r < keys@.len(),
{
    let ghost all = as_ints(keys@);
    let mut m: usize = 0;
    let mut i: usize = 1;
    proof {
        lemma_smallest_in_range(all);
    }
    while i < keys.len()
        invariant
            1 <= i,
            keys@.len() > 0 ==> i <= keys@.len(),
            all == as_ints(keys@),
            keys@.len() > 0 ==> m < i && m == last_largest(all.take(i as int)),
            keys@.len() == 0 ==> m == 0,
        decreases keys@.len() - i,
    {
        let ghost now = all.take(i + 1);
        assert(now.drop_last() =~= all.take(i as int));
        assert(now[m as int] == all[m as int]);
        if keys[i] >= keys[m] {
            m = i;
        }
        i = i + 1;
    }
    assert(all.take(all.len() as int) =~= all);
    m
}

/// The keys as integers.
pub open spec fn as_ints(keys: Seq<i128>) -> Seq<int> {
    keys.map_values(|k: i128| k as int)
}

/// The sizes of the files.
pub open spec fn sizes(files: Seq<FileEntry>) -> Seq<int> {
    files.map_values(|f: FileEntry| f.size as int)
}

/// The creation times of the files.
pub open spec fn creations(files: Seq<FileEntry>) -> Seq<int> {
    files.map_values(|f: FileEntry| f.created as int)
}

/// The modification times of the files.
pub open spec fn changes(files: Seq<FileEntry>) -> Seq<int> {
    files.map_values(|f: FileEntry| f.modified as int)
}

/// The row of file `k` of a group of which the first `skip` are hidden.
pub open spec fn row_of(group: DupeGroup, group_idx: usize, k: int, skip: int) -> RowInfo {
    let files = group.files@;
    let f = files[k];
    RowInfo {
        path: f.path,
        size: f.size,
        created: f.created,
        modified: f.modified,
        hash: group.hash,
        group_idx,
        is_original: k == 0,
        is_group_start: k == skip,
        is_last_in_group: k == files.len() - 1,
        is_largest_size: k == last_largest(sizes(files)),
        is_oldest_created: k == first_smallest(creations(files)),
        is_oldest_modified: k == first_smallest(changes(files)),
    }
}

/// The rows of one group.
pub open spec fn group_rows(group: DupeGroup, group_idx: usize, only_dup: bool) -> Seq<RowInfo> {
    let skip = if only_dup {
        1int
    } else {
        0
    };
    let n = group.files@.len() - skip;
    Seq::new(
        if n > 0 {
            n as nat
        } else {
            0
        },
        |k: int| row_of(group, group_idx, k + skip, skip),
    )
}

/// The rows of the listed groups.
pub open spec fn rows_of(
    groups: Seq<DupeGroup>,
    indices: Seq<int>,
    only_dup: bool,
) -> Seq<RowInfo>
    decreases indices.len(),
{
    if indices.len() == 0 {
        seq![]
    } else {
        let g = indices.last();
        rows_of(groups, indices.drop_last(), only_dup) + group_rows(
            groups[g],
            g as usize,
            only_dup,
        )
    }
}

/// The positions of the first `n` groups that pass the name filter.
pub open spec fn filtered(groups: Seq<DupeGroup>, name_filter: bool, n: nat) -> Seq<int>
    decreases n,
{
    if n == 0 {
        seq![]
    } else {
        let before = filtered(groups, name_filter, (n - 1) as nat);
        if !name_filter || selection::has_copy_name(groups[n - 1].files@) {
            before.push(n - 1)
        } else {
            before
        }
    }
}

/// Whether the column is sorted as text.
pub open spec fn is_text_column(column: SortColumn) -> bool {
    column == SortColumn::Filename || column == SortColumn::Path
}

/// What a text column is sorted by: the lowercase file name, or the path part
/// by part.
pub open spec fn sort_text(column: SortColumn, f: FileEntry) -> Seq<char> {
    if column == SortColumn::Filename {
        text::lowercase(paths::name_or_empty(f.path@))
    } else {
        paths::path_id(f.path@)
    }
}

/// What a number column is sorted by.
pub open spec fn sort_number(column: SortColumn, f: FileEntry) -> int {
    match column {
        SortColumn::Created => f.created as int,
        SortColumn::Modified => f.modified as int,
        _ => f.size as int,
    }
}

/// Orders files by a column, ascending.
pub open spec fn column_le(column: SortColumn, a: FileEntry, b: FileEntry) -> bool {
    if is_text_column(column) {
        text::text_le(sort_text(column, a), sort_text(column, b))
    } else {
        sort_number(column, a) <= sort_number(column, b)
    }
}

/// Orders files by a column.
pub open spec fn directed_le(
    sort: (SortColumn, SortDirection),
    a: FileEntry,
    b: FileEntry,
) -> bool {
    if sort.1 == SortDirection::Desc {
        column_le(sort.0, b, a)
    } else {
        column_le(sort.0, a, b)
    }
}

/// The ranking of the listed groups by their originals.
pub open spec fn group_ranking(
    groups: Seq<DupeGroup>,
    indices: Seq<int>,
    sort: (SortColumn, SortDirection),
) -> spec_fn(int, int) -> bool {
    |i: int, j: int|
        directed_le(sort, groups[indices[i]].files@[0], groups[indices[j]].files@[0])
}

/// The positions of the groups in the order in which they are shown.
pub open spec fn shown_groups(
    groups: Seq<DupeGroup>,
    name_filter: bool,
    sort: Option<(SortColumn, SortDirection)>,
) -> Seq<int> {
    let indices = filtered(groups, name_filter, groups.len());
    match sort {
        Some(s) => sorting::pick(
            indices,
            sorting::stable_order(indices.len(), group_ranking(groups, indices, s)),
        ),
        None => indices,
    }
}

/// The rows that are shown.
pub open spec fn shown_rows(
    groups: Seq<DupeGroup>,
    name_filter: bool,
    only_dup: bool,
    sort: Option<(SortColumn, SortDirection)>,
) -> Seq<RowInfo> {
    rows_of(groups, shown_groups(groups, name_filter, sort), only_dup)
}

/// No group is without files.
pub open spec fn have_originals(groups: Seq<DupeGroup>) -> bool {
    forall|g: int| 0 <= g < groups.len() ==> (#[trigger] groups[g]).files@.len() > 0
}

/// The ranking of files by a column.
pub open spec fn file_ranking(
    files: Seq<FileEntry>,
    sort: (SortColumn, SortDirection),
) -> spec_fn(int, int) -> bool {
    |i: int, j: int| directed_le(sort, files[i], files[j])
}

proof fn lemma_file_ranking(files: Seq<FileEntry>, sort: (SortColumn, SortDirection))
    ensures
        sorting::ranks(files.len() as int, file_ranking(files, sort)),
{
    let le = file_ranking(files, sort);
    let n = files.len() as int;
    let key = |i: int| sort_text(sort.0, files[i]);
    assert forall|i: int| 0 <= i < n implies #[trigger] le(i, i) by {
        text::lemma_text_le_order(key(i), key(i), key(i));
    }
    assert forall|i: int, j: int| 0 <= i < n && 0 <= j < n implies #[trigger] le(i, j)
        || le(j, i) by {
        text::lemma_text_le_order(key(i), key(j), key(j));
    }
    assert forall|i: int, j: int, k: int|
        0 <= i < n && 0 <= j < n && 0 <= k < n && #[trigger] le(i, j) && #[trigger] le(
            j,
            k,
        ) implies le(i, k) by {
        text::lemma_text_le_order(key(i), key(j), key(k));
        text::lemma_text_le_order(key(k), key(j), key(i));
    }
}

/// The originals of the listed groups rank them.
pub proof fn lemma_group_ranking(
    groups: Seq<DupeGroup>,
    indices: Seq<int>,
    sort: (SortColumn, SortDirection),
)
    ensures
        sorting::ranks(indices.len() as int, group_ranking(groups, indices, sort)),
{
    let originals = indices.map_values(|i: int| groups[i].files@[0]);
    let by_file = file_ranking(originals, sort);
    let le = group_ranking(groups, indices, sort);
    lemma_file_ranking(originals, sort);
    let n = indices.len() as int;
    assert forall|i: int| 0 <= i < n implies #[trigger] le(i, i) by {
        assert(by_file(i, i));
    }
    assert forall|i: int, j: int| 0 <= i < n && 0 <= j < n implies #[trigger] le(i, j) || le(
        j,
        i,
    ) by {
        assert(by_file(i, j) || by_file(j, i));
    }
    assert forall|i: int, j: int, k: int|
        0 <= i < n && 0 <= j < n && 0 <= k < n && #[trigger] le(i, j) && #[trigger] le(
            j,
            k,
        ) implies le(i, k) by {
        assert(by_file(i, j) && by_file(j, k));
        assert(by_file(i, k));
    }
}

/// Computes [`sort_text`] for a text column.
fn text_key(column: SortColumn, f: &FileEntry) -> (r: String)
    ensures
        is_text_column(column) ==> r@ == sort_text(column, *f),
{
    match column {
        SortColumn::Filename => text::to_lowercase(
            paths::file_name_or_empty(f.path.as_str()).as_str(),
        ),
        SortColumn::Path => paths::id_of(f.path.as_str()),
        _ => String::new(),
    }
}

/// Computes [`sort_number`].
fn number_key(column: SortColumn, f: &FileEntry) -> (r: i128)
    ensures
        r == sort_number(column, *f),
{
    match column {
        SortColumn::Created => f.created,
        SortColumn::Modified => f.modified,
        _ => f.size as i128,
    }
}

/// Sorts files by a column: gives their positions.
pub fn sort_files(files: &Vec<&FileEntry>, sort: (SortColumn, SortDirection)) -> (r: Vec<usize>)
    ensures
        sorting::positions(r@) == sorting::stable_order(
            files@.len(),
            file_ranking(selection::targets(files@), sort),
        ),
        sorting::is_arranged(
            sorting::positions(r@),
            0,
            files@.len() as int,
            file_ranking(selection::targets(files@), sort),
        ),
{
    let n: usize = files.len();
    let column: SortColumn = sort.0;
    let desc: bool = sort.1 == SortDirection::Desc;
    let by_text: bool = column == SortColumn::Filename || column == SortColumn::Path;
    let mut keys: Vec<String> = Vec::new();
    let mut numbers: Vec<i128> = Vec::new();
    let mut i: usize = 0;
    while i < n
        invariant
            i <= n,
            n == files@.len(),
            keys@.len() == i,
            numbers@.len() == i,
            forall|a: int|
                0 <= a < i && is_text_column(column) ==> #[trigger] keys@[a]@ == sort_text(
                    column,
                    *files@[a],
                ),
            forall|a: int|
                0 <= a < i ==> #[trigger] numbers@[a] == sort_number(column, *files@[a]),
        decreases n - i,
    {
        keys.push(text_key(column, files[i]));
        numbers.push(number_key(column, files[i]));
        i = i + 1;
    }
    proof {
        lemma_file_ranking(selection::targets(files@), sort);
    }
    let not_above = |i: usize, j: usize| -> (b: bool)
        requires
            i < n,
            j < n,
            n == files@.len(),
            n == keys@.len(),
            n == numbers@.len(),
            column == sort.0,
            desc == (sort.1 == SortDirection::Desc),
            by_text == is_text_column(column),
            forall|a: int|
                0 <= a < n && is_text_column(column) ==> #[trigger] keys@[a]@ == sort_text(
                    column,
                    *files@[a],
                ),
            forall|a: int|
                0 <= a < n ==> #[trigger] numbers@[a] == sort_number(column, *files@[a]),
        ensures
            b == directed_le(
                sort,
                selection::targets(files@)[i as int],
                selection::targets(files@)[j as int],
            ),
        {
            let x: usize = if desc {
                j
            } else {
                i
            };
            let y: usize = if desc {
                i
            } else {
                j
            };
            assert(by_text ==> keys@[x as int]@ == sort_text(column, *files@[x as int]));
            assert(by_text ==> keys@[y as int]@ == sort_text(column, *files@[y as int]));
            if by_text {
                text::is_text_le(keys[x].as_str(), keys[y].as_str())
            } else {
                numbers[x] <= numbers[y]
            }
        };
    sorting::sort_positions(
        n,
        not_above,
        Ghost(file_ranking(selection::targets(files@), sort)),
    )
}

/// Sorts the listed groups by their originals.
fn sort_groups(
    groups: &[DupeGroup],
    indices: Vec<usize>,
    sort: (SortColumn, SortDirection),
) -> (r: Vec<usize>)
    requires
        forall|a: int|
            0 <= a < indices@.len() ==> (#[trigger] indices@[a]) < groups@.len()
                && groups@[indices@[a] as int].files@.len() > 0,
    ensures
        sorting::positions(r@) == sorting::pick(
            sorting::positions(indices@),
            sorting::stable_order(
                indices@.len(),
                group_ranking(groups@, sorting::positions(indices@), sort),
            ),
        ),
        forall|a: int| 0 <= a < r@.len() ==> #[trigger] r@[a] < groups@.len(),
{
    let n: usize = indices.len();
    let ghost pos = sorting::positions(indices@);
    let mut originals: Vec<&FileEntry> = Vec::new();
    let mut i: usize = 0;
    while i < n
        invariant
            i <= n,
            n == indices@.len(),
            originals@.len() == i,
            forall|a: int|
                0 <= a < indices@.len() ==> (#[trigger] indices@[a]) < groups@.len()
                    && groups@[indices@[a] as int].files@.len() > 0,
            forall|a: int|
                0 <= a < i ==> *(#[trigger] originals@[a])
                    == groups@[indices@[a] as int].files@[0],
        decreases n - i,
    {
        let g: usize = indices[i];
        assert(indices@[i as int] < groups@.len());
        originals.push(&groups[g].files[0]);
        i = i + 1;
    }
    let order = sort_files(&originals, sort);
    proof {
        let by_file = file_ranking(selection::targets(originals@), sort);
        let le = group_ranking(groups@, pos, sort);
        assert forall|i: int, j: int| 0 <= i < n && 0 <= j < n implies #[trigger] by_file(i, j)
            == le(i, j) by {
            assert(*originals@[i] == groups@[indices@[i] as int].files@[0]);
            assert(*originals@[j] == groups@[indices@[j] as int].files@[0]);
        }
        lemma_file_ranking(selection::targets(originals@), sort);
        sorting::lemma_same_ranking(n as nat, by_file, le);
    }
    let ghost ord = sorting::positions(order@);
    let mut out: Vec<usize> = Vec::new();
    let mut k: usize = 0;
    while k < order.len()
        invariant
            k <= order@.len(),
            n == indices@.len(),
            pos == sorting::positions(indices@),
            ord == sorting::positions(order@),
            forall|a: int| 0 <= a < ord.len() ==> 0 <= #[trigger] ord[a] < n,
            forall|a: int|
                0 <= a < indices@.len() ==> (#[trigger] indices@[a]) < groups@.len()
                    && groups@[indices@[a] as int].files@.len() > 0,
            sorting::positions(out@) =~= sorting::pick(pos, ord.take(k as int)),
            forall|a: int| 0 <= a < out@.len() ==> #[trigger] out@[a] < groups@.len(),
        decreases order@.len() - k,
    {
        assert(ord[k as int] == order@[k as int]);
        let x: usize = indices[order[k]];
        let ghost before = sorting::positions(out@);
        out.push(x);
        assert(sorting::positions(out@) =~= before.push(x as int));
        assert(ord.take(k + 1) =~= ord.take(k as int).push(ord[k as int]));
        assert(sorting::pick(pos, ord.take(k + 1)) =~= sorting::pick(pos, ord.take(k as int)).push(
            pos[ord[k as int]],
        ));
        k = k + 1;
    }
    assert(ord.take(ord.len() as int) =~= ord);
    out
}

/// Makes the rows of one group.
fn push_group_rows(rows: &mut Vec<RowInfo>, group: &DupeGroup, group_idx: usize, only_dup: bool)
    ensures
        final(rows)@ == old(rows)@ + group_rows(*group, group_idx, only_dup),
{
    let files: &Vec<FileEntry> = &group.files;
    let skip: usize = if only_dup {
        1
    } else {
        0
    };
    let mut by_size: Vec<i128> = Vec::new();
    let mut by_created: Vec<i128> = Vec::new();
    let mut by_modified: Vec<i128> = Vec::new();
    let mut i: usize = 0;
    while i < files.len()
        invariant
            i <= files@.len(),
            as_ints(by_size@) =~= sizes(files@.take(i as int)),
            as_ints(by_created@) =~= creations(files@.take(i as int)),
            as_ints(by_modified@) =~= changes(files@.take(i as int)),
        decreases files@.len() - i,
    {
        assert(files@.take(i + 1) =~= files@.take(i as int).push(files@[i as int]));
        let ghost (a, b, c) = (by_size@, by_created@, by_modified@);
        by_size.push(files[i].size as i128);
        by_created.push(files[i].created);
        by_modified.push(files[i].modified);
        proof {
            let f = files@[i as int];
            let t = files@.take(i as int);
            assert(as_ints(by_size@) =~= as_ints(a).push(f.size as int));
            assert(as_ints(by_created@) =~= as_ints(b).push(f.created as int));
            assert(as_ints(by_modified@) =~= as_ints(c).push(f.modified as int));
            assert(sizes(t.push(f)) =~= sizes(t).push(f.size as int));
            assert(creations(t.push(f)) =~= creations(t).push(f.created as int));
            assert(changes(t.push(f)) =~= changes(t).push(f.modified as int));
        }
        i = i + 1;
    }
    assert(files@.take(files@.len() as int) =~= files@);
    let largest_size: usize = find_last_largest(&by_size);
    let oldest_created: usize = find_first_smallest(&by_created);
    let oldest_modified: usize = find_first_smallest(&by_modified);
    let ghost own = group_rows(*group, group_idx, only_dup);
    let ghost before = rows@;
    let mut k: usize = skip;
    assert(before + own.take(0) =~= before);
    while k < files.len()
        invariant
            skip <= k,
            k <= files@.len() || k == skip,
            *files == group.files,
            skip == (if only_dup {
                1int
            } else {
                0
            }),
            largest_size == last_largest(sizes(files@)),
            oldest_created == first_smallest(creations(files@)),
            oldest_modified == first_smallest(changes(files@)),
            own == group_rows(*group, group_idx, only_dup),
            rows@ =~= before + own.take(k - skip),
        decreases files@.len() - k,
    {
        let f: &FileEntry = &files[k];
        let row = RowInfo {
            path: f.path.clone(),
            size: f.size,
            created: f.created,
            modified: f.modified,
            hash: group.hash,
            group_idx,
            is_original: k == 0,
            is_group_start: k == skip,
            is_last_in_group: k == files.len() - 1,
            is_largest_size: k == largest_size,
            is_oldest_created: k == oldest_created,
            is_oldest_modified: k == oldest_modified,
        };
        assert(own[k - skip] == row_of(*group, group_idx, k as int, skip as int));
        assert(row == own[k - skip]);
        assert(own.take(k + 1 - skip) =~= own.take(k - skip).push(row));
        rows.push(row);
        k = k + 1;
    }
    assert(own.take(own.len() as int) =~= own);
}

/// Whether the originals matter to which rows are shown, and in which order: a
/// single group needs no sorting.
pub open spec fn names_originals(
    groups: Seq<DupeGroup>,
    name_filter: bool,
    sort: Option<(SortColumn, SortDirection)>,
) -> bool {
    name_filter || (sort is Some && groups.len() > 1)
}

/// At most one group is in order as it is.
proof fn lemma_single_order(groups: Seq<DupeGroup>, indices: Seq<int>, sort: (SortColumn, SortDirection))
    requires
        indices.len() <= 1,
    ensures
        sorting::pick(
            indices,
            sorting::stable_order(indices.len(), group_ranking(groups, indices, sort)),
        ) == indices,
{
    let le = group_ranking(groups, indices, sort);
    reveal_with_fuel(sorting::stable_order, 2);
    reveal_with_fuel(sorting::insert_position, 2);
    assert(sorting::pick(indices, sorting::stable_order(indices.len(), le)) =~= indices);
}

/// Makes the rows to show.
pub fn build_rows(
    groups: &[DupeGroup],
    name_filter: bool,
    only_dup: bool,
    sort: Option<(SortColumn, SortDirection)>,
) -> (r: Vec<RowInfo>)
    requires
        names_originals(groups@, name_filter, sort) ==> have_originals(groups@),
    ensures
        r@ == shown_rows(groups@, name_filter, only_dup, sort),
{
    let mut indices: Vec<usize> = Vec::new();
    let mut g: usize = 0;
    while g < groups.len()
        invariant
            g <= groups@.len(),
            name_filter ==> have_originals(groups@),
            sorting::positions(indices@) =~= filtered(groups@, name_filter, g as nat),
            indices@.len() <= g,
            forall|a: int| 0 <= a < indices@.len() ==> #[trigger] indices@[a] < g,
        decreases groups@.len() - g,
    {
        assert(name_filter ==> groups@[g as int].files@.len() > 0);
        if !name_filter || group_looks_like_name_copy(&groups[g]) {
            let ghost before = sorting::positions(indices@);
            indices.push(g);
            assert(sorting::positions(indices@) =~= before.push(g as int));
        }
        g = g + 1;
    }
    let order: Vec<usize> = match sort {
        Some(s) => if indices.len() <= 1 {
            proof {
                lemma_single_order(groups@, sorting::positions(indices@), s);
            }
            indices
        } else {
            assert forall|a: int| 0 <= a < indices@.len() implies (#[trigger] indices@[a])
                < groups@.len() && groups@[indices@[a] as int].files@.len() > 0 by {
                assert(groups@[indices@[a] as int].files@.len() > 0);
            }
            sort_groups(groups, indices, s)
        },
        None => indices,
    };
    let ghost shown = shown_groups(groups@, name_filter, sort);
    assert(sorting::positions(order@) == shown);
    let mut rows: Vec<RowInfo> = Vec::new();
    let mut k: usize = 0;
    while k < order.len()
        invariant
            k <= order@.len(),
            sorting::positions(order@) == shown,
            forall|a: int| 0 <= a < order@.len() ==> #[trigger] order@[a] < groups@.len(),
            rows@ == rows_of(groups@, shown.take(k as int), only_dup),
        decreases order@.len() - k,
    {
        let x: usize = order[k];
        assert(shown[k as int] == x);
        assert(shown.take(k + 1).drop_last() =~= shown.take(k as int));
        push_group_rows(&mut rows, &groups[x], x, only_dup);
        k = k + 1;
    }
    assert(shown.take(shown.len() as int) =~= shown);
    rows
}

/// What the rows depend on.
#[derive(Clone, Copy, Debug, PartialEq)]
pub struct CacheKey {
    pub generation: u64,
    pub name_filter: bool,
    pub only_dup: bool,
    pub sort: Option<(SortColumn, SortDirection)>,
}

fn same_key(a: &CacheKey, b: &CacheKey) -> (r: bool)
    ensures
        r == (*a == *b),
{
    let same_sort: bool = match (a.sort, b.sort) {
        (None, None) => true,
        (Some((c, d)), Some((e, f))) => c == e && d == f,
        _ => false,
    };
    a.generation == b.generation && a.name_filter == b.name_filter && a.only_dup == b.only_dup
        && same_sort
}

/// The rows that are shown, made anew only when what they depend on changes.
#[derive(Debug)]
pub struct ExactRowsCache {
    pub key: Option<CacheKey>,
    pub rows: Vec<RowInfo>,
}

impl Default for ExactRowsCache {
    fn default() -> (r: Self)
        ensures
            r.key is None,
            r.rows@.len() == 0,
    {
        ExactRowsCache { key: None, rows: Vec::new() }
    }
}

impl ExactRowsCache {
    /// Rebuilds `rows` if `groups` or any of the view settings changed since
    /// the last call (tracked via `generation`, which the caller bumps
    /// whenever `groups` is mutated); otherwise this is a cheap no-op.
    pub fn refresh(
        &mut self,
        groups: &[DupeGroup],
        generation: u64,
        name_filter: bool,
        only_dup: bool,
        sort: Option<(SortColumn, SortDirection)>,
    )
        requires
            names_originals(groups@, name_filter, sort) && old(self).key != Some(
                (CacheKey { generation, name_filter, only_dup, sort }),
            ) ==> have_originals(groups@),
        ensures
            final(self).key == Some((CacheKey { generation, name_filter, only_dup, sort })),
            if old(self).key == Some((CacheKey { generation, name_filter, only_dup, sort })) {
                final(self).rows == old(self).rows
            } else {
                final(self).rows@ == shown_rows(groups@, name_filter, only_dup, sort)
            },
    {
        let key = CacheKey { generation, name_filter, only_dup, sort };
        let fresh: bool = match &self.key {
            Some(k) => same_key(k, &key),
            None => false,
        };
        if fresh {
            return;
        }
        self.key = Some(key);
        self.rows = build_rows(groups, name_filter, only_dup, sort);
    }

    /// Whether the rows are those of the groups under the key they were made
    /// for.
    pub open spec fn shows(self, groups: Seq<DupeGroup>, generation: u64) -> bool {
        self.key matches Some(k) && k.generation == generation ==> self.rows@ == shown_rows(
            groups,
            self.key->0.name_filter,
            self.key->0.only_dup,
            self.key->0.sort,
        )
    }
}

/// As long as the generation changes with the groups, a refreshed cache shows
/// the groups as they are.
pub proof fn law_refreshed_rows_are_current(
    before: ExactRowsCache,
    after: ExactRowsCache,
    groups: Seq<DupeGroup>,
    generation: u64,
    name_filter: bool,
    only_dup: bool,
    sort: Option<(SortColumn, SortDirection)>,
)
    requires
        before.shows(groups, generation),
        // What `refresh` does.
        after.key == Some((CacheKey { generation, name_filter, only_dup, sort })),
        if before.key == Some((CacheKey { generation, name_filter, only_dup, sort })) {
            after.rows == before.rows
        } else {
            after.rows@ == shown_rows(groups, name_filter, only_dup, sort)
        },
    ensures
        after.rows@ == shown_rows(groups, name_filter, only_dup, sort),
        after.shows(groups, generation),
{
}

/// The groups are shown in the order of the sorted column of their originals,
/// either way.
pub proof fn law_groups_are_in_order(
    groups: Seq<DupeGroup>,
    name_filter: bool,
    sort: (SortColumn, SortDirection),
    a: int,
    b: int,
)
    requires
        0 <= a <= b < shown_groups(groups, name_filter, Some(sort)).len(),
    ensures
        ({
            let shown = shown_groups(groups, name_filter, Some(sort));
            directed_le(sort, groups[shown[a]].files@[0], groups[shown[b]].files@[0])
        }),
{
    let indices = filtered(groups, name_filter, groups.len());
    let le = group_ranking(groups, indices, sort);
    let order = sorting::stable_order(indices.len(), le);
    lemma_group_ranking(groups, indices, sort);
    sorting::lemma_stable_order(indices.len(), indices.len() as int, le);
    if a < b {
        assert(sorting::comes_before(le, order[a], order[b]));
    } else {
        assert(le(order[a], order[a]));
    }
}


/// What a row says of its file: where it lies, how large and how old it is, and
/// the hash of its group; that it is the original, if it is the first of the
/// group, and the last, if it is that. The largest size is marked at a file that
/// none of the group exceeds, the oldest times at files that none precedes. With
/// only duplicates shown, the rows of a group start behind its original.
pub proof fn law_rows_tell_of_their_files(
    group: DupeGroup,
    group_idx: usize,
    only_dup: bool,
    k: int,
)
    requires
        0 <= k < group.files@.len(),
        only_dup ==> k > 0,
    ensures
        group_rows(group, group_idx, only_dup).len() == group.files@.len() - (if only_dup {
            1int
        } else {
            0int
        }),
        ({
            let files = group.files@;
            let row = group_rows(group, group_idx, only_dup)[if only_dup {
                k - 1
            } else {
                k
            }];
            &&& row.path == files[k].path
            &&& row.size == files[k].size
            &&& row.created == files[k].created
            &&& row.modified == files[k].modified
            &&& row.hash == group.hash
            &&& row.group_idx == group_idx
            &&& row.is_original <==> k == 0
            &&& row.is_group_start <==> k == (if only_dup {
                1int
            } else {
                0int
            })
            &&& row.is_last_in_group <==> k == files.len() - 1
            &&& row.is_largest_size ==> forall|j: int|
                0 <= j < files.len() ==> files[j].size <= files[k].size
            &&& row.is_oldest_created ==> forall|j: int|
                0 <= j < files.len() ==> files[k].created <= files[j].created
            &&& row.is_oldest_modified ==> forall|j: int|
                0 <= j < files.len() ==> files[k].modified <= files[j].modified
            // And one is found of each.
            &&& (forall|j: int|
                0 <= j < files.len() && j != k ==> files[j].size < files[k].size)
                ==> row.is_largest_size
            &&& (forall|j: int|
                0 <= j < files.len() && j != k ==> files[k].created < files[j].created)
                ==> row.is_oldest_created
            &&& (forall|j: int|
                0 <= j < files.len() && j != k ==> files[k].modified < files[j].modified)
                ==> row.is_oldest_modified
        }),
{
    let files = group.files@;
    lemma_extreme_files(files);
    let s = last_largest(sizes(files));
    let c = first_smallest(creations(files));
    let m = first_smallest(changes(files));
    assert(files[k].size <= files[s].size);
    assert(files[c].created <= files[k].created);
    assert(files[m].modified <= files[k].modified);
}

proof fn lemma_extreme_files(files: Seq<FileEntry>)
    requires
        files.len() > 0,
    ensures
        ({
            let s = last_largest(sizes(files));
            let c = first_smallest(creations(files));
            let m = first_smallest(changes(files));
            &&& 0 <= s < files.len() && 0 <= c < files.len() && 0 <= m < files.len()
            &&& forall|j: int| 0 <= j < files.len() ==> files[j].size <= files[s].size
            &&& forall|j: int| 0 <= j < files.len() ==> files[c].created <= files[j].created
            &&& forall|j: int| 0 <= j < files.len() ==> files[m].modified <= files[j].modified
        }),
{
    lemma_smallest_in_range(sizes(files));
    lemma_smallest_in_range(creations(files));
    lemma_smallest_in_range(changes(files));
    let s = last_largest(sizes(files));
    let c = first_smallest(creations(files));
    let m = first_smallest(changes(files));
    assert forall|j: int| 0 <= j < files.len() implies files[j].size <= files[s].size by {
        law_extremes(sizes(files), j);
    }
    assert forall|j: int| 0 <= j < files.len() implies files[c].created <= files[j].created by {
        law_extremes(creations(files), j);
    }
    assert forall|j: int| 0 <= j < files.len() implies files[m].modified <= files[j].modified by {
        law_extremes(changes(files), j);
    }
}

/// The rows of the groups follow one another in the order of the groups.
pub proof fn law_rows_follow_the_groups(
    groups: Seq<DupeGroup>,
    indices: Seq<int>,
    g: int,
    only_dup: bool,
)
    ensures
        rows_of(groups, Seq::<int>::empty(), only_dup).len() == 0,
        rows_of(groups, indices.push(g), only_dup) == rows_of(groups, indices, only_dup)
            + group_rows(groups[g], g as usize, only_dup),
{
    assert(indices.push(g).drop_last() =~= indices);
}

/// Without the name filter all groups are shown, and with it those with a name
/// like that of a copy; without sorting in the order in which they were found.
pub proof fn law_groups_are_shown_by_name(
    groups: Seq<DupeGroup>,
    name_filter: bool,
    sort: Option<(SortColumn, SortDirection)>,
    g: int,
)
    ensures
        shown_groups(groups, name_filter, sort).contains(g) <==> 0 <= g < groups.len() && (
        name_filter ==> selection::has_copy_name(groups[g].files@)),
        forall|a: int, b: int|
            0 <= a < b < shown_groups(groups, name_filter, None).len() ==> shown_groups(
                groups,
                name_filter,
                None,
            )[a] < shown_groups(groups, name_filter, None)[b],
{
    let indices = filtered(groups, name_filter, groups.len());
    lemma_filtered_members(groups, name_filter, groups.len(), g);
    if let Some(s) = sort {
        let le = group_ranking(groups, indices, s);
        let order = sorting::stable_order(indices.len(), le);
        lemma_group_ranking(groups, indices, s);
        sorting::lemma_stable_order(indices.len(), indices.len() as int, le);
        assert forall|a: int, b: int| 0 <= a < b < order.len() implies #[trigger] order[a]
            != #[trigger] order[b] by {
            assert(sorting::comes_before(le, order[a], order[b]));
        }
        sorting::lemma_pick_multiset(indices, order);
        let shown = shown_groups(groups, name_filter, sort);
        assert(shown.to_multiset() == indices.to_multiset());
        broadcast use vstd::seq_lib::group_to_multiset_ensures;
        assert(shown.contains(g) <==> shown.to_multiset().count(g) > 0);
        assert(indices.contains(g) <==> indices.to_multiset().count(g) > 0);
    }
}

proof fn lemma_filtered_members(groups: Seq<DupeGroup>, name_filter: bool, n: nat, g: int)
    requires
        n <= groups.len(),
    ensures
        filtered(groups, name_filter, n).contains(g) <==> 0 <= g < n && (name_filter
            ==> selection::has_copy_name(groups[g].files@)),
        forall|a: int|
            0 <= a < filtered(groups, name_filter, n).len() ==> 0 <= #[trigger] filtered(
                groups,
                name_filter,
                n,
            )[a] < n,
        forall|a: int, b: int|
            0 <= a < b < filtered(groups, name_filter, n).len() ==> filtered(
                groups,
                name_filter,
                n,
            )[a] < filtered(groups, name_filter, n)[b],
    decreases n,
{
    if n > 0 {
        lemma_filtered_members(groups, name_filter, (n - 1) as nat, g);
        let less = filtered(groups, name_filter, (n - 1) as nat);
        let all = filtered(groups, name_filter, n);
        if all != less {
            assert(all == less.push(n - 1));
            assert(all[less.len() as int] == n - 1);
            if less.contains(g) {
                let i = choose|i: int| 0 <= i < less.len() && less[i] == g;
                assert(all[i] == g);
            }
            if all.contains(g) {
                let i = choose|i: int| 0 <= i < all.len() && all[i] == g;
                assert(i < less.len() ==> less[i] == g);
            }
        }
    }
}

/// How the columns sort: sizes and times by their numbers, names in lowercase,
/// and paths part by part; upside down if descending.
pub proof fn law_columns_sort_by_what_they_show(
    column: SortColumn,
    a: FileEntry,
    b: FileEntry,
)
    ensures
        column is Size ==> (directed_le((column, SortDirection::Asc), a, b) <==> a.size <= b.size),
        column is Created ==> (directed_le((column, SortDirection::Asc), a, b) <==> a.created
            <= b.created),
        column is Modified ==> (directed_le((column, SortDirection::Asc), a, b) <==> a.modified
            <= b.modified),
        column is Filename ==> (directed_le((column, SortDirection::Asc), a, b)
            <==> text::text_le(
            text::lowercase(paths::name_or_empty(a.path@)),
            text::lowercase(paths::name_or_empty(b.path@)),
        )),
        column is Path ==> (directed_le((column, SortDirection::Asc), a, b) <==> text::text_le(
            paths::path_id(a.path@),
            paths::path_id(b.path@),
        )),
        directed_le((column, SortDirection::Desc), a, b) == directed_le(
            (column, SortDirection::Asc),
            b,
            a,
        ),
{
}

} // verus!
