//! Grouping files that may be duplicates.

use crate::grouping;
use crate::model::{self, FileEntry};
use crate::paths;
use crate::sorting;
use crate::text;
use vstd::prelude::*;

verus! {

/// What the files of one bucket share: size and lowercase extension.
pub open spec fn size_key(f: FileEntry) -> (u64, Option<Seq<char>>) {
    (f.size, paths::lower_extension(f.path@))
}

/// Orders bucket keys: by size, then by extension.
pub open spec fn size_key_le(
    a: (u64, Option<Seq<char>>),
    b: (u64, Option<Seq<char>>),
) -> bool {
    a.0 < b.0 || (a.0 == b.0 && grouping::option_le(a.1, b.1))
}

/// The ranking of files by bucket.
pub open spec fn size_ranking(files: Seq<FileEntry>) -> spec_fn(int, int) -> bool {
    |i: int, j: int| size_key_le(size_key(files[i]), size_key(files[j]))
}

/// The positions of the files bucket by bucket.
pub open spec fn size_classes(files: Seq<FileEntry>) -> Seq<Seq<int>> {
    grouping::classes(files.len(), size_ranking(files))
}

/// The files at the listed positions, list by list.
pub open spec fn pick_lists<T>(s: Seq<T>, lists: Seq<Seq<int>>) -> Seq<Seq<T>> {
    lists.map_values(|l: Seq<int>| sorting::pick(s, l))
}

pub proof fn lemma_size_ranking(files: Seq<FileEntry>)
    ensures
        sorting::ranks(files.len() as int, size_ranking(files)),
        forall|i: int, j: int|
            grouping::alike(size_ranking(files), i, j) ==> size_key(#[trigger] files[i])
                == size_key(#[trigger] files[j]),
{
    let le = size_ranking(files);
    let n = files.len() as int;
    assert forall|i: int| 0 <= i < n implies #[trigger] le(i, i) by {
        grouping::lemma_option_le_order(
            size_key(files[i]).1,
            size_key(files[i]).1,
            size_key(files[i]).1,
        );
    }
    assert forall|i: int, j: int| 0 <= i < n && 0 <= j < n implies #[trigger] le(i, j)
        || le(j, i) by {
        grouping::lemma_option_le_order(
            size_key(files[i]).1,
            size_key(files[j]).1,
            size_key(files[j]).1,
        );
    }
    assert forall|i: int, j: int, k: int|
        0 <= i < n && 0 <= j < n && 0 <= k < n && #[trigger] le(i, j) && #[trigger] le(
            j,
            k,
        ) implies le(i, k) by {
        grouping::lemma_option_le_order(
            size_key(files[i]).1,
            size_key(files[j]).1,
            size_key(files[k]).1,
        );
    }
    assert forall|i: int, j: int| grouping::alike(le, i, j) implies size_key(#[trigger] files[i])
        == size_key(#[trigger] files[j]) by {
        grouping::lemma_option_le_order(
            size_key(files[i]).1,
            size_key(files[j]).1,
            size_key(files[j]).1,
        );
    }
}

/// The positions of the files, bucket by bucket.
pub fn size_positions(files: &Vec<FileEntry>) -> (r: Vec<Vec<usize>>)
    ensures
        grouping::position_lists(r@) == size_classes(files@),
        forall|g: int, a: int|
            0 <= g < r@.len() && 0 <= a < r@[g]@.len() ==> #[trigger] r@[g]@[a] < files@.len(),
{
    let n: usize = files.len();
    let mut exts: Vec<Option<String>> = Vec::new();
    let mut i: usize = 0;
    while i < n
        invariant
            i <= n,
            n == files@.len(),
            exts@.len() == i,
            forall|k: int|
                0 <= k < i ==> grouping::option_text(#[trigger] exts@[k]) == paths::lower_extension(
                    files@[k].path@,
                ),
        decreases n - i,
    {
        exts.push(paths::lower_extension_of(files[i].path.as_str()));
        i = i + 1;
    }
    let ghost le = size_ranking(files@);
    proof {
        lemma_size_ranking(files@);
    }
    let not_above = |i: usize, j: usize| -> (b: bool)
        requires
            i < n,
            j < n,
            n == files@.len(),
            n == exts@.len(),
            forall|k: int|
                0 <= k < n ==> grouping::option_text(#[trigger] exts@[k]) == paths::lower_extension(
                    files@[k].path@,
                ),
        ensures
            b == size_key_le(size_key(files@[i as int]), size_key(files@[j as int])),
        {
            assert(grouping::option_text(exts@[i as int]) == size_key(files@[i as int]).1);
            assert(grouping::option_text(exts@[j as int]) == size_key(files@[j as int]).1);
            files[i].size < files[j].size || (files[i].size == files[j].size
                && grouping::is_option_le(&exts[i], &exts[j]))
        };
    grouping::group_positions(n, not_above, Ghost(le))
}

/// Copies the files at the listed positions.
pub fn pick_files(files: &Vec<FileEntry>, list: &Vec<usize>) -> (r: Vec<FileEntry>)
    requires
        forall|a: int| 0 <= a < list@.len() ==> #[trigger] list@[a] < files@.len(),
    ensures
        r@ == sorting::pick(files@, sorting::positions(list@)),
{
    let mut out: Vec<FileEntry> = Vec::new();
    let mut k: usize = 0;
    while k < list.len()
        invariant
            k <= list@.len(),
            forall|a: int| 0 <= a < list@.len() ==> #[trigger] list@[a] < files@.len(),
            out@ =~= sorting::pick(files@, sorting::positions(list@.take(k as int))),
        decreases list@.len() - k,
    {
        assert(list@.take(k + 1) =~= list@.take(k as int).push(list@[k as int]));
        out.push(files[list[k]].clone());
        k = k + 1;
    }
    assert(list@.take(list@.len() as int) =~= list@);
    out
}

/// One bucket: what its files share, and the files.
#[derive(Debug)]
pub struct SizeBucket {
    pub size: u64,
    pub extension: Option<String>,
    pub files: Vec<FileEntry>,
}

impl SizeBucket {
    /// Whether the bucket is named by this size and extension.
    pub open spec fn is_for(self, size: u64, extension: Option<String>) -> bool {
        self.size == size && grouping::option_text(self.extension) == grouping::option_text(
            extension,
        )
    }
}

/// Files in buckets by size and lowercase extension.
#[derive(Debug)]
pub struct SizeGroups {
    pub buckets: Vec<SizeBucket>,
}

impl SizeGroups {
    /// The files, bucket by bucket.
    pub open spec fn lists(&self) -> Seq<Seq<FileEntry>> {
        self.buckets@.map_values(|b: SizeBucket| b.files@)
    }

    /// Each bucket is named after what its files share.
    pub open spec fn is_named(&self) -> bool {
        forall|g: int, a: int|
            0 <= g < self.buckets@.len() && 0 <= a < self.buckets@[g].files@.len() ==> size_key(
                #[trigger] self.buckets@[g].files@[a],
            ) == (self.buckets@[g].size, grouping::option_text(self.buckets@[g].extension))
    }

    /// How many buckets there are.
    pub fn len(&self) -> (r: usize)
        ensures
            r == self.lists().len(),
    {
        self.buckets.len()
    }

    /// The files of this size and lowercase extension: those of the first
    /// bucket that is named so.
    pub fn get(&self, key: &(u64, Option<String>)) -> (r: Option<&Vec<FileEntry>>)
        ensures
            match r {
                Some(files) => exists|g: int|
                    {
                        &&& 0 <= g < self.buckets@.len()
                        &&& (#[trigger] self.buckets@[g]).is_for(key.0, key.1)
                        &&& *files == self.buckets@[g].files
                        &&& forall|h: int|
                            0 <= h < g ==> !(#[trigger] self.buckets@[h]).is_for(key.0, key.1)
                    },
                None => forall|g: int|
                    0 <= g < self.buckets@.len() ==> !(#[trigger] self.buckets@[g]).is_for(
                        key.0,
                        key.1,
                    ),
            },
    {
        let mut g: usize = 0;
        while g < self.buckets.len()
            invariant
                g <= self.buckets@.len(),
                forall|h: int| 0 <= h < g ==> !(#[trigger] self.buckets@[h]).is_for(key.0, key.1),
            decreases self.buckets@.len() - g,
        {
            let b: &SizeBucket = &self.buckets[g];
            let same: bool = match (&b.extension, &key.1) {
                (None, None) => true,
                (Some(x), Some(y)) => text::text_eq(x.as_str(), y.as_str()),
                _ => false,
            };
            if b.size == key.0 && same {
                assert(self.buckets@[g as int].is_for(key.0, key.1));
                return Some(&b.files);
            }
            g = g + 1;
        }
        None
    }
}

/// Buckets files by size *and* lowercase extension as a cheap pre-filter before
/// any hashing happens. Two files of the same size but different extensions
/// are treated as certainly-not-duplicates and never even partial-hashed
/// against each other, which meaningfully shrinks the hash-pass workload on
/// trees with lots of same-sized-but-different-type files (thumbnails, log
/// rotations, etc.), at the cost of no longer detecting a duplicate that was
/// renamed to a different extension.
pub fn group_by_size(files: Vec<FileEntry>) -> (r: SizeGroups)
    ensures
        r.lists() == pick_lists(files@, size_classes(files@)),
        r.is_named(),
{
    let lists = size_positions(&files);
    let ghost classes = size_classes(files@);
    proof {
        lemma_size_ranking(files@);
        grouping::lemma_classes(files@.len(), size_ranking(files@));
    }
    let mut out: SizeGroups = SizeGroups { buckets: Vec::new() };
    let mut g: usize = 0;
    while g < lists.len()
        invariant
            g <= lists@.len(),
            classes == size_classes(files@),
            grouping::position_lists(lists@) == classes,
            grouping::are_classes(
                classes,
                sorting::stable_order(files@.len(), size_ranking(files@)),
                size_ranking(files@),
            ),
            forall|i: int, j: int|
                grouping::alike(size_ranking(files@), i, j) ==> size_key(#[trigger] files@[i])
                    == size_key(#[trigger] files@[j]),
            forall|h: int, a: int|
                0 <= h < lists@.len() && 0 <= a < lists@[h]@.len() ==> #[trigger] lists@[h]@[a]
                    < files@.len(),
            out.buckets@.len() == g,
            out.is_named(),
            out.lists() =~= pick_lists(files@, classes.take(g as int)),
        decreases lists@.len() - g,
    {
        let list: &Vec<usize> = &lists[g];
        assert(classes[g as int] == sorting::positions(list@));
        assert(classes[g as int].len() > 0);
        let picked = pick_files(&files, list);
        let first: usize = list[0];
        let ext = paths::lower_extension_of(files[first].path.as_str());
        let bucket = SizeBucket { size: files[first].size, extension: ext, files: picked };
        proof {
            assert forall|a: int| 0 <= a < picked@.len() implies size_key(#[trigger] picked@[a])
                == (bucket.size, grouping::option_text(bucket.extension)) by {
                assert(picked@[a] == files@[list@[a] as int]);
                assert(classes[g as int][a] == list@[a] && classes[g as int][0] == list@[0]);
                assert(grouping::alike(
                    size_ranking(files@),
                    classes[g as int][a],
                    classes[g as int][0],
                ));
                assert(size_key(files@[list@[a] as int]) == size_key(files@[first as int]));
            }
        }
        let ghost before = out.buckets@;
        out.buckets.push(bucket);
        assert(out.is_named()) by {
            assert forall|h: int, a: int|
                0 <= h < out.buckets@.len() && 0 <= a < out.buckets@[h].files@.len() implies size_key(
                #[trigger] out.buckets@[h].files@[a],
            ) == (out.buckets@[h].size, grouping::option_text(out.buckets@[h].extension)) by {
                if h < g {
                    assert(out.buckets@[h] == before[h]);
                }
            }
        }
        assert(classes.take(g + 1) =~= classes.take(g as int).push(classes[g as int]));
        assert(pick_lists(files@, classes.take(g + 1)) =~= pick_lists(
            files@,
            classes.take(g as int),
        ).push(picked@));
        g = g + 1;
    }
    assert(classes.take(classes.len() as int) =~= classes);
    out
}

/// The folder that tells files of one group apart.
pub open spec fn parent_id(path: Seq<char>) -> Option<Seq<char>> {
    match paths::parent(path) {
        Some(p) => Some(paths::path_id(p)),
        None => None,
    }
}

/// Computes [`parent_id`].
pub fn parent_id_of(path: &str) -> (r: Option<String>)
    ensures
        grouping::option_text(r) == parent_id(path@),
{
    match paths::parent_of(path) {
        Some(p) => Some(paths::id_of(p.as_str())),
        None => None,
    }
}

/// The ranking by optional text.
pub open spec fn option_ranking(keys: Seq<Option<Seq<char>>>) -> spec_fn(int, int) -> bool {
    |i: int, j: int| grouping::option_le(keys[i], keys[j])
}

/// The texts of the options.
pub open spec fn option_texts(v: Seq<Option<String>>) -> Seq<Option<Seq<char>>> {
    v.map_values(|o: Option<String>| grouping::option_text(o))
}

pub proof fn lemma_option_ranking(keys: Seq<Option<Seq<char>>>)
    ensures
        sorting::ranks(keys.len() as int, option_ranking(keys)),
{
    let le = option_ranking(keys);
    let n = keys.len() as int;
    assert forall|i: int| 0 <= i < n implies #[trigger] le(i, i) by {
        grouping::lemma_option_le_order(keys[i], keys[i], keys[i]);
    }
    assert forall|i: int, j: int| 0 <= i < n && 0 <= j < n implies #[trigger] le(i, j)
        || le(j, i) by {
        grouping::lemma_option_le_order(keys[i], keys[j], keys[j]);
    }
    assert forall|i: int, j: int, k: int|
        0 <= i < n && 0 <= j < n && 0 <= k < n && #[trigger] le(i, j) && #[trigger] le(
            j,
            k,
        ) implies le(i, k) by {
        grouping::lemma_option_le_order(keys[i], keys[j], keys[k]);
    }
}

/// Groups the positions of equal keys.
pub fn group_by_option(keys: &Vec<Option<String>>) -> (r: Vec<Vec<usize>>)
    ensures
        grouping::position_lists(r@) == grouping::classes(
            keys@.len(),
            option_ranking(option_texts(keys@)),
        ),
        forall|g: int, a: int|
            0 <= g < r@.len() && 0 <= a < r@[g]@.len() ==> #[trigger] r@[g]@[a] < keys@.len(),
{
    let n: usize = keys.len();
    let ghost le = option_ranking(option_texts(keys@));
    proof {
        lemma_option_ranking(option_texts(keys@));
    }
    let not_above = |i: usize, j: usize| -> (b: bool)
        requires
            i < n,
            j < n,
            n == keys@.len(),
        ensures
            b == grouping::option_le(option_texts(keys@)[i as int], option_texts(keys@)[j as int]),
        { grouping::is_option_le(&keys[i], &keys[j]) };
    grouping::group_positions(n, not_above, Ghost(le))
}

/// The lists with more than one item.
pub open spec fn several<T>(lists: Seq<Seq<T>>) -> Seq<Seq<T>>
    decreases lists.len(),
{
    if lists.len() == 0 {
        seq![]
    } else if lists.last().len() > 1 {
        several(lists.drop_last()).push(lists.last())
    } else {
        several(lists.drop_last())
    }
}

/// The folders of the files.
pub open spec fn parent_ids(files: Seq<FileEntry>) -> Seq<Option<Seq<char>>> {
    files.map_values(|f: FileEntry| parent_id(f.path@))
}

/// The files folder by folder, folders with a single file left out.
pub open spec fn by_parent(files: Seq<FileEntry>) -> Seq<Seq<FileEntry>> {
    several(
        pick_lists(files, grouping::classes(files.len(), option_ranking(parent_ids(files)))),
    )
}

/// Splits an already-confirmed duplicate group by parent directory, for the
/// "only mark files in the same folder" mode. Singleton subgroups (the file's
/// only copy left after splitting) are dropped since they're no longer dupes.
pub fn split_by_parent(files: Vec<FileEntry>) -> (r: Vec<Vec<FileEntry>>)
    ensures
        model::nested(r@) == by_parent(files@),
{
    let n: usize = files.len();
    let mut keys: Vec<Option<String>> = Vec::new();
    let mut i: usize = 0;
    while i < n
        invariant
            i <= n,
            n == files@.len(),
            option_texts(keys@) =~= parent_ids(files@.take(i as int)),
        decreases n - i,
    {
        assert(files@.take(i + 1) =~= files@.take(i as int).push(files@[i as int]));
        let key = parent_id_of(files[i].path.as_str());
        let ghost before = keys@;
        keys.push(key);
        assert(option_texts(keys@) =~= option_texts(before).push(grouping::option_text(key)));
        assert(parent_ids(files@.take(i + 1)) =~= parent_ids(files@.take(i as int)).push(
            parent_id(files@[i as int].path@),
        ));
        i = i + 1;
    }
    assert(files@.take(n as int) =~= files@);
    assert(keys@.len() == option_texts(keys@).len());
    let lists = group_by_option(&keys);
    let ghost all = pick_lists(files@, grouping::position_lists(lists@));
    let mut out: Vec<Vec<FileEntry>> = Vec::new();
    let mut g: usize = 0;
    while g < lists.len()
        invariant
            g <= lists@.len(),
            all == pick_lists(files@, grouping::position_lists(lists@)),
            forall|h: int, a: int|
                0 <= h < lists@.len() && 0 <= a < lists@[h]@.len() ==> #[trigger] lists@[h]@[a]
                    < files@.len(),
            model::nested(out@) =~= several(all.take(g as int)),
        decreases lists@.len() - g,
    {
        assert(all.take(g + 1).drop_last() =~= all.take(g as int));
        assert(all[g as int] == sorting::pick(files@, sorting::positions(lists@[g as int]@)));
        if lists[g].len() > 1 {
            let picked = pick_files(&files, &lists[g]);
            let ghost before = model::nested(out@);
            out.push(picked);
            assert(model::nested(out@) =~= before.push(picked@));
        }
        g = g + 1;
    }
    assert(all.take(all.len() as int) =~= all);
    out
}

/// The length of a path's file name in bytes.
pub open spec fn name_len(path: Seq<char>) -> nat {
    match paths::file_name(path) {
        Some(n) => vstd::utf8::encode_utf8(n).len(),
        None => 0,
    }
}

/// Computes [`name_len`].
pub fn name_len_of(path: &str) -> (r: usize)
    ensures
        r == name_len(path@),
{
    match paths::file_name_of(path) {
        Some(n) => n.as_str().as_bytes().len(),
        None => 0,
    }
}

/// Orders the files of a group: the older first, then the one with the
/// shorter file name.
pub open spec fn original_le(a: FileEntry, b: FileEntry) -> bool {
    a.modified < b.modified || (a.modified == b.modified && name_len(a.path@) <= name_len(b.path@))
}

/// The files with the "original" first.
pub open spec fn original_first(files: Seq<FileEntry>) -> Seq<FileEntry> {
    sorting::sorted(files, |a: FileEntry, b: FileEntry| original_le(a, b))
}

/// Sorts a duplicate group in place so the "original" ends up at index 0:
/// oldest `modified` time first, then shortest filename as a tiebreaker.
pub fn sort_group_original(files: &mut Vec<FileEntry>)
    ensures
        final(files)@ == original_first(old(files)@),
        forall|a: int|
            0 <= a < final(files)@.len() ==> final(files)@[0].modified <= (
            #[trigger] final(files)@[a]).modified,
{
    let n: usize = files.len();
    let mut lens: Vec<usize> = Vec::new();
    let mut i: usize = 0;
    while i < n
        invariant
            i <= n,
            n == files@.len(),
            lens@.len() == i,
            forall|k: int| 0 <= k < i ==> #[trigger] lens@[k] == name_len(files@[k].path@),
        decreases n - i,
    {
        lens.push(name_len_of(files[i].path.as_str()));
        i = i + 1;
    }
    let list: &Vec<FileEntry> = &*files;
    let ghost le = |i: int, j: int| original_le(list@[i], list@[j]);
    let not_above = |i: usize, j: usize| -> (b: bool)
        requires
            i < n,
            j < n,
            n == list@.len(),
            n == lens@.len(),
            forall|k: int| 0 <= k < n ==> #[trigger] lens@[k] == name_len(list@[k].path@),
        ensures
            b == original_le(list@[i as int], list@[j as int]),
        {
            assert(lens@[i as int] == name_len(list@[i as int].path@));
            assert(lens@[j as int] == name_len(list@[j as int].path@));
            list[i].modified < list[j].modified || (list[i].modified == list[j].modified && lens[i]
                <= lens[j])
        };
    let order = sorting::sort_positions(n, not_above, Ghost(le));
    assert forall|a: int| 0 <= a < order@.len() implies #[trigger] order@[a] < list@.len() by {
        assert(sorting::positions(order@)[a] == order@[a]);
    }
    let sorted = pick_files(list, &order);
    proof {
        let pred = |a: FileEntry, b: FileEntry| original_le(a, b);
        assert(le =~= (|i: int, j: int| pred(list@[i], list@[j])));
        law_group_is_sorted_by_age(list@);
    }
    *files = sorted;
}

/// A sorted group goes from the oldest file to the newest by when they were
/// last modified, and those modified at one time from the shortest file name to
/// the longest. It holds the same files, each as often as before.
pub proof fn law_group_is_sorted_by_age(files: Seq<FileEntry>)
    ensures
        original_first(files).to_multiset() == files.to_multiset(),
        forall|a: int, b: int|
            0 <= a <= b < original_first(files).len() ==> (#[trigger] original_first(
                files,
            )[a]).modified <= (#[trigger] original_first(files)[b]).modified,
        forall|a: int, b: int|
            0 <= a <= b < original_first(files).len() && (#[trigger] original_first(
                files,
            )[a]).modified == (#[trigger] original_first(files)[b]).modified ==> name_len(
                original_first(files)[a].path@,
            ) <= name_len(original_first(files)[b].path@),
{
    let le = |a: FileEntry, b: FileEntry| original_le(a, b);
    assert(sorting::ranks(files.len() as int, |i: int, j: int| le(files[i], files[j])));
    sorting::lemma_sorted(files, le);
    sorting::lemma_sorted_multiset(files, le);
    let r = original_first(files);
    assert forall|a: int, b: int| 0 <= a <= b < r.len() implies (#[trigger] r[a]).modified <= (
    #[trigger] r[b]).modified && (r[a].modified == r[b].modified ==> name_len(r[a].path@)
        <= name_len(r[b].path@)) by {
        assert(le(r[a], r[b]));
    }
}

/// The length that decides between files of one age is that of the file name in
/// bytes; a path that names no file counts as nought.
pub proof fn law_name_length(path: Seq<char>)
    ensures
        paths::file_name(path) matches Some(n) ==> name_len(path) == vstd::utf8::encode_utf8(
            n,
        ).len(),
        paths::file_name(path) is None ==> name_len(path) == 0,
{
}

/// The original of a group is its oldest file, and of those the one with the
/// shortest file name; a group keeps its files however they are sorted.
pub proof fn law_original_is_oldest(files: Seq<FileEntry>)
    ensures
        original_first(files).len() == files.len(),
        forall|k: int|
            0 <= k < files.len() ==> original_first(files).contains(#[trigger] files[k]),
        forall|k: int|
            0 <= k < files.len() ==> files.contains(#[trigger] original_first(files)[k]),
        forall|k: int|
            0 <= k < files.len() ==> original_le(
                original_first(files)[0],
                #[trigger] original_first(files)[k],
            ),
{
    let le = |a: FileEntry, b: FileEntry| original_le(a, b);
    assert(sorting::ranks(files.len() as int, |i: int, j: int| le(files[i], files[j])));
    sorting::lemma_sorted(files, le);
}

/// Split by folder, the files of one part are several that share their folder.
pub proof fn law_parts_share_their_folder(files: Seq<FileEntry>, g: int)
    requires
        0 <= g < by_parent(files).len(),
    ensures
        by_parent(files)[g].len() > 1,
        forall|a: int|
            0 <= a < by_parent(files)[g].len() ==> files.contains(#[trigger] by_parent(files)[g][a])
                && parent_id(by_parent(files)[g][a].path@) == parent_id(
                by_parent(files)[g][0].path@,
            ),
{
    let keys = parent_ids(files);
    let le = option_ranking(keys);
    let c = grouping::classes(files.len(), le);
    let lists = pick_lists(files, c);
    lemma_option_ranking(keys);
    grouping::lemma_classes(files.len(), le);
    crate::scanner::lemma_several(lists);
    let part = by_parent(files)[g];
    assert(lists.contains(part));
    let h = choose|h: int| 0 <= h < lists.len() && lists[h] == part;
    assert forall|a: int| 0 <= a < part.len() implies files.contains(#[trigger] part[a])
        && parent_id(part[a].path@) == parent_id(part[0].path@) by {
        assert(part[a] == files[c[h][a]] && part[0] == files[c[h][0]]);
        assert(0 <= c[h][a] < files.len() && 0 <= c[h][0] < files.len());
        assert(grouping::alike(le, c[h][a], c[h][0]));
        grouping::lemma_option_le_order(keys[c[h][a]], keys[c[h][0]], keys[c[h][0]]);
    }
}

/// Whether no item occurs twice, neither in one list nor in two.
pub open spec fn are_apart<T>(lists: Seq<Seq<T>>) -> bool {
    forall|g: int, a: int, h: int, b: int|
        0 <= g < lists.len() && 0 <= a < lists[g].len() && 0 <= h < lists.len() && 0 <= b
            < lists[h].len() && (g != h || a != b) ==> #[trigger] lists[g][a]
            != #[trigger] lists[h][b]
}

/// Whether each list holds only items of the one at the same position.
pub open spec fn lie_within<T>(lists: Seq<Seq<T>>, outer: Seq<Seq<T>>) -> bool {
    &&& lists.len() == outer.len()
    &&& forall|g: int, a: int|
        0 <= g < lists.len() && 0 <= a < lists[g].len() ==> outer[g].contains(
            #[trigger] lists[g][a],
        )
}

/// Lists without repetitions within lists that are apart are apart.
pub proof fn lemma_within_apart<T>(lists: Seq<Seq<T>>, outer: Seq<Seq<T>>)
    requires
        are_apart(outer),
        lie_within(lists, outer),
        forall|g: int| 0 <= g < lists.len() ==> (#[trigger] lists[g]).no_duplicates(),
    ensures
        are_apart(lists),
{
    assert forall|g: int, a: int, h: int, b: int|
        0 <= g < lists.len() && 0 <= a < lists[g].len() && 0 <= h < lists.len() && 0 <= b
            < lists[h].len() && (g != h || a != b) implies #[trigger] lists[g][a]
        != #[trigger] lists[h][b] by {
        if g == h {
            assert(lists[g].no_duplicates());
        } else {
            let i = choose|i: int| 0 <= i < outer[g].len() && outer[g][i] == lists[g][a];
            let j = choose|j: int| 0 <= j < outer[h].len() && outer[h][j] == lists[h][b];
            assert(outer[g][i] != outer[h][j]);
        }
    }
}

/// Lists that are apart stay so with others that are apart from them.
pub proof fn lemma_apart_concat<T>(x: Seq<Seq<T>>, y: Seq<Seq<T>>)
    requires
        are_apart(x),
        are_apart(y),
        forall|g: int, a: int, h: int, b: int|
            0 <= g < x.len() && 0 <= a < x[g].len() && 0 <= h < y.len() && 0 <= b < y[h].len()
                ==> #[trigger] x[g][a] != #[trigger] y[h][b],
    ensures
        are_apart(x + y),
{
    let all = x + y;
    let n = x.len() as int;
    assert forall|g: int, a: int, h: int, b: int|
        0 <= g < all.len() && 0 <= a < all[g].len() && 0 <= h < all.len() && 0 <= b < all[h].len()
            && (g != h || a != b) implies #[trigger] all[g][a] != #[trigger] all[h][b] by {
        if g < n && h < n {
            assert(x[g][a] != x[h][b]);
        } else if g >= n && h >= n {
            assert(y[g - n][a] != y[h - n][b]);
        } else if g < n {
            assert(x[g][a] != y[h - n][b]);
        } else {
            assert(x[h][b] != y[g - n][a]);
        }
    }
}

/// Leaving out lists with a single item keeps the rest apart.
pub proof fn lemma_several_apart<T>(lists: Seq<Seq<T>>)
    requires
        are_apart(lists),
    ensures
        are_apart(several(lists)),
    decreases lists.len(),
{
    if lists.len() > 0 {
        let t = lists.drop_last();
        let r = several(t);
        let last = lists.last();
        assert(are_apart(t)) by {
            assert forall|g: int, a: int, h: int, b: int|
                0 <= g < t.len() && 0 <= a < t[g].len() && 0 <= h < t.len() && 0 <= b < t[h].len()
                    && (g != h || a != b) implies #[trigger] t[g][a] != #[trigger] t[h][b] by {
                assert(lists[g][a] != lists[h][b]);
            }
        }
        lemma_several_apart(t);
        if last.len() > 1 {
            crate::scanner::lemma_several(t);
            let one = seq![last];
            let n = lists.len() - 1;
            assert forall|g: int, a: int, h: int, b: int|
                0 <= g < one.len() && 0 <= a < one[g].len() && 0 <= h < one.len() && 0 <= b
                    < one[h].len() && (g != h || a != b) implies #[trigger] one[g][a]
                != #[trigger] one[h][b] by {
                assert(lists[n][a] != lists[n][b]);
            }
            assert forall|g: int, a: int, h: int, b: int|
                0 <= g < r.len() && 0 <= a < r[g].len() && 0 <= h < one.len() && 0 <= b
                    < one[h].len() implies #[trigger] r[g][a] != #[trigger] one[h][b] by {
                assert(t.contains(r[g]));
                let i = choose|i: int| 0 <= i < t.len() && t[i] == r[g];
                assert(lists[i][a] != lists[n][b]);
            }
            lemma_apart_concat(r, one);
            assert(several(lists) =~= r + one);
        }
    }
}

/// The items at positions that are apart are apart, if none occurs twice.
pub proof fn lemma_pick_lists_apart<T>(s: Seq<T>, lists: Seq<Seq<int>>)
    requires
        s.no_duplicates(),
        are_apart(lists),
        forall|g: int, a: int|
            0 <= g < lists.len() && 0 <= a < lists[g].len() ==> 0 <= #[trigger] lists[g][a]
                < s.len(),
    ensures
        are_apart(pick_lists(s, lists)),
{
    let r = pick_lists(s, lists);
    assert forall|g: int, a: int, h: int, b: int|
        0 <= g < r.len() && 0 <= a < r[g].len() && 0 <= h < r.len() && 0 <= b < r[h].len() && (g
            != h || a != b) implies #[trigger] r[g][a] != #[trigger] r[h][b] by {
        assert(lists[g][a] != lists[h][b]);
        assert(r[g][a] == s[lists[g][a]] && r[h][b] == s[lists[h][b]]);
    }
}

/// Classes are apart.
pub proof fn lemma_classes_apart(n: nat, le: spec_fn(int, int) -> bool)
    requires
        sorting::ranks(n as int, le),
    ensures
        are_apart(grouping::classes(n, le)),
{
    let c = grouping::classes(n, le);
    grouping::lemma_classes(n, le);
    assert forall|g: int, a: int, h: int, b: int|
        0 <= g < c.len() && 0 <= a < c[g].len() && 0 <= h < c.len() && 0 <= b < c[h].len() && (g
            != h || a != b) implies #[trigger] c[g][a] != #[trigger] c[h][b] by {
        let x = c[g][a];
        assert(0 <= x < n);
        assert(le(x, x));
        if g == h {
            if a < b {
                assert(c[g][a] < c[g][b]);
            } else {
                assert(c[g][b] < c[g][a]);
            }
        } else if g < h {
            assert(!le(c[h][b], c[g][a]));
        } else {
            assert(!le(c[g][a], c[h][b]));
        }
    }
}

/// The classes of items that don't repeat, those with a single item left out,
/// are apart and hold only such items.
pub proof fn lemma_grouped_apart<T>(s: Seq<T>, le: spec_fn(int, int) -> bool)
    requires
        s.no_duplicates(),
        sorting::ranks(s.len() as int, le),
    ensures
        are_apart(several(pick_lists(s, grouping::classes(s.len(), le)))),
        forall|g: int, a: int|
            0 <= g < several(pick_lists(s, grouping::classes(s.len(), le))).len() && 0 <= a
                < several(pick_lists(s, grouping::classes(s.len(), le)))[g].len() ==> s.contains(
                #[trigger] several(pick_lists(s, grouping::classes(s.len(), le)))[g][a],
            ),
{
    let c = grouping::classes(s.len(), le);
    let lists = pick_lists(s, c);
    lemma_classes_apart(s.len(), le);
    grouping::lemma_classes(s.len(), le);
    lemma_pick_lists_apart(s, c);
    lemma_several_apart(lists);
    crate::scanner::lemma_several(lists);
    let r = several(lists);
    assert forall|g: int, a: int| 0 <= g < r.len() && 0 <= a < r[g].len() implies s.contains(
        #[trigger] r[g][a],
    ) by {
        assert(lists.contains(r[g]));
        let h = choose|h: int| 0 <= h < lists.len() && lists[h] == r[g];
        assert(lists[h][a] == s[c[h][a]]);
        assert(0 <= c[h][a] < s.len());
    }
}

/// Sorting items that don't repeat makes none repeat.
pub proof fn lemma_sorted_once<T>(s: Seq<T>, le: spec_fn(T, T) -> bool)
    requires
        s.no_duplicates(),
        sorting::ranks(s.len() as int, |i: int, j: int| le(s[i], s[j])),
    ensures
        sorting::sorted(s, le).no_duplicates(),
{
    let rank = |i: int, j: int| le(s[i], s[j]);
    let order = sorting::stable_order(s.len(), rank);
    sorting::lemma_stable_order(s.len(), s.len() as int, rank);
    let r = sorting::sorted(s, le);
    assert forall|a: int, b: int| 0 <= a < b < r.len() implies r[a] != r[b] by {
        assert(sorting::comes_before(rank, order[a], order[b]));
        assert(order[a] != order[b]);
        assert(r[a] == s[order[a]] && r[b] == s[order[b]]);
    }
}

/// The bucket that is found by a size and an extension holds files of that size and
/// extension alone.
pub proof fn law_buckets_are_found_by_what_they_hold(
    groups: SizeGroups,
    g: int,
    a: int,
    size: u64,
    extension: Option<String>,
)
    requires
        groups.is_named(),
        0 <= g < groups.buckets@.len(),
        0 <= a < groups.buckets@[g].files@.len(),
    ensures
        groups.buckets@[g].is_for(size, extension) <==> {
            &&& groups.buckets@[g].files@[a].size == size
            &&& match (paths::lower_extension(groups.buckets@[g].files@[a].path@), extension) {
                (Some(x), Some(y)) => x == y@,
                (None, None) => true,
                _ => false,
            }
        },
{
    assert(size_key(groups.buckets@[g].files@[a]) == (
        groups.buckets@[g].size,
        grouping::option_text(groups.buckets@[g].extension),
    ));
}

} // verus!
