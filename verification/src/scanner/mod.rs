//! Scanning for duplicates.
//!
//! A scan walks and filters, groups by size, narrows with a cheap partial-hash
//! pass, then confirms with a full-file hash. Reading the files is left to the
//! caller: between the stages it hands in the hashes of the files that the
//! stage before has left, `None` where a file could not be read.

use crate::control;
use crate::grouping;
use crate::model::{self, DupeGroup, FileEntry, ScanEvent};
use crate::paths;
use crate::sorting;
use vstd::prelude::*;

pub mod group;
pub mod hash;
pub mod indexer;
pub mod similarity;
pub mod walk;

verus! {

/// What is known of each file's hash, by the file's position.
pub open spec fn hash_at(hashes: Seq<Option<[u8; 32]>>, p: int) -> Option<Seq<u8>> {
    match hashes[p] {
        Some(h) => Some(h@),
        None => None,
    }
}

/// The positions whose hash is known.
pub open spec fn with_hash(list: Seq<int>, hashes: Seq<Option<[u8; 32]>>) -> Seq<int>
    decreases list.len(),
{
    if list.len() == 0 {
        seq![]
    } else if hashes[list.last()] is Some {
        with_hash(list.drop_last(), hashes).push(list.last())
    } else {
        with_hash(list.drop_last(), hashes)
    }
}

/// The ranking of the listed positions by hash.
pub open spec fn hash_ranking(list: Seq<int>, hashes: Seq<Option<[u8; 32]>>) -> spec_fn(
    int,
    int,
) -> bool {
    |a: int, b: int|
        grouping::bytes_le(hash_at(hashes, list[a])->0, hash_at(hashes, list[b])->0)
}

/// The group divided by hash: positions without a known hash, and those that
/// share theirs with no other, are left out.
pub open spec fn narrowed(list: Seq<int>, hashes: Seq<Option<[u8; 32]>>) -> Seq<Seq<int>> {
    let k = with_hash(list, hashes);
    group::several(group::pick_lists(k, grouping::classes(k.len(), hash_ranking(k, hashes))))
}

/// All groups divided by hash.
pub open spec fn all_narrowed(
    groups: Seq<Seq<int>>,
    hashes: Seq<Option<[u8; 32]>>,
) -> Seq<Seq<int>>
    decreases groups.len(),
{
    if groups.len() == 0 {
        seq![]
    } else {
        all_narrowed(groups.drop_last(), hashes) + narrowed(groups.last(), hashes)
    }
}

/// The groups of files that share size and extension.
pub open spec fn size_candidates(files: Seq<FileEntry>) -> Seq<Seq<int>> {
    group::several(group::size_classes(files))
}

/// The files of one confirmed group, "original" first, or folder by folder if
/// only files in the same folder count.
pub open spec fn confirmed_files(
    files: Seq<FileEntry>,
    list: Seq<int>,
    same_folder_only: bool,
) -> Seq<Seq<FileEntry>> {
    let found = sorting::pick(files, list);
    (if same_folder_only {
        group::by_parent(found)
    } else {
        seq![found]
    }).map_values(|l: Seq<FileEntry>| group::original_first(l))
}

/// The duplicate groups, each with its hash.
pub open spec fn confirmed(
    files: Seq<FileEntry>,
    groups: Seq<Seq<int>>,
    hashes: Seq<Option<[u8; 32]>>,
    same_folder_only: bool,
) -> Seq<(Seq<u8>, Seq<FileEntry>)>
    decreases groups.len(),
{
    if groups.len() == 0 {
        seq![]
    } else {
        let list = groups.last();
        confirmed(files, groups.drop_last(), hashes, same_folder_only) + confirmed_files(
            files,
            list,
            same_folder_only,
        ).map_values(|l: Seq<FileEntry>| (hash_at(hashes, list[0])->0, l))
    }
}

/// The positions that end up in one group, given the hashes of the files.
pub open spec fn final_lists(
    files: Seq<FileEntry>,
    partial: Seq<Option<[u8; 32]>>,
    full: Seq<Option<[u8; 32]>>,
) -> Seq<Seq<int>> {
    all_narrowed(all_narrowed(size_candidates(files), partial), full)
}

/// What an exact-content scan finds among the files, given their hashes.
pub open spec fn scan_result(
    files: Seq<FileEntry>,
    partial: Seq<Option<[u8; 32]>>,
    full: Seq<Option<[u8; 32]>>,
    same_folder_only: bool,
) -> Seq<(Seq<u8>, Seq<FileEntry>)> {
    confirmed(files, final_lists(files, partial, full), full, same_folder_only)
}

/// The groups as hash and files.
pub open spec fn group_views(groups: Seq<DupeGroup>) -> Seq<(Seq<u8>, Seq<FileEntry>)> {
    groups.map_values(|g: DupeGroup| (g.hash@, g.files@))
}

/// Whether every position in the lists is below `n`.
pub open spec fn lists_below(lists: Seq<Seq<int>>, n: int) -> bool {
    forall|g: int, a: int|
        0 <= g < lists.len() && 0 <= a < lists[g].len() ==> 0 <= #[trigger] lists[g][a] < n
}

proof fn lemma_hash_ranking(list: Seq<int>, hashes: Seq<Option<[u8; 32]>>)
    ensures
        sorting::ranks(list.len() as int, hash_ranking(list, hashes)),
{
    let le = hash_ranking(list, hashes);
    let n = list.len() as int;
    assert forall|i: int| 0 <= i < n implies #[trigger] le(i, i) by {
        let x = hash_at(hashes, list[i])->0;
        grouping::lemma_bytes_le_order(x, x, x);
    }
    assert forall|i: int, j: int| 0 <= i < n && 0 <= j < n implies #[trigger] le(i, j)
        || le(j, i) by {
        let x = hash_at(hashes, list[i])->0;
        let y = hash_at(hashes, list[j])->0;
        grouping::lemma_bytes_le_order(x, y, y);
    }
    assert forall|i: int, j: int, k: int|
        0 <= i < n && 0 <= j < n && 0 <= k < n && #[trigger] le(i, j) && #[trigger] le(
            j,
            k,
        ) implies le(i, k) by {
        let x = hash_at(hashes, list[i])->0;
        let y = hash_at(hashes, list[j])->0;
        let z = hash_at(hashes, list[k])->0;
        grouping::lemma_bytes_le_order(x, y, z);
    }
}

proof fn lemma_with_hash(list: Seq<int>, hashes: Seq<Option<[u8; 32]>>)
    ensures
        forall|a: int|
            0 <= a < with_hash(list, hashes).len() ==> list.contains(
                #[trigger] with_hash(list, hashes)[a],
            ) && hashes[with_hash(list, hashes)[a]] is Some,
        forall|x: int| #[trigger]
            list.contains(x) && hashes[x] is Some ==> with_hash(list, hashes).contains(x),
    decreases list.len(),
{
    if list.len() > 0 {
        let t = list.drop_last();
        lemma_with_hash(t, hashes);
        let w = with_hash(list, hashes);
        let v = with_hash(t, hashes);
        assert forall|a: int| 0 <= a < w.len() implies list.contains(#[trigger] w[a])
            && hashes[w[a]] is Some by {
            if a < v.len() {
                assert(w[a] == v[a]);
                let b = choose|b: int| 0 <= b < t.len() && t[b] == v[a];
                assert(list[b] == w[a]);
            } else {
                assert(list[list.len() - 1] == w[a]);
            }
        }
        assert forall|x: int| #[trigger] list.contains(x) && hashes[x] is Some implies w.contains(
            x,
        ) by {
            if x == list.last() {
                assert(w[v.len() as int] == x);
            } else {
                let b = choose|b: int| 0 <= b < list.len() && list[b] == x;
                assert(t[b] == x);
                assert(t.contains(x));
                let c = choose|c: int| 0 <= c < v.len() && v[c] == x;
                assert(w[c] == x);
            }
        }
    }
}

/// What [`group::several`] keeps and what it drops.
pub proof fn lemma_several<T>(lists: Seq<Seq<T>>)
    ensures
        forall|g: int|
            0 <= g < lists.len() && (#[trigger] lists[g]).len() > 1 ==> group::several(
                lists,
            ).contains(lists[g]),
        forall|g: int|
            0 <= g < group::several(lists).len() ==> lists.contains(
                #[trigger] group::several(lists)[g],
            ) && group::several(lists)[g].len() > 1,
    decreases lists.len(),
{
    if lists.len() > 0 {
        let t = lists.drop_last();
        lemma_several(t);
        let s = group::several(lists);
        let q = group::several(t);
        assert forall|g: int| 0 <= g < lists.len() && (#[trigger] lists[g]).len() > 1 implies s
            .contains(lists[g]) by {
            if g < t.len() {
                assert(t[g] == lists[g]);
                assert(q.contains(t[g]));
                let h = choose|h: int| 0 <= h < q.len() && q[h] == t[g];
                assert(s[h] == lists[g]);
            } else {
                assert(s[q.len() as int] == lists[g]);
            }
        }
        assert forall|g: int| 0 <= g < s.len() implies lists.contains(#[trigger] s[g])
            && s[g].len() > 1 by {
            if g < q.len() {
                assert(s[g] == q[g]);
                assert(t.contains(q[g]));
                let h = choose|h: int| 0 <= h < t.len() && t[h] == q[g];
                assert(lists[h] == s[g]);
            } else {
                assert(lists[lists.len() - 1] == s[g]);
            }
        }
    }
}

/// What dividing one group by hash gives: each part lies in the group, has
/// several members, and all of them have the same known hash.
proof fn lemma_narrowed(list: Seq<int>, hashes: Seq<Option<[u8; 32]>>, g: int)
    requires
        0 <= g < narrowed(list, hashes).len(),
    ensures
        narrowed(list, hashes)[g].len() > 1,
        forall|a: int|
            0 <= a < narrowed(list, hashes)[g].len() ==> list.contains(
                #[trigger] narrowed(list, hashes)[g][a],
            ),
        forall|a: int|
            0 <= a < narrowed(list, hashes)[g].len() ==> hash_at(
                hashes,
                #[trigger] narrowed(list, hashes)[g][a],
            ) is Some && hash_at(hashes, narrowed(list, hashes)[g][a]) == hash_at(
                hashes,
                narrowed(list, hashes)[g][0],
            ),
{
    let k = with_hash(list, hashes);
    let le = hash_ranking(k, hashes);
    let c = grouping::classes(k.len(), le);
    let lists = group::pick_lists(k, c);
    let r = narrowed(list, hashes);
    lemma_with_hash(list, hashes);
    lemma_hash_ranking(k, hashes);
    grouping::lemma_classes(k.len(), le);
    lemma_several(lists);
    assert(lists.contains(r[g]));
    let h = choose|h: int| 0 <= h < lists.len() && lists[h] == r[g];
    assert forall|a: int| 0 <= a < r[g].len() implies list.contains(#[trigger] r[g][a]) && hash_at(
        hashes,
        r[g][a],
    ) is Some && hash_at(hashes, r[g][a]) == hash_at(hashes, r[g][0]) by {
        assert(r[g][a] == k[c[h][a]]);
        assert(r[g][0] == k[c[h][0]]);
        assert(0 <= c[h][a] < k.len() && 0 <= c[h][0] < k.len());
        assert(list.contains(k[c[h][a]]));
        assert(list.contains(k[c[h][0]]));
        assert(grouping::alike(le, c[h][a], c[h][0]));
        let x = hash_at(hashes, k[c[h][a]])->0;
        let y = hash_at(hashes, k[c[h][0]])->0;
        grouping::lemma_bytes_le_order(x, y, y);
    }
}

/// Whether some list holds both positions.
pub open spec fn together(lists: Seq<Seq<int>>, i: int, j: int) -> bool {
    exists|g: int| 0 <= g < lists.len() && (#[trigger] lists[g]).contains(i) && lists[g].contains(j)
}

/// Classes keep positions together that rank alike.
pub proof fn lemma_classes_together(n: nat, le: spec_fn(int, int) -> bool, i: int, j: int)
    requires
        sorting::ranks(n as int, le),
        0 <= i < n,
        0 <= j < n,
        grouping::alike(le, i, j),
    ensures
        together(grouping::classes(n, le), i, j),
{
    grouping::lemma_classes(n, le);
    let c = grouping::classes(n, le);
    assert(grouping::in_some_group(c, i));
    assert(grouping::in_some_group(c, j));
    let g = choose|g: int| 0 <= g < c.len() && (#[trigger] c[g]).contains(i);
    let h = choose|h: int| 0 <= h < c.len() && (#[trigger] c[h]).contains(j);
    let a = choose|a: int| 0 <= a < c[g].len() && c[g][a] == i;
    let b = choose|b: int| 0 <= b < c[h].len() && c[h][b] == j;
    if g < h {
        assert(!le(c[h][b], c[g][a]));
    } else if h < g {
        assert(!le(c[g][a], c[h][b]));
    }
    assert(c[g].contains(i) && c[g].contains(j));
}

proof fn lemma_two_members<T>(list: Seq<T>, x: T, y: T)
    requires
        list.contains(x),
        list.contains(y),
        x != y,
    ensures
        list.len() > 1,
{
    let a = choose|a: int| 0 <= a < list.len() && list[a] == x;
    let b = choose|b: int| 0 <= b < list.len() && list[b] == y;
    assert(a != b);
}

/// Dividing a group by hash keeps positions together that share their hash.
proof fn lemma_narrowed_together(
    list: Seq<int>,
    hashes: Seq<Option<[u8; 32]>>,
    i: int,
    j: int,
)
    requires
        list.contains(i),
        list.contains(j),
        i != j,
        hash_at(hashes, i) is Some,
        hash_at(hashes, i) == hash_at(hashes, j),
    ensures
        together(narrowed(list, hashes), i, j),
{
    let k = with_hash(list, hashes);
    let le = hash_ranking(k, hashes);
    let c = grouping::classes(k.len(), le);
    let lists = group::pick_lists(k, c);
    lemma_with_hash(list, hashes);
    assert(k.contains(i) && k.contains(j));
    let a = choose|a: int| 0 <= a < k.len() && k[a] == i;
    let b = choose|b: int| 0 <= b < k.len() && k[b] == j;
    lemma_hash_ranking(k, hashes);
    let x = hash_at(hashes, i)->0;
    grouping::lemma_bytes_le_order(x, x, x);
    lemma_classes_together(k.len(), le, a, b);
    let g = choose|g: int| 0 <= g < c.len() && (#[trigger] c[g]).contains(a) && c[g].contains(b);
    let u = choose|u: int| 0 <= u < c[g].len() && c[g][u] == a;
    let v = choose|v: int| 0 <= v < c[g].len() && c[g][v] == b;
    assert(lists[g][u] == i && lists[g][v] == j);
    assert(lists[g].contains(i) && lists[g].contains(j));
    lemma_two_members(lists[g], i, j);
    lemma_several(lists);
    assert(group::several(lists).contains(lists[g]));
    let h = choose|h: int|
        0 <= h < group::several(lists).len() && group::several(lists)[h] == lists[g];
    assert(narrowed(list, hashes)[h].contains(i));
}

proof fn lemma_all_narrowed_together(
    groups: Seq<Seq<int>>,
    hashes: Seq<Option<[u8; 32]>>,
    i: int,
    j: int,
)
    requires
        together(groups, i, j),
        i != j,
        hash_at(hashes, i) is Some,
        hash_at(hashes, i) == hash_at(hashes, j),
    ensures
        together(all_narrowed(groups, hashes), i, j),
    decreases groups.len(),
{
    let g = choose|g: int|
        0 <= g < groups.len() && (#[trigger] groups[g]).contains(i) && groups[g].contains(j);
    let r = all_narrowed(groups, hashes);
    let before = all_narrowed(groups.drop_last(), hashes);
    let own = narrowed(groups.last(), hashes);
    if g == groups.len() - 1 {
        lemma_narrowed_together(groups[g], hashes, i, j);
        let h = choose|h: int|
            0 <= h < own.len() && (#[trigger] own[h]).contains(i) && own[h].contains(j);
        assert(r[before.len() + h] == own[h]);
        assert(r[before.len() + h].contains(i));
    } else {
        assert(groups.drop_last()[g] == groups[g]);
        assert(groups.drop_last()[g].contains(i));
        lemma_all_narrowed_together(groups.drop_last(), hashes, i, j);
        let h = choose|h: int|
            0 <= h < before.len() && (#[trigger] before[h]).contains(i) && before[h].contains(j);
        assert(r[h] == before[h]);
        assert(r[h].contains(i));
    }
}

/// Every divided group comes out of one group.
proof fn lemma_all_narrowed(groups: Seq<Seq<int>>, hashes: Seq<Option<[u8; 32]>>, g: int)
    requires
        0 <= g < all_narrowed(groups, hashes).len(),
    ensures
        exists|h: int, k: int|
            0 <= h < groups.len() && 0 <= k < (#[trigger] narrowed(groups[h], hashes)).len()
                && all_narrowed(groups, hashes)[g] == #[trigger] narrowed(groups[h], hashes)[k],
    decreases groups.len(),
{
    let before = all_narrowed(groups.drop_last(), hashes);
    let n = groups.len() - 1;
    if g >= before.len() {
        assert(all_narrowed(groups, hashes)[g] == narrowed(groups[n], hashes)[g - before.len()]);
    } else {
        lemma_all_narrowed(groups.drop_last(), hashes, g);
        let (h, k) = choose|h: int, k: int|
            0 <= h < groups.drop_last().len() && 0 <= k < (#[trigger] narrowed(
                groups.drop_last()[h],
                hashes,
            )).len() && before[g] == #[trigger] narrowed(groups.drop_last()[h], hashes)[k];
        assert(groups.drop_last()[h] == groups[h]);
        assert(all_narrowed(groups, hashes)[g] == narrowed(groups[h], hashes)[k]);
    }
}

proof fn lemma_all_narrowed_below(groups: Seq<Seq<int>>, hashes: Seq<Option<[u8; 32]>>, n: int)
    requires
        lists_below(groups, n),
    ensures
        lists_below(all_narrowed(groups, hashes), n),
{
    let r = all_narrowed(groups, hashes);
    assert forall|g: int, a: int| 0 <= g < r.len() && 0 <= a < r[g].len() implies 0
        <= #[trigger] r[g][a] < n by {
        lemma_all_narrowed(groups, hashes, g);
        let (h, k) = choose|h: int, k: int|
            0 <= h < groups.len() && 0 <= k < (#[trigger] narrowed(groups[h], hashes)).len()
                && r[g] == #[trigger] narrowed(groups[h], hashes)[k];
        lemma_narrowed(groups[h], hashes, k);
        assert(groups[h].contains(narrowed(groups[h], hashes)[k][a]));
        let b = choose|b: int| 0 <= b < groups[h].len() && groups[h][b] == r[g][a];
        assert(0 <= groups[h][b] < n);
    }
}

/// The members of a final group: several of them, all with one full hash and
/// one bucket key.
proof fn lemma_final_list(
    files: Seq<FileEntry>,
    partial: Seq<Option<[u8; 32]>>,
    full: Seq<Option<[u8; 32]>>,
    g: int,
)
    requires
        0 <= g < final_lists(files, partial, full).len(),
    ensures
        ({
            let l = final_lists(files, partial, full)[g];
            &&& l.len() > 1
            &&& forall|a: int| 0 <= a < l.len() ==> 0 <= #[trigger] l[a] < files.len()
            &&& forall|a: int|
                0 <= a < l.len() ==> hash_at(full, #[trigger] l[a]) is Some && hash_at(full, l[a])
                    == hash_at(full, l[0])
            &&& forall|a: int|
                0 <= a < l.len() ==> group::size_key(files[#[trigger] l[a]]) == group::size_key(
                    files[l[0]],
                )
        }),
{
    let sized = size_candidates(files);
    let mid = all_narrowed(sized, partial);
    let l = final_lists(files, partial, full)[g];
    lemma_all_narrowed(mid, full, g);
    let (h, k) = choose|h: int, k: int|
        0 <= h < mid.len() && 0 <= k < (#[trigger] narrowed(mid[h], full)).len() && l
            == #[trigger] narrowed(mid[h], full)[k];
    lemma_narrowed(mid[h], full, k);
    lemma_all_narrowed(sized, partial, h);
    let (u, v) = choose|u: int, v: int|
        0 <= u < sized.len() && 0 <= v < (#[trigger] narrowed(sized[u], partial)).len() && mid[h]
            == #[trigger] narrowed(sized[u], partial)[v];
    lemma_narrowed(sized[u], partial, v);
    let le = group::size_ranking(files);
    let c = group::size_classes(files);
    group::lemma_size_ranking(files);
    grouping::lemma_classes(files.len(), le);
    lemma_several(c);
    assert(c.contains(sized[u]));
    let w = choose|w: int| 0 <= w < c.len() && c[w] == sized[u];
    assert forall|a: int| 0 <= a < l.len() implies c[w].contains(#[trigger] l[a]) by {
        assert(mid[h].contains(l[a]));
        let b = choose|b: int| 0 <= b < mid[h].len() && mid[h][b] == l[a];
        assert(sized[u].contains(mid[h][b]));
    }
    assert forall|a: int| 0 <= a < l.len() implies 0 <= #[trigger] l[a] < files.len()
        && group::size_key(files[l[a]]) == group::size_key(files[l[0]]) by {
        assert(c[w].contains(l[a]) && c[w].contains(l[0]));
        let x = choose|x: int| 0 <= x < c[w].len() && c[w][x] == l[a];
        let y = choose|y: int| 0 <= y < c[w].len() && c[w][y] == l[0];
        assert(grouping::alike(le, c[w][x], c[w][y]));
        assert(0 <= c[w][x] < files.len());
    }
}

/// No duplicate is lost: two files of the same size and extension whose
/// partial and full hashes are known and the same (as those of files with the
/// same content are) end up in one group.
pub proof fn law_equal_files_meet(
    files: Seq<FileEntry>,
    partial: Seq<Option<[u8; 32]>>,
    full: Seq<Option<[u8; 32]>>,
    i: int,
    j: int,
)
    requires
        0 <= i < files.len(),
        0 <= j < files.len(),
        i != j,
        group::size_key(files[i]) == group::size_key(files[j]),
        hash_at(partial, i) is Some,
        hash_at(partial, i) == hash_at(partial, j),
        hash_at(full, i) is Some,
        hash_at(full, i) == hash_at(full, j),
    ensures
        together(final_lists(files, partial, full), i, j),
{
    let le = group::size_ranking(files);
    let c = group::size_classes(files);
    group::lemma_size_ranking(files);
    grouping::lemma_option_le_order(
        group::size_key(files[i]).1,
        group::size_key(files[j]).1,
        group::size_key(files[j]).1,
    );
    lemma_classes_together(files.len(), le, i, j);
    let g = choose|g: int| 0 <= g < c.len() && (#[trigger] c[g]).contains(i) && c[g].contains(j);
    lemma_two_members(c[g], i, j);
    lemma_several(c);
    let s = size_candidates(files);
    assert(s.contains(c[g]));
    let h = choose|h: int| 0 <= h < s.len() && s[h] == c[g];
    assert(s[h].contains(i));
    lemma_all_narrowed_together(s, partial, i, j);
    lemma_all_narrowed_together(all_narrowed(s, partial), full, i, j);
}

proof fn lemma_original_first_contains(files: Seq<FileEntry>, a: int)
    requires
        0 <= a < files.len(),
    ensures
        group::original_first(files).contains(files[a]),
{
    let pred = |x: FileEntry, y: FileEntry| group::original_le(x, y);
    let le = |i: int, j: int| pred(files[i], files[j]);
    sorting::lemma_stable_order(files.len(), files.len() as int, le);
    let order = sorting::stable_order(files.len(), le);
    assert(order.contains(a));
    let k = choose|k: int| 0 <= k < order.len() && order[k] == a;
    assert(group::original_first(files)[k] == files[a]);
}

/// Splitting by folder keeps files of one folder together.
proof fn lemma_by_parent_together(files: Seq<FileEntry>, a: int, b: int)
    requires
        0 <= a < files.len(),
        0 <= b < files.len(),
        a != b,
        group::parent_id(files[a].path@) == group::parent_id(files[b].path@),
    ensures
        exists|g: int|
            0 <= g < group::by_parent(files).len() && (#[trigger] group::by_parent(
                files,
            )[g]).contains(files[a]) && group::by_parent(files)[g].contains(files[b]),
{
    let keys = group::parent_ids(files);
    let le = group::option_ranking(keys);
    let c = grouping::classes(files.len(), le);
    let lists = group::pick_lists(files, c);
    group::lemma_option_ranking(keys);
    grouping::lemma_option_le_order(keys[a], keys[b], keys[b]);
    lemma_classes_together(files.len(), le, a, b);
    let g = choose|g: int| 0 <= g < c.len() && (#[trigger] c[g]).contains(a) && c[g].contains(b);
    lemma_two_members(c[g], a, b);
    let u = choose|u: int| 0 <= u < c[g].len() && c[g][u] == a;
    let v = choose|v: int| 0 <= v < c[g].len() && c[g][v] == b;
    assert(lists[g][u] == files[a] && lists[g][v] == files[b]);
    lemma_several(lists);
    assert(group::several(lists).contains(lists[g]));
    let h = choose|h: int|
        0 <= h < group::several(lists).len() && group::several(lists)[h] == lists[g];
    assert(group::by_parent(files)[h].contains(files[a]));
}

/// Whether some duplicate group holds both files.
pub open spec fn shown_together(
    groups: Seq<(Seq<u8>, Seq<FileEntry>)>,
    x: FileEntry,
    y: FileEntry,
) -> bool {
    exists|r: int|
        0 <= r < groups.len() && (#[trigger] groups[r]).1.contains(x) && groups[r].1.contains(y)
}

proof fn lemma_confirmed_together(
    files: Seq<FileEntry>,
    groups: Seq<Seq<int>>,
    hashes: Seq<Option<[u8; 32]>>,
    same_folder_only: bool,
    i: int,
    j: int,
)
    requires
        together(groups, i, j),
        i != j,
        same_folder_only ==> group::parent_id(files[i].path@) == group::parent_id(files[j].path@),
    ensures
        shown_together(confirmed(files, groups, hashes, same_folder_only), files[i], files[j]),
    decreases groups.len(),
{
    let g = choose|g: int|
        0 <= g < groups.len() && (#[trigger] groups[g]).contains(i) && groups[g].contains(j);
    let r = confirmed(files, groups, hashes, same_folder_only);
    let before = confirmed(files, groups.drop_last(), hashes, same_folder_only);
    if g == groups.len() - 1 {
        let list = groups[g];
        let found = sorting::pick(files, list);
        let a = choose|a: int| 0 <= a < list.len() && list[a] == i;
        let b = choose|b: int| 0 <= b < list.len() && list[b] == j;
        assert(found[a] == files[i] && found[b] == files[j]);
        let parts = if same_folder_only {
            group::by_parent(found)
        } else {
            seq![found]
        };
        if same_folder_only {
            lemma_by_parent_together(found, a, b);
        } else {
            assert(parts[0].contains(files[i]) && parts[0].contains(files[j]));
        }
        let h = choose|h: int|
            0 <= h < parts.len() && (#[trigger] parts[h]).contains(files[i]) && parts[h].contains(
                files[j],
            );
        let u = choose|u: int| 0 <= u < parts[h].len() && parts[h][u] == files[i];
        let v = choose|v: int| 0 <= v < parts[h].len() && parts[h][v] == files[j];
        lemma_original_first_contains(parts[h], u);
        lemma_original_first_contains(parts[h], v);
        assert(r[before.len() + h].1 == group::original_first(parts[h]));
        assert(r[before.len() + h].1.contains(files[i]));
    } else {
        assert(groups.drop_last()[g] == groups[g]);
        assert(groups.drop_last()[g].contains(i));
        lemma_confirmed_together(files, groups.drop_last(), hashes, same_folder_only, i, j);
        let h = choose|h: int|
            0 <= h < before.len() && (#[trigger] before[h]).1.contains(files[i])
                && before[h].1.contains(files[j]);
        assert(r[h] == before[h]);
        assert(r[h].1.contains(files[i]));
    }
}

/// No duplicate is hidden: the scan shows two such files in one group, in the
/// mode for one folder only if they share their folder.
pub proof fn law_equal_files_are_shown(
    files: Seq<FileEntry>,
    partial: Seq<Option<[u8; 32]>>,
    full: Seq<Option<[u8; 32]>>,
    same_folder_only: bool,
    i: int,
    j: int,
)
    requires
        0 <= i < files.len(),
        0 <= j < files.len(),
        i != j,
        group::size_key(files[i]) == group::size_key(files[j]),
        hash_at(partial, i) is Some,
        hash_at(partial, i) == hash_at(partial, j),
        hash_at(full, i) is Some,
        hash_at(full, i) == hash_at(full, j),
        same_folder_only ==> group::parent_id(files[i].path@) == group::parent_id(files[j].path@),
    ensures
        shown_together(
            scan_result(files, partial, full, same_folder_only),
            files[i],
            files[j],
        ),
{
    law_equal_files_meet(files, partial, full, i, j);
    lemma_confirmed_together(
        files,
        final_lists(files, partial, full),
        full,
        same_folder_only,
        i,
        j,
    );
}

/// Whether the files are duplicates of each other with this hash: several of
/// the scanned files, all of one size, extension and full hash, in one folder
/// if so asked, the oldest first.
pub open spec fn are_duplicates(
    files: Seq<FileEntry>,
    full: Seq<Option<[u8; 32]>>,
    same_folder_only: bool,
    hash: Seq<u8>,
    members: Seq<FileEntry>,
) -> bool {
    &&& members.len() > 1
    &&& forall|a: int|
        0 <= a < members.len() ==> has_hash(files, full, #[trigger] members[a], hash)
    &&& forall|a: int|
        0 <= a < members.len() ==> group::size_key(#[trigger] members[a]) == group::size_key(
            members[0],
        )
    &&& forall|a: int|
        0 <= a < members.len() ==> group::original_le(members[0], #[trigger] members[a])
    &&& same_folder_only ==> forall|a: int|
        0 <= a < members.len() ==> group::parent_id((#[trigger] members[a]).path@)
            == group::parent_id(members[0].path@)
}

/// Whether the file is one of those scanned, with this full hash.
pub open spec fn has_hash(
    files: Seq<FileEntry>,
    full: Seq<Option<[u8; 32]>>,
    file: FileEntry,
    hash: Seq<u8>,
) -> bool {
    exists|i: int|
        0 <= i < files.len() && #[trigger] files[i] == file && hash_at(full, i) == Some(hash)
}

proof fn lemma_confirmed_group(
    files: Seq<FileEntry>,
    full: Seq<Option<[u8; 32]>>,
    same_folder_only: bool,
    list: Seq<int>,
    k: int,
)
    requires
        list.len() > 1,
        forall|a: int| 0 <= a < list.len() ==> 0 <= #[trigger] list[a] < files.len(),
        forall|a: int|
            0 <= a < list.len() ==> hash_at(full, #[trigger] list[a]) is Some && hash_at(
                full,
                list[a],
            ) == hash_at(full, list[0]),
        forall|a: int|
            0 <= a < list.len() ==> group::size_key(files[#[trigger] list[a]]) == group::size_key(
                files[list[0]],
            ),
        0 <= k < confirmed_files(files, list, same_folder_only).len(),
    ensures
        are_duplicates(
            files,
            full,
            same_folder_only,
            hash_at(full, list[0])->0,
            confirmed_files(files, list, same_folder_only)[k],
        ),
{
    let found = sorting::pick(files, list);
    let parts = if same_folder_only {
        group::by_parent(found)
    } else {
        seq![found]
    };
    let part = parts[k];
    let members = confirmed_files(files, list, same_folder_only)[k];
    let hash = hash_at(full, list[0])->0;
    assert(members == group::original_first(part));
    group::law_original_is_oldest(part);
    if same_folder_only {
        group::law_parts_share_their_folder(found, k);
    }
    assert forall|x: FileEntry| #[trigger] found.contains(x) implies has_hash(
        files,
        full,
        x,
        hash,
    ) && group::size_key(x) == group::size_key(files[list[0]]) by {
        let b = choose|b: int| 0 <= b < found.len() && found[b] == x;
        assert(files[list[b]] == x);
    }
    assert forall|x: FileEntry| #[trigger] part.contains(x) implies found.contains(x) && (
    same_folder_only ==> group::parent_id(x.path@) == group::parent_id(part[0].path@)) by {
        let b = choose|b: int| 0 <= b < part.len() && part[b] == x;
        assert(found.contains(part[b]));
    }
    assert forall|a: int| 0 <= a < members.len() implies part.contains(
        #[trigger] members[a],
    ) by {}
    assert(part.contains(members[0]));
    assert(found.contains(members[0]));
    assert forall|a: int| 0 <= a < members.len() implies found.contains(#[trigger] members[a]) by {
        assert(part.contains(members[a]));
    }
}

proof fn lemma_confirmed_groups(
    files: Seq<FileEntry>,
    groups: Seq<Seq<int>>,
    full: Seq<Option<[u8; 32]>>,
    same_folder_only: bool,
    g: int,
)
    requires
        0 <= g < confirmed(files, groups, full, same_folder_only).len(),
    ensures
        exists|h: int, k: int|
            0 <= h < groups.len() && 0 <= k < confirmed_files(
                files,
                groups[h],
                same_folder_only,
            ).len() && confirmed(files, groups, full, same_folder_only)[g] == (
                hash_at(full, groups[h][0])->0,
                #[trigger] confirmed_files(files, groups[h], same_folder_only)[k],
            ),
    decreases groups.len(),
{
    if groups.len() > 0 {
        let t = groups.drop_last();
        let before = confirmed(files, t, full, same_folder_only);
        if g < before.len() {
            lemma_confirmed_groups(files, t, full, same_folder_only, g);
            let (h, k) = choose|h: int, k: int|
                0 <= h < t.len() && 0 <= k < confirmed_files(files, t[h], same_folder_only).len()
                    && before[g] == (
                    hash_at(full, t[h][0])->0,
                    #[trigger] confirmed_files(files, t[h], same_folder_only)[k],
                );
            assert(groups[h] == t[h]);
            assert(confirmed(files, groups, full, same_folder_only)[g] == (
                hash_at(full, groups[h][0])->0,
                confirmed_files(files, groups[h], same_folder_only)[k],
            ));
        } else {
            let h = groups.len() - 1;
            let k = g - before.len();
            assert(confirmed(files, groups, full, same_folder_only)[g] == (
                hash_at(full, groups[h][0])->0,
                confirmed_files(files, groups[h], same_folder_only)[k],
            ));
        }
    }
}

/// Nothing is shown as a duplicate without cause: each group of a scan holds
/// several files of one size, extension and full hash, which is the group's,
/// with the oldest as the original. In the mode for one folder they share
/// their folder.
pub proof fn law_shown_groups_are_duplicates(
    files: Seq<FileEntry>,
    partial: Seq<Option<[u8; 32]>>,
    full: Seq<Option<[u8; 32]>>,
    same_folder_only: bool,
    g: int,
)
    requires
        0 <= g < scan_result(files, partial, full, same_folder_only).len(),
    ensures
        ({
            let (hash, members) = scan_result(files, partial, full, same_folder_only)[g];
            are_duplicates(files, full, same_folder_only, hash, members)
        }),
{
    let lists = final_lists(files, partial, full);
    lemma_confirmed_groups(files, lists, full, same_folder_only, g);
    let (h, k) = choose|h: int, k: int|
        0 <= h < lists.len() && 0 <= k < confirmed_files(
            files,
            lists[h],
            same_folder_only,
        ).len() && scan_result(files, partial, full, same_folder_only)[g] == (
            hash_at(full, lists[h][0])->0,
            #[trigger] confirmed_files(files, lists[h], same_folder_only)[k],
        );
    lemma_final_list(files, partial, full, h);
    lemma_confirmed_group(files, full, same_folder_only, lists[h], k);
}

/// What two files of one shown group have in common, whatever the settings: the
/// first is not newer than any other, and of one age has no longer name; both
/// have one size and one extension; each is one of the scanned files, with the
/// full hash that the group shows. In the mode for one folder both lie in it.
pub proof fn law_members_of_a_group_agree(
    files: Seq<FileEntry>,
    partial: Seq<Option<[u8; 32]>>,
    full: Seq<Option<[u8; 32]>>,
    same_folder_only: bool,
    g: int,
    a: int,
)
    requires
        0 <= g < scan_result(files, partial, full, same_folder_only).len(),
        0 <= a < scan_result(files, partial, full, same_folder_only)[g].1.len(),
    ensures
        ({
            let (hash, members) = scan_result(files, partial, full, same_folder_only)[g];
            &&& members.len() >= 2
            &&& members[0].modified <= members[a].modified
            &&& members[0].modified == members[a].modified ==> group::name_len(members[0].path@)
                <= group::name_len(members[a].path@)
            &&& members[0].size == members[a].size
            &&& paths::lower_extension(members[0].path@) == paths::lower_extension(
                members[a].path@,
            )
            &&& same_folder_only ==> match (
                paths::parent(members[0].path@),
                paths::parent(members[a].path@),
            ) {
                (Some(x), Some(y)) => paths::path_id(x) == paths::path_id(y),
                (None, None) => true,
                _ => false,
            }
            &&& exists|i: int|
                0 <= i < files.len() && #[trigger] files[i] == members[a] && (full[i] matches Some(
                    h,
                ) && h@ == hash)
        }),
{
    let (hash, members) = scan_result(files, partial, full, same_folder_only)[g];
    law_shown_groups_are_duplicates(files, partial, full, same_folder_only, g);
    assert(has_hash(files, full, members[a], hash));
    assert(group::original_le(members[0], members[a]));
    assert(group::size_key(members[a]) == group::size_key(members[0]));
    let i = choose|i: int|
        0 <= i < files.len() && #[trigger] files[i] == members[a] && hash_at(full, i) == Some(hash);
    assert(files[i] == members[a] && (full[i] matches Some(h) && h@ == hash));
    if same_folder_only {
        assert(group::parent_id(members[a].path@) == group::parent_id(members[0].path@));
    }
}

/// No copy is missed: two files of one size and one extension, with the same
/// partial and the same full hash, stand in one group of the results, as long
/// as they lie in one folder where that is asked for.
pub proof fn law_copies_stand_in_one_group(
    files: Seq<FileEntry>,
    partial: Seq<Option<[u8; 32]>>,
    full: Seq<Option<[u8; 32]>>,
    same_folder_only: bool,
    i: int,
    j: int,
)
    requires
        0 <= i < files.len(),
        0 <= j < files.len(),
        i != j,
        files[i].size == files[j].size,
        paths::lower_extension(files[i].path@) == paths::lower_extension(files[j].path@),
        partial[i] is Some && partial[j] is Some && partial[i]->0@ == partial[j]->0@,
        full[i] is Some && full[j] is Some && full[i]->0@ == full[j]->0@,
        same_folder_only ==> match (paths::parent(files[i].path@), paths::parent(files[j].path@)) {
            (Some(x), Some(y)) => paths::path_id(x) == paths::path_id(y),
            (None, None) => true,
            _ => false,
        },
    ensures
        exists|g: int|
            0 <= g < scan_result(files, partial, full, same_folder_only).len()
                && (#[trigger] scan_result(files, partial, full, same_folder_only)[g]).1.contains(
                files[i],
            ) && scan_result(files, partial, full, same_folder_only)[g].1.contains(files[j]),
{
    law_equal_files_are_shown(files, partial, full, same_folder_only, i, j);
}

/// The pass over whole files is told how much it has to read: what its files
/// weigh together, each one counted, or the largest number there is.
pub proof fn law_bytes_add_up(files: Seq<FileEntry>, groups: Seq<Seq<int>>, list: Seq<int>, i: int)
    ensures
        bytes_of(files, Seq::<int>::empty()) == 0,
        bytes_of(files, list.push(i)) == bytes_of(files, list) + files[i].size,
        all_bytes(files, Seq::<Seq<int>>::empty()) == 0,
        all_bytes(files, groups.push(list)) == all_bytes(files, groups) + bytes_of(files, list),
{
    assert(list.push(i).drop_last() =~= list);
    assert(groups.push(list).drop_last() =~= groups);
}

/// Hashing is reported at most two hundred times for the bytes there are, and
/// not before another four megabytes are done.
pub proof fn law_reports_are_spaced(total: u64)
    ensures
        report_step(total) >= 4 * 1024 * 1024,
        report_step(total) >= total / 200,
        report_step(total) == 4 * 1024 * 1024 || report_step(total) == total / 200,
{
}

proof fn lemma_with_hash_once(list: Seq<int>, hashes: Seq<Option<[u8; 32]>>)
    requires
        list.no_duplicates(),
    ensures
        with_hash(list, hashes).no_duplicates(),
    decreases list.len(),
{
    if list.len() > 0 {
        let t = list.drop_last();
        let v = with_hash(t, hashes);
        lemma_with_hash_once(t, hashes);
        lemma_with_hash(t, hashes);
        let w = with_hash(list, hashes);
        assert forall|a: int, b: int| 0 <= a < b < w.len() implies w[a] != w[b] by {
            if b == v.len() {
                assert(t.contains(v[a]));
                let i = choose|i: int| 0 <= i < t.len() && t[i] == v[a];
                assert(list[i] != list[list.len() - 1]);
            } else {
                assert(v[a] != v[b]);
            }
        }
    }
}

proof fn lemma_narrowed_apart(list: Seq<int>, hashes: Seq<Option<[u8; 32]>>)
    requires
        list.no_duplicates(),
    ensures
        group::are_apart(narrowed(list, hashes)),
{
    let k = with_hash(list, hashes);
    lemma_with_hash_once(list, hashes);
    lemma_hash_ranking(k, hashes);
    group::lemma_grouped_apart(k, hash_ranking(k, hashes));
}

proof fn lemma_all_narrowed_apart(groups: Seq<Seq<int>>, hashes: Seq<Option<[u8; 32]>>)
    requires
        group::are_apart(groups),
    ensures
        group::are_apart(all_narrowed(groups, hashes)),
    decreases groups.len(),
{
    if groups.len() > 0 {
        let t = groups.drop_last();
        let n = groups.len() - 1;
        let before = all_narrowed(t, hashes);
        let own = narrowed(groups.last(), hashes);
        assert(group::are_apart(t)) by {
            assert forall|g: int, a: int, h: int, b: int|
                0 <= g < t.len() && 0 <= a < t[g].len() && 0 <= h < t.len() && 0 <= b < t[h].len()
                    && (g != h || a != b) implies #[trigger] t[g][a] != #[trigger] t[h][b] by {
                assert(groups[g][a] != groups[h][b]);
            }
        }
        lemma_all_narrowed_apart(t, hashes);
        assert(groups[n].no_duplicates()) by {
            assert forall|a: int, b: int|
                0 <= a < groups[n].len() && 0 <= b < groups[n].len() && a != b implies groups[n][a]
                != groups[n][b] by {}
        }
        lemma_narrowed_apart(groups[n], hashes);
        assert forall|g: int, a: int, h: int, b: int|
            0 <= g < before.len() && 0 <= a < before[g].len() && 0 <= h < own.len() && 0 <= b
                < own[h].len() implies #[trigger] before[g][a] != #[trigger] own[h][b] by {
            lemma_all_narrowed(t, hashes, g);
            let (i, k) = choose|i: int, k: int|
                0 <= i < t.len() && 0 <= k < (#[trigger] narrowed(t[i], hashes)).len() && before[g]
                    == #[trigger] narrowed(t[i], hashes)[k];
            lemma_narrowed(t[i], hashes, k);
            lemma_narrowed(groups[n], hashes, h);
            assert(t[i].contains(narrowed(t[i], hashes)[k][a]));
            assert(groups[n].contains(own[h][b]));
            let x = choose|x: int| 0 <= x < t[i].len() && t[i][x] == before[g][a];
            let y = choose|y: int| 0 <= y < groups[n].len() && groups[n][y] == own[h][b];
            assert(groups[i][x] != groups[n][y]);
        }
        group::lemma_apart_concat(before, own);
    }
}

proof fn lemma_final_lists_apart(
    files: Seq<FileEntry>,
    partial: Seq<Option<[u8; 32]>>,
    full: Seq<Option<[u8; 32]>>,
)
    ensures
        group::are_apart(final_lists(files, partial, full)),
{
    group::lemma_size_ranking(files);
    group::lemma_classes_apart(files.len(), group::size_ranking(files));
    group::lemma_several_apart(group::size_classes(files));
    lemma_all_narrowed_apart(size_candidates(files), partial);
    lemma_all_narrowed_apart(all_narrowed(size_candidates(files), partial), full);
}

proof fn lemma_confirmed_files_apart(
    files: Seq<FileEntry>,
    list: Seq<int>,
    same_folder_only: bool,
)
    requires
        files.no_duplicates(),
        list.no_duplicates(),
        forall|a: int| 0 <= a < list.len() ==> 0 <= #[trigger] list[a] < files.len(),
    ensures
        group::are_apart(confirmed_files(files, list, same_folder_only)),
        forall|g: int, a: int|
            0 <= g < confirmed_files(files, list, same_folder_only).len() && 0 <= a
                < confirmed_files(files, list, same_folder_only)[g].len() ==> sorting::pick(
                files,
                list,
            ).contains(#[trigger] confirmed_files(files, list, same_folder_only)[g][a]),
{
    let found = sorting::pick(files, list);
    assert(found.no_duplicates()) by {
        assert forall|a: int, b: int|
            0 <= a < found.len() && 0 <= b < found.len() && a != b implies found[a]
            != found[b] by {
            assert(list[a] != list[b]);
            assert(files[list[a]] != files[list[b]]);
        }
    }
    let parts = if same_folder_only {
        group::by_parent(found)
    } else {
        seq![found]
    };
    if same_folder_only {
        let keys = group::parent_ids(found);
        group::lemma_option_ranking(keys);
        group::lemma_grouped_apart(found, group::option_ranking(keys));
    } else {
        assert forall|g: int, a: int, h: int, b: int|
            0 <= g < parts.len() && 0 <= a < parts[g].len() && 0 <= h < parts.len() && 0 <= b
                < parts[h].len() && (g != h || a != b) implies #[trigger] parts[g][a]
            != #[trigger] parts[h][b] by {
            assert(found[a] != found[b]);
        }
        assert forall|g: int, a: int|
            0 <= g < parts.len() && 0 <= a < parts[g].len() implies found.contains(
            #[trigger] parts[g][a],
        ) by {
            assert(parts[g][a] == found[a]);
        }
    }
    let r = confirmed_files(files, list, same_folder_only);
    assert forall|g: int| 0 <= g < r.len() implies (#[trigger] r[g]).no_duplicates() by {
        let part = parts[g];
        assert(part.no_duplicates()) by {
            assert forall|a: int, b: int|
                0 <= a < part.len() && 0 <= b < part.len() && a != b implies part[a]
                != part[b] by {
                assert(parts[g][a] != parts[g][b]);
            }
        }
        let le = |a: FileEntry, b: FileEntry| group::original_le(a, b);
        assert(sorting::ranks(part.len() as int, |i: int, j: int| le(part[i], part[j])));
        group::lemma_sorted_once(part, le);
    }
    assert forall|g: int, a: int| 0 <= g < r.len() && 0 <= a < r[g].len() implies parts[g].contains(
        #[trigger] r[g][a],
    ) && found.contains(r[g][a]) by {
        group::law_original_is_oldest(parts[g]);
        assert(parts[g].contains(group::original_first(parts[g])[a]));
        let i = choose|i: int| 0 <= i < parts[g].len() && parts[g][i] == r[g][a];
        assert(found.contains(parts[g][i]));
    }
    group::lemma_within_apart(r, parts);
}

/// The files of the groups.
pub open spec fn members_of(groups: Seq<(Seq<u8>, Seq<FileEntry>)>) -> Seq<Seq<FileEntry>> {
    groups.map_values(|g: (Seq<u8>, Seq<FileEntry>)| g.1)
}

proof fn lemma_confirmed_apart(
    files: Seq<FileEntry>,
    groups: Seq<Seq<int>>,
    full: Seq<Option<[u8; 32]>>,
    same_folder_only: bool,
)
    requires
        files.no_duplicates(),
        group::are_apart(groups),
        lists_below(groups, files.len() as int),
    ensures
        group::are_apart(members_of(confirmed(files, groups, full, same_folder_only))),
    decreases groups.len(),
{
    let all = members_of(confirmed(files, groups, full, same_folder_only));
    if groups.len() > 0 {
        let t = groups.drop_last();
        let n = groups.len() - 1;
        let before = members_of(confirmed(files, t, full, same_folder_only));
        let own = confirmed_files(files, groups[n], same_folder_only);
        assert(group::are_apart(t)) by {
            assert forall|g: int, a: int, h: int, b: int|
                0 <= g < t.len() && 0 <= a < t[g].len() && 0 <= h < t.len() && 0 <= b < t[h].len()
                    && (g != h || a != b) implies #[trigger] t[g][a] != #[trigger] t[h][b] by {
                assert(groups[g][a] != groups[h][b]);
            }
        }
        assert(lists_below(t, files.len() as int)) by {
            assert forall|g: int, a: int| 0 <= g < t.len() && 0 <= a < t[g].len() implies 0
                <= #[trigger] t[g][a] < files.len() by {
                assert(0 <= groups[g][a] < files.len());
            }
        }
        lemma_confirmed_apart(files, t, full, same_folder_only);
        assert forall|i: int| 0 <= i < groups.len() implies (
        #[trigger] groups[i]).no_duplicates() by {
            assert forall|a: int, b: int|
                0 <= a < groups[i].len() && 0 <= b < groups[i].len() && a != b implies groups[i][a]
                != groups[i][b] by {}
        }
        lemma_confirmed_files_apart(files, groups[n], same_folder_only);
        assert forall|g: int, a: int, h: int, b: int|
            0 <= g < before.len() && 0 <= a < before[g].len() && 0 <= h < own.len() && 0 <= b
                < own[h].len() implies #[trigger] before[g][a] != #[trigger] own[h][b] by {
            lemma_confirmed_groups(files, t, full, same_folder_only, g);
            let (i, k) = choose|i: int, k: int|
                0 <= i < t.len() && 0 <= k < confirmed_files(files, t[i], same_folder_only).len()
                    && confirmed(files, t, full, same_folder_only)[g] == (
                    hash_at(full, t[i][0])->0,
                    #[trigger] confirmed_files(files, t[i], same_folder_only)[k],
                );
            assert(t[i] == groups[i]);
            lemma_confirmed_files_apart(files, groups[i], same_folder_only);
            let x = sorting::pick(files, groups[i]);
            let y = sorting::pick(files, groups[n]);
            assert(x.contains(confirmed_files(files, groups[i], same_folder_only)[k][a]));
            assert(y.contains(own[h][b]));
            let u = choose|u: int| 0 <= u < x.len() && x[u] == before[g][a];
            let v = choose|v: int| 0 <= v < y.len() && y[v] == own[h][b];
            assert(groups[i][u] != groups[n][v]);
            assert(files[groups[i][u]] != files[groups[n][v]]);
        }
        group::lemma_apart_concat(before, own);
        assert(all =~= before + own);
    }
}

/// No file stands twice in the results of a scan, neither in one group nor in
/// two.
pub proof fn law_no_file_stands_twice(
    files: Seq<FileEntry>,
    partial: Seq<Option<[u8; 32]>>,
    full: Seq<Option<[u8; 32]>>,
    same_folder_only: bool,
    g: int,
    a: int,
    h: int,
    b: int,
)
    requires
        forall|i: int, j: int|
            0 <= i < j < files.len() ==> !paths::same_path(
                (#[trigger] files[i]).path@,
                (#[trigger] files[j]).path@,
            ),
        0 <= g < scan_result(files, partial, full, same_folder_only).len(),
        0 <= a < scan_result(files, partial, full, same_folder_only)[g].1.len(),
        0 <= h < scan_result(files, partial, full, same_folder_only).len(),
        0 <= b < scan_result(files, partial, full, same_folder_only)[h].1.len(),
        g != h || a != b,
    ensures
        ({
            let groups = scan_result(files, partial, full, same_folder_only);
            !paths::same_path(groups[g].1[a].path@, groups[h].1[b].path@)
        }),
{
    let lists = final_lists(files, partial, full);
    let groups = scan_result(files, partial, full, same_folder_only);
    assert(files.no_duplicates()) by {
        assert forall|i: int, j: int|
            0 <= i < files.len() && 0 <= j < files.len() && i != j implies files[i]
            != files[j] by {
            if i < j {
                assert(!paths::same_path(files[i].path@, files[j].path@));
            } else {
                assert(!paths::same_path(files[j].path@, files[i].path@));
            }
        }
    }
    lemma_final_lists_apart(files, partial, full);
    assert(lists_below(lists, files.len() as int)) by {
        assert forall|x: int, y: int| 0 <= x < lists.len() && 0 <= y < lists[x].len() implies 0
            <= #[trigger] lists[x][y] < files.len() by {
            lemma_final_list(files, partial, full, x);
        }
    }
    lemma_confirmed_apart(files, lists, full, same_folder_only);
    assert(members_of(groups)[g][a] != members_of(groups)[h][b]);
    law_shown_groups_are_duplicates(files, partial, full, same_folder_only, g);
    law_shown_groups_are_duplicates(files, partial, full, same_folder_only, h);
    assert(has_hash(files, full, groups[g].1[a], groups[g].0));
    assert(has_hash(files, full, groups[h].1[b], groups[h].0));
    let i = choose|i: int|
        0 <= i < files.len() && #[trigger] files[i] == groups[g].1[a] && hash_at(full, i) == Some(
            groups[g].0,
        );
    let j = choose|j: int|
        0 <= j < files.len() && #[trigger] files[j] == groups[h].1[b] && hash_at(full, j) == Some(
            groups[h].0,
        );
    if i < j {
        assert(!paths::same_path(files[i].path@, files[j].path@));
    } else {
        assert(!paths::same_path(files[j].path@, files[i].path@));
    }
}

/// The positions of the files that share size and extension with another.
pub fn find_size_candidates(files: &Vec<FileEntry>) -> (r: Vec<Vec<usize>>)
    ensures
        grouping::position_lists(r@) == size_candidates(files@),
        lists_below(grouping::position_lists(r@), files@.len() as int),
{
    let lists = group::size_positions(files);
    let ghost all = grouping::position_lists(lists@);
    let n: usize = lists.len();
    let mut out: Vec<Vec<usize>> = Vec::new();
    for list in it: lists
        invariant
            it.seq() == lists@,
            all == grouping::position_lists(lists@),
            grouping::position_lists(out@) =~= group::several(all.take(it.index())),
    {
        assert(all.take(it.index() + 1).drop_last() =~= all.take(it.index()));
        assert(all[it.index()] == sorting::positions(list@));
        if list.len() > 1 {
            let ghost before = grouping::position_lists(out@);
            out.push(list);
            assert(grouping::position_lists(out@) =~= before.push(sorting::positions(list@)));
        }
    }
    assert(all.take(all.len() as int) =~= all);
    proof {
        let le = group::size_ranking(files@);
        group::lemma_size_ranking(files@);
        grouping::lemma_classes(files@.len(), le);
        let c = group::size_classes(files@);
        lemma_several(c);
        let s = size_candidates(files@);
        assert forall|g: int, a: int| 0 <= g < s.len() && 0 <= a < s[g].len() implies 0
            <= #[trigger] s[g][a] < files@.len() by {
            assert(c.contains(s[g]));
            let h = choose|h: int| 0 <= h < c.len() && c[h] == s[g];
            assert(0 <= c[h][a] < files@.len());
        }
    }
    out
}

/// Divides one group by hash.
fn narrow_group(list: &Vec<usize>, hashes: &Vec<Option<[u8; 32]>>) -> (r: Vec<Vec<usize>>)
    requires
        forall|a: int| 0 <= a < list@.len() ==> #[trigger] list@[a] < hashes@.len(),
    ensures
        grouping::position_lists(r@) == narrowed(sorting::positions(list@), hashes@),
{
    let ghost pos = sorting::positions(list@);
    let mut known: Vec<usize> = Vec::new();
    let mut i: usize = 0;
    while i < list.len()
        invariant
            i <= list@.len(),
            pos == sorting::positions(list@),
            forall|a: int| 0 <= a < list@.len() ==> #[trigger] list@[a] < hashes@.len(),
            sorting::positions(known@) =~= with_hash(pos.take(i as int), hashes@),
            forall|a: int|
                0 <= a < known@.len() ==> #[trigger] known@[a] < hashes@.len()
                    && hashes@[known@[a] as int] is Some,
        decreases list@.len() - i,
    {
        let p: usize = list[i];
        assert(pos[i as int] == p);
        assert(pos.take(i + 1).drop_last() =~= pos.take(i as int));
        if hashes[p].is_some() {
            known.push(p);
        }
        i = i + 1;
    }
    assert(pos.take(pos.len() as int) =~= pos);
    let ghost k = with_hash(pos, hashes@);
    let n: usize = known.len();
    let ghost le = hash_ranking(k, hashes@);
    proof {
        lemma_hash_ranking(k, hashes@);
    }
    let not_above = |i: usize, j: usize| -> (b: bool)
        requires
            i < n,
            j < n,
            n == known@.len(),
            forall|a: int|
                0 <= a < known@.len() ==> #[trigger] known@[a] < hashes@.len()
                    && hashes@[known@[a] as int] is Some,
        ensures
            b == grouping::bytes_le(
                hash_at(hashes@, sorting::positions(known@)[i as int])->0,
                hash_at(hashes@, sorting::positions(known@)[j as int])->0,
            ),
        {
            assert(known@[i as int] < hashes@.len() && known@[j as int] < hashes@.len());
            match (hashes[known[i]], hashes[known[j]]) {
                (Some(x), Some(y)) => grouping::is_bytes_le(x.as_slice(), y.as_slice()),
                _ => true,
            }
        };
    let lists = grouping::group_positions(n, not_above, Ghost(le));
    let ghost all = group::pick_lists(k, grouping::position_lists(lists@));
    let mut out: Vec<Vec<usize>> = Vec::new();
    let mut g: usize = 0;
    while g < lists.len()
        invariant
            g <= lists@.len(),
            n == known@.len(),
            k == sorting::positions(known@),
            all == group::pick_lists(k, grouping::position_lists(lists@)),
            forall|h: int, a: int|
                0 <= h < lists@.len() && 0 <= a < lists@[h]@.len() ==> #[trigger] lists@[h]@[a]
                    < n,
            grouping::position_lists(out@) =~= group::several(all.take(g as int)),
        decreases lists@.len() - g,
    {
        assert(all.take(g + 1).drop_last() =~= all.take(g as int));
        let ghost want = sorting::pick(k, sorting::positions(lists@[g as int]@));
        assert(all[g as int] == want);
        if lists[g].len() > 1 {
            let mut part: Vec<usize> = Vec::new();
            let mut a: usize = 0;
            while a < lists[g].len()
                invariant
                    g < lists@.len(),
                    a <= lists@[g as int]@.len(),
                    n == known@.len(),
                    k == sorting::positions(known@),
                    want == sorting::pick(k, sorting::positions(lists@[g as int]@)),
                    forall|h: int, a: int|
                        0 <= h < lists@.len() && 0 <= a < lists@[h]@.len()
                            ==> #[trigger] lists@[h]@[a] < n,
                    sorting::positions(part@) =~= want.take(a as int),
                decreases lists@[g as int]@.len() - a,
            {
                assert(lists@[g as int]@[a as int] < n);
                let x: usize = known[lists[g][a]];
                let ghost before = sorting::positions(part@);
                part.push(x);
                assert(want[a as int] == x);
                assert(sorting::positions(part@) =~= before.push(x as int));
                a = a + 1;
            }
            assert(want.take(want.len() as int) =~= want);
            let ghost before = grouping::position_lists(out@);
            out.push(part);
            assert(grouping::position_lists(out@) =~= before.push(want));
        }
        g = g + 1;
    }
    assert(all.take(all.len() as int) =~= all);
    out
}

/// Divides the groups by the hashes of their files: what is left together
/// shares its hash.
pub fn narrow_groups(groups: &Vec<Vec<usize>>, hashes: &Vec<Option<[u8; 32]>>) -> (r: Vec<
    Vec<usize>,
>)
    requires
        lists_below(grouping::position_lists(groups@), hashes@.len() as int),
    ensures
        grouping::position_lists(r@) == all_narrowed(
            grouping::position_lists(groups@),
            hashes@,
        ),
        lists_below(grouping::position_lists(r@), hashes@.len() as int),
{
    let ghost all = grouping::position_lists(groups@);
    let mut out: Vec<Vec<usize>> = Vec::new();
    let mut g: usize = 0;
    while g < groups.len()
        invariant
            g <= groups@.len(),
            all == grouping::position_lists(groups@),
            lists_below(all, hashes@.len() as int),
            grouping::position_lists(out@) =~= all_narrowed(all.take(g as int), hashes@),
        decreases groups@.len() - g,
    {
        assert(all.take(g + 1).drop_last() =~= all.take(g as int));
        assert(all[g as int] == sorting::positions(groups@[g as int]@));
        assert forall|a: int| 0 <= a < groups@[g as int]@.len() implies #[trigger] groups@[g as int]@[a]
            < hashes@.len() by {
            assert(all[g as int][a] == groups@[g as int]@[a]);
        }
        let mut parts = narrow_group(&groups[g], hashes);
        let ghost before = out@;
        let ghost own = parts@;
        out.append(&mut parts);
        assert(grouping::position_lists(out@) =~= grouping::position_lists(before)
            + grouping::position_lists(own));
        g = g + 1;
    }
    assert(all.take(all.len() as int) =~= all);
    proof {
        lemma_all_narrowed_below(all, hashes@, hashes@.len() as int);
    }
    out
}

/// Makes the duplicate groups of the files that share their full hash: the
/// "original" first in each, and folder by folder if only files in the same
/// folder count.
pub fn confirm_groups(
    files: &Vec<FileEntry>,
    groups: &Vec<Vec<usize>>,
    full: &Vec<Option<[u8; 32]>>,
    same_folder_only: bool,
) -> (r: Vec<DupeGroup>)
    requires
        full@.len() == files@.len(),
        lists_below(grouping::position_lists(groups@), files@.len() as int),
        forall|g: int| 0 <= g < groups@.len() ==> (#[trigger] groups@[g])@.len() > 0,
        forall|g: int|
            0 <= g < groups@.len() ==> full@[(#[trigger] groups@[g])@[0] as int] is Some,
    ensures
        group_views(r@) == confirmed(
            files@,
            grouping::position_lists(groups@),
            full@,
            same_folder_only,
        ),
{
    let ghost all = grouping::position_lists(groups@);
    let mut out: Vec<DupeGroup> = Vec::new();
    let mut g: usize = 0;
    while g < groups.len()
        invariant
            g <= groups@.len(),
            full@.len() == files@.len(),
            all == grouping::position_lists(groups@),
            lists_below(all, files@.len() as int),
            forall|g: int| 0 <= g < groups@.len() ==> (#[trigger] groups@[g])@.len() > 0,
            forall|g: int|
                0 <= g < groups@.len() ==> full@[(#[trigger] groups@[g])@[0] as int] is Some,
            group_views(out@) =~= confirmed(files@, all.take(g as int), full@, same_folder_only),
        decreases groups@.len() - g,
    {
        assert(all.take(g + 1).drop_last() =~= all.take(g as int));
        let ghost list = all[g as int];
        assert(list == sorting::positions(groups@[g as int]@));
        assert forall|a: int| 0 <= a < groups@[g as int]@.len() implies #[trigger] groups@[g as int]@[a]
            < files@.len() by {
            assert(list[a] == groups@[g as int]@[a]);
        }
        let first: usize = groups[g][0];
        assert(list[0] == first);
        let hash: [u8; 32] = full[first].unwrap();
        let found = group::pick_files(files, &groups[g]);
        let ghost picked = found@;
        let lists: Vec<Vec<FileEntry>> = if same_folder_only {
            group::split_by_parent(found)
        } else {
            let mut one: Vec<Vec<FileEntry>> = Vec::new();
            one.push(found);
            assert(model::nested(one@) =~= seq![picked]);
            one
        };
        let ghost before = group_views(out@);
        let ghost parts = model::nested(lists@);
        let ghost made = confirmed_files(files@, list, same_folder_only).map_values(
            |l: Seq<FileEntry>| (hash_at(full@, list[0])->0, l),
        );
        assert(made.len() == parts.len());
        assert(before + made.take(0) =~= before);
        for l in it: lists
            invariant
                it.seq() == lists@,
                parts == model::nested(lists@),
                made.len() == parts.len(),
                forall|a: int|
                    0 <= a < parts.len() ==> #[trigger] made[a] == (
                        hash@,
                        group::original_first(parts[a]),
                    ),
                group_views(out@) =~= before + made.take(it.index()),
        {
            let ghost done = group_views(out@);
            let mut l: Vec<FileEntry> = l;
            assert(parts[it.index()] == l@);
            group::sort_group_original(&mut l);
            let made_group = DupeGroup { hash, files: l };
            out.push(made_group);
            assert(made[it.index()] == (hash@, l@));
            assert(group_views(out@) =~= done.push((hash@, l@)));
            assert(made.take(it.index() + 1) =~= made.take(it.index()).push(made[it.index()]));
        }
        assert(made.take(made.len() as int) =~= made);
        g = g + 1;
    }
    assert(all.take(all.len() as int) =~= all);
    out
}

/// The duplicate groups among the files, given what is known of their partial
/// and full hashes.
pub fn run_scan(
    files: &Vec<FileEntry>,
    partial: &Vec<Option<[u8; 32]>>,
    full: &Vec<Option<[u8; 32]>>,
    same_folder_only: bool,
) -> (r: Vec<DupeGroup>)
    requires
        partial@.len() == files@.len(),
        full@.len() == files@.len(),
    ensures
        group_views(r@) == scan_result(files@, partial@, full@, same_folder_only),
{
    let sized = find_size_candidates(files);
    let mid = narrow_groups(&sized, partial);
    let last = narrow_groups(&mid, full);
    let ghost lists = grouping::position_lists(last@);
    assert forall|g: int| 0 <= g < last@.len() implies (#[trigger] last@[g])@.len() > 0
        && full@[last@[g]@[0] as int] is Some by {
        lemma_final_list(files@, partial@, full@, g);
        assert(lists[g] == sorting::positions(last@[g]@));
        assert(lists[g][0] == last@[g]@[0]);
        assert(hash_at(full@, lists[g][0]) is Some);
    }
    confirm_groups(files, &last, full, same_folder_only)
}

/// The size of the files at the listed positions together.
pub open spec fn bytes_of(files: Seq<FileEntry>, list: Seq<int>) -> nat
    decreases list.len(),
{
    if list.len() == 0 {
        0
    } else {
        bytes_of(files, list.drop_last()) + files[list.last()].size as nat
    }
}

/// The size of the files in all the groups together.
pub open spec fn all_bytes(files: Seq<FileEntry>, groups: Seq<Seq<int>>) -> nat
    decreases groups.len(),
{
    if groups.len() == 0 {
        0
    } else {
        all_bytes(files, groups.drop_last()) + bytes_of(files, groups.last())
    }
}

/// `n`, or the largest value there is.
pub open spec fn capped(n: nat) -> u64 {
    if n <= u64::MAX {
        n as u64
    } else {
        u64::MAX
    }
}

/// How many bytes a full-hash pass over the groups has to read.
pub fn bytes_to_hash(files: &Vec<FileEntry>, groups: &Vec<Vec<usize>>) -> (r: u64)
    requires
        lists_below(grouping::position_lists(groups@), files@.len() as int),
    ensures
        r == capped(all_bytes(files@, grouping::position_lists(groups@))),
{
    let ghost all = grouping::position_lists(groups@);
    let mut sum: u64 = 0;
    let mut g: usize = 0;
    while g < groups.len()
        invariant
            g <= groups@.len(),
            all == grouping::position_lists(groups@),
            lists_below(all, files@.len() as int),
            sum == capped(all_bytes(files@, all.take(g as int))),
        decreases groups@.len() - g,
    {
        assert(all.take(g + 1).drop_last() =~= all.take(g as int));
        let ghost list = all[g as int];
        let ghost before = all_bytes(files@, all.take(g as int));
        assert(list == sorting::positions(groups@[g as int]@));
        let mut a: usize = 0;
        while a < groups[g].len()
            invariant
                g < groups@.len(),
                a <= groups@[g as int]@.len(),
                all == grouping::position_lists(groups@),
                lists_below(all, files@.len() as int),
                list == all[g as int],
                list == sorting::positions(groups@[g as int]@),
                sum == capped(before + bytes_of(files@, list.take(a as int))),
            decreases groups@[g as int]@.len() - a,
        {
            assert(list.take(a + 1).drop_last() =~= list.take(a as int));
            let p: usize = groups[g][a];
            assert(all[g as int][a as int] == p);
            sum = sum.saturating_add(files[p].size);
            a = a + 1;
        }
        assert(list.take(list.len() as int) =~= list);
        g = g + 1;
    }
    assert(all.take(all.len() as int) =~= all);
    sum
}

/// How many bytes have to be hashed between two progress reports.
pub open spec fn report_step(total_bytes: u64) -> u64 {
    if total_bytes / 200 > 4_194_304 {
        total_bytes / 200
    } else {
        4_194_304
    }
}

/// Computes [`report_step`].
pub fn report_threshold(total_bytes: u64) -> (r: u64)
    ensures
        r == report_step(total_bytes),
{
    if total_bytes / 200 > 4_194_304 {
        total_bytes / 200
    } else {
        4_194_304
    }
}

/// Counts the bytes that a hashing pass has read, and says what to report.
#[derive(Clone, Copy, Debug, PartialEq, Eq, Structural)]
pub struct HashTally {
    pub total: u64,
    pub done: u64,
    pub reported: u64,
}

impl HashTally {
    /// The pass begins.
    pub fn start(total: u64) -> (r: (Self, ScanEvent))
        ensures
            r.0 == (HashTally { total, done: 0, reported: 0 }),
            r.1 == (ScanEvent::HashPhaseStarted { total_bytes: total }),
    {
        (
            HashTally { total, done: 0, reported: 0 },
            ScanEvent::HashPhaseStarted { total_bytes: total },
        )
    }

    /// Another file has been hashed. That is reported only now and then, so a
    /// fast pass doesn't flood the window.
    pub fn count(&mut self, size: u64) -> (r: Option<ScanEvent>)
        ensures
            final(self).total == old(self).total,
            final(self).done == control::capped_add(old(self).done, size),
            ({
                let due = final(self).done >= old(self).reported + report_step(old(self).total);
                &&& final(self).reported == (if due {
                    final(self).done
                } else {
                    old(self).reported
                })
                &&& r == (if due {
                    Some(ScanEvent::HashProgress { bytes_done: final(self).done })
                } else {
                    None
                })
            }),
    {
        self.done = self.done.saturating_add(size);
        if self.done.saturating_sub(self.reported) >= report_threshold(self.total) {
            self.reported = self.done;
            Some(ScanEvent::HashProgress { bytes_done: self.done })
        } else {
            None
        }
    }

    /// The pass ends.
    pub fn finish(&self) -> (r: Option<ScanEvent>)
        ensures
            r == (if self.total > 0 {
                Some(ScanEvent::HashProgress { bytes_done: self.total })
            } else {
                None
            }),
    {
        if self.total > 0 {
            Some(ScanEvent::HashProgress { bytes_done: self.total })
        } else {
            None
        }
    }
}

} // verus!
