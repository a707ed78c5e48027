//! Which files of the results are shown.

use crate::model::{self, DupeGroup, FileEntry, MediaEntry, SimilarGroup};
use crate::namematch;
use crate::paths;
use vstd::prelude::*;

verus! {

/// The values behind the references.
pub open spec fn targets<T>(s: Seq<&T>) -> Seq<T> {
    s.map_values(|x: &T| *x)
}

/// The visible files of one group: all of them, or all but the original.
pub open spec fn visible_in<T>(files: Seq<T>, only_show_duplicates: bool) -> Seq<T> {
    if only_show_duplicates {
        files.skip(1)
    } else {
        files
    }
}

/// The visible files of the groups, group by group.
pub open spec fn visible<T>(lists: Seq<Seq<T>>, only_show_duplicates: bool) -> Seq<T>
    decreases lists.len(),
{
    if lists.len() == 0 {
        seq![]
    } else {
        visible(lists.drop_last(), only_show_duplicates) + visible_in(
            lists.last(),
            only_show_duplicates,
        )
    }
}

/// Single source of truth for which files are currently "visible" given the
/// `only_show_duplicates` filter (which hides each group's original at index 0).
/// Shared by row rendering, Ctrl+A, and the status bar's "Shown" total so they
/// never disagree with each other.
pub fn compute_visible_entries<'a>(
    groups: &Vec<&'a DupeGroup>,
    only_show_duplicates: bool,
) -> (r: Vec<&'a FileEntry>)
    requires
        only_show_duplicates ==> forall|g: int|
            0 <= g < groups@.len() ==> (#[trigger] groups@[g]).files@.len() > 0,
    ensures
        targets(r@) == visible(model::file_lists(targets(groups@)), only_show_duplicates),
{
    let ghost all = model::file_lists(targets(groups@));
    let mut out: Vec<&'a FileEntry> = Vec::new();
    let mut g: usize = 0;
    while g < groups.len()
        invariant
            g <= groups@.len(),
            all == model::file_lists(targets(groups@)),
            only_show_duplicates ==> forall|g: int|
                0 <= g < groups@.len() ==> (#[trigger] groups@[g]).files@.len() > 0,
            targets(out@) =~= visible(all.take(g as int), only_show_duplicates),
        decreases groups@.len() - g,
    {
        assert(all.take(g + 1).drop_last() =~= all.take(g as int));
        let group: &'a DupeGroup = groups[g];
        assert(all[g as int] == group.files@);
        let ghost before = targets(out@);
        let ghost own = visible_in(group.files@, only_show_duplicates);
        let first: usize = if only_show_duplicates {
            assert(groups@[g as int].files@.len() > 0);
            1
        } else {
            0
        };
        let mut i: usize = first;
        assert(before + own.take(0) =~= before);
        while i < group.files.len()
            invariant
                first <= i <= group.files@.len(),
                first == (if only_show_duplicates {
                    1int
                } else {
                    0
                }),
                own == visible_in(group.files@, only_show_duplicates),
                targets(out@) =~= before + own.take(i - first),
            decreases group.files@.len() - i,
        {
            assert(own.take(i + 1 - first) =~= own.take(i - first).push(group.files@[i as int]));
            let ghost shown = out@;
            out.push(&group.files[i]);
            assert(targets(out@) =~= targets(shown).push(group.files@[i as int]));
            i = i + 1;
        }
        assert(own.take(own.len() as int) =~= own);
        g = g + 1;
    }
    assert(all.take(all.len() as int) =~= all);
    out
}

/// Same idea as `compute_visible_entries`, for `ScanMode::SimilarMedia`
/// results (`SimilarGroup`/`MediaEntry` instead of `DupeGroup`/`FileEntry`).
pub fn compute_visible_media_entries<'a>(
    groups: &Vec<&'a SimilarGroup>,
    only_show_duplicates: bool,
) -> (r: Vec<&'a MediaEntry>)
    requires
        only_show_duplicates ==> forall|g: int|
            0 <= g < groups@.len() ==> (#[trigger] groups@[g]).files@.len() > 0,
    ensures
        targets(r@) == visible(model::media_lists(targets(groups@)), only_show_duplicates),
{
    let ghost all = model::media_lists(targets(groups@));
    let mut out: Vec<&'a MediaEntry> = Vec::new();
    let mut g: usize = 0;
    while g < groups.len()
        invariant
            g <= groups@.len(),
            all == model::media_lists(targets(groups@)),
            only_show_duplicates ==> forall|g: int|
                0 <= g < groups@.len() ==> (#[trigger] groups@[g]).files@.len() > 0,
            targets(out@) =~= visible(all.take(g as int), only_show_duplicates),
        decreases groups@.len() - g,
    {
        assert(all.take(g + 1).drop_last() =~= all.take(g as int));
        let group: &'a SimilarGroup = groups[g];
        assert(all[g as int] == group.files@);
        let ghost before = targets(out@);
        let ghost own = visible_in(group.files@, only_show_duplicates);
        let first: usize = if only_show_duplicates {
            assert(groups@[g as int].files@.len() > 0);
            1
        } else {
            0
        };
        let mut i: usize = first;
        assert(before + own.take(0) =~= before);
        while i < group.files.len()
            invariant
                first <= i <= group.files@.len(),
                first == (if only_show_duplicates {
                    1int
                } else {
                    0
                }),
                own == visible_in(group.files@, only_show_duplicates),
                targets(out@) =~= before + own.take(i - first),
            decreases group.files@.len() - i,
        {
            assert(own.take(i + 1 - first) =~= own.take(i - first).push(group.files@[i as int]));
            let ghost shown = out@;
            out.push(&group.files[i]);
            assert(targets(out@) =~= targets(shown).push(group.files@[i as int]));
            i = i + 1;
        }
        assert(own.take(own.len() as int) =~= own);
        g = g + 1;
    }
    assert(all.take(all.len() as int) =~= all);
    out
}

/// What is shown of the groups, one after the other: every file, or every file
/// but the first of its group.
pub proof fn law_only_originals_are_hidden<T>(lists: Seq<Seq<T>>, l: Seq<T>, g: int, a: int)
    ensures
        visible(Seq::<Seq<T>>::empty(), true).len() == 0,
        visible(Seq::<Seq<T>>::empty(), false).len() == 0,
        visible(lists.push(l), false) == visible(lists, false) + l,
        visible(lists.push(l), true) == visible(lists, true) + l.skip(1),
        0 <= g < lists.len() && 0 <= a < lists[g].len() ==> visible(lists, false).contains(
            lists[g][a],
        ),
        0 <= g < lists.len() && 0 < a < lists[g].len() ==> visible(lists, true).contains(
            lists[g][a],
        ),
    decreases lists.len(),
{
    assert(lists.push(l).drop_last() =~= lists);
    if lists.len() > 0 {
        let t = lists.drop_last();
        let last = lists.last();
        assert(t.push(last) =~= lists);
        law_only_originals_are_hidden(t, last, g, a);
        if 0 <= g < t.len() && 0 <= a < lists[g].len() {
            let x = lists[g][a];
            let k = choose|k: int| 0 <= k < visible(t, false).len() && visible(t, false)[k] == x;
            assert(visible(lists, false)[k] == x);
            if a > 0 {
                let k = choose|k: int| 0 <= k < visible(t, true).len() && visible(t, true)[k] == x;
                assert(visible(lists, true)[k] == x);
            }
        } else if g == t.len() && 0 <= a < lists[g].len() {
            assert(visible(lists, false)[visible(t, false).len() + a] == lists[g][a]);
            if a > 0 {
                assert(visible(lists, true)[visible(t, true).len() + a - 1] == lists[g][a]);
            }
        }
    }
}

/// The file name without its extension, nothing where there is none.
pub open spec fn stem(f: FileEntry) -> Seq<char> {
    match paths::file_stem(f.path@) {
        Some(s) => s,
        None => seq![],
    }
}

fn stem_of(entry: &FileEntry) -> (r: String)
    ensures
        r@ == stem(*entry),
{
    match paths::file_stem_of(entry.path.as_str()) {
        Some(s) => s,
        None => String::new(),
    }
}

/// Whether one of the files behind the first has a name that looks like a copy
/// of the first one's name.
pub open spec fn has_copy_name(files: Seq<FileEntry>) -> bool {
    exists|i: int|
        0 < i < files.len() && namematch::is_copy_name(stem(files[0]), stem(#[trigger] files[i]))
}

/// True if any duplicate in the group has a filename that looks like an
/// OS/user-generated copy of the original's filename (e.g. `"photo (2).jpg"`,
/// `"photo - Kopie.jpg"` next to `"photo.jpg"`).
pub fn group_looks_like_name_copy(group: &DupeGroup) -> (r: bool)
    requires
        group.files@.len() > 0,
    ensures
        r == has_copy_name(group.files@),
{
    let original = stem_of(&group.files[0]);
    let mut i: usize = 1;
    while i < group.files.len()
        invariant
            1 <= i <= group.files@.len(),
            original@ == stem(group.files@[0]),
            forall|k: int|
                0 < k < i ==> !namematch::is_copy_name(
                    stem(group.files@[0]),
                    stem(#[trigger] group.files@[k]),
                ),
        decreases group.files@.len() - i,
    {
        let candidate = stem_of(&group.files[i]);
        if namematch::looks_like_copy(original.as_str(), candidate.as_str()) {
            assert(namematch::is_copy_name(
                stem(group.files@[0]),
                stem(group.files@[i as int]),
            ));
            return true;
        }
        i = i + 1;
    }
    false
}

/// The groups with a copy name among them.
pub open spec fn copy_named(groups: Seq<DupeGroup>) -> Seq<DupeGroup>
    decreases groups.len(),
{
    if groups.len() == 0 {
        seq![]
    } else if has_copy_name(groups.last().files@) {
        copy_named(groups.drop_last()).push(groups.last())
    } else {
        copy_named(groups.drop_last())
    }
}

/// The filter keeps exactly the groups in which a file behind the first is named
/// like a copy of the first, in their order.
pub proof fn law_copy_filter_goes_by_names(groups: Seq<DupeGroup>, g: DupeGroup)
    ensures
        copy_named(Seq::<DupeGroup>::empty()).len() == 0,
        copy_named(groups.push(g)) == (if exists|i: int|
            0 < i < g.files@.len() && namematch::is_copy_name(
                stem(g.files@[0]),
                stem(#[trigger] g.files@[i]),
            ) {
            copy_named(groups).push(g)
        } else {
            copy_named(groups)
        }),
        paths::file_stem(g.files@[0].path@) matches Some(s) ==> stem(g.files@[0]) == s,
        paths::file_stem(g.files@[0].path@) is None ==> stem(g.files@[0]).len() == 0,
{
    assert(groups.push(g).drop_last() =~= groups);
}

/// Narrows `groups` down to those where `group_looks_like_name_copy` holds,
/// when `enabled`; otherwise returns every group unfiltered. Used by both the
/// table and grid views so the "copy-named only" toggle behaves identically.
pub fn filter_by_name_pattern(groups: &[DupeGroup], enabled: bool) -> (r: Vec<&DupeGroup>)
    requires
        enabled ==> forall|g: int|
            0 <= g < groups@.len() ==> (#[trigger] groups@[g]).files@.len() > 0,
    ensures
        targets(r@) == (if enabled {
            copy_named(groups@)
        } else {
            groups@
        }),
{
    let mut out: Vec<&DupeGroup> = Vec::new();
    let mut g: usize = 0;
    while g < groups.len()
        invariant
            g <= groups@.len(),
            enabled ==> forall|g: int|
                0 <= g < groups@.len() ==> (#[trigger] groups@[g]).files@.len() > 0,
            targets(out@) =~= (if enabled {
                copy_named(groups@.take(g as int))
            } else {
                groups@.take(g as int)
            }),
        decreases groups@.len() - g,
    {
        assert(groups@.take(g + 1).drop_last() =~= groups@.take(g as int));
        if !enabled || group_looks_like_name_copy(&groups[g]) {
            out.push(&groups[g]);
        }
        g = g + 1;
    }
    assert(groups@.take(groups@.len() as int) =~= groups@);
    out
}

} // verus!
