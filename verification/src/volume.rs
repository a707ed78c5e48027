//! Drives and their labels.

use crate::paths::{self, PartKind};
use crate::text;
use vstd::prelude::*;
use vstd::slice::slice_subrange;

verus! {

/// Identity of the drive a reverse-search index entry was captured from: the
/// drive letter it was mounted as at index time (e.g. `"D:"`) and its Windows
/// volume label (e.g. `"500GB-5"`). Both are persisted rather than just the
/// full path, since a drive letter can be reassigned across reboots but the
/// label travels with the physical drive.
#[derive(Debug, PartialEq, Eq)]
pub struct VolumeInfo {
    pub drive_letter: String,
    pub label: String,
}

impl Clone for VolumeInfo {
    fn clone(&self) -> (r: Self)
        ensures
            r == *self,
    {
        VolumeInfo { drive_letter: self.drive_letter.clone(), label: self.label.clone() }
    }
}

/// How much room a drive has, in bytes.
#[derive(Clone, Copy, Debug, PartialEq, Eq, Structural)]
pub struct DiskSpace {
    pub free: u64,
    pub total: u64,
    /// The size of one cluster, the unit in which the drive hands out space.
    pub cluster: u64,
}

/// A text without the separators at its end.
pub open spec fn trim_separators(s: Seq<char>) -> Seq<char>
    decreases s.len(),
{
    if s.len() > 0 && paths::is_separator(s.last()) {
        trim_separators(s.drop_last())
    } else {
        s
    }
}

/// The drive that a path begins with, nothing if it begins with none. What
/// stands before the root in paths that are taken as they are written, and in
/// those of devices, counts as one; shares don't.
pub open spec fn drive_letter(path: Seq<char>) -> Seq<char> {
    match paths::prefix_kind(path) {
        Some(PartKind::Share) | Some(PartKind::VerbatimShare) | None => seq![],
        Some(_) => trim_separators(path.take(paths::prefix_end(path))),
    }
}

/// The drive-letter component of `path` (e.g. `"D:"` for `"D:\Photos\a.jpg"`,
/// or `"\\?\D:"` for `"\\?\D:\Photos\a.jpg"`), or an empty string for paths with
/// none (UNC paths, relative paths). A pure string operation (no filesystem or
/// OS calls), so it's cheap enough to call per file during a scan.
pub fn drive_letter_of(path: &str) -> (r: String)
    ensures
        r@ == drive_letter(path@),
{
    let cs = text::to_chars(path);
    let (kind, p): (Option<PartKind>, usize) = paths::find_prefix(cs.as_slice());
    proof {
        paths::lemma_prefix_end(cs@);
    }
    match kind {
        Some(PartKind::Share) | Some(PartKind::VerbatimShare) | None => String::new(),
        Some(_) => {
            let mut end: usize = p;
            while end > 0 && (cs[end - 1] == '\\' || cs[end - 1] == '/')
                invariant
                    end <= p <= cs@.len(),
                    trim_separators(cs@.take(p as int)) == trim_separators(cs@.take(end as int)),
                decreases end,
            {
                assert(cs@.take(end as int).drop_last() =~= cs@.take(end - 1));
                assert(cs@.take(end as int).last() == cs@[end - 1]);
                end = end - 1;
            }
            assert(end > 0 ==> cs@.take(end as int).last() == cs@[end - 1]);
            let d = slice_subrange(cs.as_slice(), 0, end);
            assert(d@ =~= cs@.take(end as int));
            text::from_chars(d)
        },
    }
}

/// The volume of a drive, given the label that the system reports for it: the
/// drive letter itself stands in if the volume is unlabeled or the lookup
/// failed (e.g. the drive isn't ready).
pub fn volume_info(drive_letter: &str, label: Option<String>) -> (r: VolumeInfo)
    ensures
        r.drive_letter@ == drive_letter@,
        r.label@ == (match label {
            Some(l) => if l@.len() > 0 {
                l@
            } else {
                drive_letter@
            },
            None => drive_letter@,
        }),
{
    let own: String = match label {
        Some(l) => if l.as_str().is_empty() {
            drive_letter.to_owned()
        } else {
            l
        },
        None => drive_letter.to_owned(),
    };
    VolumeInfo { drive_letter: drive_letter.to_owned(), label: own }
}

/// The root of a drive.
pub fn drive_root(drive_letter: &str) -> (r: String)
    ensures
        r@ == drive_letter@.push('\\'),
{
    let mut root: String = drive_letter.to_owned();
    root.push('\\');
    root
}

/// A path without the drive it lies on.
pub open spec fn path_on_drive(path: Seq<char>) -> Seq<char> {
    match paths::relative_to(path, drive_letter(path).push('\\')) {
        Some(rel) => rel,
        None => path,
    }
}

/// Computes [`path_on_drive`].
pub fn rel_path_of(path: &str) -> (r: String)
    ensures
        r@ == path_on_drive(path@),
{
    let root = drive_root(drive_letter_of(path).as_str());
    match paths::strip_base(path, root.as_str()) {
        Some(rel) => rel,
        None => path.to_owned(),
    }
}

/// Whether what leads to a path from the root of its drive can be read without
/// the drive. It must not read like a drive of its own. The drive must have a
/// name. Where the path is taken as it is written, it must go on behind the
/// drive, with no slash in a name, and neither `.` nor `..` among the parts.
pub open spec fn is_readable_on_drive(path: Seq<char>) -> bool {
    &&& !paths::has_drive(path_on_drive(path))
    &&& paths::is_verbatim(path) || paths::is_device(path) ==> paths::prefix_end(path) > 4
    &&& paths::is_verbatim(path) ==> {
        &&& paths::is_rooted(path)
        &&& path[paths::prefix_end(path) - 1] != '/'
        &&& paths::reads_alike(path, paths::body_start(path))
        &&& paths::has_only_names(path_on_drive(path))
    }
}

/// The root of a drive begins like the paths on it, and ends with its root.
proof fn lemma_drive_root(path: Seq<char>)
    requires
        paths::prefix_kind(path) is Some || paths::is_rooted(path),
        is_readable_on_drive(path),
    ensures
        ({
            let root = drive_letter(path).push('\\');
            &&& paths::holds_names(root)
            &&& paths::is_verbatim(root) ==> paths::is_verbatim(path)
            &&& paths::path_parts(root).len() > 0
            &&& paths::path_parts(root).last().0 == PartKind::Root
        }),
{
    let root = drive_letter(path).push('\\');
    let p = paths::prefix_end(path);
    paths::lemma_prefix_end(path);
    match paths::prefix_kind(path) {
        Some(PartKind::Share) | Some(PartKind::VerbatimShare) | None => {
            assert(root =~= seq!['\\']);
        },
        Some(_) => {
            let head = path.take(p);
            paths::lemma_prefix_tidy(path);
            assert(head.last() == path[p - 1]);
            assert(drive_letter(path) == head);
            assert(root.take(p) =~= head);
            paths::lemma_prefix_rooted(path, root);
        },
    }
    paths::lemma_prefix_end(root);
    assert(paths::names_start(root) == root.len());
    assert(paths::parts_from(root, root.len() as int, paths::is_verbatim(root)) =~= seq![]);
    assert(paths::path_parts(root) =~= paths::leading_parts(root));
}

/// An indexed path comes back: the root of its drive and its place on the
/// drive make up the path again. It must not be relative, and its place must be
/// readable without the drive, see [`is_readable_on_drive`].
pub proof fn law_paths_come_back(path: Seq<char>)
    requires
        paths::prefix_kind(path) is Some || paths::is_rooted(path),
        path_on_drive(path) == path || is_readable_on_drive(path),
    ensures
        paths::same_path(
            paths::join(drive_letter(path).push('\\'), path_on_drive(path)),
            path,
        ),
{
    let root = drive_letter(path).push('\\');
    let rel = path_on_drive(path);
    if rel == path {
        if paths::prefix_kind(path) is None {
            assert(root =~= seq!['\\']);
            assert(root.take(0) + path =~= path);
        }
    } else {
        lemma_drive_root(path);
        paths::lemma_prefix_end(path);
        if rel.len() == 0 {
            assert(paths::join(root, rel) =~= root);
            paths::lemma_relative_nothing(path, root);
            paths::lemma_join_nothing(root, rel);
        } else {
            let n = paths::path_parts(root).len() as int;
            let b = paths::body_start(path);
            paths::lemma_relative_keys(path, root);
            assert(paths::path_parts(path)[n - 1].0 == PartKind::Root);
            paths::lemma_root_is_last(path, n - 1);
            assert(n < paths::path_parts(path).len());
            paths::lemma_alike_from_first(path);
            paths::lemma_tail_is_below(path, n);
            paths::lemma_relative_id(path, root);
            paths::lemma_join_id(root, rel);
        }
    }
}

/// A path with a drive letter lies on that drive, whatever follows; one that begins
/// with neither a drive letter nor two separators lies on none.
pub proof fn law_drives_are_told_by_their_letter(path: Seq<char>)
    ensures
        path.len() >= 2 && ('a' <= path[0] <= 'z' || 'A' <= path[0] <= 'Z') && path[1] == ':'
            ==> drive_letter(path) == path.take(2),
        path.len() >= 2 && path[0] != '\\' && path[0] != '/' && path[1] != ':' ==> drive_letter(
            path,
        ).len() == 0,
        path.len() < 2 ==> drive_letter(path).len() == 0,
{
    if path.len() >= 2 && path[1] == ':' {
        assert(path.take(2).last() == ':');
    }
}

/// The name of a drive has no separator at its end.
pub proof fn law_drive_names_end_without_separator(s: Seq<char>, c: char)
    ensures
        trim_separators(s.push('\\')) == trim_separators(s),
        trim_separators(s.push('/')) == trim_separators(s),
        c != '\\' && c != '/' ==> trim_separators(s.push(c)) == s.push(c),
        trim_separators(Seq::<char>::empty()).len() == 0,
{
    assert(s.push('\\').drop_last() =~= s);
    assert(s.push('/').drop_last() =~= s);
}

} // verus!
