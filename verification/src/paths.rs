//! Paths as text.
//!
//! A path is read the way Windows reads it: `\` and `/` both separate its
//! parts, it may begin with a drive (`C:`), a share (`\\server\share`) or a
//! device (`\\.\COM1`), and empty parts and `.` inside it mean nothing. Behind
//! `\\?\` a path is taken as it is written: there, only `\` separates its parts,
//! and `.` is a part like others. Two paths are the same if they have the same
//! parts, see [`path_id`].

use crate::text;
use vstd::prelude::*;
use vstd::slice::slice_subrange;

verus! {

/// What a part of a path is.
#[derive(Clone, Copy, Debug, PartialEq, Eq, Structural)]
pub enum PartKind {
    /// `\\?\pictures`
    Verbatim,
    /// `\\?\UNC\server\share`
    VerbatimShare,
    /// `\\?\C:`
    VerbatimDrive,
    /// `\\.\COM1`
    Device,
    /// `\\server\share`
    Share,
    /// `C:`
    Drive,
    /// The separator that makes a path begin at the root.
    Root,
    /// `.` at the beginning, or in a path that is taken as it is written.
    CurDir,
    /// `..`
    ParentDir,
    /// A name.
    Name,
}

/// Whether `c` separates the parts of a path.
pub open spec fn is_separator(c: char) -> bool {
    c == '\\' || c == '/'
}

/// Whether `c` separates the parts of a path: a slash does not if the path is
/// taken as it is written.
pub open spec fn separates(c: char, verbatim: bool) -> bool {
    c == '\\' || (c == '/' && !verbatim)
}

fn is_sep(c: char) -> (r: bool)
    ensures
        r == is_separator(c),
{
    c == '\\' || c == '/'
}

/// Whether `c` is one of `A` to `Z` or `a` to `z`.
pub open spec fn is_letter(c: char) -> bool {
    'A' <= c <= 'Z' || 'a' <= c <= 'z'
}

/// The first separator at `i` or behind it, or the end.
pub open spec fn next_separator(s: Seq<char>, i: int, verbatim: bool) -> int
    decreases s.len() - i,
{
    if i < 0 || i >= s.len() || separates(s[i], verbatim) {
        i
    } else {
        next_separator(s, i + 1, verbatim)
    }
}

/// Whether a drive stands at `i`.
pub open spec fn has_drive_at(s: Seq<char>, i: int) -> bool {
    s.len() >= i + 2 && is_letter(s[i]) && s[i + 1] == ':'
}

/// Whether the path begins with a drive.
pub open spec fn has_drive(s: Seq<char>) -> bool {
    has_drive_at(s, 0)
}

/// Whether the path is to be taken as it is written.
pub open spec fn is_verbatim(s: Seq<char>) -> bool {
    s.len() >= 4 && s[0] == '\\' && s[1] == '\\' && s[2] == '?' && s[3] == '\\'
}

/// Whether the path is that of a share, taken as it is written.
pub open spec fn is_verbatim_share(s: Seq<char>) -> bool {
    &&& is_verbatim(s)
    &&& s.len() >= 8 && s[4] == 'U' && s[5] == 'N' && s[6] == 'C' && is_separator(s[7])
}

/// Whether the path is one on a drive, taken as it is written.
pub open spec fn is_verbatim_drive(s: Seq<char>) -> bool {
    is_verbatim(s) && has_drive_at(s, 4) && (s.len() == 6 || is_separator(s[6]))
}

/// Whether the path is that of a device.
pub open spec fn is_device(s: Seq<char>) -> bool {
    s.len() >= 4 && is_separator(s[0]) && is_separator(s[1]) && s[2] == '.' && is_separator(s[3])
}

/// Where the share that the path begins with ends, 0 if there is none.
pub open spec fn share_end(s: Seq<char>) -> int {
    if s.len() >= 2 && is_separator(s[0]) && is_separator(s[1]) {
        let a = next_separator(s, 2, false);
        let b = next_separator(s, a + 1, false);
        if 2 < a && a < s.len() && a + 1 < b {
            b
        } else {
            0
        }
    } else {
        0
    }
}

/// Where the share that is taken as it is written ends: behind its name, or
/// else behind that of its server.
pub open spec fn verbatim_share_end(s: Seq<char>) -> int {
    let a = next_separator(s, 8, true);
    let b = next_separator(s, a + 1, true);
    if a < s.len() && a + 1 < b {
        b
    } else {
        a
    }
}

/// What the path begins with before its root and its names.
pub open spec fn prefix_kind(s: Seq<char>) -> Option<PartKind> {
    if is_verbatim_share(s) {
        Some(PartKind::VerbatimShare)
    } else if is_verbatim_drive(s) {
        Some(PartKind::VerbatimDrive)
    } else if is_verbatim(s) {
        Some(PartKind::Verbatim)
    } else if is_device(s) {
        Some(PartKind::Device)
    } else if share_end(s) > 0 {
        Some(PartKind::Share)
    } else if has_drive(s) {
        Some(PartKind::Drive)
    } else {
        None
    }
}

/// Where the drive, share or the like that the path begins with ends.
pub open spec fn prefix_end(s: Seq<char>) -> int {
    match prefix_kind(s) {
        Some(PartKind::VerbatimShare) => verbatim_share_end(s),
        Some(PartKind::VerbatimDrive) => 6,
        Some(PartKind::Verbatim) => next_separator(s, 4, true),
        Some(PartKind::Device) => next_separator(s, 4, false),
        Some(PartKind::Share) => share_end(s),
        Some(PartKind::Drive) => 2,
        _ => 0,
    }
}

/// Whether a separator follows the prefix.
pub open spec fn has_root_separator(s: Seq<char>) -> bool {
    prefix_end(s) < s.len() && is_separator(s[prefix_end(s)])
}

/// Whether the path begins at a root. A share and a device have one in any
/// case.
pub open spec fn is_rooted(s: Seq<char>) -> bool {
    has_root_separator(s) || prefix_kind(s) == Some(PartKind::Share) || prefix_kind(s) == Some(
        PartKind::Device,
    )
}

/// Where the named parts begin.
pub open spec fn body_start(s: Seq<char>) -> int {
    if has_root_separator(s) {
        prefix_end(s) + 1
    } else {
        prefix_end(s)
    }
}

/// Whether the path begins with `.` as a part of its own.
pub open spec fn begins_with_dot(s: Seq<char>) -> bool {
    &&& prefix_kind(s) is None
    &&& s.len() > 0 && s[0] == '.'
    &&& s.len() == 1 || is_separator(s[1])
}

/// What a name is as a part. In a path that is taken as it is written, `.` is
/// one too.
pub open spec fn name_kind(name: Seq<char>) -> PartKind {
    if name == seq!['.'] {
        PartKind::CurDir
    } else if name == seq!['.', '.'] {
        PartKind::ParentDir
    } else {
        PartKind::Name
    }
}

/// The parts from position `i` on, each with where it begins and ends.
pub open spec fn parts_from(s: Seq<char>, i: int, verbatim: bool) -> Seq<(PartKind, int, int)>
    decreases s.len() - i,
    when 0 <= i
    via parts_from_decreases
{
    if i >= s.len() {
        seq![]
    } else if separates(s[i], verbatim) {
        parts_from(s, i + 1, verbatim)
    } else {
        let e = next_separator(s, i, verbatim);
        let name = s.subrange(i, e);
        if name == seq!['.'] && !verbatim {
            parts_from(s, e, verbatim)
        } else {
            seq![(name_kind(name), i, e)] + parts_from(s, e, verbatim)
        }
    }
}

#[via_fn]
proof fn parts_from_decreases(s: Seq<char>, i: int, verbatim: bool) {
    lemma_next_separator(s, i, verbatim);
}

/// The parts of the path before its names.
pub open spec fn leading_parts(s: Seq<char>) -> Seq<(PartKind, int, int)> {
    let p = prefix_end(s);
    let b = body_start(s);
    (match prefix_kind(s) {
        Some(kind) => seq![(kind, 0int, p)],
        None => seq![],
    }) + (if is_rooted(s) {
        seq![(PartKind::Root, p, b)]
    } else {
        seq![]
    }) + (if begins_with_dot(s) {
        seq![(PartKind::CurDir, 0int, 1int)]
    } else {
        seq![]
    })
}

/// Where the names of a path are looked for.
pub open spec fn names_start(s: Seq<char>) -> int {
    if begins_with_dot(s) {
        1
    } else {
        body_start(s)
    }
}

/// The parts of the path.
pub open spec fn path_parts(s: Seq<char>) -> Seq<(PartKind, int, int)> {
    leading_parts(s) + parts_from(s, names_start(s), is_verbatim(s))
}

/// What the path names last, if that is a name.
pub open spec fn file_name(s: Seq<char>) -> Option<Seq<char>> {
    let parts = path_parts(s);
    if parts.len() > 0 && parts.last().0 == PartKind::Name {
        Some(s.subrange(parts.last().1, parts.last().2))
    } else {
        None
    }
}

/// Where the extension's dot stands in a file name: the last dot, unless the
/// name begins with it.
pub open spec fn extension_dot(name: Seq<char>) -> Option<int> {
    match text::last_position(name, '.') {
        Some(dot) if dot > 0 => Some(dot),
        _ => None,
    }
}

/// What follows the last dot of the file name.
pub open spec fn extension(s: Seq<char>) -> Option<Seq<char>> {
    match file_name(s) {
        Some(name) => match extension_dot(name) {
            Some(dot) => Some(name.skip(dot + 1)),
            None => None,
        },
        None => None,
    }
}

/// The file name without its extension.
pub open spec fn file_stem(s: Seq<char>) -> Option<Seq<char>> {
    match file_name(s) {
        Some(name) => match extension_dot(name) {
            Some(dot) => Some(name.take(dot)),
            None => Some(name),
        },
        None => None,
    }
}

/// Whether a part can be left behind on the way up: neither the root nor what
/// stands before it can.
pub open spec fn has_parent(kind: PartKind) -> bool {
    kind == PartKind::CurDir || kind == PartKind::ParentDir || kind == PartKind::Name
}

/// The path without its last part, unless that is the root or what stands
/// before it.
pub open spec fn parent(s: Seq<char>) -> Option<Seq<char>> {
    let parts = path_parts(s);
    if parts.len() == 0 || !has_parent(parts.last().0) {
        None
    } else if parts.len() == 1 {
        Some(seq![])
    } else {
        Some(s.take(parts[parts.len() - 2].2))
    }
}

/// A part of a path with its text.
pub type Piece = (PartKind, Seq<char>);

/// A part with its text.
pub open spec fn piece(s: Seq<char>, part: (PartKind, int, int)) -> Piece {
    (part.0, s.subrange(part.1, part.2))
}

/// Parts with their texts.
pub open spec fn pieces(s: Seq<char>, parts: Seq<(PartKind, int, int)>) -> Seq<Piece> {
    parts.map_values(|p: (PartKind, int, int)| piece(s, p))
}

/// Where `way` leads from `place`, one part at a time: a root leads back to
/// what stands before it, `.` nowhere, `..` out of what a name led to.
pub open spec fn walked(place: Seq<Piece>, way: Seq<Piece>) -> Seq<Piece>
    decreases way.len(),
{
    if way.len() == 0 {
        place
    } else {
        let at = walked(place, way.drop_last());
        let step = way.last();
        match step.0 {
            PartKind::Root => at.take(1).push(step),
            PartKind::CurDir => at,
            PartKind::ParentDir => if at.len() > 0 && at.last().0 == PartKind::Name {
                at.drop_last()
            } else {
                at
            },
            _ => at.push(step),
        }
    }
}

/// The parts written one behind the other, with a separator between them.
pub open spec fn written(parts: Seq<Piece>) -> Seq<char>
    decreases parts.len(),
{
    if parts.len() == 0 {
        seq![]
    } else {
        let before = written(parts.drop_last());
        if parts.last().0 == PartKind::Root {
            before.push('\\')
        } else if parts.len() == 1 || parts[parts.len() - 2].0 == PartKind::Root {
            before + parts.last().1
        } else {
            before.push('\\') + parts.last().1
        }
    }
}

/// The path that `rel` leads to from `base`. Where `base` is taken as it is
/// written, `.` and `..` in `rel` are followed.
pub open spec fn join(base: Seq<char>, rel: Seq<char>) -> Seq<char> {
    if prefix_kind(rel) is Some {
        rel
    } else if is_verbatim(base) && rel.len() > 0 {
        written(walked(pieces(base, path_parts(base)), pieces(rel, path_parts(rel))))
    } else if is_rooted(rel) {
        base.take(prefix_end(base)) + rel
    } else if base.len() == 0 || is_separator(base.last()) || (has_drive(base) && base.len()
        == 2) {
        base + rel
    } else {
        base.push('\\') + rel
    }
}

/// A letter in upper case.
pub open spec fn upper_letter(c: char) -> char {
    if 'a' <= c <= 'z' {
        (c as u8 - 32) as char
    } else {
        c
    }
}

/// What a part is told apart by: its kind and its name. A share has two, that
/// of the server and its own. The case of a drive's letter doesn't matter.
pub open spec fn part_key(p: Piece) -> (PartKind, Seq<char>, Seq<char>) {
    let t = p.1;
    match p.0 {
        PartKind::Verbatim | PartKind::Device => (p.0, t.skip(4), seq![]),
        PartKind::VerbatimShare => {
            let a = next_separator(t, 8, true);
            (p.0, t.subrange(8, a), if a < t.len() {
                t.skip(a + 1)
            } else {
                seq![]
            })
        },
        PartKind::VerbatimDrive => (p.0, seq![upper_letter(t[4])], seq![]),
        PartKind::Share => {
            let a = next_separator(t, 2, false);
            (p.0, t.subrange(2, a), t.skip(a + 1))
        },
        PartKind::Drive => (p.0, seq![upper_letter(t[0])], seq![]),
        PartKind::Root | PartKind::CurDir | PartKind::ParentDir => (p.0, seq![], seq![]),
        PartKind::Name => (p.0, t, seq![]),
    }
}

/// The rank of a kind among the kinds, as a digit.
pub open spec fn kind_rank(kind: PartKind) -> char {
    match kind {
        PartKind::Verbatim => '0',
        PartKind::VerbatimShare => '1',
        PartKind::VerbatimDrive => '2',
        PartKind::Device => '3',
        PartKind::Share => '4',
        PartKind::Drive => '5',
        PartKind::Root => '6',
        PartKind::CurDir => '7',
        PartKind::ParentDir => '8',
        PartKind::Name => '9',
    }
}

/// A name as it stands in an identity: the smallest character, which ends a
/// name there, is followed by one behind the digits.
pub open spec fn escaped(name: Seq<char>) -> Seq<char>
    decreases name.len(),
{
    if name.len() == 0 {
        seq![]
    } else if name.last() == '\0' {
        escaped(name.drop_last()).push('\0').push(':')
    } else {
        escaped(name.drop_last()).push(name.last())
    }
}

/// How a part is written in an identity: the kind's rank and the name, and
/// then a digit and the other name if there are two.
pub open spec fn key_id(k: (PartKind, Seq<char>, Seq<char>)) -> Seq<char> {
    let first = seq![kind_rank(k.0)] + escaped(k.1) + seq!['\0'];
    if k.0 == PartKind::VerbatimShare || k.0 == PartKind::Share {
        first + seq!['0'] + escaped(k.2) + seq!['\0']
    } else {
        first
    }
}

/// How a part is told apart from others and ordered among them.
pub open spec fn part_id(s: Seq<char>, part: (PartKind, int, int)) -> Seq<char> {
    key_id(part_key(piece(s, part)))
}

/// The identifying texts of the parts, one after the other.
pub open spec fn parts_id(s: Seq<char>, parts: Seq<(PartKind, int, int)>) -> Seq<char>
    decreases parts.len(),
{
    if parts.len() == 0 {
        seq![]
    } else {
        parts_id(s, parts.drop_last()) + part_id(s, parts.last())
    }
}

/// What tells a path from another, however it is written: paths with the
/// same parts have the same identity. Each name ends in the smallest
/// character, so the order of identities is the order of paths, part by part.
pub open spec fn path_id(s: Seq<char>) -> Seq<char> {
    parts_id(s, path_parts(s))
}

/// Whether two paths are the same.
pub open spec fn same_path(a: Seq<char>, b: Seq<char>) -> bool {
    path_id(a) == path_id(b)
}

/// What is left of `s` behind the parts of `base`, if it begins with them.
pub open spec fn relative_to(s: Seq<char>, base: Seq<char>) -> Option<Seq<char>> {
    let parts = path_parts(s);
    let n = path_parts(base).len() as int;
    if n <= parts.len() && parts_id(s, parts.take(n)) == path_id(base) {
        if n == parts.len() {
            Some(seq![])
        } else {
            Some(s.subrange(parts[n].1, parts.last().2))
        }
    } else {
        None
    }
}

proof fn lemma_next_separator(s: Seq<char>, i: int, v: bool)
    requires
        0 <= i,
    ensures
        i <= next_separator(s, i, v),
        i <= s.len() ==> next_separator(s, i, v) <= s.len(),
        i < s.len() && !separates(s[i], v) ==> i < next_separator(s, i, v),
        next_separator(s, i, v) < s.len() ==> separates(s[next_separator(s, i, v)], v),
        forall|k: int| i <= k < next_separator(s, i, v) && k < s.len() ==> !separates(s[k], v),
    decreases s.len() - i,
{
    if i < s.len() && !separates(s[i], v) {
        lemma_next_separator(s, i + 1, v);
    }
}

/// The prefix lies within the path, and its root behind it. Only a drive need
/// not end where a separator stands.
pub proof fn lemma_prefix_end(s: Seq<char>)
    ensures
        0 <= prefix_end(s) <= s.len(),
        prefix_kind(s) is Some <==> prefix_end(s) > 0,
        0 <= share_end(s) <= s.len(),
        share_end(s) > 0 ==> 2 < next_separator(s, 2, false) && next_separator(s, 2, false) + 1
            < share_end(s),
        0 <= body_start(s) <= s.len(),
        prefix_end(s) <= body_start(s) <= names_start(s) <= s.len(),
        prefix_kind(s) is Some && prefix_kind(s) != Some(PartKind::Drive) ==> prefix_end(s)
            == s.len() || is_separator(s[prefix_end(s)]),
        prefix_kind(s) is Some ==> !has_parent(prefix_kind(s)->0) && prefix_kind(s)->0
            != PartKind::Root,
        is_verbatim(s) ==> prefix_end(s) >= 4,
        is_device(s) ==> prefix_end(s) >= 4,
        has_drive(s) ==> prefix_kind(s) == Some(PartKind::Drive),
{
    if s.len() >= 2 {
        lemma_next_separator(s, 2, false);
        let a = next_separator(s, 2, false);
        if a < s.len() {
            lemma_next_separator(s, a + 1, false);
        }
    }
    if s.len() >= 4 {
        lemma_next_separator(s, 4, true);
        lemma_next_separator(s, 4, false);
    }
    if s.len() >= 8 {
        lemma_next_separator(s, 8, true);
        let a = next_separator(s, 8, true);
        if a < s.len() {
            lemma_next_separator(s, a + 1, true);
        }
    }
}

/// The parts lie in the path one behind the other.
pub open spec fn parts_in_order(parts: Seq<(PartKind, int, int)>, lo: int, hi: int) -> bool {
    &&& forall|a: int|
        0 <= a < parts.len() ==> lo <= (#[trigger] parts[a]).1 <= parts[a].2 <= hi
    &&& forall|a: int, b: int|
        0 <= a < b < parts.len() ==> (#[trigger] parts[a]).2 <= (#[trigger] parts[b]).1
}

proof fn lemma_parts_from(s: Seq<char>, i: int, v: bool)
    requires
        0 <= i <= s.len(),
    ensures
        parts_in_order(parts_from(s, i, v), i, s.len() as int),
        forall|a: int|
            0 <= a < parts_from(s, i, v).len() ==> {
                &&& has_parent((#[trigger] parts_from(s, i, v)[a]).0)
                &&& parts_from(s, i, v)[a].1 < parts_from(s, i, v)[a].2
            },
    decreases s.len() - i,
{
    if i < s.len() {
        if separates(s[i], v) {
            lemma_parts_from(s, i + 1, v);
        } else {
            lemma_next_separator(s, i, v);
            lemma_parts_from(s, next_separator(s, i, v), v);
        }
    }
}

/// The parts of a path lie in it one behind the other. What stands before the
/// root and the names is told by how the path begins.
pub proof fn lemma_path_parts(s: Seq<char>)
    ensures
        parts_in_order(path_parts(s), 0, s.len() as int),
        forall|a: int|
            0 <= a < path_parts(s).len() ==> has_parent((#[trigger] path_parts(s)[a]).0)
                || path_parts(s)[a].0 == PartKind::Root || path_parts(s)[a] == (
                prefix_kind(s)->0,
                0int,
                prefix_end(s),
            ) && prefix_kind(s) is Some,
{
    lemma_prefix_end(s);
    let v = is_verbatim(s);
    let b = names_start(s);
    lemma_parts_from(s, b, v);
    let l = leading_parts(s);
    let t = parts_from(s, b, v);
    assert(parts_in_order(l, 0, b));
    let p = path_parts(s);
    assert forall|x: int, y: int| 0 <= x < y < p.len() implies (#[trigger] p[x]).2 <= (
    #[trigger] p[y]).1 by {
        if y < l.len() {
            assert(p[x] == l[x] && p[y] == l[y]);
        } else if x < l.len() {
            assert(p[x] == l[x] && p[y] == t[y - l.len()]);
        } else {
            assert(p[x] == t[x - l.len()] && p[y] == t[y - l.len()]);
        }
    }
    assert forall|x: int| 0 <= x < p.len() implies 0 <= (#[trigger] p[x]).1 <= p[x].2
        <= s.len() by {
        if x < l.len() {
            assert(p[x] == l[x]);
        } else {
            assert(p[x] == t[x - l.len()]);
        }
    }
    assert forall|a: int| 0 <= a < p.len() implies has_parent((#[trigger] p[a]).0) || p[a].0
        == PartKind::Root || p[a] == (prefix_kind(s)->0, 0int, prefix_end(s)) && prefix_kind(
        s,
    ) is Some by {
        if a < l.len() {
            assert(p[a] == l[a]);
        } else {
            assert(p[a] == t[a - l.len()]);
        }
    }
}

/// Whether `name` can stand as a part of its own: not empty, without
/// separators, and neither `.` nor `..`.
pub open spec fn is_plain_name(name: Seq<char>) -> bool {
    &&& name.len() > 0
    &&& forall|i: int| 0 <= i < name.len() ==> !is_separator(#[trigger] name[i])
    &&& name != seq!['.'] && name != seq!['.', '.']
}

/// Whether names put behind the path are read as its own. They are not behind
/// the mere beginning of a share or a device, such as `\\server` or `\\.\`; nor,
/// where the path is taken as it is written, without a root or behind a server
/// that no share has been named of.
pub open spec fn holds_names(s: Seq<char>) -> bool {
    &&& s.len() > 0
    &&& if is_verbatim(s) {
        is_rooted(s) && (is_verbatim_share(s) ==> next_separator(s, 8, true) < prefix_end(s))
    } else if is_device(s) {
        s.len() > 4
    } else {
        s.len() >= 2 && is_separator(s[0]) && is_separator(s[1]) ==> share_end(s) > 0
    }
}

proof fn lemma_last_part(q: Seq<char>, i: int, at: int, v: bool)
    requires
        0 <= i <= at < q.len(),
        i == at || separates(q[at - 1], v),
        is_plain_name(q.skip(at)),
    ensures
        parts_from(q, i, v).len() > 0,
        parts_from(q, i, v).last() == (PartKind::Name, at, q.len() as int),
    decreases q.len() - i,
{
    let name = q.skip(at);
    assert forall|k: int| at <= k < q.len() implies !is_separator(#[trigger] q[k]) by {
        assert(name[k - at] == q[k]);
    }
    lemma_next_separator(q, i, v);
    if i == at {
        let e = next_separator(q, at, v);
        assert(e == q.len());
        assert(q.subrange(at, e) =~= name);
        assert(parts_from(q, e, v) =~= seq![]);
    } else if separates(q[i], v) {
        lemma_last_part(q, i + 1, at, v);
    } else {
        let e = next_separator(q, i, v);
        assert(e <= at - 1) by {
            if e > at - 1 {
                assert(!separates(q[at - 1], v));
            }
        }
        lemma_last_part(q, e, at, v);
    }
}

proof fn lemma_next_separator_longer(s: Seq<char>, q: Seq<char>, i: int, v: bool)
    requires
        0 <= i <= s.len() <= q.len(),
        q.take(s.len() as int) == s,
        next_separator(s, i, v) < s.len() || s.len() == q.len() || separates(
            q[s.len() as int],
            v,
        ),
    ensures
        next_separator(q, i, v) == next_separator(s, i, v),
    decreases s.len() - i,
{
    if i < s.len() {
        assert(q[i] == q.take(s.len() as int)[i]);
        if !separates(s[i], v) {
            lemma_next_separator_longer(s, q, i + 1, v);
        }
    }
}

/// Whether `q` goes on where `s` ends: behind a separator, or with one.
spec fn goes_on(s: Seq<char>, q: Seq<char>) -> bool {
    &&& s.len() < q.len()
    &&& q.take(s.len() as int) == s
    &&& if is_separator(s.last()) || (has_drive(s) && s.len() == 2) {
        !is_separator(q[s.len() as int])
    } else {
        q[s.len() as int] == '\\'
    }
}

/// What a path begins with stays if it goes on.
proof fn lemma_prefix_longer(s: Seq<char>, q: Seq<char>)
    requires
        holds_names(s),
        goes_on(s, q),
    ensures
        is_verbatim(q) == is_verbatim(s),
        prefix_kind(q) == prefix_kind(s),
        prefix_end(q) == prefix_end(s),
        q.take(prefix_end(s)) == s.take(prefix_end(s)),
{
    let m = s.len() as int;
    assert forall|k: int| 0 <= k < m implies #[trigger] q[k] == s[k] by {
        assert(q.take(m)[k] == q[k]);
    }
    lemma_prefix_end(s);
    assert(q.take(prefix_end(s)) =~= s.take(prefix_end(s)));
    if is_verbatim(s) {
        if is_verbatim_share(s) {
            let a = next_separator(s, 8, true);
            lemma_next_separator(s, 8, true);
            lemma_next_separator_longer(s, q, 8, true);
            lemma_next_separator(s, a + 1, true);
            lemma_next_separator_longer(s, q, a + 1, true);
        } else if is_verbatim_drive(s) {
        } else {
            lemma_next_separator(s, 4, true);
            lemma_next_separator_longer(s, q, 4, true);
        }
    } else if is_device(s) {
        lemma_next_separator(s, 4, false);
        lemma_next_separator_longer(s, q, 4, false);
    } else if m >= 2 && is_separator(s[0]) && is_separator(s[1]) {
        let a = next_separator(s, 2, false);
        assert(a < m);
        lemma_next_separator(s, 2, false);
        assert(m >= 4);
        lemma_next_separator_longer(s, q, 2, false);
        lemma_next_separator(s, a + 1, false);
        lemma_next_separator_longer(s, q, a + 1, false);
        assert(share_end(q) == share_end(s));
    } else {
        assert(share_end(s) == 0);
        assert(share_end(q) == 0);
    }
}

proof fn lemma_parts_are_plain(s: Seq<char>, i: int, v: bool)
    requires
        0 <= i <= s.len(),
    ensures
        forall|a: int|
            0 <= a < parts_from(s, i, v).len() ==> {
                let (kind, x, e) = #[trigger] parts_from(s, i, v)[a];
                let name = s.subrange(x, e);
                &&& kind == name_kind(name)
                &&& name.len() > 0
                &&& forall|k: int| 0 <= k < name.len() ==> !separates(#[trigger] name[k], v)
                &&& !v && kind == PartKind::Name ==> is_plain_name(name)
                &&& !v ==> kind != PartKind::CurDir
            },
    decreases s.len() - i,
{
    if i < s.len() {
        if separates(s[i], v) {
            lemma_parts_are_plain(s, i + 1, v);
        } else {
            lemma_next_separator(s, i, v);
            let e = next_separator(s, i, v);
            lemma_parts_are_plain(s, e, v);
            let name = s.subrange(i, e);
            assert forall|k: int| 0 <= k < name.len() implies !separates(#[trigger] name[k], v) by {
                assert(name[k] == s[i + k]);
            }
        }
    }
}

/// A file name is a part of its own, unless it has a slash in it.
pub proof fn lemma_file_name_is_plain(s: Seq<char>)
    ensures
        file_name(s) matches Some(n) ==> (!is_verbatim(s) || !n.contains('/')) ==> is_plain_name(n),
{
    lemma_prefix_end(s);
    let b = names_start(s);
    let v = is_verbatim(s);
    let t = parts_from(s, b, v);
    let p = path_parts(s);
    lemma_parts_are_plain(s, b, v);
    if t.len() > 0 {
        assert(p.last() == t[t.len() - 1]);
        let n = s.subrange(p.last().1, p.last().2);
        if v && !n.contains('/') && p.last().0 == PartKind::Name {
            assert forall|k: int| 0 <= k < n.len() implies !is_separator(#[trigger] n[k]) by {
                assert(!separates(n[k], v));
                assert(n.contains(n[k]));
            }
        }
    } else {
        assert(p =~= leading_parts(s));
    }
}

proof fn lemma_parts_id_concat(
    s: Seq<char>,
    a: Seq<(PartKind, int, int)>,
    b: Seq<(PartKind, int, int)>,
)
    ensures
        parts_id(s, a + b) == parts_id(s, a) + parts_id(s, b),
    decreases b.len(),
{
    if b.len() == 0 {
        assert(a + b =~= a);
        assert(parts_id(s, a) + parts_id(s, b) =~= parts_id(s, a));
    } else {
        lemma_parts_id_concat(s, a, b.drop_last());
        assert((a + b).drop_last() =~= a + b.drop_last());
        assert((a + b).last() == b.last());
        assert(parts_id(s, a + b) =~= parts_id(s, a) + parts_id(s, b));
    }
}

proof fn lemma_parts_id_one(s: Seq<char>, part: (PartKind, int, int))
    ensures
        parts_id(s, seq![part]) == part_id(s, part),
{
    let one = seq![part];
    assert(one.drop_last() =~= seq![]);
    assert(parts_id(s, one.drop_last()) =~= seq![]);
    assert(parts_id(s, one) == parts_id(s, one.drop_last()) + part_id(s, one.last()));
    assert(parts_id(s, one) =~= part_id(s, part));
}

/// Identities depend on the texts of the parts alone.
proof fn lemma_same_pieces(
    s: Seq<char>,
    a: Seq<(PartKind, int, int)>,
    q: Seq<char>,
    b: Seq<(PartKind, int, int)>,
)
    requires
        pieces(s, a) == pieces(q, b),
    ensures
        parts_id(s, a) == parts_id(q, b),
    decreases a.len(),
{
    assert(pieces(s, a).len() == a.len() && pieces(q, b).len() == b.len());
    if a.len() > 0 {
        let k = a.len() - 1;
        assert(pieces(s, a)[k] == piece(s, a[k]) && pieces(q, b)[k] == piece(q, b[k]));
        assert(pieces(s, a.drop_last()) =~= pieces(s, a).drop_last());
        assert(pieces(q, b.drop_last()) =~= pieces(q, b).drop_last());
        lemma_same_pieces(s, a.drop_last(), q, b.drop_last());
    }
}

/// The names in a path don't depend on where they stand in it.
proof fn lemma_parts_shifted(s: Seq<char>, i: int, q: Seq<char>, j: int, v: bool)
    requires
        0 <= i <= s.len(),
        0 <= j <= q.len(),
        s.skip(i) == q.skip(j),
    ensures
        pieces(s, parts_from(s, i, v)) == pieces(q, parts_from(q, j, v)),
        parts_id(s, parts_from(s, i, v)) == parts_id(q, parts_from(q, j, v)),
    decreases s.len() - i,
{
    assert(s.skip(i).len() == s.len() - i && q.skip(j).len() == q.len() - j);
    if i < s.len() {
        assert(s[i] == s.skip(i)[0] && q[j] == q.skip(j)[0]);
        if separates(s[i], v) {
            assert(s.skip(i + 1) =~= s.skip(i).skip(1));
            assert(q.skip(j + 1) =~= q.skip(j).skip(1));
            lemma_parts_shifted(s, i + 1, q, j + 1, v);
        } else {
            lemma_separator_shifted(s, i, q, j, v);
            lemma_next_separator(s, i, v);
            let e = next_separator(s, i, v);
            let f = next_separator(q, j, v);
            assert(s.skip(e) =~= s.skip(i).skip(e - i));
            assert(q.skip(f) =~= q.skip(j).skip(e - i));
            lemma_parts_shifted(s, e, q, f, v);
            let name = s.subrange(i, e);
            assert(name =~= s.skip(i).take(e - i));
            assert(q.subrange(j, f) =~= q.skip(j).take(e - i));
            if !(name == seq!['.'] && !v) {
                let k = name_kind(name);
                let x = parts_from(s, e, v);
                let y = parts_from(q, f, v);
                assert(pieces(s, seq![(k, i, e)] + x) =~= seq![piece(s, (k, i, e))] + pieces(s, x));
                assert(pieces(q, seq![(k, j, f)] + y) =~= seq![piece(q, (k, j, f))] + pieces(q, y));
            }
        }
    } else {
        assert(pieces(s, parts_from(s, i, v)) =~= pieces(q, parts_from(q, j, v)));
    }
    lemma_same_pieces(s, parts_from(s, i, v), q, parts_from(q, j, v));
}

proof fn lemma_separator_shifted(s: Seq<char>, i: int, q: Seq<char>, j: int, v: bool)
    requires
        0 <= i <= s.len(),
        0 <= j <= q.len(),
        s.skip(i) == q.skip(j),
    ensures
        next_separator(s, i, v) - i == next_separator(q, j, v) - j,
    decreases s.len() - i,
{
    assert(s.skip(i).len() == s.len() - i && q.skip(j).len() == q.len() - j);
    if i < s.len() {
        assert(s[i] == s.skip(i)[0] && q[j] == q.skip(j)[0]);
        if !separates(s[i], v) {
            assert(s.skip(i + 1) =~= s.skip(i).skip(1));
            assert(q.skip(j + 1) =~= q.skip(j).skip(1));
            lemma_separator_shifted(s, i + 1, q, j + 1, v);
        }
    }
}

/// The parts from one of the parts on.
proof fn lemma_parts_from_part(s: Seq<char>, i: int, k: int, v: bool)
    requires
        0 <= i <= s.len(),
        0 <= k < parts_from(s, i, v).len(),
    ensures
        parts_from(s, parts_from(s, i, v)[k].1, v) == parts_from(s, i, v).skip(k),
    decreases s.len() - i,
{
    if i < s.len() {
        lemma_next_separator(s, i, v);
        let e = next_separator(s, i, v);
        if separates(s[i], v) {
            lemma_parts_from_part(s, i + 1, k, v);
        } else if s.subrange(i, e) == seq!['.'] && !v {
            lemma_parts_from_part(s, e, k, v);
        } else if k == 0 {
            assert(parts_from(s, i, v).skip(0) =~= parts_from(s, i, v));
        } else {
            lemma_parts_from_part(s, e, k - 1, v);
            assert(parts_from(s, i, v)[k] == parts_from(s, e, v)[k - 1]);
            assert(parts_from(s, i, v).skip(k) =~= parts_from(s, e, v).skip(k - 1));
        }
    }
}

/// What follows a part doesn't matter to the parts up to it.
proof fn lemma_parts_cut(s: Seq<char>, i: int, k: int, v: bool)
    requires
        0 <= i <= s.len(),
        0 <= k < parts_from(s, i, v).len(),
    ensures
        i <= parts_from(s, i, v)[k].2 <= s.len(),
        parts_from(s.take(parts_from(s, i, v)[k].2), i, v) == parts_from(s, i, v).take(k + 1),
    decreases s.len() - i,
{
    lemma_parts_from(s, i, v);
    let y = parts_from(s, i, v)[k].2;
    let t = s.take(y);
    lemma_next_separator(s, i, v);
    let e = next_separator(s, i, v);
    if separates(s[i], v) {
        lemma_parts_cut(s, i + 1, k, v);
        assert(t[i] == s[i]);
    } else {
        let rest = parts_from(s, e, v);
        let dot = s.subrange(i, e) == seq!['.'] && !v;
        lemma_parts_from(s, e, v);
        if dot || k > 0 {
            let j = if dot {
                k
            } else {
                k - 1
            };
            assert(rest[j] == parts_from(s, i, v)[k]);
            lemma_parts_cut(s, e, j, v);
            lemma_separator_cut(s, i, y, v);
            assert(t[i] == s[i]);
            assert(t.subrange(i, e) =~= s.subrange(i, e));
            assert(parts_from(t, i, v) =~= parts_from(s, i, v).take(k + 1));
        } else {
            assert(y == e);
            lemma_separator_cut(s, i, y, v);
            assert(t[i] == s[i]);
            assert(t.subrange(i, e) =~= s.subrange(i, e));
            assert(parts_from(t, e, v) =~= seq![]);
            assert(parts_from(t, i, v) =~= parts_from(s, i, v).take(1));
        }
    }
}

proof fn lemma_separator_cut(s: Seq<char>, i: int, y: int, v: bool)
    requires
        0 <= i,
        next_separator(s, i, v) <= y <= s.len(),
    ensures
        next_separator(s.take(y), i, v) == next_separator(s, i, v),
    decreases s.len() - i,
{
    lemma_next_separator(s, i, v);
    if i < y {
        assert(s.take(y)[i] == s[i]);
        if !separates(s[i], v) {
            lemma_separator_cut(s, i + 1, y, v);
        }
    }
}

/// What follows the parts doesn't matter to their identity.
proof fn lemma_parts_id_cut(s: Seq<char>, y: int, parts: Seq<(PartKind, int, int)>)
    requires
        0 <= y <= s.len(),
        forall|a: int| 0 <= a < parts.len() ==> 0 <= (#[trigger] parts[a]).1 <= parts[a].2 <= y,
    ensures
        parts_id(s.take(y), parts) == parts_id(s, parts),
{
    assert forall|a: int| 0 <= a < parts.len() implies piece(s.take(y), #[trigger] parts[a])
        == piece(s, parts[a]) by {
        assert(s.take(y).subrange(parts[a].1, parts[a].2) =~= s.subrange(parts[a].1, parts[a].2));
    }
    assert(pieces(s.take(y), parts) =~= pieces(s, parts));
    lemma_same_pieces(s.take(y), parts, s, parts);
}

/// Whether a path names something below another: it isn't empty and begins
/// with a name or with `..`.
pub open spec fn is_below(rel: Seq<char>) -> bool {
    rel.len() > 0 && prefix_kind(rel) is None && !is_rooted(rel) && !begins_with_dot(rel)
}

/// Whether what follows position `i` reads alike in whatever way the path is
/// taken: where it is taken as it is written, there is no slash in a name and
/// no `.` among the parts.
pub open spec fn reads_alike(s: Seq<char>, i: int) -> bool {
    is_verbatim(s) ==> parts_from(s, i, true) == parts_from(s, i, false)
}

proof fn lemma_below_is_named(s: Seq<char>, n: int)
    requires
        0 < n < path_parts(s).len(),
        is_below(s.subrange(path_parts(s)[n].1, path_parts(s).last().2)),
    ensures
        n >= leading_parts(s).len(),
{
    let parts = path_parts(s);
    let lead = leading_parts(s);
    let x = parts[n].1;
    let rel = s.subrange(x, parts.last().2);
    lemma_path_parts(s);
    lemma_prefix_end(s);
    assert(x <= parts.last().2 <= s.len()) by {
        if n < parts.len() - 1 {
            assert(parts[n].2 <= parts[parts.len() - 1].1);
        }
    }
    assert(rel[0] == s[x]);
    if n < lead.len() {
        assert(parts[n] == lead[n]);
        if parts[n].0 == PartKind::Root {
            if !has_root_separator(s) {
                assert(prefix_end(s) == s.len());
                assert(rel.len() == 0);
            } else {
                assert(is_separator(rel[0]));
                assert(prefix_end(rel) == 0);
                assert(is_rooted(rel));
            }
        } else {
            assert(false);
        }
    }
}

proof fn lemma_part_shape(s: Seq<char>, i: int, a: int, v: bool)
    requires
        0 <= i <= s.len(),
        0 <= a < parts_from(s, i, v).len(),
    ensures
        ({
            let (_, x, e) = parts_from(s, i, v)[a];
            &&& i <= x < e <= s.len()
            &&& !separates(s[x], v)
            &&& e == next_separator(s, x, v)
            &&& s.subrange(x, e) != seq!['.'] || v
        }),
    decreases s.len() - i,
{
    if i < s.len() {
        lemma_next_separator(s, i, v);
        let e = next_separator(s, i, v);
        if separates(s[i], v) {
            lemma_part_shape(s, i + 1, a, v);
        } else if s.subrange(i, e) == seq!['.'] && !v {
            lemma_part_shape(s, e, a, v);
        } else if a > 0 {
            assert(parts_from(s, i, v)[a] == parts_from(s, e, v)[a - 1]);
            lemma_part_shape(s, e, a - 1, v);
        }
    }
}

/// What follows the first names of a path lies below them, unless it reads
/// like a drive.
pub proof fn lemma_tail_is_below(s: Seq<char>, n: int)
    requires
        leading_parts(s).len() <= n < path_parts(s).len(),
        reads_alike(s, path_parts(s)[n].1),
    ensures
        ({
            let rel = s.subrange(path_parts(s)[n].1, path_parts(s).last().2);
            !has_drive(rel) ==> is_below(rel)
        }),
{
    let v = is_verbatim(s);
    let parts = path_parts(s);
    let start = names_start(s);
    let (_, x, e) = parts[n];
    let y = parts.last().2;
    let rel = s.subrange(x, y);
    lemma_prefix_end(s);
    lemma_path_parts(s);
    let k = n - leading_parts(s).len();
    assert(parts[n] == parts_from(s, start, v)[k]);
    lemma_part_shape(s, start, k, v);
    lemma_parts_from_part(s, start, k, v);
    assert(parts_from(s, x, v)[0] == parts[n]);
    assert(parts_from(s, x, v) == parts_from(s, x, false));
    lemma_part_shape(s, x, 0, false);
    assert(e <= y) by {
        if n < parts.len() - 1 {
            assert(parts[n].2 <= parts[parts.len() - 1].1);
        }
    }
    assert(rel[0] == s[x]);
    assert(!is_separator(rel[0]));
    if !has_drive(rel) {
        assert(share_end(rel) == 0);
        assert(prefix_kind(rel) is None);
        if begins_with_dot(rel) {
            lemma_next_separator(s, x, false);
            if rel.len() > 1 {
                assert(rel[1] == s[x + 1]);
            }
            assert(e == x + 1);
            assert(s.subrange(x, e) =~= seq!['.']);
        }
    }
}

/// What lies below another path consists of names alone.
proof fn lemma_below_parts(rel: Seq<char>)
    requires
        is_below(rel),
    ensures
        !is_verbatim(rel),
        !is_separator(rel[0]),
        path_parts(rel) == parts_from(rel, 0, false),
{
    lemma_prefix_end(rel);
    assert(leading_parts(rel) =~= seq![]);
    assert(path_parts(rel) =~= parts_from(rel, 0, false));
}

/// The parts from one of the names on.
proof fn lemma_tail_parts(s: Seq<char>, n: int)
    requires
        leading_parts(s).len() <= n < path_parts(s).len(),
    ensures
        0 <= path_parts(s)[n].1 <= s.len(),
        path_parts(s).skip(n) == parts_from(s, path_parts(s)[n].1, is_verbatim(s)),
{
    let v = is_verbatim(s);
    let start = names_start(s);
    let lead = leading_parts(s);
    let tail = parts_from(s, start, v);
    lemma_prefix_end(s);
    assert(path_parts(s)[n] == tail[n - lead.len()]);
    lemma_parts_from(s, start, v);
    lemma_parts_from_part(s, start, n - lead.len(), v);
    assert(path_parts(s).skip(n) =~= tail.skip(n - lead.len()));
}

/// A path is made up of the parts of its base and of those that follow.
pub proof fn lemma_relative_id(s: Seq<char>, base: Seq<char>)
    requires
        path_parts(base).len() > 0,
        relative_to(s, base) matches Some(rel) && is_below(rel),
        reads_alike(s, path_parts(s)[path_parts(base).len() as int].1),
    ensures
        path_id(s) == path_id(base) + path_id(relative_to(s, base)->0),
{
    let rel = relative_to(s, base)->0;
    let parts = path_parts(s);
    let n = path_parts(base).len() as int;
    assert(n < parts.len());
    lemma_below_is_named(s, n);
    lemma_tail_parts(s, n);
    let x = parts[n].1;
    let rest = parts_from(s, x, false);
    assert(parts.skip(n) == rest);
    lemma_rest_id(s, x);
    assert(parts.last() == parts.skip(n).last());
    lemma_below_parts(rel);
    assert(parts =~= parts.take(n) + parts.skip(n));
    lemma_parts_id_concat(s, parts.take(n), parts.skip(n));
}

proof fn lemma_rest_id(s: Seq<char>, x: int)
    requires
        0 <= x <= s.len(),
        parts_from(s, x, false).len() > 0,
    ensures
        ({
            let rel = s.subrange(x, parts_from(s, x, false).last().2);
            parts_id(rel, parts_from(rel, 0, false)) == parts_id(s, parts_from(s, x, false))
        }),
{
    let rest = parts_from(s, x, false);
    let y = rest.last().2;
    let rel = s.subrange(x, y);
    lemma_parts_from(s, x, false);
    lemma_parts_cut(s, x, rest.len() - 1, false);
    assert(rest.take(rest.len() as int) =~= rest);
    let t = s.take(y);
    assert(t.skip(x) =~= rel.skip(0));
    lemma_parts_shifted(t, x, rel, 0, false);
    assert forall|a: int| 0 <= a < rest.len() implies 0 <= (#[trigger] rest[a]).1 <= rest[a].2
        <= y by {
        if a < rest.len() - 1 {
            assert(rest[a].2 <= rest[rest.len() - 1].1);
        }
    }
    lemma_parts_id_cut(s, y, rest);
}

proof fn lemma_parts_joined(base: Seq<char>, q: Seq<char>, rel: Seq<char>, i: int, v: bool)
    requires
        0 <= i <= base.len(),
        q == base + rel || q == base.push('\\') + rel,
        i < base.len() ==> separates(base.last(), v) || q == base.push('\\') + rel,
    ensures
        parts_id(q, parts_from(q, i, v)) == parts_id(base, parts_from(base, i, v)) + parts_id(
            rel,
            parts_from(rel, 0, v),
        ),
    decreases base.len() - i,
{
    let m = base.len() as int;
    assert(q.take(m) =~= base);
    if i == m {
        assert(parts_id(base, parts_from(base, i, v)) =~= seq![]);
        if q == base + rel {
            assert(q.skip(m) =~= rel.skip(0));
            lemma_parts_shifted(q, m, rel, 0, v);
        } else {
            assert(q[m] == '\\');
            assert(q.skip(m + 1) =~= rel.skip(0));
            lemma_parts_shifted(q, m + 1, rel, 0, v);
        }
        assert(seq![] + parts_id(rel, parts_from(rel, 0, v)) =~= parts_id(
            rel,
            parts_from(rel, 0, v),
        ));
    } else {
        assert(q[i] == base[i]) by {
            assert(q.take(m)[i] == q[i]);
        }
        if separates(base[i], v) {
            lemma_parts_joined(base, q, rel, i + 1, v);
        } else {
            lemma_next_separator(base, i, v);
            let e = next_separator(base, i, v);
            assert(e < m || q == base.push('\\') + rel);
            if q == base.push('\\') + rel {
                assert(q[m] == '\\');
            }
            lemma_next_separator_longer(base, q, i, v);
            lemma_parts_joined(base, q, rel, e, v);
            let name = base.subrange(i, e);
            assert(q.subrange(i, e) =~= name) by {
                assert(q.subrange(i, e) =~= q.take(m).subrange(i, e));
            }
            if !(name == seq!['.'] && !v) {
                let kind = name_kind(name);
                lemma_parts_id_concat(base, seq![(kind, i, e)], parts_from(base, e, v));
                lemma_parts_id_concat(q, seq![(kind, i, e)], parts_from(q, e, v));
                lemma_parts_id_one(base, (kind, i, e));
                lemma_parts_id_one(q, (kind, i, e));
                assert(part_id(base, (kind, i, e)) == part_id(q, (kind, i, e)));
                assert(parts_id(q, parts_from(q, i, v)) =~= parts_id(base, parts_from(base, i, v))
                    + parts_id(rel, parts_from(rel, 0, v)));
            }
        }
    }
}

/// Two paths that begin alike have the same parts before their names.
proof fn lemma_leading_ids(a: Seq<char>, b: Seq<char>)
    requires
        prefix_kind(a) == prefix_kind(b),
        prefix_end(a) == prefix_end(b),
        a.take(prefix_end(a)) == b.take(prefix_end(a)),
        is_rooted(a) == is_rooted(b),
        begins_with_dot(a) == begins_with_dot(b),
    ensures
        parts_id(a, leading_parts(a)) == parts_id(b, leading_parts(b)),
{
    reveal_with_fuel(parts_id, 4);
    let l = leading_parts(a);
    let r = leading_parts(b);
    assert(l.len() == r.len() && l.len() <= 3);
    assert forall|k: int| 0 <= k < l.len() implies part_id(a, #[trigger] l[k]) == part_id(
        b,
        r[k],
    ) by {
        if l[k].0 != PartKind::Root && l[k].0 != PartKind::CurDir {
            assert(a.subrange(0, prefix_end(a)) =~= a.take(prefix_end(a)));
            assert(b.subrange(0, prefix_end(a)) =~= b.take(prefix_end(a)));
        }
    }
    if l.len() > 0 {
        assert(l.drop_last().len() == l.len() - 1);
        assert(r.drop_last().len() == l.len() - 1);
        if l.len() > 1 {
            assert(l.drop_last().drop_last().len() == l.len() - 2);
            assert(r.drop_last().drop_last().len() == l.len() - 2);
        }
    }
}

/// A path that goes on has the parts of what it goes on from, and then its own.
proof fn lemma_goes_on_id(base: Seq<char>, q: Seq<char>, rel: Seq<char>)
    requires
        holds_names(base),
        goes_on(base, q),
        q == base + rel || q == base.push('\\') + rel,
        q == base + rel ==> separates(base.last(), is_verbatim(base)) || (has_drive(base)
            && base.len() == 2),
    ensures
        path_id(q) == path_id(base) + parts_id(rel, parts_from(rel, 0, is_verbatim(base))),
{
    let m = base.len() as int;
    let v = is_verbatim(base);
    lemma_prefix_longer(base, q);
    lemma_prefix_end(base);
    lemma_prefix_end(q);
    let p = prefix_end(base);
    assert forall|k: int| 0 <= k < m implies #[trigger] q[k] == base[k] by {
        assert(q.take(m)[k] == q[k]);
    }
    if p < m {
        assert(has_root_separator(q) == has_root_separator(base));
    }
    assert(is_rooted(q) == is_rooted(base));
    assert(begins_with_dot(q) == begins_with_dot(base));
    lemma_leading_ids(base, q);
    let start = names_start(base);
    let qstart = names_start(q);
    let more = parts_id(rel, parts_from(rel, 0, v));
    lemma_parts_id_concat(base, leading_parts(base), parts_from(base, start, v));
    lemma_parts_id_concat(q, leading_parts(q), parts_from(q, qstart, v));
    if qstart == start {
        lemma_parts_joined(base, q, rel, start, v);
    } else {
        assert(p == m && start == m && qstart == m + 1);
        assert(q == base.push('\\') + rel);
        assert(q.skip(m + 1) =~= rel.skip(0));
        lemma_parts_shifted(q, m + 1, rel, 0, v);
        assert(parts_id(base, parts_from(base, m, v)) =~= seq![]);
    }
    assert(path_id(q) =~= path_id(base) + more);
}

/// The identities of parts with their texts, one after the other.
spec fn pieces_id(ps: Seq<Piece>) -> Seq<char>
    decreases ps.len(),
{
    if ps.len() == 0 {
        seq![]
    } else {
        pieces_id(ps.drop_last()) + key_id(part_key(ps.last()))
    }
}

proof fn lemma_pieces_id(s: Seq<char>, parts: Seq<(PartKind, int, int)>)
    ensures
        pieces_id(pieces(s, parts)) == parts_id(s, parts),
    decreases parts.len(),
{
    if parts.len() > 0 {
        lemma_pieces_id(s, parts.drop_last());
        assert(pieces(s, parts).drop_last() =~= pieces(s, parts.drop_last()));
        assert(pieces(s, parts).last() == piece(s, parts.last()));
    }
}

proof fn lemma_pieces_id_concat(a: Seq<Piece>, b: Seq<Piece>)
    ensures
        pieces_id(a + b) == pieces_id(a) + pieces_id(b),
    decreases b.len(),
{
    if b.len() == 0 {
        assert(a + b =~= a);
        assert(pieces_id(a) + pieces_id(b) =~= pieces_id(a));
    } else {
        lemma_pieces_id_concat(a, b.drop_last());
        assert((a + b).drop_last() =~= a + b.drop_last());
        assert((a + b).last() == b.last());
        assert(pieces_id(a + b) =~= pieces_id(a) + pieces_id(b));
    }
}

/// Names lead on from a place one by one.
proof fn lemma_walked_names(place: Seq<Piece>, way: Seq<Piece>)
    requires
        forall|k: int| 0 <= k < way.len() ==> (#[trigger] way[k]).0 == PartKind::Name,
    ensures
        walked(place, way) == place + way,
    decreases way.len(),
{
    if way.len() == 0 {
        assert(place + way =~= place);
    } else {
        assert(way.last() == way[way.len() - 1]);
        assert forall|k: int| 0 <= k < way.drop_last().len() implies (
        #[trigger] way.drop_last()[k]).0 == PartKind::Name by {
            assert(way.drop_last()[k] == way[k]);
        }
        lemma_walked_names(place, way.drop_last());
        assert((place + way.drop_last()).push(way.last()) =~= place + way);
    }
}

/// Whether a part with its text is one of the names of a path that is taken as
/// it is written.
spec fn is_verbatim_name(p: Piece) -> bool {
    &&& p.1.len() > 0
    &&& p.0 == name_kind(p.1)
    &&& forall|k: int| 0 <= k < p.1.len() ==> #[trigger] p.1[k] != '\\'
}

proof fn lemma_one_name(p: Piece)
    requires
        is_verbatim_name(p),
    ensures
        parts_id(p.1, parts_from(p.1, 0, true)) == key_id(part_key(p)),
{
    let t = p.1;
    lemma_next_separator(t, 0, true);
    let e = next_separator(t, 0, true);
    assert(e == t.len()) by {
        if e < t.len() {
            assert(separates(t[e], true));
        }
    }
    assert(!separates(t[0], true));
    assert(t.subrange(0, e) =~= t);
    assert(parts_from(t, e, true) =~= seq![]);
    assert(parts_from(t, 0, true) =~= seq![(p.0, 0, e)]);
    lemma_parts_id_one(t, (p.0, 0, e));
}

/// Names written behind a prefix and its root are read again as they are.
proof fn lemma_written(top: Seq<Piece>, names: Seq<Piece>)
    requires
        top.len() == 2,
        !has_parent(top[0].0) && top[0].0 != PartKind::Root,
        top[1].0 == PartKind::Root,
        forall|k: int| 0 <= k < names.len() ==> is_verbatim_name(#[trigger] names[k]),
    ensures
        ({
            let p = top[0].1.len() as int;
            let w = written(top + names);
            &&& w.len() > p
            &&& w.take(p) == top[0].1
            &&& w[p] == '\\'
            &&& names.len() == 0 ==> w.len() == p + 1
            &&& names.len() > 0 ==> w.len() > p + 1 && w.last() != '\\'
            &&& parts_id(w, parts_from(w, p + 1, true)) == pieces_id(names)
        }),
    decreases names.len(),
{
    let p = top[0].1.len() as int;
    let all = top + names;
    let w = written(all);
    if names.len() == 0 {
        reveal_with_fuel(written, 3);
        assert(all =~= top);
        assert(top.drop_last().drop_last() =~= seq![]);
        assert(written(top.drop_last()) =~= top[0].1);
        assert(w =~= top[0].1.push('\\'));
        assert(w.take(p) =~= top[0].1);
        assert(parts_from(w, p + 1, true) =~= seq![]);
    } else {
        let before = names.drop_last();
        let n = names.last();
        assert(n == names[names.len() - 1]);
        assert forall|k: int| 0 <= k < before.len() implies is_verbatim_name(
            #[trigger] before[k],
        ) by {
            assert(before[k] == names[k]);
        }
        lemma_written(top, before);
        assert(all.drop_last() =~= top + before);
        assert(all.last() == n);
        assert(n.0 != PartKind::Root);
        let u = written(top + before);
        lemma_one_name(n);
        if before.len() == 0 {
            assert(all[all.len() - 2] == top[1]);
            assert(w == u + n.1);
            assert(u.last() == u[p]);
            lemma_parts_joined(u, w, n.1, p + 1, true);
        } else {
            assert(all[all.len() - 2] == before.last());
            assert(before.last() == names[names.len() - 2]);
            assert(is_verbatim_name(before.last()));
            assert(w == u.push('\\') + n.1);
            lemma_parts_joined(u, w, n.1, p + 1, true);
        }
        assert(w.take(p) =~= u.take(p));
        assert(w[p] == u[p]);
        assert(w.last() == n.1.last());
        assert(n.1.last() == n.1[n.1.len() - 1]);
        assert(parts_id(w, parts_from(w, p + 1, true)) =~= pieces_id(names));
    }
}

/// What a path that is taken as it is written begins with stays if names follow
/// its root.
proof fn lemma_verbatim_prefix_stays(s: Seq<char>, q: Seq<char>)
    requires
        is_verbatim(s),
        holds_names(s),
        q.len() > prefix_end(s),
        q.take(prefix_end(s)) == s.take(prefix_end(s)),
        q[prefix_end(s)] == '\\',
    ensures
        is_verbatim(q),
        prefix_kind(q) == prefix_kind(s),
        prefix_end(q) == prefix_end(s),
        is_rooted(q),
{
    let p = prefix_end(s);
    lemma_prefix_end(s);
    assert forall|k: int| 0 <= k < p implies #[trigger] q[k] == s[k] by {
        assert(q.take(p)[k] == s.take(p)[k]);
    }
    let t = q.take(p);
    if is_verbatim_share(s) {
        let a = next_separator(s, 8, true);
        lemma_next_separator(s, 8, true);
        assert(a + 1 < p);
        lemma_next_separator(s, a + 1, true);
        lemma_separator_cut(s, 8, p, true);
        lemma_separator_cut(s, a + 1, p, true);
        lemma_next_separator_longer(t, q, 8, true);
        lemma_next_separator_longer(t, q, a + 1, true);
    } else if is_verbatim_drive(s) {
    } else {
        lemma_next_separator(s, 4, true);
        lemma_separator_cut(s, 4, p, true);
        lemma_next_separator_longer(t, q, 4, true);
        assert(!is_verbatim_share(q)) by {
            if is_verbatim_share(q) {
                assert(p <= 7 || q[7] == s[7]);
                if p <= 7 {
                    assert(separates(s[p], true));
                }
            }
        }
        assert(!is_verbatim_drive(q)) by {
            if is_verbatim_drive(q) {
                if p <= 6 {
                    assert(separates(s[p], true));
                }
            }
        }
    }
}

/// Whether nothing but names stands behind a path's beginning: no `..` and no
/// `.`.
pub open spec fn has_only_names(rel: Seq<char>) -> bool {
    forall|k: int|
        0 <= k < path_parts(rel).len() ==> (#[trigger] path_parts(rel)[k]).0 == PartKind::Name
}

/// Joining a folder that is taken as it is written and names below it gives a
/// path with the parts of both.
proof fn lemma_verbatim_join_id(base: Seq<char>, rel: Seq<char>)
    requires
        is_verbatim(base),
        holds_names(base),
        is_below(rel),
        has_only_names(rel),
    ensures
        path_id(join(base, rel)) == path_id(base) + path_id(rel),
{
    let q = join(base, rel);
    let p = prefix_end(base);
    let place = pieces(base, path_parts(base));
    let way = pieces(rel, path_parts(rel));
    lemma_prefix_end(base);
    lemma_prefix_end(rel);
    assert(leading_parts(base).len() == 2);
    let top = pieces(base, leading_parts(base));
    let start = names_start(base);
    let own = pieces(base, parts_from(base, start, true));
    assert(place =~= top + own);
    assert(leading_parts(rel) =~= seq![]);
    assert(path_parts(rel) =~= parts_from(rel, 0, false));
    assert forall|k: int| 0 <= k < way.len() implies (#[trigger] way[k]).0 == PartKind::Name by {
        assert(way[k].0 == path_parts(rel)[k].0);
    }
    lemma_walked_names(place, way);
    let names = own + way;
    assert(place + way =~= top + names);
    lemma_parts_are_plain(base, start, true);
    lemma_parts_are_plain(rel, 0, false);
    assert forall|k: int| 0 <= k < names.len() implies is_verbatim_name(#[trigger] names[k]) by {
        if k < own.len() {
            let part = parts_from(base, start, true)[k];
            assert(names[k] == piece(base, part));
            let t = names[k].1;
            assert forall|j: int| 0 <= j < t.len() implies #[trigger] t[j] != '\\' by {
                assert(!separates(t[j], true));
            }
        } else {
            let part = parts_from(rel, 0, false)[k - own.len()];
            assert(names[k] == piece(rel, part));
            let t = names[k].1;
            assert forall|j: int| 0 <= j < t.len() implies #[trigger] t[j] != '\\' by {
                assert(!separates(t[j], false));
            }
        }
    }
    assert(top[0] == piece(base, leading_parts(base)[0]));
    assert(top[0].1 =~= base.take(p));
    assert(top[1].0 == PartKind::Root);
    lemma_written(top, names);
    lemma_verbatim_prefix_stays(base, q);
    lemma_leading_ids(base, q);
    assert(names_start(q) == p + 1);
    lemma_parts_id_concat(base, leading_parts(base), parts_from(base, start, true));
    lemma_parts_id_concat(q, leading_parts(q), parts_from(q, p + 1, true));
    lemma_pieces_id_concat(own, way);
    lemma_pieces_id(base, parts_from(base, start, true));
    lemma_pieces_id(rel, path_parts(rel));
    assert(path_id(q) =~= path_id(base) + path_id(rel));
}

/// Joining a folder and what lies below it gives a path with the parts of
/// both. Where the folder is taken as it is written, there must be no `..` in
/// what lies below it.
pub proof fn lemma_join_id(base: Seq<char>, rel: Seq<char>)
    requires
        holds_names(base),
        is_below(rel),
        is_verbatim(base) ==> has_only_names(rel),
    ensures
        path_id(join(base, rel)) == path_id(base) + path_id(rel),
{
    if is_verbatim(base) {
        lemma_verbatim_join_id(base, rel);
    } else {
        let q = join(base, rel);
        let m = base.len() as int;
        lemma_prefix_end(rel);
        assert(!is_separator(rel[0]));
        assert(q.take(m) =~= base);
        assert(leading_parts(rel) =~= seq![]);
        assert(path_parts(rel) =~= parts_from(rel, 0, false));
        lemma_goes_on_id(base, q, rel);
    }
}

/// A separator at the end of a folder doesn't matter.
proof fn lemma_join_separator(base: Seq<char>)
    requires
        holds_names(base),
        !is_separator(base.last()),
        !(has_drive(base) && base.len() == 2),
    ensures
        path_id(base.push('\\')) == path_id(base),
{
    let q = base.push('\\');
    let rel = Seq::<char>::empty();
    assert(q.take(base.len() as int) =~= base);
    assert(q =~= base.push('\\') + rel);
    lemma_goes_on_id(base, q, rel);
    assert(parts_id(rel, parts_from(rel, 0, is_verbatim(base))) =~= seq![]);
    assert(path_id(q) =~= path_id(base));
}

/// Joining a folder and nothing gives the folder.
pub proof fn lemma_join_nothing(base: Seq<char>, rel: Seq<char>)
    requires
        holds_names(base),
        rel.len() == 0,
    ensures
        path_id(join(base, rel)) == path_id(base) + path_id(rel),
{
    let q = join(base, rel);
    let m = base.len() as int;
    assert(leading_parts(rel) =~= seq![]);
    assert(path_parts(rel) =~= seq![]);
    assert(path_id(rel) =~= seq![]);
    assert(path_id(base) + path_id(rel) =~= path_id(base));
    if q.len() == m {
        assert(q =~= base);
    } else {
        lemma_join_separator(base);
        assert(q =~= base.push('\\'));
    }
}

/// Nothing leads from a folder to the folder itself.
pub proof fn lemma_relative_nothing(s: Seq<char>, base: Seq<char>)
    requires
        path_parts(base).len() > 0,
        relative_to(s, base) matches Some(rel) && rel.len() == 0,
    ensures
        path_id(s) == path_id(base) + path_id(relative_to(s, base)->0),
{
    let rel = relative_to(s, base)->0;
    let parts = path_parts(s);
    let n = path_parts(base).len() as int;
    assert(path_id(rel) =~= seq![]) by {
        assert(leading_parts(rel) =~= seq![]);
        assert(path_parts(rel) =~= seq![]);
    }
    lemma_path_parts(s);
    lemma_prefix_end(s);
    if n < parts.len() {
        let start = names_start(s);
        let lead = leading_parts(s);
        let tail = parts_from(s, start, is_verbatim(s));
        lemma_parts_from(s, start, is_verbatim(s));
        if n < parts.len() - 1 {
            assert(parts[n].2 <= parts[parts.len() - 1].1);
        }
        if n >= lead.len() {
            assert(parts[n] == tail[n - lead.len()]);
            assert(parts[n].1 < parts[n].2);
        } else {
            assert(parts[n] == lead[n]);
            lemma_no_bare_share(s, base);
        }
        assert(parts[n].1 < parts[n].2);
        assert(parts[n].2 <= parts.last().2);
        assert(false);
    }
    assert(parts.take(n) =~= parts);
    assert(path_id(base) + path_id(rel) =~= path_id(base));
}

/// A path that is only a share or a device has a root all the same.
proof fn lemma_share_is_rooted(base: Seq<char>)
    requires
        path_parts(base).len() == 1,
    ensures
        path_id(base).len() > 0,
        path_id(base)[0] != '3' && path_id(base)[0] != '4',
{
    let b = path_parts(base);
    let v = is_verbatim(base);
    lemma_prefix_end(base);
    lemma_parts_from(base, names_start(base), v);
    let lead = leading_parts(base);
    if lead.len() == 0 {
        assert(b[0] == parts_from(base, names_start(base), v)[0]);
    } else {
        assert(b[0] == lead[0]);
    }
    assert(b[0].0 != PartKind::Share && b[0].0 != PartKind::Device);
    assert(b =~= seq![b[0]]);
    lemma_parts_id_one(base, b[0]);
}

proof fn lemma_no_bare_share(s: Seq<char>, base: Seq<char>)
    requires
        0 < path_parts(base).len() < leading_parts(s).len(),
        parts_id(s, path_parts(s).take(path_parts(base).len() as int)) == path_id(base),
    ensures
        path_parts(s)[path_parts(base).len() as int].1 < path_parts(s)[path_parts(
            base,
        ).len() as int].2,
{
    let n = path_parts(base).len() as int;
    let lead = leading_parts(s);
    assert(path_parts(s)[n] == lead[n]);
    lemma_prefix_end(s);
    if !has_root_separator(s) && n == 1 && lead[n].0 == PartKind::Root {
        assert(path_parts(s).take(1) =~= seq![lead[0]]);
        lemma_parts_id_one(s, lead[0]);
        lemma_share_is_rooted(base);
        assert(false);
    }
}

proof fn lemma_verbatim_join_name(base: Seq<char>, name: Seq<char>)
    requires
        is_verbatim(base),
        is_plain_name(name),
        !has_drive(name),
        holds_names(base),
    ensures
        ({
            let q = join(base, name);
            let at = q.len() - name.len();
            &&& is_verbatim(q)
            &&& 0 < at < q.len()
            &&& q.skip(at) == name
            &&& q[at - 1] == '\\'
            &&& names_start(q) <= at
        }),
{
    lemma_name_alone(name);
    let q = join(base, name);
    let at = q.len() - name.len();
    let place = pieces(base, path_parts(base));
    let way = pieces(name, path_parts(name));
    lemma_walked_names(place, way);
    assert((place + way).drop_last() =~= place);
    assert((place + way).last() == way[0]);
    lemma_prefix_end(base);
    assert(leading_parts(base).len() == 2);
    assert(place.len() >= 2);
    let before = written(place);
    if (place + way)[place.len() - 1].0 == PartKind::Root {
        assert(place.last().0 == PartKind::Root);
        assert(before == written(place.drop_last()).push('\\'));
        assert(q == before + name);
    } else {
        assert(q == before.push('\\') + name);
    }
    assert(q[at - 1] == '\\');
    assert(q.skip(at) =~= name);
    lemma_verbatim_written(base, name);
    let k = prefix_end(base);
    if k >= at {
        // The root would stand inside the name.
        assert(q[k] == q.skip(at)[k - at]);
        assert(!is_separator(name[k - at]));
    }
}

/// Joining a folder and a name gives a path of that name.
pub proof fn lemma_join_name(base: Seq<char>, name: Seq<char>)
    requires
        is_plain_name(name),
        !has_drive(name),
        base.len() == 0 || holds_names(base),
    ensures
        file_name(join(base, name)) == Some(name),
{
    let q = join(base, name);
    let v = is_verbatim(base);
    let at = q.len() - name.len();
    lemma_name_alone(name);
    assert(!is_separator(name[0]));
    if base.len() == 0 {
        assert(q =~= name);
        assert(name.subrange(0, name.len() as int) =~= name);
    } else {
        if v {
            lemma_verbatim_join_name(base, name);
        } else {
            lemma_plain_join_name(base, name);
        }
        lemma_prefix_end(q);
        lemma_last_part(q, names_start(q), at, v);
        assert(path_parts(q).last() == parts_from(q, names_start(q), v).last());
        assert(q.subrange(at, q.len() as int) =~= name);
    }
}

proof fn lemma_plain_join_name(base: Seq<char>, name: Seq<char>)
    requires
        !is_verbatim(base),
        is_plain_name(name),
        !has_drive(name),
        holds_names(base),
    ensures
        ({
            let q = join(base, name);
            let at = q.len() - name.len();
            &&& !is_verbatim(q)
            &&& 0 < at < q.len()
            &&& q.skip(at) == name
            &&& names_start(q) <= at
            &&& names_start(q) == at || is_separator(q[at - 1])
        }),
{
    lemma_name_alone(name);
    let q = join(base, name);
    let m = base.len() as int;
    let at = q.len() - name.len();
    assert(!is_separator(name[0]));
    assert(q.take(m) =~= base);
    assert(q.skip(at) =~= name);
    assert(q[at] == name[0]);
    lemma_prefix_longer(base, q);
    lemma_prefix_end(base);
    lemma_prefix_end(q);
    assert(at == m || at == m + 1);
    if at == m {
        assert(q[at - 1] == base.last());
    }
    if has_root_separator(q) && prefix_end(q) >= at {
        assert(q[prefix_end(q)] == q.skip(at)[prefix_end(q) - at]);
        assert(!is_separator(name[prefix_end(q) - at]));
    }
    if begins_with_dot(q) {
        assert(at >= 1);
    }
}

/// A joined path begins like the folder it leads on from.
proof fn lemma_verbatim_written(base: Seq<char>, name: Seq<char>)
    requires
        is_verbatim(base),
        holds_names(base),
        is_plain_name(name),
        !has_drive(name),
    ensures
        ({
            let q = join(base, name);
            &&& is_verbatim(q)
            &&& q.len() > prefix_end(base)
            &&& names_start(q) == prefix_end(base) + 1
            &&& q[prefix_end(base)] == '\\'
        }),
{
    lemma_name_alone(name);
    let q = join(base, name);
    let p = prefix_end(base);
    let place = pieces(base, path_parts(base));
    let way = pieces(name, path_parts(name));
    lemma_prefix_end(base);
    let top = pieces(base, leading_parts(base));
    let start = names_start(base);
    let own = pieces(base, parts_from(base, start, true));
    assert(place =~= top + own);
    assert(way =~= seq![(PartKind::Name, name)]);
    lemma_walked_names(place, way);
    let names = own + way;
    assert(place + way =~= top + names);
    lemma_parts_are_plain(base, start, true);
    assert forall|k: int| 0 <= k < names.len() implies is_verbatim_name(#[trigger] names[k]) by {
        if k < own.len() {
            let part = parts_from(base, start, true)[k];
            assert(names[k] == piece(base, part));
            let t = names[k].1;
            assert forall|j: int| 0 <= j < t.len() implies #[trigger] t[j] != '\\' by {
                assert(!separates(t[j], true));
            }
        } else {
            assert(names[k] == (PartKind::Name, name));
            assert forall|j: int| 0 <= j < name.len() implies #[trigger] name[j] != '\\' by {
                assert(!is_separator(name[j]));
            }
        }
    }
    assert(top[0] == piece(base, leading_parts(base)[0]));
    assert(top[0].1 =~= base.take(p));
    assert(top[1].0 == PartKind::Root);
    lemma_written(top, names);
    lemma_verbatim_prefix_stays(base, q);
}

/// A plain name is a path of one part.
pub proof fn lemma_name_alone(name: Seq<char>)
    requires
        is_plain_name(name),
        !has_drive(name),
    ensures
        path_parts(name) == seq![(PartKind::Name, 0int, name.len() as int)],
        pieces(name, path_parts(name)) == seq![(PartKind::Name, name)],
        is_below(name),
        has_only_names(name),
        path_id(name) == key_id((PartKind::Name, name, seq![])),
{
    assert(!is_separator(name[0]));
    assert(prefix_kind(name) is None);
    assert(!is_rooted(name));
    if begins_with_dot(name) {
        if name.len() == 1 {
            assert(name =~= seq!['.']);
        } else {
            assert(!is_separator(name[1]));
        }
    }
    assert(leading_parts(name) =~= seq![]);
    lemma_next_separator(name, 0, false);
    let e = next_separator(name, 0, false);
    assert(e == name.len()) by {
        if e < name.len() {
            assert(is_separator(name[e]));
        }
    }
    assert(name.subrange(0, e) =~= name);
    assert(parts_from(name, e, false) =~= seq![]);
    assert(path_parts(name) =~= seq![(PartKind::Name, 0int, name.len() as int)]);
    assert(pieces(name, path_parts(name)) =~= seq![(PartKind::Name, name)]);
    lemma_parts_id_one(name, (PartKind::Name, 0int, name.len() as int));
}

/// What a path begins with stays if it is cut behind that.
proof fn lemma_prefix_cut(s: Seq<char>, y: int)
    requires
        names_start(s) <= y <= s.len(),
        y == names_start(s) || y == s.len() || is_separator(s[y]),
    ensures
        ({
            let t = s.take(y);
            &&& is_verbatim(t) == is_verbatim(s)
            &&& prefix_kind(t) == prefix_kind(s)
            &&& prefix_end(t) == prefix_end(s)
            &&& is_rooted(t) == is_rooted(s)
            &&& names_start(t) == names_start(s)
            &&& leading_parts(t) == leading_parts(s)
        }),
{
    let t = s.take(y);
    let p = prefix_end(s);
    lemma_prefix_end(s);
    assert forall|k: int| 0 <= k < y implies #[trigger] t[k] == s[k] by {}
    if is_verbatim(s) {
        if is_verbatim_share(s) {
            lemma_next_separator(s, 8, true);
            lemma_separator_cut(s, 8, y, true);
            let a = next_separator(s, 8, true);
            if a < s.len() {
                lemma_next_separator(s, a + 1, true);
                if a + 1 < next_separator(s, a + 1, true) {
                    lemma_separator_cut(s, a + 1, y, true);
                } else {
                    assert(next_separator(t, a + 1, true) <= a + 1) by {
                        if a + 1 < y {
                            assert(t[a + 1] == s[a + 1]);
                        }
                    }
                    lemma_next_separator(t, a + 1, true);
                }
            }
        } else if is_verbatim_drive(s) {
        } else {
            lemma_separator_cut(s, 4, y, true);
            lemma_next_separator(s, 4, true);
            assert(!is_verbatim_drive(t)) by {
                if is_verbatim_drive(t) {
                    assert(y == 6);
                    assert(p == 6);
                }
            }
        }
    } else if is_device(s) {
        lemma_separator_cut(s, 4, y, false);
    } else if share_end(s) > 0 {
        let a = next_separator(s, 2, false);
        lemma_next_separator(s, 2, false);
        lemma_separator_cut(s, 2, y, false);
        lemma_separator_cut(s, a + 1, y, false);
        assert(share_end(t) == share_end(s));
    } else {
        assert(prefix_kind(s) == Some(PartKind::Drive) || prefix_kind(s) is None);
        lemma_no_share_cut(s, y);
    }
    lemma_prefix_end(t);
    assert(has_root_separator(t) == has_root_separator(s)) by {
        if has_root_separator(s) {
            assert(t[p] == s[p]);
        }
    }
    assert(leading_parts(t) =~= leading_parts(s));
}

proof fn lemma_no_share_cut(s: Seq<char>, y: int)
    requires
        0 <= y <= s.len(),
        !is_verbatim(s),
        !is_device(s),
        share_end(s) == 0,
        names_start(s) <= y,
        y == names_start(s) || y == s.len() || is_separator(s[y]),
    ensures
        ({
            let t = s.take(y);
            &&& !is_verbatim(t)
            &&& !is_device(t)
            &&& share_end(t) == 0
            &&& has_drive(t) == has_drive(s)
            &&& begins_with_dot(t) == begins_with_dot(s)
        }),
{
    let t = s.take(y);
    assert forall|k: int| 0 <= k < y implies #[trigger] t[k] == s[k] by {}
    if y >= 2 && is_separator(t[0]) && is_separator(t[1]) {
        let a = next_separator(t, 2, false);
        lemma_next_separator(t, 2, false);
        if a < y {
            lemma_next_separator_longer(t, s, 2, false);
            lemma_next_separator(t, a + 1, false);
            if a + 1 < next_separator(t, a + 1, false) {
                lemma_next_separator(s, a + 1, false);
                assert(!is_separator(s[a + 1]));
                assert(a + 1 < next_separator(s, a + 1, false));
            }
        }
    }
    lemma_prefix_end(s);
}

proof fn lemma_parent_parts(s: Seq<char>)
    requires
        parent(s) is Some,
        path_parts(s).len() > 1,
    ensures
        path_parts(parent(s)->0) == path_parts(s).drop_last(),
{
    let v = is_verbatim(s);
    let parts = path_parts(s);
    let lead = leading_parts(s);
    let start = names_start(s);
    let tail = parts_from(s, start, v);
    let t = parent(s)->0;
    lemma_prefix_end(s);
    lemma_parts_from(s, start, v);
    let k = parts.len() - 2;
    let y = parts[k].2;
    if k >= lead.len() {
        let j = k - lead.len();
        assert(parts[k] == tail[j]);
        lemma_part_shape(s, start, j, v);
        lemma_next_separator(s, tail[j].1, v);
        lemma_parts_cut(s, start, j, v);
        lemma_prefix_cut(s, y);
        assert(path_parts(t) =~= parts.drop_last());
    } else {
        lemma_lead_end(s);
        assert(parts[k] == lead[lead.len() - 1]);
        lemma_prefix_cut(s, y);
        assert(parts_from(t, start, v) =~= seq![]);
        assert(path_parts(t) =~= parts.drop_last());
    }
}

/// What stands before the names ends where they begin.
proof fn lemma_lead_end(s: Seq<char>)
    requires
        path_parts(s).len() > 1,
        path_parts(s).len() <= leading_parts(s).len() + 1,
        has_parent(path_parts(s).last().0),
    ensures
        path_parts(s).len() == leading_parts(s).len() + 1,
        leading_parts(s).last().2 == names_start(s),
{
    let lead = leading_parts(s);
    let tail = parts_from(s, names_start(s), is_verbatim(s));
    lemma_prefix_end(s);
    if tail.len() == 0 {
        assert(path_parts(s) =~= lead);
        assert(path_parts(s).last() == lead[lead.len() - 1]);
        assert(false);
    }
    if prefix_end(s) == s.len() {
        assert(tail =~= seq![]);
    }
    assert(lead.last() == lead[lead.len() - 1]);
}

/// A path is made up of the parts of its parent and of its last one.
pub proof fn lemma_parent_id(s: Seq<char>)
    requires
        parent(s) is Some,
    ensures
        path_id(s) == path_id(parent(s)->0) + part_id(s, path_parts(s).last()),
{
    let parts = path_parts(s);
    let t = parent(s)->0;
    let front = parts.drop_last();
    if parts.len() == 1 {
        assert(leading_parts(t) =~= seq![]);
        assert(path_parts(t) =~= seq![]);
        assert(front =~= seq![]);
        assert(path_id(t) =~= seq![]);
        assert(parts_id(s, front) =~= seq![]);
    } else {
        let k = parts.len() - 2;
        let y = parts[k].2;
        lemma_parent_parts(s);
        lemma_path_parts(s);
        assert forall|a: int| 0 <= a < front.len() implies 0 <= (#[trigger] front[a]).1
            <= front[a].2 <= y by {
            assert(front[a] == parts[a]);
            if a < k {
                assert(parts[a].2 <= parts[k].1);
            }
        }
        lemma_parts_id_cut(s, y, front);
    }
}

/// A name in a folder has the folder for its parent.
pub proof fn lemma_join_parent(base: Seq<char>, name: Seq<char>)
    requires
        is_plain_name(name),
        !has_drive(name),
        holds_names(base),
    ensures
        parent(join(base, name)) matches Some(up) && same_path(up, base),
{
    let q = join(base, name);
    lemma_name_alone(name);
    lemma_join_name(base, name);
    lemma_join_id(base, name);
    lemma_parent_id(q);
    let a = path_id(parent(q)->0);
    let b = path_id(base);
    let k = path_id(name);
    assert(part_id(q, path_parts(q).last()) == k);
    assert(a.len() == b.len()) by {
        assert((a + k).len() == a.len() + k.len() && (b + k).len() == b.len() + k.len());
    }
    assert(a =~= (a + k).take(a.len() as int));
    assert(b =~= (b + k).take(b.len() as int));
}

/// What the parts of a path are told apart by.
pub open spec fn path_keys(s: Seq<char>) -> Seq<(PartKind, Seq<char>, Seq<char>)> {
    path_parts(s).map_values(|p: (PartKind, int, int)| part_key(piece(s, p)))
}

spec fn keys_id(ks: Seq<(PartKind, Seq<char>, Seq<char>)>) -> Seq<char>
    decreases ks.len(),
{
    if ks.len() == 0 {
        seq![]
    } else {
        keys_id(ks.drop_last()) + key_id(ks.last())
    }
}

proof fn lemma_keys_id(s: Seq<char>, parts: Seq<(PartKind, int, int)>)
    ensures
        keys_id(parts.map_values(|p: (PartKind, int, int)| part_key(piece(s, p)))) == parts_id(
            s,
            parts,
        ),
    decreases parts.len(),
{
    let f = |p: (PartKind, int, int)| part_key(piece(s, p));
    if parts.len() > 0 {
        lemma_keys_id(s, parts.drop_last());
        assert(parts.map_values(f).drop_last() =~= parts.drop_last().map_values(f));
    }
}

proof fn lemma_keys_front(ks: Seq<(PartKind, Seq<char>, Seq<char>)>)
    requires
        ks.len() > 0,
    ensures
        keys_id(ks) == key_id(ks[0]) + keys_id(ks.skip(1)),
    decreases ks.len(),
{
    if ks.len() == 1 {
        assert(ks.drop_last() =~= seq![]);
        assert(ks.skip(1) =~= seq![]);
        assert(keys_id(ks) =~= key_id(ks[0]) + keys_id(ks.skip(1)));
    } else {
        lemma_keys_front(ks.drop_last());
        assert(ks.drop_last().skip(1) =~= ks.skip(1).drop_last());
        assert(keys_id(ks) =~= key_id(ks[0]) + keys_id(ks.skip(1)));
    }
}

proof fn lemma_escaped_front(x: Seq<char>)
    requires
        x.len() > 0,
    ensures
        escaped(x) == (if x[0] == '\0' {
            seq!['\0', ':']
        } else {
            seq![x[0]]
        }) + escaped(x.skip(1)),
    decreases x.len(),
{
    if x.len() == 1 {
        assert(x.drop_last() =~= seq![]);
        assert(x.skip(1) =~= seq![]);
        assert(escaped(x.skip(1)) =~= seq![]);
        assert(escaped(x.drop_last()) =~= seq![]);
    } else {
        lemma_escaped_front(x.drop_last());
        assert(x.drop_last().skip(1) =~= x.skip(1).drop_last());
    }
    assert(escaped(x) =~= (if x[0] == '\0' {
        seq!['\0', ':']
    } else {
        seq![x[0]]
    }) + escaped(x.skip(1)));
}

/// Whether what follows a name can't be taken for a piece of it.
spec fn starts_apart(r: Seq<char>) -> bool {
    r.len() > 0 ==> r[0] != ':'
}

proof fn lemma_escaped_apart(x: Seq<char>, r: Seq<char>, y: Seq<char>, t: Seq<char>)
    requires
        escaped(x) + seq!['\0'] + r == escaped(y) + seq!['\0'] + t,
        starts_apart(r),
        starts_apart(t),
    ensures
        x == y,
        r == t,
    decreases x.len(),
{
    let a = escaped(x) + seq!['\0'] + r;
    let b = escaped(y) + seq!['\0'] + t;
    if x.len() > 0 {
        lemma_escaped_front(x);
    }
    if y.len() > 0 {
        lemma_escaped_front(y);
    }
    if x.len() == 0 && y.len() == 0 {
        assert(a.skip(1) =~= r && b.skip(1) =~= t);
        assert(x =~= y);
    } else if x.len() == 0 {
        assert(a[0] == '\0');
        assert(b[0] == y[0]);
        assert(b[1] == ':');
        assert(a[1] == r[0]);
        assert(false);
    } else if y.len() == 0 {
        assert(b[0] == '\0');
        assert(a[0] == x[0]);
        assert(a[1] == ':');
        assert(b[1] == t[0]);
        assert(false);
    } else {
        assert(a[0] == x[0] && b[0] == y[0]);
        let n = if x[0] == '\0' {
            2int
        } else {
            1int
        };
        assert(a.skip(n) =~= escaped(x.skip(1)) + seq!['\0'] + r);
        assert(b.skip(n) =~= escaped(y.skip(1)) + seq!['\0'] + t);
        lemma_escaped_apart(x.skip(1), r, y.skip(1), t);
        assert(x =~= seq![x[0]] + x.skip(1));
        assert(y =~= seq![y[0]] + y.skip(1));
    }
}

/// Whether a part has a second name only if it is that of a share.
spec fn is_key(k: (PartKind, Seq<char>, Seq<char>)) -> bool {
    k.0 == PartKind::VerbatimShare || k.0 == PartKind::Share || k.2 == Seq::<char>::empty()
}

proof fn lemma_rank_apart(a: PartKind, b: PartKind)
    ensures
        kind_rank(a) == kind_rank(b) ==> a == b,
        kind_rank(a) != ':',
{
}

proof fn lemma_key_apart(
    k: (PartKind, Seq<char>, Seq<char>),
    r: Seq<char>,
    l: (PartKind, Seq<char>, Seq<char>),
    t: Seq<char>,
)
    requires
        is_key(k),
        is_key(l),
        key_id(k) + r == key_id(l) + t,
        starts_apart(r),
        starts_apart(t),
    ensures
        k == l,
        r == t,
{
    let a = key_id(k) + r;
    let b = key_id(l) + t;
    assert(a[0] == kind_rank(k.0) && b[0] == kind_rank(l.0));
    lemma_rank_apart(k.0, l.0);
    if k.0 == PartKind::VerbatimShare || k.0 == PartKind::Share {
        let u = seq!['0'] + escaped(k.2) + seq!['\0'] + r;
        let w = seq!['0'] + escaped(l.2) + seq!['\0'] + t;
        assert(a.skip(1) =~= escaped(k.1) + seq!['\0'] + u);
        assert(b.skip(1) =~= escaped(l.1) + seq!['\0'] + w);
        lemma_escaped_apart(k.1, u, l.1, w);
        assert(u.skip(1) =~= escaped(k.2) + seq!['\0'] + r);
        assert(w.skip(1) =~= escaped(l.2) + seq!['\0'] + t);
        lemma_escaped_apart(k.2, r, l.2, t);
    } else {
        assert(a.skip(1) =~= escaped(k.1) + seq!['\0'] + r);
        assert(b.skip(1) =~= escaped(l.1) + seq!['\0'] + t);
        lemma_escaped_apart(k.1, r, l.1, t);
    }
}

proof fn lemma_keys_apart(
    x: Seq<(PartKind, Seq<char>, Seq<char>)>,
    y: Seq<(PartKind, Seq<char>, Seq<char>)>,
)
    requires
        forall|i: int| 0 <= i < x.len() ==> is_key(#[trigger] x[i]),
        forall|i: int| 0 <= i < y.len() ==> is_key(#[trigger] y[i]),
        keys_id(x) == keys_id(y),
    ensures
        x == y,
    decreases x.len(),
{
    if x.len() > 0 {
        lemma_keys_front(x);
        lemma_keys_begin(x.skip(1));
    }
    if y.len() > 0 {
        lemma_keys_front(y);
        lemma_keys_begin(y.skip(1));
    }
    if x.len() == 0 || y.len() == 0 {
        assert(x =~= y);
    } else {
        lemma_key_apart(x[0], keys_id(x.skip(1)), y[0], keys_id(y.skip(1)));
        assert forall|i: int| 0 <= i < x.skip(1).len() implies is_key(#[trigger] x.skip(1)[i]) by {
            assert(x.skip(1)[i] == x[i + 1]);
        }
        assert forall|i: int| 0 <= i < y.skip(1).len() implies is_key(#[trigger] y.skip(1)[i]) by {
            assert(y.skip(1)[i] == y[i + 1]);
        }
        lemma_keys_apart(x.skip(1), y.skip(1));
        assert(x =~= seq![x[0]] + x.skip(1));
        assert(y =~= seq![y[0]] + y.skip(1));
    }
}

proof fn lemma_keys_begin(ks: Seq<(PartKind, Seq<char>, Seq<char>)>)
    ensures
        starts_apart(keys_id(ks)),
{
    if ks.len() > 0 {
        lemma_keys_front(ks);
        lemma_rank_apart(ks[0].0, ks[0].0);
        assert(keys_id(ks)[0] == kind_rank(ks[0].0));
    }
}

/// A path that begins with the parts of another is told by the same.
pub proof fn lemma_relative_keys(s: Seq<char>, base: Seq<char>)
    requires
        relative_to(s, base) is Some,
    ensures
        path_parts(base).len() <= path_parts(s).len(),
        forall|k: int|
            0 <= k < path_parts(base).len() ==> (#[trigger] path_parts(s)[k]).0 == path_parts(
                base,
            )[k].0,
{
    let n = path_parts(base).len() as int;
    let head = path_parts(s).take(n);
    let f = |p: (PartKind, int, int)| part_key(piece(s, p));
    lemma_keys_id(s, head);
    lemma_keys_id(base, path_parts(base));
    lemma_keys_apart(head.map_values(f), path_keys(base));
    assert forall|k: int| 0 <= k < n implies (#[trigger] path_parts(s)[k]).0 == path_parts(
        base,
    )[k].0 by {
        assert(head[k] == path_parts(s)[k]);
        assert(head.map_values(f)[k] == path_keys(base)[k]);
    }
}

/// The root comes right before the names.
pub proof fn lemma_root_is_last(s: Seq<char>, k: int)
    requires
        0 <= k < path_parts(s).len(),
        path_parts(s)[k].0 == PartKind::Root,
    ensures
        k == leading_parts(s).len() - 1,
        is_rooted(s),
        names_start(s) == body_start(s),
{
    lemma_prefix_end(s);
    lemma_parts_from(s, names_start(s), is_verbatim(s));
    if k >= leading_parts(s).len() {
        assert(path_parts(s)[k] == parts_from(s, names_start(s), is_verbatim(s))[k
            - leading_parts(s).len()]);
    } else {
        assert(path_parts(s)[k] == leading_parts(s)[k]);
    }
}

/// A path that reads alike behind its root does so from its first name on.
pub proof fn lemma_alike_from_first(s: Seq<char>)
    requires
        reads_alike(s, body_start(s)),
        leading_parts(s).len() < path_parts(s).len(),
    ensures
        reads_alike(s, path_parts(s)[leading_parts(s).len() as int].1),
{
    lemma_prefix_end(s);
    if is_verbatim(s) {
        let b = body_start(s);
        let tail = parts_from(s, b, true);
        assert(path_parts(s)[leading_parts(s).len() as int] == tail[0]);
        lemma_parts_from_part(s, b, 0, true);
        lemma_parts_from_part(s, b, 0, false);
    }
}

/// A prefix ends in no backslash, unless it is a mere beginning; only one that
/// is taken as it is written may end in a slash.
pub proof fn lemma_prefix_tidy(s: Seq<char>)
    requires
        prefix_kind(s) is Some,
        is_verbatim(s) || is_device(s) ==> prefix_end(s) > 4,
        prefix_kind(s) != Some(PartKind::VerbatimShare),
    ensures
        s[prefix_end(s) - 1] != '\\',
        !is_verbatim(s) ==> s[prefix_end(s) - 1] != '/',
{
    lemma_prefix_end(s);
    if s.len() >= 4 {
        lemma_next_separator(s, 4, true);
        lemma_next_separator(s, 4, false);
    }
    if share_end(s) > 0 {
        lemma_next_separator(s, next_separator(s, 2, false) + 1, false);
    }
}

/// A prefix and a root behind it are read as such.
pub proof fn lemma_prefix_rooted(s: Seq<char>, root: Seq<char>)
    requires
        prefix_kind(s) is Some,
        prefix_kind(s) != Some(PartKind::VerbatimShare),
        is_verbatim(s) || is_device(s) ==> prefix_end(s) > 4,
        root == s.take(prefix_end(s)).push('\\'),
        prefix_kind(s) == Some(PartKind::Verbatim) ==> s.len() > prefix_end(s),
    ensures
        is_verbatim(root) == is_verbatim(s),
        prefix_kind(root) == prefix_kind(s),
        prefix_end(root) == prefix_end(s),
        has_root_separator(root),
        holds_names(root),
{
    let p = prefix_end(s);
    lemma_prefix_end(s);
    let t = s.take(p);
    assert(root.take(p) =~= t);
    assert forall|k: int| 0 <= k < p implies #[trigger] root[k] == s[k] by {}
    if is_verbatim(s) {
        if !is_verbatim_drive(s) {
            lemma_next_separator(s, 4, true);
            lemma_separator_cut(s, 4, p, true);
            lemma_next_separator_longer(t, root, 4, true);
        }
    } else if is_device(s) {
        lemma_next_separator(s, 4, false);
        lemma_separator_cut(s, 4, p, false);
        lemma_next_separator_longer(t, root, 4, false);
    } else if share_end(s) > 0 {
        let a = next_separator(s, 2, false);
        lemma_next_separator(s, 2, false);
        lemma_separator_cut(s, 2, p, false);
        lemma_separator_cut(s, a + 1, p, false);
        lemma_next_separator_longer(t, root, 2, false);
        lemma_next_separator_longer(t, root, a + 1, false);
        assert(share_end(root) == share_end(s));
    } else {
        assert(p == 2);
        assert(share_end(root) == 0);
    }
}

/// Two paths are the same exactly if their parts are, one by one, whatever
/// characters their names are made of.
pub proof fn law_same_paths_have_same_parts(a: Seq<char>, b: Seq<char>)
    ensures
        same_path(a, b) <==> path_keys(a) == path_keys(b),
{
    lemma_keys_id(a, path_parts(a));
    lemma_keys_id(b, path_parts(b));
    if same_path(a, b) {
        lemma_keys_apart(path_keys(a), path_keys(b));
    }
}

/// A part found in a path: its kind, where it begins and where it ends.
pub type FoundPart = (PartKind, usize, usize);

/// The found parts as integers.
pub open spec fn found(v: Seq<FoundPart>) -> Seq<(PartKind, int, int)> {
    v.map_values(|p: FoundPart| (p.0, p.1 as int, p.2 as int))
}

fn is_sep_in(c: char, verbatim: bool) -> (r: bool)
    ensures
        r == separates(c, verbatim),
{
    c == '\\' || (c == '/' && !verbatim)
}

fn find_separator(s: &[char], from: usize, verbatim: bool) -> (r: usize)
    requires
        from <= s@.len(),
    ensures
        r == next_separator(s@, from as int, verbatim),
        from <= r <= s@.len(),
{
    let mut i: usize = from;
    while i < s.len() && !is_sep_in(s[i], verbatim)
        invariant
            from <= i <= s@.len(),
            next_separator(s@, from as int, verbatim) == next_separator(s@, i as int, verbatim),
        decreases s@.len() - i,
    {
        i = i + 1;
    }
    i
}

fn drive_at(s: &[char], i: usize) -> (r: bool)
    requires
        i <= 4,
    ensures
        r == has_drive_at(s@, i as int),
{
    s.len() >= i + 2 && (('A' <= s[i] && s[i] <= 'Z') || ('a' <= s[i] && s[i] <= 'z')) && s[i + 1]
        == ':'
}

/// Decides [`has_drive`].
pub fn starts_with_drive(s: &[char]) -> (r: bool)
    ensures
        r == has_drive(s@),
{
    drive_at(s, 0)
}

/// Decides [`is_verbatim`].
pub fn starts_verbatim(s: &[char]) -> (r: bool)
    ensures
        r == is_verbatim(s@),
{
    s.len() >= 4 && s[0] == '\\' && s[1] == '\\' && s[2] == '?' && s[3] == '\\'
}

fn find_share_end(s: &[char]) -> (r: usize)
    ensures
        r == share_end(s@),
{
    if s.len() >= 2 && is_sep(s[0]) && is_sep(s[1]) {
        let a: usize = find_separator(s, 2, false);
        if 2 < a && a < s.len() {
            let b: usize = find_separator(s, a + 1, false);
            if a + 1 < b {
                return b;
            }
        }
    }
    0
}

fn find_verbatim_share_end(s: &[char]) -> (r: usize)
    requires
        s@.len() >= 8,
    ensures
        r == verbatim_share_end(s@),
{
    let a: usize = find_separator(s, 8, true);
    if a < s.len() {
        let b: usize = find_separator(s, a + 1, true);
        if a + 1 < b {
            return b;
        }
    }
    a
}

/// Finds what the path begins with before its root and its names, and where
/// that ends.
pub fn find_prefix(s: &[char]) -> (r: (Option<PartKind>, usize))
    ensures
        r.0 == prefix_kind(s@),
        r.1 == prefix_end(s@),
{
    if starts_verbatim(s) {
        if s.len() >= 8 && s[4] == 'U' && s[5] == 'N' && s[6] == 'C' && is_sep(s[7]) {
            (Some(PartKind::VerbatimShare), find_verbatim_share_end(s))
        } else if drive_at(s, 4) && (s.len() == 6 || is_sep(s[6])) {
            (Some(PartKind::VerbatimDrive), 6)
        } else {
            (Some(PartKind::Verbatim), find_separator(s, 4, true))
        }
    } else if s.len() >= 4 && is_sep(s[0]) && is_sep(s[1]) && s[2] == '.' && is_sep(s[3]) {
        (Some(PartKind::Device), find_separator(s, 4, false))
    } else {
        let b: usize = find_share_end(s);
        if b > 0 {
            (Some(PartKind::Share), b)
        } else if starts_with_drive(s) {
            (Some(PartKind::Drive), 2)
        } else {
            (None, 0)
        }
    }
}

/// Finds the parts of a path.
pub fn parse(s: &[char]) -> (r: Vec<FoundPart>)
    ensures
        found(r@) == path_parts(s@),
{
    let mut out: Vec<FoundPart> = Vec::new();
    let (kind, p): (Option<PartKind>, usize) = find_prefix(s);
    let verbatim: bool = starts_verbatim(s);
    proof {
        lemma_prefix_end(s@);
    }
    let separator: bool = p < s.len() && is_sep(s[p]);
    let rooted: bool = separator || kind == Some(PartKind::Share) || kind == Some(PartKind::Device);
    let b: usize = if separator {
        p + 1
    } else {
        p
    };
    let dot: bool = kind.is_none() && s.len() > 0 && s[0] == '.' && (s.len() == 1 || is_sep(s[1]));
    if let Some(k) = kind {
        out.push((k, 0, p));
    }
    if rooted {
        out.push((PartKind::Root, p, b));
    }
    if dot {
        out.push((PartKind::CurDir, 0, 1));
    }
    assert(found(out@) =~= leading_parts(s@));
    let mut i: usize = if dot {
        1
    } else {
        b
    };
    while i < s.len()
        invariant
            i <= s@.len(),
            verbatim == is_verbatim(s@),
            found(out@) + parts_from(s@, i as int, verbatim) == path_parts(s@),
        decreases s@.len() - i,
    {
        if is_sep_in(s[i], verbatim) {
            i = i + 1;
        } else {
            let e: usize = find_separator(s, i, verbatim);
            proof {
                lemma_next_separator(s@, i as int, verbatim);
            }
            let ghost name = s@.subrange(i as int, e as int);
            let ghost before = found(out@);
            let one: bool = e - i == 1 && s[i] == '.';
            let two: bool = e - i == 2 && s[i] == '.' && s[i + 1] == '.';
            proof {
                assert(one == (name == seq!['.'])) by {
                    if one {
                        assert(name =~= seq!['.']);
                    } else if name == seq!['.'] {
                        assert(seq!['.'].len() == 1 && seq!['.'][0] == '.');
                        assert(s@[i as int] == name[0]);
                    }
                }
                assert(two == (name == seq!['.', '.'])) by {
                    if two {
                        assert(name =~= seq!['.', '.']);
                    } else if name == seq!['.', '.'] {
                        let d = seq!['.', '.'];
                        assert(d.len() == 2 && d[0] == '.' && d[1] == '.');
                        assert(s@[i as int] == name[0] && s@[i + 1] == name[1]);
                    }
                }
            }
            if !one || verbatim {
                let k: PartKind = if one {
                    PartKind::CurDir
                } else if two {
                    PartKind::ParentDir
                } else {
                    PartKind::Name
                };
                out.push((k, i, e));
                assert(found(out@) =~= before.push((k, i as int, e as int)));
                assert(found(out@) + parts_from(s@, e as int, verbatim) =~= before + parts_from(
                    s@,
                    i as int,
                    verbatim,
                ));
            }
            i = e;
        }
    }
    assert(parts_from(s@, i as int, verbatim) =~= seq![]);
    assert(found(out@) + parts_from(s@, i as int, verbatim) =~= found(out@));
    out
}

/// Computes [`file_name`].
pub fn file_name_of(path: &str) -> (r: Option<String>)
    ensures
        match r {
            Some(n) => file_name(path@) == Some(n@),
            None => file_name(path@) is None,
        },
{
    let cs = text::to_chars(path);
    let parts = parse(cs.as_slice());
    proof {
        lemma_path_parts(cs@);
    }
    if parts.len() == 0 {
        return None;
    }
    let last: FoundPart = parts[parts.len() - 1];
    assert(found(parts@).last() == (last.0, last.1 as int, last.2 as int));
    if last.0 == PartKind::Name {
        Some(text::from_chars(slice_subrange(cs.as_slice(), last.1, last.2)))
    } else {
        None
    }
}

/// The file name, or nothing where there is none.
pub fn file_name_or_empty(path: &str) -> (r: String)
    ensures
        r@ == name_or_empty(path@),
{
    match file_name_of(path) {
        Some(n) => n,
        None => String::new(),
    }
}

/// The file name, or nothing where there is none.
pub open spec fn name_or_empty(s: Seq<char>) -> Seq<char> {
    match file_name(s) {
        Some(n) => n,
        None => seq![],
    }
}

/// Computes [`extension`].
pub fn extension_of(path: &str) -> (r: Option<String>)
    ensures
        match r {
            Some(e) => extension(path@) == Some(e@),
            None => extension(path@) is None,
        },
{
    match file_name_of(path) {
        Some(name) => {
            let n = text::to_chars(name.as_str());
            match text::rfind(n.as_slice(), '.') {
                Some(dot) if dot > 0 => {
                    let e = slice_subrange(n.as_slice(), dot + 1, n.len());
                    assert(e@ =~= n@.skip(dot + 1));
                    Some(text::from_chars(e))
                },
                _ => None,
            }
        },
        None => None,
    }
}

/// The extension in lower case.
pub open spec fn lower_extension(s: Seq<char>) -> Option<Seq<char>> {
    match extension(s) {
        Some(e) => Some(text::lowercase(e)),
        None => None,
    }
}

/// Computes [`lower_extension`].
pub fn lower_extension_of(path: &str) -> (r: Option<String>)
    ensures
        match r {
            Some(e) => lower_extension(path@) == Some(e@),
            None => lower_extension(path@) is None,
        },
{
    match extension_of(path) {
        Some(e) => Some(text::to_lowercase(e.as_str())),
        None => None,
    }
}

/// Computes [`file_stem`].
pub fn file_stem_of(path: &str) -> (r: Option<String>)
    ensures
        match r {
            Some(e) => file_stem(path@) == Some(e@),
            None => file_stem(path@) is None,
        },
{
    match file_name_of(path) {
        Some(name) => {
            let n = text::to_chars(name.as_str());
            match text::rfind(n.as_slice(), '.') {
                Some(dot) if dot > 0 => {
                    let e = slice_subrange(n.as_slice(), 0, dot);
                    assert(e@ =~= n@.take(dot as int));
                    Some(text::from_chars(e))
                },
                _ => Some(name),
            }
        },
        None => None,
    }
}

/// Computes [`parent`].
pub fn parent_of(path: &str) -> (r: Option<String>)
    ensures
        match r {
            Some(p) => parent(path@) == Some(p@),
            None => parent(path@) is None,
        },
{
    let cs = text::to_chars(path);
    let parts = parse(cs.as_slice());
    proof {
        lemma_path_parts(cs@);
    }
    if parts.len() == 0 {
        return None;
    }
    let last: FoundPart = parts[parts.len() - 1];
    assert(found(parts@).last() == (last.0, last.1 as int, last.2 as int));
    let up: bool = match last.0 {
        PartKind::CurDir | PartKind::ParentDir | PartKind::Name => true,
        _ => false,
    };
    if !up {
        None
    } else if parts.len() == 1 {
        Some(String::new())
    } else {
        let before: FoundPart = parts[parts.len() - 2];
        assert(found(parts@)[parts@.len() - 2] == (before.0, before.1 as int, before.2 as int));
        let head = slice_subrange(cs.as_slice(), 0, before.2);
        assert(head@ =~= cs@.take(before.2 as int));
        Some(text::from_chars(head))
    }
}

/// A part with its text as it was found.
pub type FoundPiece = (PartKind, Vec<char>);

/// The found parts with their texts.
pub open spec fn spelled(v: Seq<FoundPiece>) -> Seq<Piece> {
    v.map_values(|p: FoundPiece| (p.0, p.1@))
}

fn copy_chars(s: &[char]) -> (r: Vec<char>)
    ensures
        r@ == s@,
{
    let mut out: Vec<char> = Vec::new();
    out.extend_from_slice(s);
    assert(out@ =~= s@);
    out
}

fn find_pieces(s: &[char]) -> (r: Vec<FoundPiece>)
    ensures
        spelled(r@) == pieces(s@, path_parts(s@)),
{
    let parts = parse(s);
    proof {
        lemma_path_parts(s@);
    }
    let ghost all = path_parts(s@);
    let mut out: Vec<FoundPiece> = Vec::new();
    let mut i: usize = 0;
    while i < parts.len()
        invariant
            i <= parts@.len(),
            all == path_parts(s@),
            found(parts@) == all,
            parts_in_order(all, 0, s@.len() as int),
            spelled(out@) =~= pieces(s@, all.take(i as int)),
        decreases parts@.len() - i,
    {
        let part: FoundPart = parts[i];
        assert(all[i as int] == (part.0, part.1 as int, part.2 as int));
        let ghost before = spelled(out@);
        let t = copy_chars(slice_subrange(s, part.1, part.2));
        assert(t@ =~= s@.subrange(part.1 as int, part.2 as int));
        out.push((part.0, t));
        assert(spelled(out@) =~= before.push((part.0, t@)));
        assert(all.take(i + 1) =~= all.take(i as int).push(all[i as int]));
        i = i + 1;
    }
    assert(all.take(parts@.len() as int) =~= all);
    out
}

/// Finds [`walked`].
fn walk(place: Vec<FoundPiece>, way: &Vec<FoundPiece>) -> (r: Vec<FoundPiece>)
    requires
        place@.len() > 0,
        place@[0].0 != PartKind::Name,
    ensures
        spelled(r@) == walked(spelled(place@), spelled(way@)),
{
    let ghost from = spelled(place@);
    let ghost steps = spelled(way@);
    let mut at: Vec<FoundPiece> = place;
    let mut i: usize = 0;
    assert(steps.take(0) =~= seq![]);
    while i < way.len()
        invariant
            i <= way@.len(),
            steps == spelled(way@),
            spelled(at@) == walked(from, steps.take(i as int)),
            at@.len() > 0,
            at@[0].0 != PartKind::Name,
        decreases way@.len() - i,
    {
        let kind: PartKind = way[i].0;
        let ghost before = spelled(at@);
        let text: Vec<char> = way[i].1.clone();
        assert(text@ =~= way@[i as int].1@);
        assert(steps[i as int] == (kind, text@));
        assert(steps.take(i + 1).drop_last() =~= steps.take(i as int));
        assert(steps.take(i + 1).last() == (kind, text@));
        match kind {
            PartKind::Root => {
                at.truncate(1);
                at.push((kind, text));
                assert(spelled(at@) =~= before.take(1).push((kind, text@)));
            },
            PartKind::CurDir => {},
            PartKind::ParentDir => {
                let last: usize = at.len() - 1;
                assert(before.last().0 == at@[last as int].0);
                if at[last].0 == PartKind::Name {
                    at.pop();
                    assert(spelled(at@) =~= before.drop_last());
                }
            },
            _ => {
                at.push((kind, text));
                assert(spelled(at@) =~= before.push((kind, text@)));
            },
        }
        i = i + 1;
    }
    assert(steps.take(way@.len() as int) =~= steps);
    at
}

/// Writes [`written`].
fn write_pieces(parts: &Vec<FoundPiece>) -> (r: Vec<char>)
    ensures
        r@ == written(spelled(parts@)),
{
    let ghost all = spelled(parts@);
    let mut out: Vec<char> = Vec::new();
    let mut i: usize = 0;
    assert(all.take(0) =~= seq![]);
    while i < parts.len()
        invariant
            i <= parts@.len(),
            all == spelled(parts@),
            out@ == written(all.take(i as int)),
        decreases parts@.len() - i,
    {
        let kind: PartKind = parts[i].0;
        let ghost before = out@;
        proof {
            let now = all.take(i + 1);
            assert(now.drop_last() =~= all.take(i as int));
            assert(now.last() == (kind, parts@[i as int].1@));
            if i > 0 {
                assert(now[i - 1] == all[i - 1]);
            }
        }
        if kind == PartKind::Root {
            out.push('\\');
        } else {
            if i > 0 && parts[i - 1].0 != PartKind::Root {
                out.push('\\');
            }
            out.extend_from_slice(parts[i].1.as_slice());
        }
        assert(out@ =~= written(all.take(i + 1)));
        i = i + 1;
    }
    assert(all.take(parts@.len() as int) =~= all);
    out
}

/// Computes [`join`].
pub fn join_paths(base: &str, rel: &str) -> (r: String)
    ensures
        r@ == join(base@, rel@),
{
    let b = text::to_chars(base);
    let s = text::to_chars(rel);
    proof {
        lemma_prefix_end(b@);
        lemma_prefix_end(s@);
    }
    if find_prefix(s.as_slice()).0.is_some() {
        return rel.to_owned();
    }
    if starts_verbatim(b.as_slice()) && s.len() > 0 {
        let place = find_pieces(b.as_slice());
        let way = find_pieces(s.as_slice());
        proof {
            assert(path_parts(b@)[0] == leading_parts(b@)[0]);
            assert(spelled(place@).len() == place@.len());
            assert(spelled(place@)[0] == piece(b@, path_parts(b@)[0]));
            assert(spelled(place@)[0].0 == place@[0].0);
        }
        return text::from_chars(write_pieces(&walk(place, &way)).as_slice());
    }
    if s.len() > 0 && is_sep(s[0]) {
        let head = slice_subrange(b.as_slice(), 0, find_prefix(b.as_slice()).1);
        assert(head@ =~= b@.take(prefix_end(b@)));
        return text::from_chars(head).concat(rel);
    }
    if b.len() == 0 || is_sep(b[b.len() - 1]) || (starts_with_drive(b.as_slice()) && b.len() == 2) {
        base.to_owned().concat(rel)
    } else {
        let mut out: String = base.to_owned();
        out.push('\\');
        out.concat(rel)
    }
}

fn push_escaped(out: &mut Vec<char>, name: &[char])
    ensures
        final(out)@ == old(out)@ + escaped(name@),
{
    let ghost before = out@;
    let mut i: usize = 0;
    assert(before + escaped(name@.take(0)) =~= before);
    while i < name.len()
        invariant
            i <= name@.len(),
            out@ =~= before + escaped(name@.take(i as int)),
        decreases name@.len() - i,
    {
        assert(name@.take(i + 1).drop_last() =~= name@.take(i as int));
        out.push(name[i]);
        if name[i] == '\0' {
            out.push(':');
        }
        i = i + 1;
    }
    assert(name@.take(name@.len() as int) =~= name@);
}

fn rank_of(kind: PartKind) -> (r: char)
    ensures
        r == kind_rank(kind),
{
    match kind {
        PartKind::Verbatim => '0',
        PartKind::VerbatimShare => '1',
        PartKind::VerbatimDrive => '2',
        PartKind::Device => '3',
        PartKind::Share => '4',
        PartKind::Drive => '5',
        PartKind::Root => '6',
        PartKind::CurDir => '7',
        PartKind::ParentDir => '8',
        PartKind::Name => '9',
    }
}

fn to_upper(c: char) -> (r: char)
    ensures
        r == upper_letter(c),
{
    if 'a' <= c && c <= 'z' {
        (c as u8 - 32) as char
    } else {
        c
    }
}

/// The text of a prefix is long enough for its kind.
proof fn lemma_prefix_text(s: Seq<char>)
    ensures
        ({
            let t = s.take(prefix_end(s));
            match prefix_kind(s) {
                Some(PartKind::Verbatim) => t.len() >= 4,
                Some(PartKind::Device) => t.len() >= 4,
                Some(PartKind::VerbatimShare) => t.len() >= 8,
                Some(PartKind::VerbatimDrive) => t.len() == 6,
                Some(PartKind::Share) => t.len() >= 2 && 2 <= next_separator(t, 2, false)
                    < t.len(),
                Some(PartKind::Drive) => t.len() == 2,
                _ => true,
            }
        }),
{
    lemma_prefix_end(s);
    if prefix_kind(s) == Some(PartKind::Share) {
        lemma_separator_cut(s, 2, prefix_end(s), false);
    } else if prefix_kind(s) == Some(PartKind::VerbatimShare) {
        lemma_next_separator(s, 8, true);
    }
}

fn push_part_id(out: &mut Vec<char>, s: &[char], part: FoundPart)
    requires
        part.1 <= part.2 <= s@.len(),
        has_parent(part.0) || part.0 == PartKind::Root || (prefix_kind(s@) == Some(part.0) && part.1
            == 0 && part.2 == prefix_end(s@)),
    ensures
        final(out)@ == old(out)@ + part_id(s@, (part.0, part.1 as int, part.2 as int)),
{
    let t = slice_subrange(s, part.1, part.2);
    proof {
        lemma_prefix_end(s@);
        lemma_prefix_text(s@);
        assert(s@.subrange(0, prefix_end(s@)) =~= s@.take(prefix_end(s@)));
    }
    let ghost key = part_key((part.0, t@));
    let ghost before = out@;
    let mut first: Vec<char> = Vec::new();
    let mut second: Option<Vec<char>> = None;
    match part.0 {
        PartKind::Verbatim | PartKind::Device => {
            first = copy_chars(slice_subrange(t, 4, t.len()));
            assert(first@ =~= key.1);
        },
        PartKind::VerbatimShare => {
            let a: usize = find_separator(t, 8, true);
            first = copy_chars(slice_subrange(t, 8, a));
            assert(first@ =~= key.1);
            let mut rest: Vec<char> = Vec::new();
            if a < t.len() {
                rest = copy_chars(slice_subrange(t, a + 1, t.len()));
            }
            assert(rest@ =~= key.2);
            second = Some(rest);
        },
        PartKind::VerbatimDrive => {
            first.push(to_upper(t[4]));
            assert(first@ =~= key.1);
        },
        PartKind::Share => {
            let a: usize = find_separator(t, 2, false);
            first = copy_chars(slice_subrange(t, 2, a));
            assert(first@ =~= key.1);
            let rest: Vec<char> = copy_chars(slice_subrange(t, a + 1, t.len()));
            assert(rest@ =~= key.2);
            second = Some(rest);
        },
        PartKind::Drive => {
            first.push(to_upper(t[0]));
            assert(first@ =~= key.1);
        },
        PartKind::Root | PartKind::CurDir | PartKind::ParentDir => {
            assert(first@ =~= key.1);
        },
        PartKind::Name => {
            first = copy_chars(t);
            assert(first@ =~= key.1);
        },
    }
    out.push(rank_of(part.0));
    push_escaped(out, first.as_slice());
    out.push('\0');
    let ghost one = seq![kind_rank(key.0)] + escaped(key.1) + seq!['\0'];
    assert(out@ =~= before + one);
    if let Some(rest) = second {
        out.push('0');
        push_escaped(out, rest.as_slice());
        out.push('\0');
        assert(out@ =~= before + (one + seq!['0'] + escaped(key.2) + seq!['\0']));
    }
    assert(out@ =~= before + key_id(key));
}

/// The identities of the first `n` parts.
fn id_of_parts(s: &[char], parts: &Vec<FoundPart>, n: usize) -> (r: Vec<char>)
    requires
        n <= parts@.len(),
        found(parts@) == path_parts(s@),
    ensures
        r@ == parts_id(s@, path_parts(s@).take(n as int)),
{
    proof {
        lemma_path_parts(s@);
    }
    let ghost all = path_parts(s@);
    let mut out: Vec<char> = Vec::new();
    let mut i: usize = 0;
    assert(all.take(0) =~= seq![]);
    while i < n
        invariant
            i <= n <= parts@.len(),
            all == path_parts(s@),
            found(parts@) == all,
            parts_in_order(all, 0, s@.len() as int),
            forall|a: int|
                0 <= a < all.len() ==> has_parent((#[trigger] all[a]).0) || all[a].0
                    == PartKind::Root || all[a] == (prefix_kind(s@)->0, 0int, prefix_end(s@))
                    && prefix_kind(s@) is Some,
            out@ == parts_id(s@, all.take(i as int)),
        decreases n - i,
    {
        let part: FoundPart = parts[i];
        assert(all[i as int] == (part.0, part.1 as int, part.2 as int));
        push_part_id(&mut out, s, part);
        assert(all.take(i + 1).drop_last() =~= all.take(i as int));
        i = i + 1;
    }
    out
}

/// Computes [`path_id`].
pub fn id_of(path: &str) -> (r: String)
    ensures
        r@ == path_id(path@),
{
    let cs = text::to_chars(path);
    let parts = parse(cs.as_slice());
    let id = id_of_parts(cs.as_slice(), &parts, parts.len());
    assert(path_parts(cs@).take(parts@.len() as int) =~= path_parts(cs@));
    text::from_chars(id.as_slice())
}

/// Decides [`same_path`].
pub fn are_same_path(a: &str, b: &str) -> (r: bool)
    ensures
        r == same_path(a@, b@),
{
    text::text_eq(id_of(a).as_str(), id_of(b).as_str())
}

/// Computes [`relative_to`].
pub fn strip_base(path: &str, base: &str) -> (r: Option<String>)
    ensures
        match r {
            Some(p) => relative_to(path@, base@) == Some(p@),
            None => relative_to(path@, base@) is None,
        },
{
    let cs = text::to_chars(path);
    let parts = parse(cs.as_slice());
    let bs = text::to_chars(base);
    let n: usize = parse(bs.as_slice()).len();
    proof {
        lemma_path_parts(cs@);
    }
    if n > parts.len() {
        return None;
    }
    let head = text::from_chars(id_of_parts(cs.as_slice(), &parts, n).as_slice());
    if !text::text_eq(head.as_str(), id_of(base).as_str()) {
        return None;
    }
    if n == parts.len() {
        return Some(String::new());
    }
    let first: FoundPart = parts[n];
    let last: FoundPart = parts[parts.len() - 1];
    proof {
        let all = path_parts(cs@);
        assert(all[n as int] == (first.0, first.1 as int, first.2 as int));
        assert(all.last() == (last.0, last.1 as int, last.2 as int));
        if n < parts@.len() - 1 {
            assert(all[n as int].2 <= all[parts@.len() - 1].1);
        }
    }
    Some(text::from_chars(slice_subrange(cs.as_slice(), first.1, last.2)))
}

/// A file's name is what follows the last separator, whatever stands before it, and
/// the name is all of a path without separators.
pub proof fn law_names_follow_the_last_separator(dir: Seq<char>, name: Seq<char>)
    requires
        is_plain_name(name),
        !has_drive(name),
        holds_names(dir),
        !is_verbatim(dir),
    ensures
        file_name(name) == Some(name),
        !is_separator(dir.last()) && !(has_drive(dir) && dir.len() == 2) ==> file_name(
            dir.push('\\') + name,
        ) == Some(name),
        is_separator(dir.last()) ==> file_name(dir + name) == Some(name),
        name_or_empty(name) == name,
{
    lemma_name_alone(name);
    assert(name.subrange(0, name.len() as int) =~= name);
    assert(!is_separator(name[0]));
    assert(prefix_kind(name) is None && !is_rooted(name));
    lemma_join_name(dir, name);
}

/// A file's extension is what follows the last dot of its name, unless the name
/// begins with that dot; what stands before it is the stem.
pub proof fn law_extensions_follow_the_last_dot(
    path: Seq<char>,
    stem: Seq<char>,
    ext: Seq<char>,
)
    requires
        stem.len() > 0,
        !ext.contains('.'),
        file_name(path) == Some(stem + seq!['.'] + ext),
    ensures
        extension(path) == Some(ext),
        file_stem(path) == Some(stem),
        lower_extension(path) == Some(text::lowercase(ext)),
{
    let name = stem + seq!['.'] + ext;
    let k = stem.len() as int;
    assert(name[k] == '.');
    assert forall|i: int| k < i < name.len() implies name[i] != '.' by {
        assert(name[i] == ext[i - k - 1]);
        assert(ext.contains(ext[i - k - 1]));
    }
    text::lemma_last_position_is(name, '.', k);
    assert(name.skip(k + 1) =~= ext);
    assert(name.take(k) =~= stem);
}

/// A name without a dot, or with one in front alone, has no extension, and a path
/// without a name has neither name nor extension.
pub proof fn law_names_without_extension(path: Seq<char>, name: Seq<char>)
    requires
        file_name(path) == Some(name),
        !name.skip(1).contains('.'),
        name.len() > 0,
    ensures
        extension(path) is None,
        lower_extension(path) is None,
        file_stem(path) == Some(name),
{
    text::lemma_last_position(name, '.');
    if let Some(dot) = text::last_position(name, '.') {
        if dot > 0 {
            assert(name.skip(1)[dot - 1] == '.');
        }
    }
}

/// Putting a name behind a folder: with a separator between them, unless one stands
/// there or the folder is a bare drive. A path with a drive of its own stays.
pub proof fn law_joining(base: Seq<char>, name: Seq<char>, path: Seq<char>)
    requires
        is_plain_name(name),
        !has_drive(name),
        !is_verbatim(base),
    ensures
        base.len() > 0 && !is_separator(base.last()) && !(has_drive(base) && base.len() == 2)
            ==> join(base, name) == base + seq!['\\'] + name,
        base.len() > 0 && is_separator(base.last()) ==> join(base, name) == base + name,
        base.len() == 2 && has_drive(base) ==> join(base, name) == base + name,
        base.len() == 0 ==> join(base, name) == name,
        has_drive(path) ==> join(base, path) == path,
{
    lemma_name_alone(name);
    assert(!is_separator(name[0]));
    assert(base.len() == 0 ==> base + name =~= name);
    assert(base.push('\\') + name =~= base + seq!['\\'] + name);
}

/// Names tell the files of a folder apart, to the letter.
pub proof fn law_names_tell_files_apart(base: Seq<char>, a: Seq<char>, b: Seq<char>)
    requires
        holds_names(base),
        is_plain_name(a) && is_plain_name(b),
        !has_drive(a) && !has_drive(b),
    ensures
        same_path(join(base, a), join(base, b)) <==> a == b,
{
    lemma_name_alone(a);
    lemma_name_alone(b);
    lemma_join_id(base, a);
    lemma_join_id(base, b);
    if same_path(join(base, a), join(base, b)) {
        let p = path_id(base);
        let x = path_id(a);
        let y = path_id(b);
        assert(p + x == p + y);
        assert(x =~= (p + x).skip(p.len() as int));
        assert(y =~= (p + y).skip(p.len() as int));
        law_same_paths_have_same_parts(a, b);
        let part = (PartKind::Name, 0int, a.len() as int);
        assert(path_keys(a)[0] == part_key(piece(a, path_parts(a)[0])));
        assert(path_keys(b)[0] == part_key(piece(b, path_parts(b)[0])));
        assert(a.subrange(0, a.len() as int) =~= a);
        assert(b.subrange(0, b.len() as int) =~= b);
        assert(path_keys(a)[0].1 == a && path_keys(b)[0].1 == b);
    }
}

/// Whether two paths on a drive are written alike: the case of the drive's letter
/// and the kind of separator aside, they are the same.
pub open spec fn is_written_alike(a: Seq<char>, b: Seq<char>) -> bool {
    &&& a.len() == b.len()
    &&& a.len() >= 2 && is_letter(a[0]) && is_letter(b[0]) && a[1] == ':' && b[1] == ':'
    &&& a[0] == b[0] || a[0] as u32 == b[0] as u32 + 32 || a[0] as u32 + 32 == b[0] as u32
    &&& forall|i: int|
        2 <= i < a.len() ==> a[i] == b[i] || ((a[i] == '\\' || a[i] == '/') && (b[i] == '\\'
            || b[i] == '/'))
}

/// Neither the case of a drive's letter nor the kind of the separators makes two
/// paths differ.
pub proof fn law_paths_written_alike_are_the_same(a: Seq<char>, b: Seq<char>)
    requires
        is_written_alike(a, b),
    ensures
        same_path(a, b),
{
    assert(prefix_kind(a) == Some(PartKind::Drive) && prefix_kind(b) == Some(PartKind::Drive));
    assert(a.len() > 2 ==> is_separator(a[2]) == is_separator(b[2]));
    let lead = leading_parts(a);
    assert(lead == leading_parts(b));
    let i = names_start(a);
    assert(i >= 2);
    lemma_written_alike_parts(a, b, i);
    let rest = parts_from(a, i, false);
    lemma_parts_id_concat(a, lead, rest);
    lemma_parts_id_concat(b, lead, rest);
    lemma_same_pieces(a, rest, b, rest);
    let drive = seq![(PartKind::Drive, 0int, 2int)];
    let root = lead.skip(1);
    assert(lead =~= drive + root);
    lemma_parts_id_concat(a, drive, root);
    lemma_parts_id_concat(b, drive, root);
    lemma_parts_id_one(a, drive[0]);
    lemma_parts_id_one(b, drive[0]);
    assert(a.subrange(0, 2)[0] == a[0] && b.subrange(0, 2)[0] == b[0]);
    assert(upper_letter(a[0]) == upper_letter(b[0])) by {
        assert(upper_letter(a[0]) as u32 == upper_letter(b[0]) as u32);
    }
    assert(part_id(a, drive[0]) == part_id(b, drive[0]));
    if root.len() > 0 {
        let r = root[0];
        assert(root =~= seq![r]);
        assert(r.0 == PartKind::Root);
        lemma_parts_id_one(a, r);
        lemma_parts_id_one(b, r);
        assert(part_id(a, r) == part_id(b, r));
    }
    assert(parts_id(a, root) == parts_id(b, root));
}

proof fn lemma_written_alike_next(a: Seq<char>, b: Seq<char>, i: int)
    requires
        is_written_alike(a, b),
        2 <= i,
    ensures
        next_separator(a, i, false) == next_separator(b, i, false),
    decreases a.len() - i,
{
    if i < a.len() {
        assert(separates(a[i], false) == separates(b[i], false));
        lemma_written_alike_next(a, b, i + 1);
    }
}

proof fn lemma_written_alike_parts(a: Seq<char>, b: Seq<char>, i: int)
    requires
        is_written_alike(a, b),
        2 <= i,
    ensures
        parts_from(a, i, false) == parts_from(b, i, false),
        pieces(a, parts_from(a, i, false)) == pieces(b, parts_from(b, i, false)),
    decreases a.len() - i,
{
    if i < a.len() {
        assert(separates(a[i], false) == separates(b[i], false));
        if separates(a[i], false) {
            lemma_written_alike_parts(a, b, i + 1);
        } else {
            let e = next_separator(a, i, false);
            lemma_next_separator(a, i, false);
            lemma_written_alike_next(a, b, i);
            assert forall|k: int| i <= k < e implies a[k] == b[k] by {
                assert(!separates(a[k], false));
            }
            let name = a.subrange(i, e);
            assert(name =~= b.subrange(i, e));
            lemma_written_alike_parts(a, b, e);
            let rest = parts_from(a, e, false);
            let one = seq![(name_kind(name), i, e)];
            if !(name == seq!['.']) {
                let all = one + rest;
                assert(pieces(a, all) =~= seq![piece(a, one[0])] + pieces(a, rest));
                assert(pieces(b, all) =~= seq![piece(b, one[0])] + pieces(b, rest));
            }
        }
    } else {
        assert(pieces(a, seq![]) =~= pieces(b, seq![]));
    }
}

} // verus!
