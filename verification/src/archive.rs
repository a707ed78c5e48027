//! Recognising RAR archives and split-archive volumes.
//!
//! Volumes of a split archive only work as a complete set in one folder.
//! When the same set exists in two places, a duplicate scan pairs the parts
//! up one by one, and deleting "the duplicate" of any single part silently
//! breaks one of the sets. Renaming one part on its own breaks it just the
//! same. This module tells such files apart so callers can leave them out
//! or treat a set as a unit.

use crate::text;
use vstd::prelude::*;
use vstd::slice::slice_subrange;

verus! {

/// `part` followed by a number.
pub open spec fn is_part_number(s: Seq<char>) -> bool {
    s.len() > 4 && text::has_prefix(s, "part"@) && text::all_digits(s.skip(4))
}

/// The letter followed by a number of at least two digits.
pub open spec fn is_numbered(ext: Seq<char>, letter: char) -> bool {
    ext.len() >= 3 && ext[0] == letter && text::all_digits(ext.skip(1))
}

/// Where `inner` begins in `before`, if `before` ends with it and does not
/// consist of it.
pub open spec fn inner_start(before: Seq<char>, inner: Seq<char>) -> Option<int> {
    if text::has_suffix(before, inner) && before.len() > inner.len() {
        Some(before.len() - inner.len())
    } else {
        None
    }
}

/// Where the volume suffix of the lowercase name `lower` begins.
pub open spec fn suffix_start(lower: Seq<char>) -> Option<int> {
    if text::has_suffix(lower, ".rar"@) {
        let before = lower.take(lower.len() - 4);
        match text::last_position(before, '.') {
            Some(dot) if is_part_number(before.skip(dot + 1)) => Some(dot),
            _ => if before.len() > 0 {
                Some(before.len() as int)
            } else {
                None
            },
        }
    } else {
        match text::last_position(lower, '.') {
            None => None,
            Some(dot) => {
                let ext = lower.skip(dot + 1);
                let before = lower.take(dot);
                if dot == 0 {
                    None
                } else if is_numbered(ext, 'r') || is_numbered(ext, 'z') {
                    Some(dot)
                } else if ext.len() == 3 && text::all_digits(ext) {
                    if inner_start(before, ".7z"@) is Some {
                        inner_start(before, ".7z"@)
                    } else if inner_start(before, ".zip"@) is Some {
                        inner_start(before, ".zip"@)
                    } else {
                        inner_start(before, ".rar"@)
                    }
                } else {
                    None
                }
            },
        }
    }
}

/// The set stem and the volume suffix of an archive's name.
pub open spec fn archive_split(name: Seq<char>) -> Option<(Seq<char>, Seq<char>)> {
    match suffix_start(text::ascii_lower(name)) {
        Some(p) => Some((name.take(p), name.skip(p))),
        None => None,
    }
}

/// The suffix lies within the name.
pub proof fn lemma_suffix_start(lower: Seq<char>)
    ensures
        suffix_start(lower) matches Some(p) ==> 0 <= p && p + 4 <= lower.len(),
{
    reveal_strlit(".rar");
    reveal_strlit(".zip");
    reveal_strlit(".7z");
    text::lemma_last_position(lower, '.');
    text::lemma_last_position(lower.take(lower.len() - 4), '.');
}

fn part_number(s: &[char]) -> (r: bool)
    ensures
        r == is_part_number(s@),
{
    s.len() > 4 && text::starts_with(s, text::to_chars("part").as_slice()) && text::are_digits(
        slice_subrange(s, 4, s.len()),
    )
}

fn numbered(ext: &[char], letter: char) -> (r: bool)
    ensures
        r == is_numbered(ext@, letter),
{
    ext.len() >= 3 && ext[0] == letter && text::are_digits(slice_subrange(ext, 1, ext.len()))
}

fn find_inner(before: &[char], inner: &str) -> (r: Option<usize>)
    ensures
        match r {
            Some(p) => inner_start(before@, inner@) == Some(p as int),
            None => inner_start(before@, inner@) is None,
        },
{
    let cs = text::to_chars(inner);
    if text::ends_with(before, cs.as_slice()) && before.len() > cs.len() {
        Some(before.len() - cs.len())
    } else {
        None
    }
}

fn find_suffix(lower: &[char]) -> (r: Option<usize>)
    ensures
        match r {
            Some(p) => suffix_start(lower@) == Some(p as int),
            None => suffix_start(lower@) is None,
        },
{
    proof {
        reveal_strlit(".rar");
    }
    if text::ends_with(lower, text::to_chars(".rar").as_slice()) {
        let before = slice_subrange(lower, 0, lower.len() - 4);
        assert(before@ =~= lower@.take(lower@.len() - 4));
        if let Some(dot) = text::rfind(before, '.') {
            let part = slice_subrange(before, dot + 1, before.len());
            assert(part@ =~= before@.skip(dot + 1));
            if part_number(part) {
                return Some(dot);
            }
        }
        return if before.len() > 0 {
            Some(before.len())
        } else {
            None
        };
    }
    let dot: usize = match text::rfind(lower, '.') {
        Some(dot) => dot,
        None => return None,
    };
    if dot == 0 {
        return None;
    }
    let ext = slice_subrange(lower, dot + 1, lower.len());
    assert(ext@ =~= lower@.skip(dot + 1));
    if numbered(ext, 'r') || numbered(ext, 'z') {
        return Some(dot);
    }
    if ext.len() == 3 && text::are_digits(ext) {
        let before = slice_subrange(lower, 0, dot);
        assert(before@ =~= lower@.take(dot as int));
        if let Some(p) = find_inner(before, ".7z") {
            return Some(p);
        }
        if let Some(p) = find_inner(before, ".zip") {
            return Some(p);
        }
        return find_inner(before, ".rar");
    }
    None
}

/// Splits a file name into `(set stem, volume suffix)` if it's a RAR archive
/// or a volume of a split archive, e.g.
/// - `movie.part01.rar` -> `("movie", ".part01.rar")`
/// - `movie.rar` -> `("movie", ".rar")`
/// - `movie.r00` -> `("movie", ".r00")`
/// - `backup.7z.001` -> `("backup", ".7z.001")`
/// - `backup.z01` -> `("backup", ".z01")`
///
/// Every volume of one set shares the same stem, so renaming all of them by
/// inserting the same text between stem and suffix keeps the set intact.
pub fn split_archive_name(name: &str) -> (r: Option<(&str, &str)>)
    ensures
        match r {
            Some((stem, suffix)) => archive_split(name@) == Some((stem@, suffix@)),
            None => archive_split(name@) is None,
        },
{
    let lower = text::to_ascii_lower(text::to_chars(name).as_slice());
    proof {
        lemma_suffix_start(lower@);
    }
    match find_suffix(lower.as_slice()) {
        Some(p) => {
            let stem = name.substring_char(0, p);
            let suffix = name.substring_char(p, lower.len());
            assert(stem@ =~= name@.take(p as int));
            assert(suffix@ =~= name@.skip(p as int));
            Some((stem, suffix))
        },
        None => None,
    }
}

/// Whether a file is a RAR archive or a split-archive volume.
pub fn is_archive_part(name: &str) -> (r: bool)
    ensures
        r == archive_split(name@) is Some,
{
    split_archive_name(name).is_some()
}

/// Stem and suffix make up the name.
pub proof fn law_split_is_lossless(name: Seq<char>)
    ensures
        archive_split(name) matches Some((stem, suffix)) ==> stem + suffix == name,
{
    lemma_suffix_start(text::ascii_lower(name));
    if let Some((stem, suffix)) = archive_split(name) {
        assert(stem + suffix =~= name);
    }
}

/// The mark that a renamed file gets behind its stem.
pub open spec fn clash_mark(n: nat) -> Seq<char> {
    " ("@ + text::decimal(n) + ")"@
}

proof fn lemma_clash_mark(n: nat)
    ensures
        clash_mark(n).len() >= 4,
        clash_mark(n)[0] == ' ',
        clash_mark(n).last() == ')',
        forall|i: int| 0 <= i < clash_mark(n).len() ==> #[trigger] clash_mark(n)[i] != '.',
        text::ascii_lower(clash_mark(n)) == clash_mark(n),
{
    reveal_strlit(" (");
    reveal_strlit(")");
    text::lemma_decimal_digits(n);
    let m = clash_mark(n);
    let d = text::decimal(n);
    assert forall|i: int| 0 <= i < m.len() implies #[trigger] m[i] != '.' && text::lower_char(m[i])
        == m[i] by {
        if 2 <= i < 2 + d.len() {
            assert(m[i] == d[i - 2]);
            assert(text::is_digit(d[i - 2]));
        }
    }
    assert(text::ascii_lower(m) =~= m);
}

/// Inserting the same clash mark between the stem and the suffix of a volume
/// keeps it a volume with the same suffix, and its stem is the old stem with
/// the mark: a set whose volumes are renamed alike stays a set.
pub proof fn law_clash_mark_keeps_the_set(name: Seq<char>, n: nat)
    requires
        archive_split(name) is Some,
    ensures
        ({
            let (stem, suffix) = archive_split(name)->0;
            archive_split(stem + clash_mark(n) + suffix) == Some((stem + clash_mark(n), suffix))
        }),
{
    let (stem, suffix) = archive_split(name)->0;
    let m = clash_mark(n);
    let lower = text::ascii_lower(name);
    let p = suffix_start(lower)->0;
    let new = stem + m + suffix;
    let nl = text::ascii_lower(new);
    let k = m.len() as int;
    lemma_clash_mark(n);
    lemma_suffix_start(lower);
    reveal_strlit(".rar");
    reveal_strlit(".zip");
    reveal_strlit(".7z");
    reveal_strlit("part");
    assert(nl =~= lower.take(p) + m + lower.skip(p)) by {
        assert forall|i: int| 0 <= i < nl.len() implies nl[i] == (lower.take(p) + m + lower.skip(
            p,
        ))[i] by {
            if p <= i < p + k {
                assert(text::ascii_lower(m)[i - p] == m[i - p]);
            }
        }
    }
    // Behind the stem the two names agree, `k` positions apart.
    assert forall|i: int| p + k <= i < nl.len() implies #[trigger] nl[i] == lower[i - k] by {}
    assert forall|i: int| 0 <= i < p implies #[trigger] nl[i] == lower[i] by {}
    assert forall|i: int| p <= i < p + k implies #[trigger] nl[i] == m[i - p] by {}
    assert(nl.subrange(nl.len() - 4, nl.len() as int) =~= lower.subrange(
        lower.len() - 4,
        lower.len() as int,
    ));
    assert(suffix_start(nl) == Some(p + k)) by {
        if text::has_suffix(lower, ".rar"@) {
            lemma_rar_keeps(lower, nl, m, p);
        } else {
            lemma_volume_keeps(lower, nl, m, p);
        }
    }
    assert(new.take(p + k) =~= stem + m);
    assert(new.skip(p + k) =~= suffix);
}

proof fn lemma_rar_keeps(lower: Seq<char>, nl: Seq<char>, m: Seq<char>, p: int)
    requires
        text::has_suffix(lower, ".rar"@),
        suffix_start(lower) == Some(p),
        0 <= p,
        p + 4 <= lower.len(),
        m.len() >= 4,
        m[0] == ' ',
        m.last() == ')',
        forall|i: int| 0 <= i < m.len() ==> #[trigger] m[i] != '.',
        nl.len() == lower.len() + m.len(),
        forall|i: int| p + m.len() <= i < nl.len() ==> #[trigger] nl[i] == lower[i - m.len()],
        forall|i: int| 0 <= i < p ==> #[trigger] nl[i] == lower[i],
        forall|i: int| p <= i < p + m.len() ==> #[trigger] nl[i] == m[i - p],
        nl.subrange(nl.len() - 4, nl.len() as int) == lower.subrange(
            lower.len() - 4,
            lower.len() as int,
        ),
    ensures
        suffix_start(nl) == Some(p + m.len()),
{
    reveal_strlit(".rar");
    let k = m.len() as int;
    let before = lower.take(lower.len() - 4);
    let nb = nl.take(nl.len() - 4);
    text::lemma_last_position(before, '.');
    text::lemma_last_position(nb, '.');
    let dot = text::last_position(before, '.');
    if dot is Some && is_part_number(before.skip(dot->0 + 1)) {
        assert(p == dot->0);
        assert(nb[p + k] == '.') by {
            assert(nl[p + k] == lower[p]);
        }
        assert forall|i: int| p + k < i < nb.len() implies nb[i] != '.' by {
            assert(nl[i] == lower[i - k]);
            assert(before[i - k] != '.');
        }
        text::lemma_last_position_is(nb, '.', p + k);
        assert(nb.skip(p + k + 1) =~= before.skip(p + 1));
    } else {
        assert(p == before.len());
        // What stands behind the last dot now ends with a bracket.
        if let Some(q) = text::last_position(nb, '.') {
            let part = nb.skip(q + 1);
            assert(q < p) by {
                if q >= p {
                    assert(nl[q] == m[q - p]);
                }
            }
            assert(part.last() == ')') by {
                assert(nl[p + k - 1] == m[k - 1]);
                assert(part.last() == nb[nb.len() - 1]);
            }
            if is_part_number(part) {
                let t = part.skip(4);
                assert(t[t.len() - 1] == ')');
                assert(text::is_digit(t[t.len() - 1]));
            }
        }
    }
}

proof fn lemma_volume_keeps(lower: Seq<char>, nl: Seq<char>, m: Seq<char>, p: int)
    requires
        !text::has_suffix(lower, ".rar"@),
        suffix_start(lower) == Some(p),
        0 <= p,
        p + 4 <= lower.len(),
        m.len() >= 4,
        forall|i: int| 0 <= i < m.len() ==> #[trigger] m[i] != '.',
        nl.len() == lower.len() + m.len(),
        forall|i: int| p + m.len() <= i < nl.len() ==> #[trigger] nl[i] == lower[i - m.len()],
        nl.subrange(nl.len() - 4, nl.len() as int) == lower.subrange(
            lower.len() - 4,
            lower.len() as int,
        ),
    ensures
        suffix_start(nl) == Some(p + m.len()),
{
    reveal_strlit(".rar");
    reveal_strlit(".zip");
    reveal_strlit(".7z");
    let k = m.len() as int;
    text::lemma_last_position(lower, '.');
    let dot = text::last_position(lower, '.')->0;
    assert(nl[dot + k] == lower[dot]);
    assert forall|i: int| dot + k < i < nl.len() implies nl[i] != '.' by {
        assert(nl[i] == lower[i - k]);
    }
    text::lemma_last_position_is(nl, '.', dot + k);
    let ext = lower.skip(dot + 1);
    assert(nl.skip(dot + k + 1) =~= ext);
    if !is_numbered(ext, 'r') && !is_numbered(ext, 'z') {
        let before = lower.take(dot);
        let nb = nl.take(dot + k);
        // The last `dot - p` characters agree, and no other inner suffix ends alike.
        assert forall|i: int| p + k <= i < nb.len() implies #[trigger] nb[i] == before[i - k] by {
            assert(nl[i] == lower[i - k]);
        }
        lemma_inner_keeps(before, nb, ".7z"@, p, k);
        lemma_inner_keeps(before, nb, ".zip"@, p, k);
        lemma_inner_keeps(before, nb, ".rar"@, p, k);
        assert(nb[dot + k - 1] == before[dot - 1]);
        lemma_inner_last(nb, ".7z"@);
        lemma_inner_last(nb, ".zip"@);
        lemma_inner_last(nb, ".rar"@);
        lemma_inner_last(before, ".7z"@);
        lemma_inner_last(before, ".zip"@);
        lemma_inner_last(before, ".rar"@);
    }
}

proof fn lemma_inner_last(before: Seq<char>, inner: Seq<char>)
    requires
        inner.len() > 0,
    ensures
        inner_start(before, inner) is Some ==> before.len() > 0 && before.last() == inner.last(),
{
    if inner_start(before, inner) is Some {
        let s = before.subrange(before.len() - inner.len(), before.len() as int);
        assert(s[inner.len() - 1] == before[before.len() - 1]);
    }
}

proof fn lemma_inner_keeps(before: Seq<char>, nb: Seq<char>, inner: Seq<char>, p: int, k: int)
    requires
        k >= 0,
        0 <= p,
        nb.len() == before.len() + k,
        forall|i: int| p + k <= i < nb.len() ==> #[trigger] nb[i] == before[i - k],
    ensures
        inner_start(before, inner) == Some(p) ==> inner_start(nb, inner) == Some(p + k),
{
    if inner_start(before, inner) == Some(p) {
        let a = before.subrange(before.len() - inner.len(), before.len() as int);
        let b = nb.subrange(nb.len() - inner.len(), nb.len() as int);
        assert forall|i: int| 0 <= i < inner.len() implies a[i] == b[i] by {
            assert(nb[p + k + i] == before[p + i]);
        }
        assert(b =~= inner);
    }
}

proof fn lemma_lower_digits(d: Seq<char>)
    requires
        text::all_digits(d),
    ensures
        text::ascii_lower(d) == d,
        forall|i: int| 0 <= i < d.len() ==> #[trigger] d[i] != '.',
{
    assert forall|i: int| 0 <= i < d.len() implies text::lower_char(#[trigger] d[i]) == d[i] && d[i]
        != '.' by {
        assert(text::is_digit(d[i]));
    }
    assert(text::ascii_lower(d) =~= d);
}

proof fn lemma_split_at(name: Seq<char>, stem: Seq<char>, suffix: Seq<char>)
    requires
        name == stem + suffix,
        suffix_start(text::ascii_lower(name)) == Some(stem.len() as int),
    ensures
        archive_split(name) == Some((stem, suffix)),
{
    assert(name.take(stem.len() as int) =~= stem);
    assert(name.skip(stem.len() as int) =~= suffix);
}

/// The volumes of a set are told by the end of their names, which comes off as
/// a whole: `.part` with a number and `.rar`; `.r` or `.z` with at least two
/// digits; three digits behind `.7z`, `.zip` or `.rar`. So is a single archive,
/// by `.rar`.
pub proof fn law_volumes_are_recognised(stem: Seq<char>, d: Seq<char>)
    requires
        stem.len() > 0,
        d.len() > 0,
        text::all_digits(d),
    ensures
        archive_split(stem + ".part"@ + d + ".rar"@) == Some((stem, ".part"@ + d + ".rar"@)),
        !stem.contains('.') ==> archive_split(stem + ".rar"@) == Some((stem, ".rar"@)),
        d.len() >= 2 ==> archive_split(stem + ".r"@ + d) == Some((stem, ".r"@ + d)),
        d.len() >= 2 ==> archive_split(stem + ".z"@ + d) == Some((stem, ".z"@ + d)),
        d.len() == 3 ==> archive_split(stem + ".7z."@ + d) == Some((stem, ".7z."@ + d)),
        d.len() == 3 ==> archive_split(stem + ".zip."@ + d) == Some((stem, ".zip."@ + d)),
        d.len() == 3 ==> archive_split(stem + ".rar."@ + d) == Some((stem, ".rar."@ + d)),
{
    lemma_part_volume(stem, d);
    lemma_single_archive(stem);
    if d.len() >= 2 {
        lemma_lettered_volumes(stem, d);
    }
    if d.len() == 3 {
        lemma_inner_volumes(stem, d);
    }
}

proof fn lemma_part_volume(stem: Seq<char>, d: Seq<char>)
    requires
        stem.len() > 0,
        d.len() > 0,
        text::all_digits(d),
    ensures
        archive_split(stem + ".part"@ + d + ".rar"@) == Some((stem, ".part"@ + d + ".rar"@)),
{
    reveal_strlit(".part");
    reveal_strlit("part");
    reveal_strlit(".rar");
    lemma_lower_digits(d);
    let name = stem + ".part"@ + d + ".rar"@;
    let suffix = ".part"@ + d + ".rar"@;
    assert(name =~= stem + suffix);
    let lower = text::ascii_lower(name);
    let k = stem.len() as int;
    assert forall|i: int| 0 <= i < d.len() implies lower[k + 5 + i] == d[i] by {
        assert(name[k + 5 + i] == d[i]);
        assert(text::ascii_lower(d)[i] == d[i]);
    }
    assert(lower.subrange(lower.len() - 4, lower.len() as int) =~= ".rar"@);
    let before = lower.take(lower.len() - 4);
    assert(before[k] == '.');
    assert forall|i: int| k < i < before.len() implies before[i] != '.' by {
        if i >= k + 5 {
            assert(lower[k + 5 + (i - k - 5)] == d[i - k - 5]);
        }
    }
    text::lemma_last_position_is(before, '.', k);
    let part = before.skip(k + 1);
    assert(part.subrange(0, 4) =~= "part"@);
    assert(part.skip(4) =~= d);
    lemma_split_at(name, stem, suffix);
}

proof fn lemma_single_archive(stem: Seq<char>)
    requires
        stem.len() > 0,
    ensures
        !stem.contains('.') ==> archive_split(stem + ".rar"@) == Some((stem, ".rar"@)),
{
    reveal_strlit(".rar");
    let name = stem + ".rar"@;
    let lower = text::ascii_lower(name);
    assert(lower.subrange(lower.len() - 4, lower.len() as int) =~= ".rar"@);
    let before = lower.take(lower.len() - 4);
    if !stem.contains('.') {
        text::lemma_last_position(before, '.');
        if let Some(q) = text::last_position(before, '.') {
            assert(before[q] == text::lower_char(stem[q]));
            assert(stem[q] == '.');
        }
        lemma_split_at(name, stem, ".rar"@);
    }
}

proof fn lemma_lettered_volumes(stem: Seq<char>, d: Seq<char>)
    requires
        stem.len() > 0,
        d.len() >= 2,
        text::all_digits(d),
    ensures
        archive_split(stem + ".r"@ + d) == Some((stem, ".r"@ + d)),
        archive_split(stem + ".z"@ + d) == Some((stem, ".z"@ + d)),
{
    reveal_strlit(".r");
    reveal_strlit(".z");
    lemma_lettered_volume(stem, ".r"@, d);
    lemma_lettered_volume(stem, ".z"@, d);
}

proof fn lemma_lettered_volume(stem: Seq<char>, mark: Seq<char>, d: Seq<char>)
    requires
        stem.len() > 0,
        mark.len() == 2,
        mark[0] == '.',
        mark[1] == 'r' || mark[1] == 'z',
        d.len() >= 2,
        text::all_digits(d),
    ensures
        archive_split(stem + mark + d) == Some((stem, mark + d)),
{
    reveal_strlit(".rar");
    lemma_lower_digits(d);
    let name = stem + mark + d;
    assert(name =~= stem + (mark + d));
    let lower = text::ascii_lower(name);
    let k = stem.len() as int;
    assert forall|i: int| 0 <= i < d.len() implies lower[k + 2 + i] == d[i] by {
        assert(name[k + 2 + i] == d[i]);
        assert(text::ascii_lower(d)[i] == d[i]);
    }
    assert(!text::has_suffix(lower, ".rar"@)) by {
        let n = lower.len();
        let s = lower.subrange(n - 4, n as int);
        assert(s[3] == lower[k + 2 + (d.len() - 1)]);
        assert(text::is_digit(d[d.len() - 1]));
    }
    assert forall|i: int| k < i < lower.len() implies lower[i] != '.' by {
        if i >= k + 2 {
            assert(lower[k + 2 + (i - k - 2)] == d[i - k - 2]);
        }
    }
    text::lemma_last_position_is(lower, '.', k);
    let ext = lower.skip(k + 1);
    assert(ext.skip(1) =~= d);
    lemma_split_at(name, stem, mark + d);
}

#[verifier::spinoff_prover]
#[verifier::rlimit(60)]
proof fn lemma_inner_volumes(stem: Seq<char>, d: Seq<char>)
    requires
        stem.len() > 0,
        d.len() == 3,
        text::all_digits(d),
    ensures
        archive_split(stem + ".7z."@ + d) == Some((stem, ".7z."@ + d)),
        archive_split(stem + ".zip."@ + d) == Some((stem, ".zip."@ + d)),
        archive_split(stem + ".rar."@ + d) == Some((stem, ".rar."@ + d)),
{
    reveal_strlit(".7z");
    reveal_strlit(".zip");
    reveal_strlit(".rar");
    reveal_strlit(".7z.");
    reveal_strlit(".zip.");
    reveal_strlit(".rar.");
    lemma_inner_volume(stem, ".7z"@, d);
    lemma_inner_volume(stem, ".zip"@, d);
    lemma_inner_volume(stem, ".rar"@, d);
    assert(".7z"@.push('.') =~= ".7z."@);
    assert(".zip"@.push('.') =~= ".zip."@);
    assert(".rar"@.push('.') =~= ".rar."@);
}

proof fn lemma_inner_volume(stem: Seq<char>, inner: Seq<char>, d: Seq<char>)
    requires
        stem.len() > 0,
        inner == ".7z"@ || inner == ".zip"@ || inner == ".rar"@,
        d.len() == 3,
        text::all_digits(d),
    ensures
        archive_split(stem + inner.push('.') + d) == Some((stem, inner.push('.') + d)),
{
    reveal_strlit(".7z");
    reveal_strlit(".zip");
    reveal_strlit(".rar");
    lemma_lower_digits(d);
    let mark = inner.push('.');
    let name = stem + mark + d;
    assert(name =~= stem + (mark + d));
    let lower = text::ascii_lower(name);
    let k = stem.len() as int;
    let dot = k + inner.len();
    assert forall|i: int| 0 <= i < 3 implies lower[dot + 1 + i] == d[i] by {
        assert(name[dot + 1 + i] == d[i]);
        assert(text::ascii_lower(d)[i] == d[i]);
    }
    assert(text::is_digit(d[0]) && text::is_digit(d[1]) && text::is_digit(d[2]));
    assert(lower[dot + 1] == d[0] && lower[dot + 1 + 1] == d[1] && lower[dot + 1 + 2] == d[2]);
    assert(!text::has_suffix(lower, ".rar"@)) by {
        let n = lower.len();
        let s = lower.subrange(n - 4, n as int);
        assert(s[3] == lower[dot + 3]);
    }
    assert(lower[dot] == '.');
    assert forall|i: int| dot < i < lower.len() implies lower[i] != '.' by {
        assert(lower[dot + 1 + (i - dot - 1)] == d[i - dot - 1]);
    }
    text::lemma_last_position_is(lower, '.', dot);
    let ext = lower.skip(dot + 1);
    assert(ext =~= d);
    let before = lower.take(dot);
    assert(before.subrange(k, dot) =~= inner) by {
        assert forall|i: int| 0 <= i < inner.len() implies before.subrange(k, dot)[i]
            == inner[i] by {
            assert(name[k + i] == inner[i]);
        }
    }
    assert(inner_start(before, inner) == Some(k));
    lemma_inner_last(before, ".7z"@);
    lemma_inner_last(before, ".zip"@);
    lemma_inner_last(before, ".rar"@);
    assert(before.last() == inner.last()) by {
        assert(before.subrange(k, dot)[inner.len() - 1] == before[dot - 1]);
    }
    lemma_split_at(name, stem, mark + d);
}

/// Nothing else is taken for an archive: its name ends with `.rar`, or behind
/// its last dot with `r` or `z` and at least two digits, or with three digits
/// behind `.7z`, `.zip` or `.rar`, in whatever case; and something stands before
/// that.
pub proof fn law_nothing_else_is_an_archive(name: Seq<char>)
    requires
        archive_split(name) is Some,
    ensures
        ({
            let l = text::ascii_lower(name);
            let (stem, suffix) = archive_split(name)->0;
            &&& stem.len() > 0 || text::has_suffix(l, ".rar"@)
            &&& suffix.len() >= 4
            &&& text::has_suffix(l, ".rar"@) || exists|dot: int|
                {
                    &&& 0 < dot < l.len() - 3
                    &&& #[trigger] l[dot] == '.'
                    &&& forall|i: int| dot + 2 <= i < l.len() ==> '0' <= #[trigger] l[i] <= '9'
                    &&& {
                        ||| l[dot + 1] == 'r'
                        ||| l[dot + 1] == 'z'
                        ||| '0' <= l[dot + 1] <= '9' && l.len() == dot + 4 && (text::has_suffix(
                            l.take(dot),
                            ".7z"@,
                        ) || text::has_suffix(l.take(dot), ".zip"@) || text::has_suffix(
                            l.take(dot),
                            ".rar"@,
                        ))
                    }
                }
        }),
{
    let l = text::ascii_lower(name);
    lemma_suffix_start(l);
    if !text::has_suffix(l, ".rar"@) {
        text::lemma_last_position(l, '.');
        let dot = text::last_position(l, '.')->0;
        let ext = l.skip(dot + 1);
        assert(ext[0] == l[dot + 1]);
        assert forall|i: int| dot + 2 <= i < l.len() implies '0' <= #[trigger] l[i] <= '9' by {
            if ext.len() == 3 && text::all_digits(ext) {
                assert(ext[i - dot - 1] == l[i]);
                assert(text::is_digit(ext[i - dot - 1]));
            } else {
                assert(ext.skip(1)[i - dot - 2] == l[i]);
                assert(text::is_digit(ext.skip(1)[i - dot - 2]));
            }
        }
        if !(l[dot + 1] == 'r' || l[dot + 1] == 'z') {
            assert(text::is_digit(ext[0]));
        }
        assert(l[dot] == '.');
    }
}

/// Case makes no difference to what is taken for an archive, nor to where its
/// name is split.
pub proof fn law_archives_ignore_case(a: Seq<char>, b: Seq<char>)
    requires
        text::ascii_lower(a) == text::ascii_lower(b),
    ensures
        archive_split(a) is Some == archive_split(b) is Some,
        ({
            let (x, _) = archive_split(a)->0;
            let (y, _) = archive_split(b)->0;
            archive_split(a) is Some ==> x.len() == y.len()
        }),
{
    assert(text::ascii_lower(a).len() == a.len() && text::ascii_lower(b).len() == b.len());
    lemma_suffix_start(text::ascii_lower(a));
}

} // verus!
