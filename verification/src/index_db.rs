//! The index that reverse search looks files up in.

use crate::model::Timestamp;
use crate::paths;
use crate::sets::TextSet;
use crate::text;
use vstd::prelude::*;

verus! {

/// One file captured by a reverse-search indexing pass. Persisted to disk so
/// it can be searched later even if the drive it lives on isn't currently
/// attached, which is why `volume_label` and `drive_letter` are stored
/// separately from `rel_path` rather than just keeping a full absolute path.
#[derive(Debug, PartialEq)]
pub struct IndexedFile {
    pub volume_label: String,
    pub drive_letter: String,
    pub rel_path: String,
    pub size: u64,
    pub modified: Timestamp,
}

impl Clone for IndexedFile {
    fn clone(&self) -> (r: Self)
        ensures
            r == *self,
    {
        IndexedFile {
            volume_label: self.volume_label.clone(),
            drive_letter: self.drive_letter.clone(),
            rel_path: self.rel_path.clone(),
            size: self.size,
            modified: self.modified,
        }
    }
}

/// How full a drive was when it was measured.
#[derive(Clone, Copy, Debug, PartialEq, Eq, Structural)]
pub struct VolumeUsage {
    pub total: u64,
    pub free: u64,
    pub recorded_at: Timestamp,
}

impl IndexedFile {
    /// Best-effort absolute path, only valid if `drive_letter` is currently
    /// mounted as the same drive it was indexed under.
    pub fn absolute_path(&self) -> (r: String)
        ensures
            r@ == paths::join(self.drive_letter@.push('\\'), self.rel_path@),
    {
        let mut root: String = self.drive_letter.clone();
        root.push('\\');
        paths::join_paths(root.as_str(), self.rel_path.as_str())
    }
}

/// The digit that stands for `d` in hexadecimal.
pub open spec fn hex_char(d: int) -> char {
    if d < 10 {
        (48 + d) as char
    } else {
        (87 + d) as char
    }
}

/// The bytes in hexadecimal, two digits each.
pub open spec fn hex(bytes: Seq<u8>) -> Seq<char>
    decreases bytes.len(),
{
    if bytes.len() == 0 {
        seq![]
    } else {
        hex(bytes.drop_last()).push(hex_char(bytes.last() as int / 16)).push(
            hex_char(bytes.last() as int % 16),
        )
    }
}

/// Different bytes of one length are written differently.
pub proof fn law_hex_is_unique(a: Seq<u8>, b: Seq<u8>)
    requires
        hex(a) == hex(b),
    ensures
        a == b,
    decreases a.len(),
{
    lemma_hex_len(a);
    lemma_hex_len(b);
    if a.len() > 0 {
        let x = a.last() as int;
        let y = b.last() as int;
        let n = hex(a).len() as int;
        assert(hex(a)[n - 1] == hex_char(x % 16) && hex(b)[n - 1] == hex_char(y % 16));
        assert(hex(a)[n - 2] == hex_char(x / 16) && hex(b)[n - 2] == hex_char(y / 16));
        lemma_hex_char(x % 16, y % 16);
        lemma_hex_char(x / 16, y / 16);
        assert(x == 16 * (x / 16) + x % 16);
        assert(y == 16 * (y / 16) + y % 16);
        assert(hex(a).take(n - 2) =~= hex(a.drop_last()));
        assert(hex(b).take(n - 2) =~= hex(b.drop_last()));
        law_hex_is_unique(a.drop_last(), b.drop_last());
        assert(a =~= a.drop_last().push(a.last()));
        assert(b =~= b.drop_last().push(b.last()));
    } else {
        assert(a =~= b);
    }
}

proof fn lemma_hex_len(a: Seq<u8>)
    ensures
        hex(a).len() == 2 * a.len(),
    decreases a.len(),
{
    if a.len() > 0 {
        lemma_hex_len(a.drop_last());
    }
}

proof fn lemma_hex_char(x: int, y: int)
    requires
        0 <= x < 16,
        0 <= y < 16,
        hex_char(x) == hex_char(y),
    ensures
        x == y,
{
    assert(hex_char(x) as u32 == (if x < 10 { 48 + x } else { 87 + x }));
    assert(hex_char(y) as u32 == (if y < 10 { 48 + y } else { 87 + y }));
}

fn hex_digit(d: u8) -> (r: char)
    requires
        d < 16,
    ensures
        r == hex_char(d as int),
{
    if d < 10 {
        (48 + d) as char
    } else {
        (87 + d) as char
    }
}

/// Hex-encodes bytes.
pub fn hex_text(bytes: &[u8]) -> (r: String)
    ensures
        r@ == hex(bytes@),
{
    let mut out = String::new();
    let mut i: usize = 0;
    while i < bytes.len()
        invariant
            i <= bytes@.len(),
            out@ == hex(bytes@.take(i as int)),
        decreases bytes@.len() - i,
    {
        assert(bytes@.take(i + 1).drop_last() =~= bytes@.take(i as int));
        let b: u8 = bytes[i];
        out.push(hex_digit(b / 16));
        out.push(hex_digit(b % 16));
        i = i + 1;
    }
    assert(bytes@.take(bytes@.len() as int) =~= bytes@);
    out
}

/// Hex-encodes a content hash for use as an `IndexDb` key: the persisted form
/// requires string map keys, so the raw hash can't be used directly.
pub fn hex_encode(hash: &[u8; 32]) -> (r: String)
    ensures
        r@ == hex(hash@),
{
    hex_text(hash.as_slice())
}

/// An indexed file under its hash.
pub type Entry = (String, IndexedFile);

/// Whether the file was indexed on this volume.
pub open spec fn is_on(f: IndexedFile, drive_letter: Seq<char>, volume_label: Seq<char>) -> bool {
    f.drive_letter@ == drive_letter && f.volume_label@ == volume_label
}

/// Whether two indexed files are one: same volume, same relative path.
pub open spec fn same_place(a: IndexedFile, b: IndexedFile) -> bool {
    is_on(a, b.drive_letter@, b.volume_label@) && paths::same_path(a.rel_path@, b.rel_path@)
}

/// Whether one of the entries records this place.
pub open spec fn has_place(entries: Seq<Entry>, f: IndexedFile) -> bool {
    exists|i: int| 0 <= i < entries.len() && same_place(f, (#[trigger] entries[i]).1)
}

/// The entries that are not on the volume.
pub open spec fn without_volume(
    entries: Seq<Entry>,
    drive_letter: Seq<char>,
    volume_label: Seq<char>,
) -> Seq<Entry>
    decreases entries.len(),
{
    if entries.len() == 0 {
        seq![]
    } else {
        let before = without_volume(entries.drop_last(), drive_letter, volume_label);
        if is_on(entries.last().1, drive_letter, volume_label) {
            before
        } else {
            before.push(entries.last())
        }
    }
}

/// The entries at places that the new ones don't record.
pub open spec fn without_places(entries: Seq<Entry>, new: Seq<Entry>) -> Seq<Entry>
    decreases entries.len(),
{
    if entries.len() == 0 {
        seq![]
    } else {
        let before = without_places(entries.drop_last(), new);
        if has_place(new, entries.last().1) {
            before
        } else {
            before.push(entries.last())
        }
    }
}

/// The files under a hash, but for the given one.
pub open spec fn matching(
    entries: Seq<Entry>,
    hash: Seq<char>,
    exclude: IndexedFile,
) -> Seq<IndexedFile>
    decreases entries.len(),
{
    if entries.len() == 0 {
        seq![]
    } else {
        let before = matching(entries.drop_last(), hash, exclude);
        let e = entries.last();
        if e.0@ == hash && !same_place(e.1, exclude) {
            before.push(e.1)
        } else {
            before
        }
    }
}

/// The volumes of the entries, each once, in the order of their first entry.
pub open spec fn volumes(entries: Seq<Entry>) -> Seq<(Seq<char>, Seq<char>)>
    decreases entries.len(),
{
    if entries.len() == 0 {
        seq![]
    } else {
        let before = volumes(entries.drop_last());
        let f = entries.last().1;
        let v = (f.drive_letter@, f.volume_label@);
        if before.contains(v) {
            before
        } else {
            before.push(v)
        }
    }
}

/// A persisted, drive-spanning index of file hashes, built by one or more
/// indexing passes and queried by reverse search: given one file's hash, find
/// every other indexed copy of it, on any drive that's ever been indexed.
#[derive(Debug)]
pub struct IndexDb {
    pub entries: Vec<Entry>,
    /// How full each volume was when it was last measured.
    pub usages: Vec<(String, String, VolumeUsage)>,
}

impl Default for IndexDb {
    fn default() -> (r: Self)
        ensures
            r.entries@.len() == 0,
            r.usages@.len() == 0,
    {
        IndexDb { entries: Vec::new(), usages: Vec::new() }
    }
}

/// What is known of how full a volume is: the last measurement of it.
pub open spec fn usage_of(
    usages: Seq<(String, String, VolumeUsage)>,
    drive_letter: Seq<char>,
    volume_label: Seq<char>,
) -> Option<VolumeUsage>
    decreases usages.len(),
{
    if usages.len() == 0 {
        None
    } else if usages.last().0@ == drive_letter && usages.last().1@ == volume_label {
        Some(usages.last().2)
    } else {
        usage_of(usages.drop_last(), drive_letter, volume_label)
    }
}

fn same_place_as(a: &IndexedFile, b: &IndexedFile) -> (r: bool)
    ensures
        r == same_place(*a, *b),
{
    text::text_eq(a.drive_letter.as_str(), b.drive_letter.as_str()) && text::text_eq(
        a.volume_label.as_str(),
        b.volume_label.as_str(),
    ) && paths::are_same_path(a.rel_path.as_str(), b.rel_path.as_str())
}

impl IndexDb {
    /// Replaces every previously indexed entry for the *volume* identified by
    /// `drive_letter` + `volume_label` with `new_entries`, so re-indexing a
    /// drive doesn't accumulate stale duplicates of files that were since
    /// moved, renamed, or deleted. Keying on the label as well as the letter
    /// matters because a drive letter can end up hosting a different physical
    /// disk later (e.g. plugging a different drive into `D:`): that must not
    /// silently erase the previous disk's entries, since it may still be
    /// findable later under another letter.
    pub fn reindex_volume(
        &mut self,
        drive_letter: &str,
        volume_label: &str,
        new_entries: Vec<Entry>,
    )
        ensures
            final(self).entries@ == without_volume(
                old(self).entries@,
                drive_letter@,
                volume_label@,
            ) + new_entries@,
            final(self).usages == old(self).usages,
    {
        let mut new_entries: Vec<Entry> = new_entries;
        let ghost new = new_entries@;
        let mut all: Vec<Entry> = Vec::new();
        std::mem::swap(&mut all, &mut self.entries);
        let ghost entries = all@;
        let mut kept: Vec<Entry> = Vec::new();
        for e in it: all
            invariant
                it.seq() == entries,
                kept@ == without_volume(entries.take(it.index()), drive_letter@, volume_label@),
        {
            assert(entries.take(it.index() + 1).drop_last() =~= entries.take(it.index()));
            if !(text::text_eq(e.1.drive_letter.as_str(), drive_letter) && text::text_eq(
                e.1.volume_label.as_str(),
                volume_label,
            )) {
                kept.push(e);
            }
        }
        assert(entries.take(entries.len() as int) =~= entries);
        kept.append(&mut new_entries);
        self.entries = kept;
    }

    /// Adds `new_entries` without touching the rest of their volume (unlike
    /// `reindex_volume`), replacing any older entry recorded at the same
    /// volume + relative path, since that file's content may have changed.
    pub fn upsert(&mut self, new_entries: Vec<Entry>)
        ensures
            final(self).entries@ == without_places(old(self).entries@, new_entries@)
                + new_entries@,
            final(self).usages == old(self).usages,
    {
        let mut new_entries: Vec<Entry> = new_entries;
        let ghost new = new_entries@;
        // Most old entries lie at a path that no new one has.
        let mut ids = TextSet::new();
        let mut i: usize = 0;
        while i < new_entries.len()
            invariant
                i <= new_entries@.len(),
                new_entries@ == new,
                forall|k: int|
                    0 <= k < i ==> ids@.contains(paths::path_id((#[trigger] new[k]).1.rel_path@)),
            decreases new_entries@.len() - i,
        {
            ids.insert(paths::id_of(new_entries[i].1.rel_path.as_str()));
            i = i + 1;
        }
        let mut all: Vec<Entry> = Vec::new();
        std::mem::swap(&mut all, &mut self.entries);
        let ghost entries = all@;
        let mut kept: Vec<Entry> = Vec::new();
        for e in it: all
            invariant
                it.seq() == entries,
                new_entries@ == new,
                forall|k: int|
                    0 <= k < new.len() ==> ids@.contains(
                        paths::path_id((#[trigger] new[k]).1.rel_path@),
                    ),
                kept@ == without_places(entries.take(it.index()), new),
        {
            assert(entries.take(it.index() + 1).drop_last() =~= entries.take(it.index()));
            let mut replaced: bool = false;
            if ids.contains(paths::id_of(e.1.rel_path.as_str()).as_str()) {
                let mut k: usize = 0;
                while k < new_entries.len() && !replaced
                    invariant
                        k <= new_entries@.len(),
                        new_entries@ == new,
                        replaced ==> has_place(new, e.1),
                        !replaced ==> forall|j: int|
                            0 <= j < k ==> !same_place(e.1, (#[trigger] new[j]).1),
                    decreases new_entries@.len() - k,
                {
                    if same_place_as(&e.1, &new_entries[k].1) {
                        assert(same_place(e.1, new[k as int].1));
                        replaced = true;
                    }
                    k = k + 1;
                }
            }
            assert(replaced == has_place(new, e.1));
            if !replaced {
                kept.push(e);
            }
        }
        assert(entries.take(entries.len() as int) =~= entries);
        kept.append(&mut new_entries);
        self.entries = kept;
    }

    /// Every indexed file with the given content hash, leaving out `exclude`
    /// itself (matched by volume identity + relative path, since a relative
    /// path alone can collide across different volumes/drive letters).
    pub fn matches(&self, hash_hex: &str, exclude: &IndexedFile) -> (r: Vec<&IndexedFile>)
        ensures
            crate::selection::targets(r@) == matching(self.entries@, hash_hex@, *exclude),
    {
        let mut out: Vec<&IndexedFile> = Vec::new();
        let mut i: usize = 0;
        while i < self.entries.len()
            invariant
                i <= self.entries@.len(),
                crate::selection::targets(out@) =~= matching(
                    self.entries@.take(i as int),
                    hash_hex@,
                    *exclude,
                ),
            decreases self.entries@.len() - i,
        {
            assert(self.entries@.take(i + 1).drop_last() =~= self.entries@.take(i as int));
            let e: &Entry = &self.entries[i];
            if text::text_eq(e.0.as_str(), hash_hex) && !same_place_as(&e.1, exclude) {
                out.push(&e.1);
            }
            i = i + 1;
        }
        assert(self.entries@.take(self.entries@.len() as int) =~= self.entries@);
        out
    }

    /// Unique (drive_letter, volume_label) pairs currently represented in the
    /// index, for showing the user what's been indexed so far. A drive letter
    /// can appear more than once here if it has hosted different labeled
    /// volumes across separate indexing passes.
    pub fn indexed_drives(&self) -> (r: Vec<(String, String)>)
        ensures
            pair_texts(r@) == volumes(self.entries@),
    {
        let mut out: Vec<(String, String)> = Vec::new();
        let mut i: usize = 0;
        while i < self.entries.len()
            invariant
                i <= self.entries@.len(),
                pair_texts(out@) =~= volumes(self.entries@.take(i as int)),
            decreases self.entries@.len() - i,
        {
            assert(self.entries@.take(i + 1).drop_last() =~= self.entries@.take(i as int));
            let f: &IndexedFile = &self.entries[i].1;
            let ghost v = (f.drive_letter@, f.volume_label@);
            let mut seen: bool = false;
            let mut k: usize = 0;
            while k < out.len() && !seen
                invariant
                    k <= out@.len(),
                    v == (f.drive_letter@, f.volume_label@),
                    seen ==> pair_texts(out@).contains(v),
                    !seen ==> forall|j: int| 0 <= j < k ==> #[trigger] pair_texts(out@)[j] != v,
                decreases out@.len() - k,
            {
                assert(pair_texts(out@)[k as int] == (out@[k as int].0@, out@[k as int].1@));
                if text::text_eq(out[k].0.as_str(), f.drive_letter.as_str()) && text::text_eq(
                    out[k].1.as_str(),
                    f.volume_label.as_str(),
                ) {
                    seen = true;
                }
                k = k + 1;
            }
            if !seen {
                let ghost before = pair_texts(out@);
                assert(!before.contains(v));
                out.push((f.drive_letter.clone(), f.volume_label.clone()));
                assert(pair_texts(out@) =~= before.push(v));
            }
            i = i + 1;
        }
        assert(self.entries@.take(self.entries@.len() as int) =~= self.entries@);
        out
    }

    /// Remembers how full a volume is.
    pub fn set_usage(&mut self, drive_letter: String, volume_label: String, usage: VolumeUsage)
        ensures
            final(self).entries == old(self).entries,
            forall|d: Seq<char>, l: Seq<char>| #[trigger]
                usage_of(final(self).usages@, d, l) == (if d == drive_letter@ && l
                    == volume_label@ {
                    Some(usage)
                } else {
                    usage_of(old(self).usages@, d, l)
                }),
    {
        let ghost before = self.usages@;
        let mut i: usize = 0;
        while i < self.usages.len()
            invariant
                i <= self.usages@.len(),
                self.usages@ == before,
                self.entries == old(self).entries,
                before == old(self).usages@,
            decreases self.usages@.len() - i,
        {
            if text::text_eq(self.usages[i].0.as_str(), drive_letter.as_str()) && text::text_eq(
                self.usages[i].1.as_str(),
                volume_label.as_str(),
            ) {
                self.usages.remove(i);
                self.usages.push((drive_letter, volume_label, usage));
                proof {
                    let mid = before.remove(i as int);
                    let now = mid.push((drive_letter, volume_label, usage));
                    assert(now.drop_last() =~= mid);
                    assert forall|d: Seq<char>, l: Seq<char>| #[trigger]
                        usage_of(now, d, l) == (if d == drive_letter@ && l == volume_label@ {
                            Some(usage)
                        } else {
                            usage_of(before, d, l)
                        }) by {
                        if !(d == drive_letter@ && l == volume_label@) {
                            lemma_usage_without(before, i as int, d, l);
                        }
                    }
                }
                return;
            }
            i = i + 1;
        }
        self.usages.push((drive_letter, volume_label, usage));
        assert(self.usages@.drop_last() =~= before);
    }

    /// How full a volume was when it was last measured.
    pub fn usage(&self, drive_letter: &str, volume_label: &str) -> (r: Option<VolumeUsage>)
        ensures
            r == usage_of(self.usages@, drive_letter@, volume_label@),
    {
        let mut i: usize = self.usages.len();
        assert(self.usages@.take(i as int) =~= self.usages@);
        while i > 0
            invariant
                i <= self.usages@.len(),
                usage_of(self.usages@, drive_letter@, volume_label@) == usage_of(
                    self.usages@.take(i as int),
                    drive_letter@,
                    volume_label@,
                ),
            decreases i,
        {
            assert(self.usages@.take(i as int).drop_last() =~= self.usages@.take(i - 1));
            i = i - 1;
            if text::text_eq(self.usages[i].0.as_str(), drive_letter) && text::text_eq(
                self.usages[i].1.as_str(),
                volume_label,
            ) {
                return Some(self.usages[i].2);
            }
        }
        None
    }

    /// How many files are indexed.
    pub fn total_files(&self) -> (r: usize)
        ensures
            r == self.entries@.len(),
    {
        self.entries.len()
    }
}

proof fn lemma_usage_without(
    usages: Seq<(String, String, VolumeUsage)>,
    i: int,
    drive_letter: Seq<char>,
    volume_label: Seq<char>,
)
    requires
        0 <= i < usages.len(),
        !(usages[i].0@ == drive_letter && usages[i].1@ == volume_label),
    ensures
        usage_of(usages.remove(i), drive_letter, volume_label) == usage_of(
            usages,
            drive_letter,
            volume_label,
        ),
    decreases usages.len(),
{
    if i == usages.len() - 1 {
        assert(usages.remove(i) =~= usages.drop_last());
    } else {
        assert(usages.remove(i).drop_last() =~= usages.drop_last().remove(i));
        lemma_usage_without(usages.drop_last(), i, drive_letter, volume_label);
    }
}

/// The characters of each pair of texts.
pub open spec fn pair_texts(v: Seq<(String, String)>) -> Seq<(Seq<char>, Seq<char>)> {
    v.map_values(|p: (String, String)| (p.0@, p.1@))
}

/// Every match has the hash and is not the file itself, and every such file is
/// a match.
pub proof fn law_matches_are_the_copies(
    entries: Seq<Entry>,
    hash: Seq<char>,
    exclude: IndexedFile,
    f: IndexedFile,
)
    ensures
        matching(entries, hash, exclude).contains(f) <==> exists|i: int|
            0 <= i < entries.len() && (#[trigger] entries[i]).0@ == hash && entries[i].1 == f
                && !same_place(f, exclude),
    decreases entries.len(),
{
    let m = matching(entries, hash, exclude);
    if entries.len() > 0 {
        let t = entries.drop_last();
        let before = matching(t, hash, exclude);
        law_matches_are_the_copies(t, hash, exclude, f);
        if before.contains(f) {
            let k = choose|k: int| 0 <= k < before.len() && before[k] == f;
            assert(m[k] == f);
            let i = choose|i: int|
                0 <= i < t.len() && (#[trigger] t[i]).0@ == hash && t[i].1 == f && !same_place(
                    f,
                    exclude,
                );
            assert(entries[i] == t[i]);
        }
        if m.contains(f) && !before.contains(f) {
            let k = choose|k: int| 0 <= k < m.len() && m[k] == f;
            if k < before.len() {
                assert(before[k] == f);
            }
            assert(entries[entries.len() - 1].1 == f);
        }
        if exists|i: int|
            0 <= i < entries.len() && (#[trigger] entries[i]).0@ == hash && entries[i].1 == f
                && !same_place(f, exclude) {
            let i = choose|i: int|
                0 <= i < entries.len() && (#[trigger] entries[i]).0@ == hash && entries[i].1 == f
                    && !same_place(f, exclude);
            if i < t.len() {
                assert(t[i] == entries[i]);
            } else {
                assert(m[before.len() as int] == f);
            }
        }
    }
}

/// How a hash is written: two digits of `0` to `9` and `a` to `f` for each byte,
/// its upper half first.
pub proof fn law_hex_has_two_digits_per_byte(bytes: Seq<u8>, i: int)
    requires
        0 <= i < bytes.len(),
    ensures
        hex(bytes).len() == 2 * bytes.len(),
        hex(bytes)[2 * i] == "0123456789abcdef"@[bytes[i] as int / 16],
        hex(bytes)[2 * i + 1] == "0123456789abcdef"@[bytes[i] as int % 16],
    decreases bytes.len(),
{
    reveal_strlit("0123456789abcdef");
    lemma_hex_len(bytes);
    lemma_hex_len(bytes.drop_last());
    let h = hex(bytes.drop_last());
    if i < bytes.len() - 1 {
        law_hex_has_two_digits_per_byte(bytes.drop_last(), i);
        assert(hex(bytes)[2 * i] == h[2 * i] && hex(bytes)[2 * i + 1] == h[2 * i + 1]);
    } else {
        let x = bytes[i] as int / 16;
        let y = bytes[i] as int % 16;
        assert(0 <= x < 16 && 0 <= y < 16);
        lemma_hex_digit(x);
        lemma_hex_digit(y);
    }
}

proof fn lemma_hex_digit(d: int)
    requires
        0 <= d < 16,
    ensures
        hex_char(d) == "0123456789abcdef"@[d],
{
    reveal_strlit("0123456789abcdef");
    assert(48 as char == '0' && 49 as char == '1' && 50 as char == '2' && 51 as char == '3'
        && 52 as char == '4' && 53 as char == '5' && 54 as char == '6' && 55 as char == '7'
        && 56 as char == '8' && 57 as char == '9' && 97 as char == 'a' && 98 as char == 'b'
        && 99 as char == 'c' && 100 as char == 'd' && 101 as char == 'e' && 102 as char == 'f');
    if d == 0 {
    } else if d == 1 {
    } else if d == 2 {
    } else if d == 3 {
    } else if d == 4 {
    } else if d == 5 {
    } else if d == 6 {
    } else if d == 7 {
    } else if d == 8 {
    } else if d == 9 {
    } else if d == 10 {
    } else if d == 11 {
    } else if d == 12 {
    } else if d == 13 {
    } else if d == 14 {
    } else {
        assert(d == 15);
    }
}

/// A lookup finds the files under the hash, in the order in which they are
/// indexed, all of them but the one that is looked up: the one on the same drive
/// letter, under the same label and at the same path.
pub proof fn law_lookup_goes_by_hash_and_place(
    entries: Seq<Entry>,
    e: Entry,
    hash: Seq<char>,
    exclude: IndexedFile,
)
    ensures
        matching(Seq::<Entry>::empty(), hash, exclude).len() == 0,
        ({
            let itself = e.1.drive_letter@ == exclude.drive_letter@ && e.1.volume_label@
                == exclude.volume_label@ && paths::same_path(e.1.rel_path@, exclude.rel_path@);
            matching(entries.push(e), hash, exclude) == (if e.0@ == hash && !itself {
                matching(entries, hash, exclude).push(e.1)
            } else {
                matching(entries, hash, exclude)
            })
        }),
{
    assert(entries.push(e).drop_last() =~= entries);
}

/// Indexing a volume again drops what has both its drive letter and its label,
/// in order, and nothing else; adding files drops what has the drive letter, the
/// label and the path of one of them.
pub proof fn law_what_replacing_drops(
    entries: Seq<Entry>,
    e: Entry,
    new: Seq<Entry>,
    drive_letter: Seq<char>,
    volume_label: Seq<char>,
)
    ensures
        without_volume(Seq::<Entry>::empty(), drive_letter, volume_label).len() == 0,
        without_volume(entries.push(e), drive_letter, volume_label) == (if e.1.drive_letter@
            == drive_letter && e.1.volume_label@ == volume_label {
            without_volume(entries, drive_letter, volume_label)
        } else {
            without_volume(entries, drive_letter, volume_label).push(e)
        }),
        without_places(Seq::<Entry>::empty(), new).len() == 0,
        without_places(entries.push(e), new) == (if exists|i: int|
            0 <= i < new.len() && e.1.drive_letter@ == (#[trigger] new[i]).1.drive_letter@
                && e.1.volume_label@ == new[i].1.volume_label@ && paths::same_path(
                e.1.rel_path@,
                new[i].1.rel_path@,
            ) {
            without_places(entries, new)
        } else {
            without_places(entries, new).push(e)
        }),
{
    assert(entries.push(e).drop_last() =~= entries);
    let here = exists|i: int|
        0 <= i < new.len() && e.1.drive_letter@ == (#[trigger] new[i]).1.drive_letter@
            && e.1.volume_label@ == new[i].1.volume_label@ && paths::same_path(
            e.1.rel_path@,
            new[i].1.rel_path@,
        );
    assert(here == has_place(new, e.1)) by {
        if here {
            let i = choose|i: int|
                0 <= i < new.len() && e.1.drive_letter@ == (#[trigger] new[i]).1.drive_letter@
                    && e.1.volume_label@ == new[i].1.volume_label@ && paths::same_path(
                    e.1.rel_path@,
                    new[i].1.rel_path@,
                );
            assert(same_place(e.1, new[i].1));
        }
        if has_place(new, e.1) {
            let i = choose|i: int| 0 <= i < new.len() && same_place(e.1, (#[trigger] new[i]).1);
            assert(e.1.drive_letter@ == new[i].1.drive_letter@);
        }
    }
}

/// The volumes of an index are those that it has files on, each once.
pub proof fn law_every_volume_is_listed_once(entries: Seq<Entry>, i: int)
    ensures
        volumes(entries).no_duplicates(),
        0 <= i < entries.len() ==> volumes(entries).contains(
            (entries[i].1.drive_letter@, entries[i].1.volume_label@),
        ),
        forall|k: int|
            0 <= k < volumes(entries).len() ==> is_volume_of_some(
                entries,
                #[trigger] volumes(entries)[k],
            ),
    decreases entries.len(),
{
    if entries.len() > 0 {
        let t = entries.drop_last();
        let before = volumes(t);
        let all = volumes(entries);
        let f = entries.last().1;
        let v = (f.drive_letter@, f.volume_label@);
        law_every_volume_is_listed_once(t, i);
        if 0 <= i < t.len() {
            let w = (t[i].1.drive_letter@, t[i].1.volume_label@);
            let k = choose|k: int| 0 <= k < before.len() && before[k] == w;
            assert(all[k] == w);
        } else if i == t.len() && !before.contains(v) {
            assert(all[before.len() as int] == v);
        }
        assert forall|k: int| 0 <= k < all.len() implies is_volume_of_some(
            entries,
            #[trigger] all[k],
        ) by {
            if k < before.len() {
                assert(is_volume_of_some(t, before[k]));
                let j = choose|j: int|
                    0 <= j < t.len() && (#[trigger] t[j]).1.drive_letter@ == before[k].0
                        && t[j].1.volume_label@ == before[k].1;
                assert(entries[j] == t[j]);
            } else {
                assert(entries[entries.len() - 1].1.drive_letter@ == all[k].0);
            }
        }
        assert(all.no_duplicates());
    }
}

/// Whether some entry is on the volume.
pub open spec fn is_volume_of_some(entries: Seq<Entry>, v: (Seq<char>, Seq<char>)) -> bool {
    exists|j: int|
        0 <= j < entries.len() && (#[trigger] entries[j]).1.drive_letter@ == v.0
            && entries[j].1.volume_label@ == v.1
}

/// What is known of a volume is what was measured of it last.
pub proof fn law_the_last_measurement_counts(
    usages: Seq<(String, String, VolumeUsage)>,
    u: (String, String, VolumeUsage),
    drive_letter: Seq<char>,
    volume_label: Seq<char>,
)
    ensures
        usage_of(Seq::<(String, String, VolumeUsage)>::empty(), drive_letter, volume_label)
            is None,
        usage_of(usages.push(u), drive_letter, volume_label) == (if u.0@ == drive_letter && u.1@
            == volume_label {
            Some(u.2)
        } else {
            usage_of(usages, drive_letter, volume_label)
        }),
{
    assert(usages.push(u).drop_last() =~= usages);
}

/// Leaving out a volume leaves out what is on it.
pub proof fn lemma_without_volume(
    entries: Seq<Entry>,
    drive_letter: Seq<char>,
    volume_label: Seq<char>,
    e: Entry,
)
    ensures
        without_volume(entries, drive_letter, volume_label).contains(e) <==> entries.contains(e)
            && !is_on(e.1, drive_letter, volume_label),
    decreases entries.len(),
{
    if entries.len() > 0 {
        let t = entries.drop_last();
        let before = without_volume(t, drive_letter, volume_label);
        let all = without_volume(entries, drive_letter, volume_label);
        lemma_without_volume(t, drive_letter, volume_label, e);
        if before.contains(e) {
            let k = choose|k: int| 0 <= k < before.len() && before[k] == e;
            assert(all[k] == e);
        }
        if t.contains(e) {
            let k = choose|k: int| 0 <= k < t.len() && t[k] == e;
            assert(entries[k] == e);
        }
        if entries.contains(e) {
            let k = choose|k: int| 0 <= k < entries.len() && entries[k] == e;
            if k < t.len() {
                assert(t[k] == e);
            } else if !is_on(e.1, drive_letter, volume_label) {
                assert(all[before.len() as int] == e);
            }
        }
        if all.contains(e) && !before.contains(e) {
            let k = choose|k: int| 0 <= k < all.len() && all[k] == e;
            if k < before.len() {
                assert(before[k] == e);
            }
            assert(entries[entries.len() - 1] == e);
        }
    }
}

/// Indexing a volume again replaces what was known of it and leaves every
/// other volume alone, also one that had the same drive letter.
pub proof fn law_reindexing_replaces_one_volume(
    entries: Seq<Entry>,
    new: Seq<Entry>,
    drive_letter: Seq<char>,
    volume_label: Seq<char>,
    e: Entry,
)
    requires
        forall|i: int|
            0 <= i < new.len() ==> is_on((#[trigger] new[i]).1, drive_letter, volume_label),
    ensures
        ({
            let after = without_volume(entries, drive_letter, volume_label) + new;
            if is_on(e.1, drive_letter, volume_label) {
                after.contains(e) <==> new.contains(e)
            } else {
                after.contains(e) <==> entries.contains(e)
            }
        }),
{
    let kept = without_volume(entries, drive_letter, volume_label);
    let after = kept + new;
    lemma_without_volume(entries, drive_letter, volume_label, e);
    if kept.contains(e) {
        let k = choose|k: int| 0 <= k < kept.len() && kept[k] == e;
        assert(after[k] == e);
    }
    if new.contains(e) {
        let k = choose|k: int| 0 <= k < new.len() && new[k] == e;
        assert(after[kept.len() + k] == e);
        assert(is_on(new[k].1, drive_letter, volume_label));
    }
    if after.contains(e) {
        let k = choose|k: int| 0 <= k < after.len() && after[k] == e;
        if k < kept.len() {
            assert(kept[k] == e);
        } else {
            assert(new[k - kept.len()] == e);
        }
    }
}

proof fn lemma_without_places(entries: Seq<Entry>, new: Seq<Entry>, e: Entry)
    ensures
        without_places(entries, new).contains(e) <==> entries.contains(e) && !has_place(new, e.1),
    decreases entries.len(),
{
    if entries.len() > 0 {
        let t = entries.drop_last();
        let before = without_places(t, new);
        let all = without_places(entries, new);
        lemma_without_places(t, new, e);
        if before.contains(e) {
            let k = choose|k: int| 0 <= k < before.len() && before[k] == e;
            assert(all[k] == e);
        }
        if t.contains(e) {
            let k = choose|k: int| 0 <= k < t.len() && t[k] == e;
            assert(entries[k] == e);
        }
        if entries.contains(e) {
            let k = choose|k: int| 0 <= k < entries.len() && entries[k] == e;
            if k < t.len() {
                assert(t[k] == e);
            } else if !has_place(new, e.1) {
                assert(all[before.len() as int] == e);
            }
        }
        if all.contains(e) && !before.contains(e) {
            let k = choose|k: int| 0 <= k < all.len() && all[k] == e;
            if k < before.len() {
                assert(before[k] == e);
            }
            assert(entries[entries.len() - 1] == e);
        }
    }
}

/// Adding files replaces what was known of their places and keeps the rest,
/// also of their volumes.
pub proof fn law_adding_replaces_only_places(entries: Seq<Entry>, new: Seq<Entry>, e: Entry)
    ensures
        (without_places(entries, new) + new).contains(e) <==> new.contains(e) || (
        entries.contains(e) && !has_place(new, e.1)),
{
    let kept = without_places(entries, new);
    let after = kept + new;
    lemma_without_places(entries, new, e);
    if kept.contains(e) {
        let k = choose|k: int| 0 <= k < kept.len() && kept[k] == e;
        assert(after[k] == e);
    }
    if new.contains(e) {
        let k = choose|k: int| 0 <= k < new.len() && new[k] == e;
        assert(after[kept.len() + k] == e);
    }
    if after.contains(e) {
        let k = choose|k: int| 0 <= k < after.len() && after[k] == e;
        if k < kept.len() {
            assert(kept[k] == e);
        } else {
            assert(new[k - kept.len()] == e);
        }
    }
}

} // verus!
