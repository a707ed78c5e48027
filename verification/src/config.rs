//! What a scan looks for.

use crate::text;
use vstd::prelude::*;
use vstd::slice::slice_subrange;

verus! {

/// Which files a scan takes by their extension.
#[derive(Debug, PartialEq)]
pub enum ExtensionFilter {
    All,
    /// Only these: lowercase, no leading dot, e.g. `["jpg", "png"]`.
    Include(Vec<String>),
    /// All but these.
    Exclude(Vec<String>),
}

/// Whether `list` holds the text `e`.
fn holds_text(list: &Vec<String>, e: &str) -> (r: bool)
    ensures
        r == text::texts(list@).contains(e@),
{
    let mut i: usize = 0;
    while i < list.len()
        invariant
            i <= list@.len(),
            forall|k: int| 0 <= k < i ==> #[trigger] text::texts(list@)[k] != e@,
        decreases list@.len() - i,
    {
        if text::text_eq(list[i].as_str(), e) {
            assert(text::texts(list@)[i as int] == e@);
            return true;
        }
        i = i + 1;
    }
    false
}

impl ExtensionFilter {
    /// Whether the filter takes files with this extension.
    pub open spec fn takes(self, ext: Option<Seq<char>>) -> bool {
        match self {
            ExtensionFilter::All => true,
            ExtensionFilter::Include(list) => ext is Some && text::texts(list@).contains(ext->0),
            ExtensionFilter::Exclude(list) => ext is None || !text::texts(list@).contains(ext->0),
        }
    }

    /// `ext` is the file's extension (lowercase, no leading dot), or `None` if
    /// the file has none.
    pub fn matches(&self, ext: Option<&str>) -> (r: bool)
        ensures
            r == self.takes(match ext {
                Some(e) => Some(e@),
                None => None,
            }),
    {
        match self {
            ExtensionFilter::All => true,
            ExtensionFilter::Include(list) => match ext {
                Some(e) => holds_text(list, e),
                None => false,
            },
            ExtensionFilter::Exclude(list) => match ext {
                Some(e) => !holds_text(list, e),
                None => true,
            },
        }
    }
}

/// Which notion of "duplicate" a scan looks for.
#[derive(Clone, Copy, Debug, PartialEq, Eq, Structural)]
pub enum ScanMode {
    /// Byte-identical content, found via content hashing.
    ExactContent,
    /// Images/videos that look like the same shot at a different resolution
    /// (re-encodes, resizes, thumbnails), found via perceptual hashing.
    SimilarMedia,
    /// Every file passing the size/extension/name filters, duplicate or not,
    /// e.g. to clear out all `.tmp` files or everything under 1 KB.
    MatchingFiles,
}

/// What a scan looks for and where.
#[derive(Debug)]
pub struct ScanConfig {
    pub folders: Vec<String>,
    /// Look only at the files directly in each folder.
    pub exclude_subfolders: bool,
    /// Only mark files duplicate if they share a parent folder.
    pub same_folder_only: bool,
    /// In bytes.
    pub min_size: Option<u64>,
    /// In bytes.
    pub max_size: Option<u64>,
    pub extensions: ExtensionFilter,
    pub mode: ScanMode,
    /// Max Hamming distance (out of 64 bits) between two perceptual hashes to
    /// still count as the same picture, only used in `ScanMode::SimilarMedia`.
    pub similarity_threshold: u32,
    /// Leave RAR archives and split-archive volumes out of the scan (see
    /// [`crate::archive`]): deleting one part of a set as "a duplicate" breaks
    /// the whole set.
    pub skip_archives: bool,
    /// Only used in `ScanMode::MatchingFiles`: a case-insensitive name
    /// filter, either a plain substring or a `*`/`?` wildcard pattern
    /// matched against the whole file name. Empty matches everything.
    pub name_filter: String,
}

impl Default for ScanConfig {
    fn default() -> (r: Self)
        ensures
            r.folders@.len() == 0,
            !r.exclude_subfolders,
            !r.same_folder_only,
            r.min_size is None,
            r.max_size is None,
            r.extensions is All,
            r.mode == ScanMode::ExactContent,
            r.similarity_threshold == 10,
            r.skip_archives,
            r.name_filter@.len() == 0,
    {
        ScanConfig {
            folders: Vec::new(),
            exclude_subfolders: false,
            same_folder_only: false,
            min_size: None,
            max_size: None,
            extensions: ExtensionFilter::All,
            mode: ScanMode::ExactContent,
            similarity_threshold: 10,
            skip_archives: true,
            name_filter: String::new(),
        }
    }
}

/// Whether the wildcard pattern `p` describes `n` as a whole: `*` stands for
/// any run of characters, `?` for any one character.
pub open spec fn wildcard(p: Seq<char>, n: Seq<char>) -> bool
    decreases p.len(), n.len(),
{
    if p.len() == 0 {
        n.len() == 0
    } else if p[0] == '*' {
        wildcard(p.drop_first(), n) || (n.len() > 0 && wildcard(p, n.drop_first()))
    } else {
        n.len() > 0 && (p[0] == '?' || p[0] == n[0]) && wildcard(p.drop_first(), n.drop_first())
    }
}

/// Whether `s` holds a `*` or a `?`.
pub open spec fn has_wildcard(s: Seq<char>) -> bool {
    s.contains('*') || s.contains('?')
}

/// Whether `p` stands somewhere in `s`.
pub open spec fn has_text(s: Seq<char>, p: Seq<char>) -> bool {
    exists|i: int| text::stands_at(s, p, i)
}

/// Whether a file name passes a name filter.
pub open spec fn passes_name_filter(filter: Seq<char>, name: Seq<char>) -> bool {
    let p = text::lowercase(text::trim(filter));
    let n = text::lowercase(name);
    p.len() == 0 || (if has_wildcard(p) {
        wildcard(p, n)
    } else {
        has_text(n, p)
    })
}

/// A star may take up any beginning of the text.
proof fn lemma_star_absorbs(p: Seq<char>, n: Seq<char>, k: int)
    requires
        p.len() > 0,
        p[0] == '*',
        0 <= k <= n.len(),
        wildcard(p, n.skip(k)),
    ensures
        wildcard(p, n),
    decreases k,
{
    if k > 0 {
        let m = n.skip(k - 1);
        assert(m.drop_first() =~= n.skip(k));
        assert(wildcard(p, m));
        lemma_star_absorbs(p, n, k - 1);
    } else {
        assert(n.skip(0) =~= n);
    }
}

/// What a star describes, it describes by taking up some beginning.
proof fn lemma_star_splits(p: Seq<char>, n: Seq<char>) -> (k: int)
    requires
        p.len() > 0,
        p[0] == '*',
        wildcard(p, n),
    ensures
        0 <= k <= n.len(),
        wildcard(p.drop_first(), n.skip(k)),
    decreases n.len(),
{
    if wildcard(p.drop_first(), n) {
        assert(n.skip(0) =~= n);
        0
    } else {
        let k = lemma_star_splits(p, n.drop_first());
        assert(n.drop_first().skip(k) =~= n.skip(k + 1));
        k + 1
    }
}

/// A beginning without stars takes as many characters as it is long.
proof fn lemma_plain_prefix(p: Seq<char>, n: Seq<char>, len: int)
    requires
        0 <= len <= p.len(),
        forall|i: int| 0 <= i < len ==> #[trigger] p[i] != '*',
        wildcard(p, n),
    ensures
        len <= n.len(),
        wildcard(p.skip(len), n.skip(len)),
    decreases len,
{
    if len > 0 {
        assert(p[0] != '*');
        assert forall|i: int| 0 <= i < len - 1 implies #[trigger] p.drop_first()[i] != '*' by {
            assert(p[i + 1] != '*');
        }
        lemma_plain_prefix(p.drop_first(), n.drop_first(), len - 1);
        assert(p.drop_first().skip(len - 1) =~= p.skip(len));
        assert(n.drop_first().skip(len - 1) =~= n.skip(len));
    } else {
        assert(p.skip(0) =~= p && n.skip(0) =~= n);
    }
}

/// Nothing but stars describes the empty text.
proof fn lemma_wildcard_empty(p: Seq<char>, n: Seq<char>)
    requires
        n.len() == 0,
    ensures
        wildcard(p, n) == (forall|i: int| 0 <= i < p.len() ==> p[i] == '*'),
    decreases p.len(),
{
    if p.len() > 0 {
        lemma_wildcard_empty(p.drop_first(), n);
        if p[0] == '*' {
            if wildcard(p.drop_first(), n) {
                assert forall|i: int| 0 <= i < p.len() implies p[i] == '*' by {
                    if i > 0 {
                        assert(p.drop_first()[i - 1] == p[i]);
                    }
                }
            } else if forall|i: int| 0 <= i < p.len() ==> p[i] == '*' {
                assert forall|i: int| 0 <= i < p.len() - 1 implies p.drop_first()[i] == '*' by {
                    assert(p[i + 1] == '*');
                }
            }
        }
    }
}

/// Decides [`wildcard`]: greedy matching with backtracking to the last `*`.
fn matches_wildcard(p: &[char], n: &[char]) -> (r: bool)
    ensures
        r == wildcard(p@, n@),
{
    let mut pi: usize = 0;
    let mut ni: usize = 0;
    let mut star: Option<usize> = None;
    let mut mark: usize = 0;
    assert(p@.skip(0) =~= p@ && n@.skip(0) =~= n@);
    while ni < n.len()
        invariant
            pi <= p@.len(),
            ni <= n@.len(),
            p@.len() == p.len(),
            n@.len() == n.len(),
            mark <= ni,
            match star {
                None => wildcard(p@, n@) == wildcard(p@.skip(pi as int), n@.skip(ni as int)),
                Some(s) => {
                    &&& s < pi
                    &&& p@[s as int] == '*'
                    &&& pi - s - 1 == ni - mark
                    &&& forall|i: int| s < i < pi ==> #[trigger] p@[i] != '*'
                    &&& wildcard(p@, n@) == (wildcard(p@.skip(pi as int), n@.skip(ni as int)) || (
                    mark < n@.len() && wildcard(p@.skip(s as int), n@.skip(mark + 1))))
                },
            },
        decreases n@.len() - mark, n@.len() - ni, p@.len() - pi,
    {
        let ghost ps = p@.skip(pi as int);
        let ghost ns = n@.skip(ni as int);
        proof {
            assert(ns[0] == n@[ni as int]);
            assert(ns.drop_first() =~= n@.skip(ni + 1));
            if pi < p.len() {
                assert(ps[0] == p@[pi as int]);
                assert(ps.drop_first() =~= p@.skip(pi + 1));
            }
        }
        if pi < p.len() && p[pi] == '*' {
            proof {
                // An earlier star cannot do better: what it would reach, this one reaches too.
                if let Some(s) = star {
                    if mark < n@.len() && wildcard(p@.skip(s as int), n@.skip(mark + 1)) {
                        let rest = n@.skip(mark + 1);
                        assert(p@.skip(s as int)[0] == '*');
                        let k = lemma_star_splits(p@.skip(s as int), rest);
                        let q = p@.skip(s + 1);
                        assert(p@.skip(s as int).drop_first() =~= q);
                        let len = pi - s - 1;
                        assert forall|i: int| 0 <= i < len implies #[trigger] q[i] != '*' by {
                            assert(p@[s + 1 + i] != '*');
                        }
                        lemma_plain_prefix(q, rest.skip(k), len);
                        assert(q.skip(len) =~= ps);
                        assert(rest.skip(k).skip(len) =~= ns.skip(k + 1));
                        lemma_star_absorbs(ps, ns, k + 1);
                    }
                }
                assert(wildcard(p@, n@) == wildcard(ps, ns));
                assert(wildcard(ps, ns) == (wildcard(p@.skip(pi + 1), ns) || wildcard(
                    ps,
                    n@.skip(ni + 1),
                )));
            }
            star = Some(pi);
            mark = ni;
            pi = pi + 1;
        } else if pi < p.len() && (p[pi] == '?' || p[pi] == n[ni]) {
            pi = pi + 1;
            ni = ni + 1;
        } else if let Some(s) = star {
            assert(!wildcard(ps, ns));
            proof {
                let q = p@.skip(s as int);
                let rest = n@.skip(mark + 1);
                assert(q[0] == '*');
                assert(q.drop_first() =~= p@.skip(s + 1));
                if mark + 1 < n@.len() {
                    assert(rest.drop_first() =~= n@.skip(mark + 2));
                }
            }
            pi = s + 1;
            mark = mark + 1;
            ni = mark;
        } else {
            assert(!wildcard(ps, ns));
            return false;
        }
    }
    let ghost ps = p@.skip(pi as int);
    let ghost ns = n@.skip(ni as int);
    proof {
        if let Some(s) = star {
            if mark < n@.len() && wildcard(p@.skip(s as int), n@.skip(mark + 1)) {
                let rest = n@.skip(mark + 1);
                assert(p@.skip(s as int)[0] == '*');
                let k = lemma_star_splits(p@.skip(s as int), rest);
                let q = p@.skip(s + 1);
                assert(p@.skip(s as int).drop_first() =~= q);
                let len = pi - s - 1;
                assert forall|i: int| 0 <= i < len implies #[trigger] q[i] != '*' by {
                    assert(p@[s + 1 + i] != '*');
                }
                lemma_plain_prefix(q, rest.skip(k), len);
                assert(false);
            }
        }
        lemma_wildcard_empty(ps, ns);
    }
    let mut i: usize = pi;
    while i < p.len()
        invariant
            pi <= i <= p@.len(),
            p@.len() == p.len(),
            ps == p@.skip(pi as int),
            wildcard(p@, n@) == (forall|k: int| 0 <= k < ps.len() ==> ps[k] == '*'),
            forall|k: int| pi <= k < i ==> p@[k] == '*',
        decreases p@.len() - i,
    {
        if p[i] != '*' {
            assert(ps[i - pi] != '*');
            return false;
        }
        i = i + 1;
    }
    assert forall|k: int| 0 <= k < ps.len() implies ps[k] == '*' by {
        assert(p@[pi + k] == '*');
    }
    true
}

proof fn lemma_occurrence(s: Seq<char>, p: Seq<char>, i: int)
    ensures
        text::last_occurrence_from(s, p, i) is Some <==> exists|k: int|
            k <= i && text::stands_at(s, p, k),
    decreases i + 1,
{
    if i >= 0 && !text::stands_at(s, p, i) {
        lemma_occurrence(s, p, i - 1);
        if exists|k: int| k <= i && text::stands_at(s, p, k) {
            let k = choose|k: int| k <= i && text::stands_at(s, p, k);
            assert(k <= i - 1 && text::stands_at(s, p, k));
        }
    }
}

/// Decides [`has_text`].
pub fn contains_text(s: &[char], p: &[char]) -> (r: bool)
    ensures
        r == has_text(s@, p@),
{
    proof {
        lemma_occurrence(s@, p@, s@.len() - p@.len());
        if has_text(s@, p@) {
            let i = choose|i: int| text::stands_at(s@, p@, i);
            assert(i <= s@.len() - p@.len() && text::stands_at(s@, p@, i));
        }
    }
    text::rfind_text(s, p).is_some()
}

/// Whether `s` holds `c`.
fn holds_char(s: &[char], c: char) -> (r: bool)
    ensures
        r == s@.contains(c),
{
    proof {
        text::lemma_last_position(s@, c);
    }
    text::rfind(s, c).is_some()
}

/// Case-insensitive file-name match for `ScanConfig::name_filter`: with `*`
/// (any run of characters) or `?` (any one character) the pattern must
/// match the whole name, otherwise it only has to appear somewhere in it.
pub fn name_matches(pattern: &str, name: &str) -> (r: bool)
    ensures
        r == passes_name_filter(pattern@, name@),
{
    let cs = text::to_chars(pattern);
    let lower = text::to_lowercase(text::from_chars(text::trimmed(cs.as_slice())).as_str());
    let p = text::to_chars(lower.as_str());
    if p.len() == 0 {
        return true;
    }
    let n = text::to_chars(text::to_lowercase(name).as_str());
    if holds_char(p.as_slice(), '*') || holds_char(p.as_slice(), '?') {
        matches_wildcard(p.as_slice(), n.as_slice())
    } else {
        contains_text(n.as_slice(), p.as_slice())
    }
}

/// `s` cut at each `sep`.
pub open spec fn split_on(s: Seq<char>, sep: char) -> Seq<Seq<char>>
    decreases s.len(),
{
    if s.len() == 0 {
        seq![seq![]]
    } else {
        let r = split_on(s.drop_last(), sep);
        if s.last() == sep {
            r.push(seq![])
        } else {
            r.drop_last().push(r.last().push(s.last()))
        }
    }
}

/// `s` without the dots it begins with.
pub open spec fn without_dots(s: Seq<char>) -> Seq<char>
    decreases s.len(),
{
    if s.len() > 0 && s[0] == '.' {
        without_dots(s.drop_first())
    } else {
        s
    }
}

/// One entry of an extension list in normal form: lowercase, no leading dot.
pub open spec fn normal_extension(piece: Seq<char>) -> Seq<char> {
    text::lowercase(without_dots(text::trim(piece)))
}

/// Whether an entry is in normal form: lowercase, with neither a leading dot nor
/// a comma, and not empty.
pub open spec fn is_normal_extension(e: Seq<char>) -> bool {
    &&& e.len() > 0
    &&& e[0] != '.'
    &&& !e.contains(',')
    &&& text::lowercase(e) == e
}

/// The entries in normal form. Empty ones are left out; all others are in
/// normal form once they are lowercase.
pub open spec fn normal_extensions(pieces: Seq<Seq<char>>) -> Seq<Seq<char>>
    decreases pieces.len(),
{
    if pieces.len() == 0 {
        seq![]
    } else {
        let r = normal_extensions(pieces.drop_last());
        let e = normal_extension(pieces.last());
        if is_normal_extension(e) {
            r.push(e)
        } else {
            r
        }
    }
}

/// The extensions that a comma-separated list names.
pub open spec fn extension_list(list: Seq<char>) -> Seq<Seq<char>> {
    normal_extensions(split_on(list, ','))
}

proof fn lemma_split_on(s: Seq<char>, sep: char)
    ensures
        split_on(s, sep).len() > 0,
    decreases s.len(),
{
    if s.len() > 0 {
        lemma_split_on(s.drop_last(), sep);
    }
}

fn normalized_extension(piece: &[char]) -> (r: String)
    ensures
        r@ == normal_extension(piece@),
{
    let t = text::trimmed(piece);
    let mut i: usize = 0;
    assert(t@.subrange(0, t@.len() as int) =~= t@);
    while i < t.len() && t[i] == '.'
        invariant
            i <= t@.len(),
            without_dots(t@) == without_dots(t@.subrange(i as int, t@.len() as int)),
        decreases t@.len() - i,
    {
        let ghost u = t@.subrange(i as int, t@.len() as int);
        assert(u[0] == t@[i as int]);
        i = i + 1;
        assert(u.drop_first() =~= t@.subrange(i as int, t@.len() as int));
    }
    let u = slice_subrange(t, i, t.len());
    assert(u@.len() > 0 ==> u@[0] == t@[i as int]);
    text::to_lowercase(text::from_chars(u).as_str())
}

/// Decides [`is_normal_extension`].
fn has_normal_form(e: &str) -> (r: bool)
    ensures
        r == is_normal_extension(e@),
{
    let cs = text::to_chars(e);
    if cs.len() == 0 || cs[0] == '.' {
        return false;
    }
    let mut i: usize = 0;
    while i < cs.len()
        invariant
            i <= cs@.len(),
            cs@ == e@,
            forall|k: int| 0 <= k < i ==> #[trigger] cs@[k] != ',',
        decreases cs@.len() - i,
    {
        if cs[i] == ',' {
            assert(cs@.contains(','));
            return false;
        }
        i = i + 1;
    }
    text::text_eq(text::to_lowercase(e).as_str(), e)
}

/// Parses a comma-separated extension list into normalized (lowercase, no
/// leading dot) entries.
pub fn parse_extension_list(list: &str) -> (r: Vec<String>)
    ensures
        text::texts(r@) == extension_list(list@),
{
    let cs = text::to_chars(list);
    let mut out: Vec<String> = Vec::new();
    let mut piece: Vec<char> = Vec::new();
    let mut i: usize = 0;
    let ghost mut done = split_on(cs@.take(0), ',');
    while i < cs.len()
        invariant
            i <= cs@.len(),
            done == split_on(cs@.take(i as int), ','),
            done.len() > 0,
            piece@ == done.last(),
            text::texts(out@) =~= normal_extensions(done.drop_last()),
        decreases cs@.len() - i,
    {
        let c: char = cs[i];
        let ghost prior = done;
        proof {
            assert(cs@.take(i + 1).drop_last() =~= cs@.take(i as int));
            done = split_on(cs@.take(i + 1), ',');
        }
        if c == ',' {
            let e = normalized_extension(piece.as_slice());
            proof {
                assert(done.drop_last() =~= prior);
            }
            if has_normal_form(e.as_str()) {
                let ghost before = out@;
                out.push(e);
                assert(text::texts(out@) =~= text::texts(before).push(e@));
            }
            piece = Vec::new();
        } else {
            piece.push(c);
            assert(done.drop_last() =~= prior.drop_last());
        }
        i = i + 1;
    }
    assert(cs@.take(cs@.len() as int) =~= cs@);
    let e = normalized_extension(piece.as_slice());
    if has_normal_form(e.as_str()) {
        let ghost before = out@;
        out.push(e);
        assert(text::texts(out@) =~= text::texts(before).push(e@));
    }
    out
}

proof fn lemma_split_joined(a: Seq<char>, b: Seq<char>, sep: char)
    ensures
        split_on(a.push(sep) + b, sep) == split_on(a, sep) + split_on(b, sep),
    decreases b.len(),
{
    let all = a.push(sep) + b;
    if b.len() == 0 {
        assert(all =~= a.push(sep));
        assert(a.push(sep).drop_last() =~= a);
        assert(split_on(all, sep) =~= split_on(a, sep) + split_on(b, sep));
    } else {
        let t = b.drop_last();
        lemma_split_joined(a, t, sep);
        lemma_split_on(t, sep);
        assert(all.drop_last() =~= a.push(sep) + t);
        let x = split_on(a, sep);
        let y = split_on(t, sep);
        assert((x + y).drop_last() =~= x + y.drop_last());
        assert((x + y).last() == y.last());
        assert(split_on(all, sep) =~= x + split_on(b, sep));
    }
}

proof fn lemma_normal_joined(a: Seq<Seq<char>>, b: Seq<Seq<char>>)
    ensures
        normal_extensions(a + b) == normal_extensions(a) + normal_extensions(b),
    decreases b.len(),
{
    if b.len() == 0 {
        assert(a + b =~= a);
        assert(normal_extensions(a) + normal_extensions(b) =~= normal_extensions(a));
    } else {
        lemma_normal_joined(a, b.drop_last());
        assert((a + b).drop_last() =~= a + b.drop_last());
        assert((a + b).last() == b.last());
        assert(normal_extensions(a + b) =~= normal_extensions(a) + normal_extensions(b));
    }
}

/// Two lists joined by a comma name the extensions of the one, then those of
/// the other.
pub proof fn law_joined_lists_name_both(a: Seq<char>, b: Seq<char>)
    ensures
        extension_list(a.push(',') + b) == extension_list(a) + extension_list(b),
{
    lemma_split_joined(a, b, ',');
    lemma_normal_joined(split_on(a, ','), split_on(b, ','));
}

proof fn lemma_pieces_are_apart(s: Seq<char>, sep: char, k: int)
    requires
        0 <= k < split_on(s, sep).len(),
    ensures
        !split_on(s, sep)[k].contains(sep),
    decreases s.len(),
{
    if s.len() > 0 {
        let t = s.drop_last();
        let r = split_on(t, sep);
        lemma_split_on(t, sep);
        if k < r.len() {
            lemma_pieces_are_apart(t, sep, k);
        }
        if s.last() != sep && k == r.len() - 1 {
            let grown = r.last().push(s.last());
            assert(split_on(s, sep)[k] == grown);
            if grown.contains(sep) {
                let i = choose|i: int| 0 <= i < grown.len() && grown[i] == sep;
                assert(r.last()[i] == sep);
            }
        }
    }
}

proof fn lemma_without_dots(s: Seq<char>)
    ensures
        without_dots(s).len() > 0 ==> without_dots(s)[0] != '.',
        forall|c: char| #[trigger] without_dots(s).contains(c) ==> s.contains(c),
    decreases s.len(),
{
    if s.len() > 0 && s[0] == '.' {
        let t = s.drop_first();
        lemma_without_dots(t);
        assert forall|c: char| #[trigger] without_dots(s).contains(c) implies s.contains(c) by {
            assert(t.contains(c));
            let i = choose|i: int| 0 <= i < t.len() && t[i] == c;
            assert(s[i + 1] == c);
        }
    }
}

/// What an extension in a list is the lowercase form of: it has neither a
/// leading dot nor a comma.
pub open spec fn is_plain_extension(x: Seq<char>) -> bool {
    !(x.len() > 0 && x[0] == '.') && !x.contains(',')
}

proof fn lemma_normal_extension(piece: Seq<char>)
    requires
        !piece.contains(','),
    ensures
        is_plain_extension(without_dots(text::trim(piece))),
{
    text::lemma_trim_keeps(piece);
    lemma_without_dots(text::trim(piece));
}

proof fn lemma_normal_entries(pieces: Seq<Seq<char>>, k: int)
    requires
        0 <= k < normal_extensions(pieces).len(),
    ensures
        is_normal_extension(normal_extensions(pieces)[k]),
    decreases pieces.len(),
{
    if pieces.len() > 0 {
        let t = pieces.drop_last();
        if k < normal_extensions(t).len() {
            lemma_normal_entries(t, k);
        }
    }
}

/// The extensions that a list names are in normal form: none is empty or has a
/// leading dot or a comma, and each is lowercase.
pub proof fn law_listed_extensions_are_normal(list: Seq<char>, k: int)
    requires
        0 <= k < extension_list(list).len(),
    ensures
        is_normal_extension(extension_list(list)[k]),
{
    lemma_normal_entries(split_on(list, ','), k);
}

proof fn lemma_entries_are_kept(pieces: Seq<Seq<char>>, i: int)
    requires
        0 <= i < pieces.len(),
        is_normal_extension(normal_extension(pieces[i])),
    ensures
        normal_extensions(pieces).contains(normal_extension(pieces[i])),
    decreases pieces.len(),
{
    let t = pieces.drop_last();
    let before = normal_extensions(t);
    let all = normal_extensions(pieces);
    let e = normal_extension(pieces[i]);
    if i < t.len() {
        lemma_entries_are_kept(t, i);
        let k = choose|k: int| 0 <= k < before.len() && before[k] == e;
        assert(all[k] == e);
    } else {
        assert(all.last() == e);
    }
}

/// Every entry of ASCII characters that is more than white space and dots is
/// among the extensions that a list names.
pub proof fn law_entries_are_listed(list: Seq<char>, i: int)
    requires
        0 <= i < split_on(list, ',').len(),
        text::is_ascii_text(split_on(list, ',')[i]),
        without_dots(text::trim(split_on(list, ',')[i])).len() > 0,
    ensures
        extension_list(list).contains(normal_extension(split_on(list, ',')[i])),
{
    let piece = split_on(list, ',')[i];
    let x = without_dots(text::trim(piece));
    let e = normal_extension(piece);
    lemma_pieces_are_apart(list, ',', i);
    lemma_normal_extension(piece);
    text::lemma_trim_keeps(piece);
    lemma_without_dots(text::trim(piece));
    assert forall|k: int| 0 <= k < x.len() implies (#[trigger] x[k] as u32) < 128 by {
        assert(x.contains(x[k]));
        assert(text::trim(piece).contains(x[k]));
        assert(piece.contains(x[k]));
        let m = choose|m: int| 0 <= m < piece.len() && piece[m] == x[k];
        assert((piece[m] as u32) < 128);
    }
    assert(text::is_ascii_text(x));
    assert(e == text::ascii_lower(x));
    assert forall|k: int| 0 <= k < e.len() implies (#[trigger] e[k] as u32) < 128 && (e[k]
        == ',' ==> x[k] == ',') && (e[k] == '.' ==> x[k] == '.') && text::lower_char(e[k])
        == e[k] by {
        assert((x[k] as u32) < 128);
    }
    if e.contains(',') {
        let k = choose|k: int| 0 <= k < e.len() && e[k] == ',';
        assert(x[k] == ',');
    }
    assert(text::ascii_lower(e) =~= e);
    lemma_entries_are_kept(split_on(list, ','), i);
}

/// The name filter ignores case, and the white space around it; an empty one
/// lets everything pass.
pub proof fn law_name_filter_ignores_case(
    filter: Seq<char>,
    other: Seq<char>,
    a: Seq<char>,
    b: Seq<char>,
)
    requires
        text::lowercase(text::trim(filter)) == text::lowercase(text::trim(other)),
        text::lowercase(a) == text::lowercase(b),
    ensures
        passes_name_filter(filter, a) == passes_name_filter(other, b),
        text::trim(filter).len() == 0 ==> passes_name_filter(filter, a),
{
}

/// Two patterns one behind the other describe what falls into two parts that
/// they describe.
pub proof fn law_patterns_describe_in_parts(p: Seq<char>, q: Seq<char>, n: Seq<char>)
    ensures
        wildcard(p + q, n) <==> exists|k: int|
            0 <= k <= n.len() && #[trigger] wildcard(p, n.take(k)) && wildcard(q, n.skip(k)),
    decreases p.len(), n.len(),
{
    if p.len() == 0 {
        assert(p + q =~= q);
        assert(n.skip(0) =~= n);
        assert(wildcard(p, n.take(0)));
        assert forall|k: int|
            0 <= k <= n.len() && #[trigger] wildcard(p, n.take(k)) && wildcard(
                q,
                n.skip(k),
            ) implies wildcard(q, n) by {
            assert(k == 0);
        }
    } else if p[0] == '*' {
        assert((p + q).drop_first() =~= p.drop_first() + q);
        law_patterns_describe_in_parts(p.drop_first(), q, n);
        if n.len() > 0 {
            law_patterns_describe_in_parts(p, q, n.drop_first());
        }
        if wildcard(p + q, n) {
            if wildcard(p.drop_first() + q, n) {
                let k = choose|k: int|
                    0 <= k <= n.len() && #[trigger] wildcard(p.drop_first(), n.take(k)) && wildcard(
                        q,
                        n.skip(k),
                    );
                assert(wildcard(p, n.take(k)));
            } else {
                let m = n.drop_first();
                let k = choose|k: int|
                    0 <= k <= m.len() && #[trigger] wildcard(p, m.take(k)) && wildcard(
                        q,
                        m.skip(k),
                    );
                assert(n.take(k + 1).drop_first() =~= m.take(k));
                assert(m.skip(k) =~= n.skip(k + 1));
                assert(wildcard(p, n.take(k + 1)));
            }
        }
        assert forall|k: int|
            0 <= k <= n.len() && #[trigger] wildcard(p, n.take(k)) && wildcard(
                q,
                n.skip(k),
            ) implies wildcard(p + q, n) by {
            if wildcard(p.drop_first(), n.take(k)) {
                assert(wildcard(p.drop_first() + q, n));
            } else {
                let m = n.drop_first();
                assert(n.take(k).drop_first() =~= m.take(k - 1));
                assert(m.skip(k - 1) =~= n.skip(k));
                assert(wildcard(p, m.take(k - 1)));
                assert(wildcard(p + q, m));
            }
        }
    } else {
        assert((p + q).drop_first() =~= p.drop_first() + q);
        if n.len() > 0 {
            let m = n.drop_first();
            law_patterns_describe_in_parts(p.drop_first(), q, m);
            if wildcard(p + q, n) {
                let k = choose|k: int|
                    0 <= k <= m.len() && #[trigger] wildcard(p.drop_first(), m.take(k)) && wildcard(
                        q,
                        m.skip(k),
                    );
                assert(n.take(k + 1).drop_first() =~= m.take(k));
                assert(m.skip(k) =~= n.skip(k + 1));
                assert(wildcard(p, n.take(k + 1)));
            }
            assert forall|k: int|
                0 <= k <= n.len() && #[trigger] wildcard(p, n.take(k)) && wildcard(
                    q,
                    n.skip(k),
                ) implies wildcard(p + q, n) by {
                assert(n.take(k).drop_first() =~= m.take(k - 1));
                assert(m.skip(k - 1) =~= n.skip(k));
                assert(wildcard(p.drop_first(), m.take(k - 1)));
            }
        } else {
            assert forall|k: int|
                0 <= k <= n.len() && #[trigger] wildcard(p, n.take(k)) && wildcard(
                    q,
                    n.skip(k),
                ) implies wildcard(p + q, n) by {}
        }
    }
}

/// What one character of a pattern describes: a star anything, a question mark
/// any one character, any other character itself. An empty pattern describes
/// the empty text.
pub proof fn law_pattern_characters(c: char, n: Seq<char>)
    ensures
        wildcard(seq![], n) <==> n.len() == 0,
        wildcard(seq!['*'], n),
        wildcard(seq!['?'], n) <==> n.len() == 1,
        c != '*' && c != '?' ==> (wildcard(seq![c], n) <==> n == seq![c]),
    decreases n.len(),
{
    let one = seq![c];
    assert(seq!['*'].drop_first() =~= Seq::<char>::empty());
    assert(seq!['?'].drop_first() =~= Seq::<char>::empty());
    assert(one.drop_first() =~= Seq::<char>::empty());
    if n.len() > 0 {
        law_pattern_characters(c, n.drop_first());
        if n.len() == 1 && n[0] == c {
            assert(n =~= one);
        }
    }
}

/// How a name passes a filter, both in lower case and the filter without white
/// space around it: where it holds a star or a question mark it has to describe
/// the whole name, otherwise it has to stand somewhere in it.
pub proof fn law_name_filter(filter: Seq<char>, name: Seq<char>)
    ensures
        ({
            let p = text::lowercase(text::trim(filter));
            let n = text::lowercase(name);
            &&& p.len() == 0 ==> passes_name_filter(filter, name)
            &&& p.len() > 0 && (p.contains('*') || p.contains('?')) ==> passes_name_filter(
                filter,
                name,
            ) == wildcard(p, n)
            &&& p.len() > 0 && !p.contains('*') && !p.contains('?') ==> (passes_name_filter(
                filter,
                name,
            ) <==> exists|i: int|
                0 <= i <= n.len() - p.len() && #[trigger] n.subrange(i, i + p.len()) == p)
        }),
{
    let p = text::lowercase(text::trim(filter));
    let n = text::lowercase(name);
    if p.len() > 0 && !p.contains('*') && !p.contains('?') {
        if has_text(n, p) {
            let i = choose|i: int| text::stands_at(n, p, i);
            assert(n.subrange(i, i + p.len()) == p);
        }
        if exists|i: int| 0 <= i <= n.len() - p.len() && #[trigger] n.subrange(i, i + p.len()) == p {
            let i = choose|i: int|
                0 <= i <= n.len() - p.len() && #[trigger] n.subrange(i, i + p.len()) == p;
            assert(text::stands_at(n, p, i));
        }
    }
}

proof fn lemma_split_whole(s: Seq<char>, sep: char)
    requires
        !s.contains(sep),
    ensures
        split_on(s, sep) == seq![s],
    decreases s.len(),
{
    if s.len() == 0 {
        assert(s =~= seq![]);
    } else {
        let t = s.drop_last();
        assert(!t.contains(sep)) by {
            if t.contains(sep) {
                let i = choose|i: int| 0 <= i < t.len() && t[i] == sep;
                assert(s[i] == sep);
            }
        }
        lemma_split_whole(t, sep);
        assert(s.contains(s[s.len() - 1]));
        assert(t.push(s.last()) =~= s);
        assert(split_on(s, sep) =~= seq![s]);
    }
}

/// A list of one extension names it in lower case, with a dot in front of it or
/// without. With [`law_joined_lists_name_both`] that is what any list of such
/// extensions names.
pub proof fn law_an_extension_names_itself(e: Seq<char>)
    requires
        e.len() > 0,
        text::is_ascii_text(e),
        !e.contains(','),
        e[0] != '.',
        !text::is_space(e[0]),
        !text::is_space(e.last()),
    ensures
        extension_list(e) == seq![text::ascii_lower(e)],
        extension_list(seq!['.'] + e) == seq![text::ascii_lower(e)],
        extension_list(seq![' '] + e) == seq![text::ascii_lower(e)],
        extension_list(seq![]) == Seq::<Seq<char>>::empty(),
{
    let lower = text::ascii_lower(e);
    assert forall|k: int| 0 <= k < lower.len() implies (#[trigger] lower[k] as u32) < 128 && (
    lower[k] == ',' ==> e[k] == ',') && (lower[k] == '.' ==> e[k] == '.') && text::lower_char(
        lower[k],
    ) == lower[k] by {
        assert((e[k] as u32) < 128);
    }
    assert(text::ascii_lower(lower) =~= lower);
    assert(!lower.contains(',')) by {
        if lower.contains(',') {
            let k = choose|k: int| 0 <= k < lower.len() && lower[k] == ',';
            assert(e[k] == ',');
        }
    }
    assert(lower[0] != '.');
    assert(is_normal_extension(lower));
    assert(text::trim(e) == e);
    assert(without_dots(e) == e);
    lemma_split_whole(e, ',');
    lemma_one_entry(e);
    let d = seq!['.'] + e;
    assert(!d.contains(',')) by {
        if d.contains(',') {
            let k = choose|k: int| 0 <= k < d.len() && d[k] == ',';
            assert(e[k - 1] == ',');
        }
    }
    assert(d.last() == e.last());
    assert(d.drop_first() =~= e);
    assert(text::trim(d) == d);
    assert(without_dots(d) == e);
    lemma_split_whole(d, ',');
    lemma_one_entry(d);
    let b = seq![' '] + e;
    assert(!b.contains(',')) by {
        if b.contains(',') {
            let k = choose|k: int| 0 <= k < b.len() && b[k] == ',';
            assert(e[k - 1] == ',');
        }
    }
    assert(b.last() == e.last());
    assert(b.drop_first() =~= e);
    assert(text::trim(b) == e) by {
        assert(text::trim_start(e) == e);
        assert(text::trim_start(b) == e);
    }
    lemma_split_whole(b, ',');
    lemma_one_entry(b);
    let none = Seq::<char>::empty();
    lemma_split_whole(none, ',');
    lemma_one_entry(none);
    assert(normal_extension(none) =~= none);
}

proof fn lemma_one_entry(piece: Seq<char>)
    ensures
        normal_extensions(seq![piece]) == (if is_normal_extension(normal_extension(piece)) {
            seq![normal_extension(piece)]
        } else {
            seq![]
        }),
{
    let one = seq![piece];
    assert(one.drop_last() =~= Seq::<Seq<char>>::empty());
    assert(normal_extensions(one.drop_last()) =~= Seq::<Seq<char>>::empty());
    assert(normal_extensions(one) =~= (if is_normal_extension(normal_extension(piece)) {
        seq![normal_extension(piece)]
    } else {
        seq![]
    }));
}

/// The unit that a size is entered in.
#[derive(Clone, Copy, Debug, PartialEq, Eq, Structural)]
pub enum SizeUnit {
    Bytes,
    KB,
    MB,
    GB,
}

impl SizeUnit {
    /// All units, ascending.
    pub const ALL: [SizeUnit; 4] = [SizeUnit::Bytes, SizeUnit::KB, SizeUnit::MB, SizeUnit::GB];

    /// The short name of the unit.
    pub fn label(self) -> (r: &'static str)
        ensures
            r@ == match self {
                SizeUnit::Bytes => "B"@,
                SizeUnit::KB => "KB"@,
                SizeUnit::MB => "MB"@,
                SizeUnit::GB => "GB"@,
            },
    {
        match self {
            SizeUnit::Bytes => "B",
            SizeUnit::KB => "KB",
            SizeUnit::MB => "MB",
            SizeUnit::GB => "GB",
        }
    }

    /// How many bytes one of the unit is.
    pub fn multiplier(self) -> (r: u64)
        ensures
            r == match self {
                SizeUnit::Bytes => 1u64,
                SizeUnit::KB => 1024,
                SizeUnit::MB => 1_048_576,
                SizeUnit::GB => 1_073_741_824,
            },
    {
        match self {
            SizeUnit::Bytes => 1,
            SizeUnit::KB => 1024,
            SizeUnit::MB => 1024 * 1024,
            SizeUnit::GB => 1024 * 1024 * 1024,
        }
    }
}

/// Which extensions a filter takes: all of them; or those that are listed, so that
/// files without one are left out; or those that are not, so that they are kept.
pub proof fn law_filters_go_by_the_list(list: Vec<String>, ext: Seq<char>)
    ensures
        ExtensionFilter::All.takes(None) && ExtensionFilter::All.takes(Some(ext)),
        !ExtensionFilter::Include(list).takes(None),
        ExtensionFilter::Include(list).takes(Some(ext)) <==> exists|i: int|
            0 <= i < list@.len() && (#[trigger] list@[i])@ == ext,
        ExtensionFilter::Exclude(list).takes(None),
        ExtensionFilter::Exclude(list).takes(Some(ext)) <==> !exists|i: int|
            0 <= i < list@.len() && (#[trigger] list@[i])@ == ext,
{
    let t = text::texts(list@);
    if t.contains(ext) {
        let i = choose|i: int| 0 <= i < t.len() && t[i] == ext;
        assert(list@[i]@ == ext);
    }
    assert forall|i: int| 0 <= i < list@.len() && (#[trigger] list@[i])@ == ext implies t.contains(
        ext,
    ) by {
        assert(t[i] == ext);
    }
}

} // verus!
