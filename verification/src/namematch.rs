//! Telling copies apart by their names.

use crate::text;
use vstd::prelude::*;
use vstd::slice::{slice_subrange, slice_to_vec};

verus! {

/// `s` without `marker` and what follows it, if only white space and digits
/// follow its last occurrence (the marker `" copy"` comes off `"x copy"` and
/// `"x copy 2"`, but not off `"x copy machine"`).
pub open spec fn without_marker(s: Seq<char>, marker: Seq<char>) -> Option<Seq<char>> {
    match text::last_occurrence(s, marker) {
        Some(i) if text::all_digits(text::trim(s.skip(i + marker.len()))) => Some(s.take(i)),
        _ => None,
    }
}

/// `s` without the prefix and the white space around what is left, if it has
/// the prefix.
pub open spec fn without_prefix(s: Seq<char>, prefix: Seq<char>) -> Seq<char> {
    if text::has_prefix(s, prefix) {
        text::trim(s.skip(prefix.len() as int))
    } else {
        s
    }
}

/// `s` without each of the known prefixes, tried in turn.
pub open spec fn without_prefixes(s: Seq<char>) -> Seq<char> {
    without_prefix(
        without_prefix(
            without_prefix(without_prefix(s, "Copy of "@), "copy of "@),
            "Kopie von "@,
        ),
        "kopie von "@,
    )
}

/// `s` without a counter in brackets at its end and the white space before
/// it.
pub open spec fn without_counter(s: Seq<char>) -> Seq<char> {
    match text::last_position(s, '(') {
        Some(open) if s.last() == ')' && open + 1 < s.len() - 1 && text::all_digits(
            s.subrange(open + 1, s.len() - 1),
        ) => text::trim_end(s.take(open)),
        _ => s,
    }
}

/// `s` without the first of the known markers that comes off.
pub open spec fn without_markers(s: Seq<char>) -> Seq<char> {
    if without_marker(s, " - Kopie"@) is Some {
        without_marker(s, " - Kopie"@)->0
    } else if without_marker(s, " - kopie"@) is Some {
        without_marker(s, " - kopie"@)->0
    } else if without_marker(s, " Kopie"@) is Some {
        without_marker(s, " Kopie"@)->0
    } else if without_marker(s, " copy"@) is Some {
        without_marker(s, " copy"@)->0
    } else if without_marker(s, " Copy"@) is Some {
        without_marker(s, " Copy"@)->0
    } else if without_marker(s, "_copy"@) is Some {
        without_marker(s, "_copy"@)->0
    } else if without_marker(s, "_Kopie"@) is Some {
        without_marker(s, "_Kopie"@)->0
    } else {
        s
    }
}

/// One round of taking decorations off, and the white space that they leave.
pub open spec fn one_round(s: Seq<char>) -> Seq<char> {
    text::trim(without_markers(without_counter(without_prefixes(s))))
}

/// Rounds of taking decorations off until nothing comes off any more.
pub open spec fn all_rounds(s: Seq<char>) -> Seq<char>
    decreases s.len(),
{
    if one_round(s).len() < s.len() {
        all_rounds(one_round(s))
    } else {
        s
    }
}

/// The presumed base name of a file name: without the decorations that mark
/// a copy.
pub open spec fn base_name(stem: Seq<char>) -> Seq<char> {
    all_rounds(text::trim(stem))
}

/// Whether the two names differ by more than case and have the same base
/// name but for case.
pub open spec fn is_copy_name(original: Seq<char>, candidate: Seq<char>) -> bool {
    &&& text::ascii_lower(original) != text::ascii_lower(candidate)
    &&& base_name(candidate).len() > 0
    &&& text::ascii_lower(base_name(candidate)) == text::ascii_lower(base_name(original))
}

proof fn lemma_last_occurrence(s: Seq<char>, p: Seq<char>, i: int)
    ensures
        text::last_occurrence_from(s, p, i) matches Some(k) ==> text::stands_at(s, p, k),
    decreases i + 1,
{
    if i >= 0 && !text::stands_at(s, p, i) {
        lemma_last_occurrence(s, p, i - 1);
    }
}

proof fn lemma_marker_shortens(s: Seq<char>, marker: Seq<char>)
    requires
        marker.len() > 0,
    ensures
        without_marker(s, marker) matches Some(t) ==> t.len() < s.len(),
{
    lemma_last_occurrence(s, marker, s.len() - marker.len());
}

proof fn lemma_prefix_shortens(s: Seq<char>, prefix: Seq<char>)
    requires
        prefix.len() > 0,
    ensures
        without_prefix(s, prefix) == s || without_prefix(s, prefix).len() < s.len(),
{
    if text::has_prefix(s, prefix) {
        text::lemma_trim_len(s.skip(prefix.len() as int));
    }
}

proof fn lemma_prefixes_shorten(s: Seq<char>)
    ensures
        without_prefixes(s) == s || without_prefixes(s).len() < s.len(),
{
    reveal_strlit("Copy of ");
    reveal_strlit("copy of ");
    reveal_strlit("Kopie von ");
    reveal_strlit("kopie von ");
    let a = without_prefix(s, "Copy of "@);
    let b = without_prefix(a, "copy of "@);
    let c = without_prefix(b, "Kopie von "@);
    lemma_prefix_shortens(s, "Copy of "@);
    lemma_prefix_shortens(a, "copy of "@);
    lemma_prefix_shortens(b, "Kopie von "@);
    lemma_prefix_shortens(c, "kopie von "@);
}

proof fn lemma_counter_shortens(s: Seq<char>)
    ensures
        without_counter(s) == s || without_counter(s).len() < s.len(),
{
    text::lemma_last_position(s, '(');
    if let Some(open) = text::last_position(s, '(') {
        text::lemma_trim_len(s.take(open));
    }
}

proof fn lemma_markers_shorten(s: Seq<char>)
    ensures
        without_markers(s) == s || without_markers(s).len() < s.len(),
{
    reveal_strlit(" - Kopie");
    reveal_strlit(" - kopie");
    reveal_strlit(" Kopie");
    reveal_strlit(" copy");
    reveal_strlit(" Copy");
    reveal_strlit("_copy");
    reveal_strlit("_Kopie");
    lemma_marker_shortens(s, " - Kopie"@);
    lemma_marker_shortens(s, " - kopie"@);
    lemma_marker_shortens(s, " Kopie"@);
    lemma_marker_shortens(s, " copy"@);
    lemma_marker_shortens(s, " Copy"@);
    lemma_marker_shortens(s, "_copy"@);
    lemma_marker_shortens(s, "_Kopie"@);
}

/// A round leaves the name as it is or makes it shorter.
proof fn lemma_round_shortens(s: Seq<char>)
    ensures
        one_round(s) == s || one_round(s).len() < s.len(),
        one_round(s) == s ==> without_prefixes(s) == s && without_counter(s) == s
            && without_markers(s) == s && text::trim(s) == s,
{
    let a = without_prefixes(s);
    lemma_prefixes_shorten(s);
    lemma_counter_shortens(a);
    lemma_markers_shorten(without_counter(a));
    text::lemma_trim_len(without_markers(without_counter(a)));
}

/// Strips `marker` from `s` if it appears followed only by white space and
/// digits until the end.
fn strip_trailing_marker(s: &[char], marker: &str) -> (r: Option<Vec<char>>)
    ensures
        match r {
            Some(t) => without_marker(s@, marker@) == Some(t@),
            None => without_marker(s@, marker@) is None,
        },
{
    let m = text::to_chars(marker);
    match text::rfind_text(s, m.as_slice()) {
        Some(i) => {
            let tail = slice_subrange(s, i + m.len(), s.len());
            assert(tail@ =~= s@.skip(i + marker@.len()));
            if text::are_digits(text::trimmed(tail)) {
                let rest = slice_subrange(s, 0, i);
                assert(rest@ =~= s@.take(i as int));
                Some(slice_to_vec(rest))
            } else {
                None
            }
        },
        None => None,
    }
}

fn strip_prefix(s: Vec<char>, prefix: &str) -> (r: Vec<char>)
    ensures
        r@ == without_prefix(s@, prefix@),
{
    let p = text::to_chars(prefix);
    if text::starts_with(s.as_slice(), p.as_slice()) {
        let rest = slice_subrange(s.as_slice(), p.len(), s.len());
        assert(rest@ =~= s@.skip(prefix@.len() as int));
        slice_to_vec(text::trimmed(rest))
    } else {
        s
    }
}

fn strip_counter(s: Vec<char>) -> (r: Vec<char>)
    ensures
        r@ == without_counter(s@),
{
    proof {
        text::lemma_last_position(s@, '(');
    }
    match text::rfind(s.as_slice(), '(') {
        Some(open) => {
            if s[s.len() - 1] == ')' && open + 1 < s.len() - 1 && text::are_digits(
                slice_subrange(s.as_slice(), open + 1, s.len() - 1),
            ) {
                let rest = slice_subrange(s.as_slice(), 0, open);
                assert(rest@ =~= s@.take(open as int));
                slice_to_vec(text::trimmed_end(rest))
            } else {
                s
            }
        },
        None => s,
    }
}

fn strip_markers(s: Vec<char>) -> (r: Vec<char>)
    ensures
        r@ == without_markers(s@),
{
    if let Some(t) = strip_trailing_marker(s.as_slice(), " - Kopie") {
        return t;
    }
    if let Some(t) = strip_trailing_marker(s.as_slice(), " - kopie") {
        return t;
    }
    if let Some(t) = strip_trailing_marker(s.as_slice(), " Kopie") {
        return t;
    }
    if let Some(t) = strip_trailing_marker(s.as_slice(), " copy") {
        return t;
    }
    if let Some(t) = strip_trailing_marker(s.as_slice(), " Copy") {
        return t;
    }
    if let Some(t) = strip_trailing_marker(s.as_slice(), "_copy") {
        return t;
    }
    if let Some(t) = strip_trailing_marker(s.as_slice(), "_Kopie") {
        return t;
    }
    s
}

/// Repeatedly strips well-known "this is a copy" file name decorations
/// (Windows' `" (2)"`, German Explorer's `" - Kopie"` / `" - Kopie (2)"`,
/// macOS' `" copy"` / `" copy 2"`, and `"Copy of "` / `"Kopie von "` prefixes)
/// until none apply, leaving the presumed base name.
pub fn strip_copy_decorations(stem: &str) -> (r: String)
    ensures
        r@ == base_name(stem@),
{
    let cs = text::to_chars(stem);
    let mut s: Vec<char> = slice_to_vec(text::trimmed(cs.as_slice()));
    loop
        invariant
            all_rounds(text::trim(stem@)) == all_rounds(s@),
        ensures
            s@ == all_rounds(text::trim(stem@)),
        decreases s@.len(),
    {
        let before: usize = s.len();
        let ghost start = s@;
        proof {
            lemma_round_shortens(s@);
        }
        s = strip_prefix(s, "Copy of ");
        s = strip_prefix(s, "copy of ");
        s = strip_prefix(s, "Kopie von ");
        s = strip_prefix(s, "kopie von ");
        s = strip_counter(s);
        s = strip_markers(s);
        s = slice_to_vec(text::trimmed(s.as_slice()));
        assert(s@ == one_round(start));
        if s.len() == before {
            break ;
        }
    }
    text::from_chars(s.as_slice())
}

/// True if `candidate_stem` looks like an OS/user-generated copy of
/// `original_stem`: same base name once known "copy" decorations are stripped,
/// but not literally identical (that'd just be the same name, not a copy of
/// it).
pub fn looks_like_copy(original_stem: &str, candidate_stem: &str) -> (r: bool)
    ensures
        r == is_copy_name(original_stem@, candidate_stem@),
{
    if text::eq_ignore_ascii_case(original_stem, candidate_stem) {
        return false;
    }
    let candidate = strip_copy_decorations(candidate_stem);
    let original = strip_copy_decorations(original_stem);
    !candidate.as_str().is_empty() && text::eq_ignore_ascii_case(candidate.as_str(), original.as_str())
}

proof fn lemma_all_rounds(s: Seq<char>)
    ensures
        one_round(all_rounds(s)) == all_rounds(s),
    decreases s.len(),
{
    lemma_round_shortens(s);
    if one_round(s).len() < s.len() {
        lemma_all_rounds(one_round(s));
    }
}

/// Decorations come off until none is left: a base name has no prefix, no
/// counter and no marker of a copy, nor white space at either end, and is its
/// own base name.
pub proof fn law_base_names_are_bare(stem: Seq<char>)
    ensures
        one_round(base_name(stem)) == base_name(stem),
        without_prefixes(base_name(stem)) == base_name(stem),
        without_counter(base_name(stem)) == base_name(stem),
        without_markers(base_name(stem)) == base_name(stem),
        text::trim(base_name(stem)) == base_name(stem),
        base_name(base_name(stem)) == base_name(stem),
{
    lemma_all_rounds(text::trim(stem));
    lemma_round_shortens(base_name(stem));
}

/// A name is no copy of itself, nor of itself in other case.
pub proof fn law_same_name_is_no_copy(a: Seq<char>, b: Seq<char>)
    requires
        text::ascii_lower(a) == text::ascii_lower(b),
    ensures
        !is_copy_name(a, b),
{
}

/// Which of two names is taken for the original makes no difference.
pub proof fn law_copy_is_symmetric(a: Seq<char>, b: Seq<char>)
    ensures
        is_copy_name(a, b) == is_copy_name(b, a),
{
    assert(text::ascii_lower(base_name(a)).len() == base_name(a).len());
    assert(text::ascii_lower(base_name(b)).len() == base_name(b).len());
}

/// Whether the name begins like a copy's.
pub open spec fn begins_copy(s: Seq<char>) -> bool {
    text::has_prefix(s, "Copy of "@) || text::has_prefix(s, "copy of "@) || text::has_prefix(
        s,
        "Kopie von "@,
    ) || text::has_prefix(s, "kopie von "@)
}

/// Whether the name has no decoration, no white space at either end, and
/// isn't the mere beginning of a copy's name.
pub open spec fn is_bare(b: Seq<char>) -> bool {
    &&& b.len() > 0
    &&& !text::is_space(b[0]) && !text::is_space(b.last())
    &&& one_round(b) == b
    &&& !begins_copy(b.push(' '))
}

proof fn lemma_no_prefix(b: Seq<char>, m: Seq<char>, p: Seq<char>)
    requires
        b.len() > 0,
        m.len() > 1,
        m[0] == ' ',
        forall|k: int| 0 <= k < p.len() - 1 && #[trigger] p[k] == ' ' ==> p[k + 1] != m[1],
        !text::has_prefix(b.push(' '), p),
    ensures
        !text::has_prefix(b + m, p),
        !text::has_prefix(b, p),
{
    let s = b + m;
    let t = b.push(' ');
    let n = p.len() as int;
    if text::has_prefix(b, p) {
        assert(t.subrange(0, n) =~= b.subrange(0, n));
    }
    if text::has_prefix(s, p) {
        if n <= t.len() {
            assert(t.subrange(0, n) =~= s.subrange(0, n));
        } else {
            let k = b.len() as int;
            assert(s.subrange(0, n)[k] == s[k] && s.subrange(0, n)[k + 1] == s[k + 1]);
            assert(p[k] == ' ' && p[k + 1] == m[1]);
        }
    }
}

/// A name with something behind it that begins with a space has no prefix.
proof fn lemma_no_prefixes(b: Seq<char>, m: Seq<char>)
    requires
        is_bare(b),
        m.len() > 1,
        m[0] == ' ',
        m[1] == '(' || m[1] == '-',
    ensures
        without_prefixes(b + m) == b + m,
        !begins_copy(b),
{
    reveal_strlit("Copy of ");
    reveal_strlit("copy of ");
    reveal_strlit("Kopie von ");
    reveal_strlit("kopie von ");
    lemma_no_prefix(b, m, "Copy of "@);
    lemma_no_prefix(b, m, "copy of "@);
    lemma_no_prefix(b, m, "Kopie von "@);
    lemma_no_prefix(b, m, "kopie von "@);
}

proof fn lemma_trim_none(s: Seq<char>)
    requires
        s.len() > 0,
        !text::is_space(s[0]),
        !text::is_space(s.last()),
    ensures
        text::trim(s) == s,
{
}

proof fn lemma_one_round_suffices(b: Seq<char>, s: Seq<char>)
    requires
        is_bare(b),
        b.len() < s.len(),
        !text::is_space(s[0]),
        !text::is_space(s.last()),
        one_round(s) == b,
    ensures
        is_copy_name(b, s),
{
    lemma_trim_none(b);
    lemma_trim_none(s);
    assert(all_rounds(s) == all_rounds(b));
    assert(base_name(s) == b && base_name(b) == b);
    assert(text::ascii_lower(s).len() != text::ascii_lower(b).len());
}

/// Copies as the systems name them are recognised: a name with a counter, with
/// the German mark of a copy, or with the prefix of one is a copy of the bare
/// name.
pub proof fn law_marked_names_are_copies(b: Seq<char>, n: nat)
    requires
        is_bare(b),
    ensures
        is_copy_name(b, b + " ("@ + text::decimal(n) + ")"@),
        is_copy_name(b, b + " - Kopie"@),
        is_copy_name(b, "Copy of "@ + b),
{
    reveal_strlit(" (");
    reveal_strlit(")");
    reveal_strlit(" - Kopie");
    reveal_strlit("Copy of ");
    lemma_round_shortens(b);
    // With a counter.
    let d = text::decimal(n);
    let m = " ("@ + d + ")"@;
    let s = b + " ("@ + d + ")"@;
    text::lemma_decimal_digits(n);
    assert(s =~= b + m);
    lemma_no_prefixes(b, m);
    let open = b.len() as int + 1;
    assert(s[open] == '(');
    assert forall|k: int| open < k < s.len() implies s[k] != '(' by {
        if k < s.len() - 1 {
            assert(s[k] == d[k - open - 1]);
            assert(text::is_digit(d[k - open - 1]));
        }
    }
    text::lemma_last_position_is(s, '(', open);
    assert(s.subrange(open + 1, s.len() - 1) =~= d);
    let head = s.take(open);
    assert(head.drop_last() =~= b);
    assert(text::trim_end(head) == text::trim_end(b));
    assert(without_counter(s) == b);
    assert(s[0] == b[0]);
    lemma_one_round_suffices(b, s);
    // With a mark.
    let mark = " - Kopie"@;
    let t = b + mark;
    lemma_no_prefixes(b, mark);
    assert(t.last() == 'e' && t[0] == b[0]);
    assert(without_counter(t) == t);
    assert(t.subrange(b.len() as int, t.len() as int) =~= mark);
    assert(text::last_occurrence(t, mark) == Some(b.len() as int));
    assert(t.skip(t.len() as int) =~= seq![]);
    assert(text::all_digits(text::trim(t.skip(t.len() as int))));
    assert(t.take(b.len() as int) =~= b);
    assert(without_markers(t) == b);
    lemma_one_round_suffices(b, t);
    // With a prefix.
    let prefix = "Copy of "@;
    let u = prefix + b;
    assert(u.subrange(0, prefix.len() as int) =~= prefix);
    assert(u.skip(prefix.len() as int) =~= b);
    lemma_trim_none(b);
    assert(without_prefixes(u) == b);
    assert(u[0] == 'C' && u.last() == b.last());
    lemma_one_round_suffices(b, u);
}

/// Whether the name is one word: no white space, no underscore, no opening
/// bracket.
pub open spec fn is_word(b: Seq<char>) -> bool {
    &&& b.len() > 0
    &&& forall|i: int|
        0 <= i < b.len() ==> !text::is_space(#[trigger] b[i]) && b[i] != '_' && b[i] != '('
}

proof fn lemma_no_occurrence(s: Seq<char>, p: Seq<char>, i: int)
    requires
        forall|k: int| 0 <= k <= i ==> !#[trigger] text::stands_at(s, p, k),
    ensures
        text::last_occurrence_from(s, p, i) is None,
    decreases i + 1,
{
    if i >= 0 {
        lemma_no_occurrence(s, p, i - 1);
    }
}

/// A marker comes off nowhere if the characters at two of its positions never
/// stand so far apart.
proof fn lemma_absent(s: Seq<char>, e: Seq<char>, k: int)
    requires
        0 < k < e.len(),
        forall|i: int|
            0 <= i && i + e.len() <= s.len() ==> !(#[trigger] s[i] == e[0] && s[i + k] == e[k]),
    ensures
        without_marker(s, e) is None,
{
    assert forall|i: int| 0 <= i <= s.len() - e.len() implies !#[trigger] text::stands_at(
        s,
        e,
        i,
    ) by {
        if text::stands_at(s, e, i) {
            let u = s.subrange(i, i + e.len());
            assert(u[0] == s[i] && u[k] == s[i + k]);
        }
    }
    lemma_no_occurrence(s, e, s.len() - e.len());
}

#[verifier::spinoff_prover]
#[verifier::rlimit(60)]
proof fn lemma_word_begins(b: Seq<char>)
    requires
        is_word(b),
    ensures
        !begins_copy(b.push(' ')),
        !begins_copy(b),
{
    reveal_strlit("Copy of ");
    reveal_strlit("copy of ");
    reveal_strlit("Kopie von ");
    reveal_strlit("kopie von ");
    let t = b.push(' ');
    assert(text::is_space(' '));
    assert forall|p: Seq<char>|
        p.len() > 6 && (p[4] == ' ' || p[5] == ' ') && (#[trigger] text::has_prefix(t, p)
            || text::has_prefix(b, p)) implies false by {
        let k = if p[4] == ' ' {
            4int
        } else {
            5int
        };
        if text::has_prefix(t, p) {
            assert(t.subrange(0, p.len() as int)[k] == t[k]);
            assert(b[k] == ' ');
        } else {
            assert(b.subrange(0, p.len() as int)[k] == b[k]);
        }
    }
    assert(!text::has_prefix(t, "Copy of "@) && !text::has_prefix(b, "Copy of "@));
    assert(!text::has_prefix(t, "copy of "@) && !text::has_prefix(b, "copy of "@));
    assert(!text::has_prefix(t, "Kopie von "@) && !text::has_prefix(b, "Kopie von "@));
    assert(!text::has_prefix(t, "kopie von "@) && !text::has_prefix(b, "kopie von "@));
}

/// A name of one word has no decoration: it is its own base name.
#[verifier::spinoff_prover]
#[verifier::rlimit(60)]
pub proof fn law_words_are_their_own_base(b: Seq<char>)
    requires
        is_word(b),
    ensures
        base_name(b) == b,
        is_bare(b),
{
    reveal_strlit(" - Kopie");
    reveal_strlit(" - kopie");
    reveal_strlit(" Kopie");
    reveal_strlit(" copy");
    reveal_strlit(" Copy");
    reveal_strlit("_copy");
    reveal_strlit("_Kopie");
    assert(text::is_space(' '));
    lemma_word_begins(b);
    assert(without_prefixes(b) == b);
    text::lemma_last_position(b, '(');
    assert(without_counter(b) == b);
    lemma_absent(b, " - Kopie"@, 1);
    lemma_absent(b, " - kopie"@, 1);
    lemma_absent(b, " Kopie"@, 1);
    lemma_absent(b, " copy"@, 1);
    lemma_absent(b, " Copy"@, 1);
    lemma_absent(b, "_copy"@, 1);
    lemma_absent(b, "_Kopie"@, 1);
    assert(!text::is_space(b[0]) && !text::is_space(b[b.len() - 1]));
    lemma_trim_none(b);
    assert(one_round(b) == b);
}

/// Names of one word are no copies of each other.
pub proof fn law_words_are_no_copies(a: Seq<char>, b: Seq<char>)
    requires
        is_word(a),
        is_word(b),
    ensures
        !is_copy_name(a, b),
{
    law_words_are_their_own_base(a);
    law_words_are_their_own_base(b);
}

#[verifier::spinoff_prover]
#[verifier::rlimit(60)]
proof fn lemma_marked_prefixes(b: Seq<char>, m: Seq<char>)
    requires
        is_word(b),
        m.len() > 1,
        m[0] == ' ' || m[0] == '_' && forall|i: int| 0 <= i < m.len() ==> #[trigger] m[i] != ' ',
        m[1] == '(' || m[1] == '-' || m[1] == 'c' || m[1] == 'C' || m[1] == 'K',
    ensures
        without_prefixes(b + m) == b + m,
{
    reveal_strlit("Copy of ");
    reveal_strlit("copy of ");
    reveal_strlit("Kopie von ");
    reveal_strlit("kopie von ");
    lemma_word_begins(b);
    assert(text::is_space(' '));
    if m[0] == ' ' {
        lemma_no_prefix(b, m, "Copy of "@);
        lemma_no_prefix(b, m, "copy of "@);
        lemma_no_prefix(b, m, "Kopie von "@);
        lemma_no_prefix(b, m, "kopie von "@);
    } else {
        let s = b + m;
        assert forall|i: int| 0 <= i < s.len() implies #[trigger] s[i] != ' ' by {
            if i >= b.len() {
                assert(s[i] == m[i - b.len()]);
            }
        }
        assert forall|p: Seq<char>|
            p.len() > 6 && (p[4] == ' ' || p[5] == ' ') && #[trigger] text::has_prefix(
                s,
                p,
            ) implies false by {
            let k = if p[4] == ' ' {
                4int
            } else {
                5int
            };
            assert(s.subrange(0, p.len() as int)[k] == s[k]);
        }
        assert(!text::has_prefix(s, "Copy of "@) && !text::has_prefix(s, "copy of "@));
        assert(!text::has_prefix(s, "Kopie von "@) && !text::has_prefix(s, "kopie von "@));
    }
}

proof fn lemma_marker_comes_off(b: Seq<char>, m: Seq<char>)
    requires
        is_word(b),
        m.len() > 0,
    ensures
        without_marker(b + m, m) == Some(b),
{
    let s = b + m;
    assert(s.subrange(b.len() as int, s.len() as int) =~= m);
    assert(text::last_occurrence(s, m) == Some(b.len() as int));
    assert(s.skip(s.len() as int) =~= seq![]);
    assert(text::all_digits(text::trim(s.skip(s.len() as int))));
    assert(s.take(b.len() as int) =~= b);
}

#[verifier::spinoff_prover]
#[verifier::rlimit(60)]
proof fn lemma_marked(b: Seq<char>, m: Seq<char>)
    requires
        is_word(b),
        m == " - Kopie"@ || m == " - kopie"@ || m == " Kopie"@ || m == " copy"@ || m == " Copy"@ || m
            == "_copy"@ || m == "_Kopie"@,
    ensures
        without_markers(b + m) == b,
        without_prefixes(b + m) == b + m,
        without_counter(b + m) == b + m,
        !text::is_space((b + m)[0]),
        !text::is_space((b + m).last()),
{
    reveal_strlit(" - Kopie");
    reveal_strlit(" - kopie");
    reveal_strlit(" Kopie");
    reveal_strlit(" copy");
    reveal_strlit(" Copy");
    reveal_strlit("_copy");
    reveal_strlit("_Kopie");
    let s = b + m;
    let n = b.len() as int;
    assert(text::is_space(' '));
    assert(!text::is_space(b[0]));
    lemma_marked_prefixes(b, m);
    assert(s[0] == b[0]);
    assert(s.last() == m.last());
    assert(without_counter(s) == s);
    lemma_marker_comes_off(b, m);
    assert forall|i: int| 0 <= i < n implies #[trigger] s[i] != ' ' && s[i] != '_' by {
        assert(s[i] == b[i]);
    }
    assert forall|i: int| n <= i < s.len() implies #[trigger] s[i] == m[i - n] by {}
    if m != " - Kopie"@ {
        lemma_absent(s, " - Kopie"@, 3);
        if m != " - kopie"@ {
            lemma_absent(s, " - kopie"@, 1);
            if m != " Kopie"@ {
                lemma_absent(s, " Kopie"@, 1);
                if m != " copy"@ {
                    lemma_absent(s, " copy"@, 1);
                    if m != " Copy"@ {
                        lemma_absent(s, " Copy"@, 1);
                        if m != "_copy"@ {
                            lemma_absent(s, "_copy"@, 1);
                        }
                    }
                }
            }
        }
    }
}

#[verifier::spinoff_prover]
#[verifier::rlimit(60)]
proof fn lemma_prefixed(b: Seq<char>, p: Seq<char>)
    requires
        is_word(b),
        p == "Copy of "@ || p == "copy of "@ || p == "Kopie von "@ || p == "kopie von "@,
    ensures
        is_copy_name(b, p + b),
{
    reveal_strlit("Copy of ");
    reveal_strlit("copy of ");
    reveal_strlit("Kopie von ");
    reveal_strlit("kopie von ");
    law_words_are_their_own_base(b);
    lemma_word_begins(b);
    let u = p + b;
    assert(u.subrange(0, p.len() as int) =~= p);
    assert(u.skip(p.len() as int) =~= b);
    assert(!text::is_space(b[0]) && !text::is_space(b[b.len() - 1]));
    lemma_trim_none(b);
    assert(u[0] == p[0]);
    assert forall|q: Seq<char>|
        q.len() > 5 && (q[0] != p[0] || q[4] != p[4]) && #[trigger] text::has_prefix(
            u,
            q,
        ) implies false by {
        assert(u.subrange(0, q.len() as int)[0] == u[0] && u.subrange(0, q.len() as int)[4]
            == u[4]);
    }
    assert(p != "Copy of "@ ==> !text::has_prefix(u, "Copy of "@));
    assert(p != "Copy of "@ && p != "copy of "@ ==> !text::has_prefix(u, "copy of "@));
    assert(p == "kopie von "@ ==> !text::has_prefix(u, "Kopie von "@));
    assert(without_prefixes(u) == b);
    lemma_one_round_suffices(b, u);
}

/// Every decoration that the systems give copies comes off a name of one word:
/// whatever it is marked with, the marked name is a copy of it.
#[verifier::spinoff_prover]
#[verifier::rlimit(60)]
pub proof fn law_every_mark_makes_a_copy(b: Seq<char>, n: nat)
    requires
        is_word(b),
    ensures
        is_copy_name(b, b + " ("@ + text::decimal(n) + ")"@),
        is_copy_name(b, b + " - Kopie"@),
        is_copy_name(b, b + " - Kopie ("@ + text::decimal(n) + ")"@),
        is_copy_name(b, b + " - kopie"@),
        is_copy_name(b, b + " Kopie"@),
        is_copy_name(b, b + " copy"@),
        is_copy_name(b, b + " copy "@ + text::decimal(n)),
        is_copy_name(b, b + " Copy"@),
        is_copy_name(b, b + "_copy"@),
        is_copy_name(b, b + "_Kopie"@),
        is_copy_name(b, "Copy of "@ + b),
        is_copy_name(b, "copy of "@ + b),
        is_copy_name(b, "Kopie von "@ + b),
        is_copy_name(b, "kopie von "@ + b),
{
    reveal_strlit(" - kopie");
    reveal_strlit(" Kopie");
    reveal_strlit(" copy");
    reveal_strlit(" Copy");
    reveal_strlit("_copy");
    reveal_strlit("_Kopie");
    law_words_are_their_own_base(b);
    law_marked_names_are_copies(b, n);
    assert(!text::is_space(b[0]) && !text::is_space(b[b.len() - 1]));
    lemma_trim_none(b);
    lemma_marked(b, " - kopie"@);
    lemma_one_round_suffices(b, b + " - kopie"@);
    lemma_marked(b, " Kopie"@);
    lemma_one_round_suffices(b, b + " Kopie"@);
    lemma_marked(b, " copy"@);
    lemma_one_round_suffices(b, b + " copy"@);
    lemma_marked(b, " Copy"@);
    lemma_one_round_suffices(b, b + " Copy"@);
    lemma_marked(b, "_copy"@);
    lemma_one_round_suffices(b, b + "_copy"@);
    lemma_marked(b, "_Kopie"@);
    lemma_one_round_suffices(b, b + "_Kopie"@);
    lemma_prefixed(b, "Copy of "@);
    lemma_prefixed(b, "copy of "@);
    lemma_prefixed(b, "Kopie von "@);
    lemma_prefixed(b, "kopie von "@);
    lemma_counted_mark(b, n);
    lemma_counted_copy(b, n);
}

proof fn lemma_counted_mark(b: Seq<char>, n: nat)
    requires
        is_word(b),
    ensures
        is_copy_name(b, b + " - Kopie ("@ + text::decimal(n) + ")"@),
{
    reveal_strlit(" - Kopie (");
    reveal_strlit(" - Kopie");
    reveal_strlit(")");
    law_words_are_their_own_base(b);
    let d = text::decimal(n);
    text::lemma_decimal_digits(n);
    let m = " - Kopie ("@ + d + ")"@;
    let s = b + " - Kopie ("@ + d + ")"@;
    let t = b + " - Kopie"@;
    assert(s =~= b + m);
    assert(text::is_space(' '));
    lemma_marked_prefixes(b, m);
    let open = b.len() as int + 9;
    assert(s[open] == '(');
    assert forall|k: int| open < k < s.len() implies s[k] != '(' by {
        if k < s.len() - 1 {
            assert(s[k] == d[k - open - 1]);
            assert(text::is_digit(d[k - open - 1]));
        }
    }
    text::lemma_last_position_is(s, '(', open);
    assert(s.subrange(open + 1, s.len() - 1) =~= d);
    let head = s.take(open);
    assert(head.last() == ' ');
    assert(head.drop_last() =~= t);
    assert(t.last() == 'e');
    assert(text::trim_end(t) == t);
    assert(text::trim_end(head) == text::trim_end(head.drop_last()));
    assert(s.last() == ')');
    assert(without_counter(s) == t);
    lemma_marked(b, " - Kopie"@);
    assert(s[0] == b[0]);
    assert(!text::is_space(b[0]) && !text::is_space(b[b.len() - 1]));
    lemma_trim_none(b);
    lemma_one_round_suffices(b, s);
}

#[verifier::spinoff_prover]
#[verifier::rlimit(60)]
proof fn lemma_counted_copy(b: Seq<char>, n: nat)
    requires
        is_word(b),
    ensures
        is_copy_name(b, b + " copy "@ + text::decimal(n)),
{
    reveal_strlit(" - Kopie");
    reveal_strlit(" - kopie");
    reveal_strlit(" Kopie");
    reveal_strlit(" copy");
    reveal_strlit(" copy ");
    law_words_are_their_own_base(b);
    let d = text::decimal(n);
    text::lemma_decimal_digits(n);
    let m = " copy "@ + d;
    let s = b + " copy "@ + d;
    assert(s =~= b + m);
    assert(text::is_space(' '));
    let k = b.len() as int;
    lemma_marked_prefixes(b, m);
    assert(s.last() == d.last());
    assert(text::is_digit(d[d.len() - 1]));
    assert(text::is_digit(d[0]));
    assert(without_counter(s) == s);
    assert forall|i: int| 0 <= i < k implies #[trigger] s[i] != ' ' by {
        assert(s[i] == b[i]);
    }
    assert forall|i: int| k + 6 <= i < s.len() implies text::is_digit(#[trigger] s[i]) by {
        assert(s[i] == d[i - k - 6]);
        assert(text::is_digit(d[i - k - 6]));
    }
    assert(s[k] == ' ' && s[k + 1] == 'c' && s[k + 2] == 'o' && s[k + 3] == 'p' && s[k + 4] == 'y'
        && s[k + 5] == ' ');
    lemma_absent(s, " - Kopie"@, 1);
    lemma_absent(s, " - kopie"@, 1);
    lemma_absent(s, " Kopie"@, 1);
    let mark = " copy"@;
    assert(s.subrange(k, k + 5) =~= mark);
    lemma_latest(s, mark, k, s.len() - 5);
    let tail = s.skip(k + 5);
    assert(tail.drop_first() =~= d);
    assert(tail[0] == ' ');
    assert(text::trim_start(tail) == d) by {
        assert(text::trim_start(d) == d);
    }
    assert(text::trim(tail) == d);
    assert(s.take(k) =~= b);
    assert(without_marker(s, mark) == Some(b));
    assert(without_markers(s) == b);
    assert(s[0] == b[0]);
    assert(!text::is_space(b[0]) && !text::is_space(b[b.len() - 1]));
    lemma_trim_none(b);
    lemma_one_round_suffices(b, s);
}

proof fn lemma_latest(s: Seq<char>, p: Seq<char>, k: int, i: int)
    requires
        p.len() > 1,
        text::stands_at(s, p, k),
        k <= i,
        forall|j: int|
            k < j && j + p.len() <= s.len() ==> !(#[trigger] s[j] == p[0] && s[j + 1] == p[1]),
    ensures
        text::last_occurrence_from(s, p, i) == Some(k),
    decreases i,
{
    if i > k {
        if text::stands_at(s, p, i) {
            let u = s.subrange(i, i + p.len());
            assert(u[0] == s[i] && u[1] == s[i + 1]);
        }
        lemma_latest(s, p, k, i - 1);
    }
}

/// What may follow a copy's mark: digits, with white space around them. With anything
/// else behind it the mark stays, and otherwise what stands before it is left.
pub proof fn law_only_a_number_follows_a_mark(b: Seq<char>, marker: Seq<char>, rest: Seq<char>)
    requires
        text::last_occurrence(b + marker + rest, marker) == Some(b.len() as int),
    ensures
        (forall|i: int| 0 <= i < rest.len() ==> '0' <= #[trigger] rest[i] <= '9')
            ==> without_marker(b + marker + rest, marker) == Some(b),
        (exists|i: int|
            0 <= i < rest.len() && !('0' <= #[trigger] rest[i] <= '9') && !text::is_space(rest[i]))
            ==> without_marker(b + marker + rest, marker) is None,
{
    let s = b + marker + rest;
    let i = b.len() as int;
    assert(s.skip(i + marker.len()) =~= rest);
    assert(s.take(i) =~= b);
    let at = text::law_trimming(rest);
    let t = text::trim(rest);
    if forall|k: int| 0 <= k < rest.len() ==> '0' <= #[trigger] rest[k] <= '9' {
        assert forall|k: int| 0 <= k < t.len() implies text::is_digit(#[trigger] t[k]) by {
            assert(t[k] == rest[at.0 + k]);
        }
    }
    if exists|k: int|
        0 <= k < rest.len() && !('0' <= #[trigger] rest[k] <= '9') && !text::is_space(rest[k]) {
        let k = choose|k: int|
            0 <= k < rest.len() && !('0' <= #[trigger] rest[k] <= '9') && !text::is_space(rest[k]);
        assert(at.0 <= k < at.1);
        assert(t[k - at.0] == rest[k]);
        assert(!text::is_digit(t[k - at.0]));
    }
}

/// A counter is a number in brackets at the end of a name: it comes off, with the
/// white space before it. Brackets with anything else in them stay, and so do names
/// that don't end in one.
pub proof fn law_counters_are_numbers_in_brackets(b: Seq<char>, n: Seq<char>)
    requires
        !n.contains('('),
        n.len() > 0,
    ensures
        (forall|i: int| 0 <= i < n.len() ==> '0' <= #[trigger] n[i] <= '9') ==> without_counter(
            b + seq!['('] + n + seq![')'],
        ) == text::trim_end(b),
        (exists|i: int| 0 <= i < n.len() && !('0' <= #[trigger] n[i] <= '9')) ==> without_counter(
            b + seq!['('] + n + seq![')'],
        ) == b + seq!['('] + n + seq![')'],
        b.len() > 0 && b.last() != ')' ==> without_counter(b) == b,
{
    let s = b + seq!['('] + n + seq![')'];
    let k = b.len() as int;
    assert(s[k] == '(');
    assert forall|i: int| k < i < s.len() implies s[i] != '(' by {
        if i < s.len() - 1 {
            assert(s[i] == n[i - k - 1]);
            assert(n.contains(n[i - k - 1]));
        }
    }
    text::lemma_last_position_is(s, '(', k);
    assert(s.subrange(k + 1, s.len() - 1) =~= n);
    assert(s.take(k) =~= b);
    if exists|i: int| 0 <= i < n.len() && !('0' <= #[trigger] n[i] <= '9') {
        let i = choose|i: int| 0 <= i < n.len() && !('0' <= #[trigger] n[i] <= '9');
        assert(!text::is_digit(n[i]));
    }
    if forall|i: int| 0 <= i < n.len() ==> '0' <= #[trigger] n[i] <= '9' {
        assert(text::all_digits(n));
    }
}

/// One name is a copy of another exactly if they differ by more than case but have
/// one base name, whatever its case, which is not empty. Taking a decoration off
/// makes no difference to the base name.
pub proof fn law_copies_share_their_base_name(a: Seq<char>, b: Seq<char>)
    ensures
        is_copy_name(a, b) <==> text::ascii_lower(a) != text::ascii_lower(b) && base_name(b).len()
            > 0 && text::ascii_lower(base_name(b)) == text::ascii_lower(base_name(a)),
        base_name(a) == all_rounds(text::trim(a)),
        all_rounds(one_round(a)) == all_rounds(a),
{
    lemma_round_shortens(a);
}

} // verus!
