//! Text as sequences of characters.
//!
//! What the rest of the library says about names, paths and messages it says
//! over the characters of a text. This module holds the operations on them.

use vstd::prelude::*;
use vstd::slice::slice_subrange;

verus! {

/// `String::push` appends one character to the text.
pub assume_specification[ String::push ](s: &mut String, c: char)
    ensures
        final(s)@ == old(s)@.push(c),
;

/// The characters of each text.
pub open spec fn texts(v: Seq<String>) -> Seq<Seq<char>> {
    v.map_values(|s: String| s@)
}

/// The characters of `s`, in order.
pub fn to_chars(s: &str) -> (r: Vec<char>)
    ensures
        r@ == s@,
{
    let mut out: Vec<char> = Vec::new();
    for c in it: s.chars()
        invariant
            out@ =~= it.seq().take(it.index()),
            it.seq() == s@,
    {
        out.push(c);
    }
    out
}

/// The text made of the characters `cs`.
pub fn from_chars(cs: &[char]) -> (r: String)
    ensures
        r@ == cs@,
{
    let mut out = String::new();
    let mut i: usize = 0;
    while i < cs.len()
        invariant
            i <= cs@.len(),
            out@ =~= cs@.take(i as int),
        decreases cs@.len() - i,
    {
        out.push(cs[i]);
        i = i + 1;
    }
    assert(cs@.take(cs@.len() as int) =~= cs@);
    out
}

/// Whether two texts are the same.
pub fn text_eq(a: &str, b: &str) -> (r: bool)
    ensures
        r == (a@ == b@),
{
    let x: String = a.to_owned();
    let y: String = b.to_owned();
    x == y
}

/// Whether two character lists are the same.
pub fn chars_eq(a: &[char], b: &[char]) -> (r: bool)
    ensures
        r == (a@ == b@),
{
    if a.len() != b.len() {
        return false;
    }
    let mut i: usize = 0;
    while i < a.len()
        invariant
            i <= a@.len(),
            a@.len() == b@.len(),
            forall|k: int| 0 <= k < i ==> a@[k] == b@[k],
        decreases a@.len() - i,
    {
        if a[i] != b[i] {
            assert(a@[i as int] != b@[i as int]);
            return false;
        }
        i = i + 1;
    }
    assert(a@ =~= b@);
    true
}

/// Whether `c` is one of `0` to `9`.
pub open spec fn is_digit(c: char) -> bool {
    '0' <= c <= '9'
}

/// Whether every character of `s` is a digit.
pub open spec fn all_digits(s: Seq<char>) -> bool {
    forall|i: int| 0 <= i < s.len() ==> is_digit(#[trigger] s[i])
}

/// Decides [`all_digits`].
pub fn are_digits(s: &[char]) -> (r: bool)
    ensures
        r == all_digits(s@),
{
    let mut i: usize = 0;
    while i < s.len()
        invariant
            i <= s@.len(),
            forall|k: int| 0 <= k < i ==> is_digit(#[trigger] s@[k]),
        decreases s@.len() - i,
    {
        if !('0' <= s[i] && s[i] <= '9') {
            assert(!is_digit(s@[i as int]));
            return false;
        }
        i = i + 1;
    }
    true
}

/// `c` with `A` to `Z` replaced by `a` to `z`.
pub open spec fn lower_char(c: char) -> char {
    if 'A' <= c <= 'Z' {
        (c as u8 + 32) as char
    } else {
        c
    }
}

/// `s` with `A` to `Z` replaced by `a` to `z`.
pub open spec fn ascii_lower(s: Seq<char>) -> Seq<char> {
    s.map_values(|c: char| lower_char(c))
}

/// Computes [`lower_char`].
pub fn to_lower_char(c: char) -> (r: char)
    ensures
        r == lower_char(c),
{
    if 'A' <= c && c <= 'Z' {
        (c as u8 + 32) as char
    } else {
        c
    }
}

/// Computes [`ascii_lower`].
pub fn to_ascii_lower(s: &[char]) -> (r: Vec<char>)
    ensures
        r@ == ascii_lower(s@),
{
    let mut out: Vec<char> = Vec::new();
    let mut i: usize = 0;
    while i < s.len()
        invariant
            i <= s@.len(),
            out@ =~= ascii_lower(s@.take(i as int)),
        decreases s@.len() - i,
    {
        out.push(to_lower_char(s[i]));
        i = i + 1;
        assert(s@.take(i as int) =~= s@.take(i - 1).push(s@[i - 1]));
    }
    assert(s@.take(s@.len() as int) =~= s@);
    out
}

/// Whether two texts differ at most in the case of `A` to `Z`.
pub fn eq_ignore_ascii_case(a: &str, b: &str) -> (r: bool)
    ensures
        r == (ascii_lower(a@) == ascii_lower(b@)),
{
    let x = to_ascii_lower(to_chars(a).as_slice());
    let y = to_ascii_lower(to_chars(b).as_slice());
    chars_eq(x.as_slice(), y.as_slice())
}

/// Whether every character of `s` is ASCII.
pub open spec fn is_ascii_text(s: Seq<char>) -> bool {
    forall|i: int| 0 <= i < s.len() ==> (#[trigger] s[i] as u32) < 128
}

/// What `str::to_lowercase` makes of a text beyond ASCII: each character
/// replaced by its lowercase form as Unicode defines it.
pub uninterp spec fn unicode_lowercase(s: Seq<char>) -> Seq<char>;

/// The text in lower case.
pub open spec fn lowercase(s: Seq<char>) -> Seq<char> {
    if is_ascii_text(s) {
        ascii_lower(s)
    } else {
        unicode_lowercase(s)
    }
}

/// `str::to_lowercase`. Its result depends on the text alone; on ASCII text
/// it only replaces `A` to `Z` by `a` to `z`.
#[verifier::external_body]
pub(crate) fn to_lowercase(s: &str) -> (r: String)
    ensures
        is_ascii_text(s@) ==> r@ == ascii_lower(s@),
        !is_ascii_text(s@) ==> r@ == unicode_lowercase(s@),
{
    s.to_lowercase()
}

/// Whether `s` begins with `p`.
pub open spec fn has_prefix(s: Seq<char>, p: Seq<char>) -> bool {
    p.len() <= s.len() && s.subrange(0, p.len() as int) == p
}

/// Whether `s` ends with `p`.
pub open spec fn has_suffix(s: Seq<char>, p: Seq<char>) -> bool {
    p.len() <= s.len() && s.subrange(s.len() - p.len(), s.len() as int) == p
}

/// Decides [`has_prefix`].
pub fn starts_with(s: &[char], p: &[char]) -> (r: bool)
    ensures
        r == has_prefix(s@, p@),
{
    p.len() <= s.len() && chars_eq(slice_subrange(s, 0, p.len()), p)
}

/// Decides [`has_suffix`].
pub fn ends_with(s: &[char], p: &[char]) -> (r: bool)
    ensures
        r == has_suffix(s@, p@),
{
    p.len() <= s.len() && chars_eq(slice_subrange(s, s.len() - p.len(), s.len()), p)
}

/// The last position of `c` in `s`.
pub open spec fn last_position(s: Seq<char>, c: char) -> Option<int>
    decreases s.len(),
{
    if s.len() == 0 {
        None
    } else if s.last() == c {
        Some(s.len() - 1)
    } else {
        last_position(s.drop_last(), c)
    }
}

/// A position is the last one of `c` exactly if `c` stands there and nowhere
/// behind it.
pub proof fn lemma_last_position(s: Seq<char>, c: char)
    ensures
        last_position(s, c) matches Some(p) ==> {
            &&& 0 <= p < s.len()
            &&& s[p] == c
            &&& forall|k: int| p < k < s.len() ==> s[k] != c
        },
        last_position(s, c) is None ==> forall|k: int| 0 <= k < s.len() ==> s[k] != c,
    decreases s.len(),
{
    if s.len() > 0 && s.last() != c {
        let t = s.drop_last();
        lemma_last_position(t, c);
        match last_position(t, c) {
            Some(p) => {
                assert(t[p] == s[p]);
                assert forall|k: int| p < k < s.len() implies s[k] != c by {
                    if k < t.len() {
                        assert(t[k] == s[k]);
                    }
                }
            },
            None => {
                assert forall|k: int| 0 <= k < s.len() implies s[k] != c by {
                    if k < t.len() {
                        assert(t[k] == s[k]);
                    }
                }
            },
        }
    }
}

/// The position at which `c` stands with no `c` behind it is the last.
pub proof fn lemma_last_position_is(s: Seq<char>, c: char, p: int)
    requires
        0 <= p < s.len(),
        s[p] == c,
        forall|k: int| p < k < s.len() ==> s[k] != c,
    ensures
        last_position(s, c) == Some(p),
{
    lemma_last_position(s, c);
    match last_position(s, c) {
        Some(q) => {
            assert(s[q] == c);
        },
        None => {},
    }
}

/// Computes [`last_position`].
pub fn rfind(s: &[char], c: char) -> (r: Option<usize>)
    ensures
        match r {
            Some(p) => p < s.len() && last_position(s@, c) == Some(p as int),
            None => last_position(s@, c) is None,
        },
{
    let mut i: usize = s.len();
    while i > 0
        invariant
            i <= s@.len(),
            forall|k: int| i <= k < s@.len() ==> s@[k] != c,
        decreases i,
    {
        i = i - 1;
        if s[i] == c {
            proof {
                lemma_last_position_is(s@, c, i as int);
            }
            return Some(i);
        }
    }
    proof {
        lemma_last_position(s@, c);
    }
    None
}

/// Whether `p` stands in `s` at position `i`.
pub open spec fn stands_at(s: Seq<char>, p: Seq<char>, i: int) -> bool {
    0 <= i && i + p.len() <= s.len() && s.subrange(i, i + p.len()) == p
}

/// The last position at which `p` stands in `s`, at `i` or before it.
pub open spec fn last_occurrence_from(s: Seq<char>, p: Seq<char>, i: int) -> Option<int>
    decreases i + 1,
{
    if i < 0 {
        None
    } else if stands_at(s, p, i) {
        Some(i)
    } else {
        last_occurrence_from(s, p, i - 1)
    }
}

/// The last position at which `p` stands in `s`.
pub open spec fn last_occurrence(s: Seq<char>, p: Seq<char>) -> Option<int> {
    last_occurrence_from(s, p, s.len() - p.len())
}

/// Computes [`last_occurrence`].
pub fn rfind_text(s: &[char], p: &[char]) -> (r: Option<usize>)
    ensures
        match r {
            Some(i) => i + p.len() <= s.len() && last_occurrence(s@, p@) == Some(i as int),
            None => last_occurrence(s@, p@) is None,
        },
{
    if p.len() > s.len() {
        return None;
    }
    let top: usize = s.len() - p.len();
    let mut i: usize = top;
    loop
        invariant
            i <= top,
            top as int == s.len() - p.len(),
            top == s@.len() - p@.len(),
            last_occurrence(s@, p@) == last_occurrence_from(s@, p@, i as int),
        decreases i,
    {
        if chars_eq(slice_subrange(s, i, i + p.len()), p) {
            return Some(i);
        }
        if i == 0 {
            assert(last_occurrence_from(s@, p@, -1) is None);
            return None;
        }
        i = i - 1;
    }
}

/// Whether `c` has Unicode's `White_Space` property.
pub open spec fn is_space(c: char) -> bool {
    let n = c as u32;
    ||| 0x09 <= n <= 0x0d
    ||| n == 0x20
    ||| n == 0x85
    ||| n == 0xa0
    ||| n == 0x1680
    ||| 0x2000 <= n <= 0x200a
    ||| n == 0x2028
    ||| n == 0x2029
    ||| n == 0x202f
    ||| n == 0x205f
    ||| n == 0x3000
}

/// Decides [`is_space`].
pub fn is_white_space(c: char) -> (r: bool)
    ensures
        r == is_space(c),
{
    let n: u32 = c as u32;
    (0x09 <= n && n <= 0x0d) || n == 0x20 || n == 0x85 || n == 0xa0 || n == 0x1680 || (0x2000 <= n
        && n <= 0x200a) || n == 0x2028 || n == 0x2029 || n == 0x202f || n == 0x205f || n == 0x3000
}

/// `s` without the white space it begins with.
pub open spec fn trim_start(s: Seq<char>) -> Seq<char>
    decreases s.len(),
{
    if s.len() > 0 && is_space(s[0]) {
        trim_start(s.drop_first())
    } else {
        s
    }
}

/// `s` without the white space it ends with.
pub open spec fn trim_end(s: Seq<char>) -> Seq<char>
    decreases s.len(),
{
    if s.len() > 0 && is_space(s.last()) {
        trim_end(s.drop_last())
    } else {
        s
    }
}

/// `s` without white space at either end.
pub open spec fn trim(s: Seq<char>) -> Seq<char> {
    trim_end(trim_start(s))
}

/// Computes [`trim_start`].
pub fn trimmed_start(s: &[char]) -> (r: &[char])
    ensures
        r@ == trim_start(s@),
{
    let mut i: usize = 0;
    assert(s@.subrange(0, s@.len() as int) =~= s@);
    while i < s.len() && is_white_space(s[i])
        invariant
            i <= s@.len(),
            trim_start(s@) == trim_start(s@.subrange(i as int, s@.len() as int)),
        decreases s@.len() - i,
    {
        let ghost t = s@.subrange(i as int, s@.len() as int);
        assert(t[0] == s@[i as int]);
        i = i + 1;
        assert(t.drop_first() =~= s@.subrange(i as int, s@.len() as int));
    }
    proof {
        let t = s@.subrange(i as int, s@.len() as int);
        if t.len() > 0 {
            assert(t[0] == s@[i as int]);
        }
    }
    slice_subrange(s, i, s.len())
}

/// Computes [`trim_end`].
pub fn trimmed_end(s: &[char]) -> (r: &[char])
    ensures
        r@ == trim_end(s@),
{
    let mut i: usize = s.len();
    assert(s@.subrange(0, s@.len() as int) =~= s@);
    while i > 0 && is_white_space(s[i - 1])
        invariant
            i <= s@.len(),
            trim_end(s@) == trim_end(s@.subrange(0, i as int)),
        decreases i,
    {
        let ghost t = s@.subrange(0, i as int);
        assert(t.last() == s@[i - 1]);
        i = i - 1;
        assert(t.drop_last() =~= s@.subrange(0, i as int));
    }
    proof {
        let t = s@.subrange(0, i as int);
        if t.len() > 0 {
            assert(t.last() == s@[i - 1]);
        }
    }
    slice_subrange(s, 0, i)
}

/// Computes [`trim`].
pub fn trimmed(s: &[char]) -> (r: &[char])
    ensures
        r@ == trim(s@),
{
    trimmed_end(trimmed_start(s))
}

/// The trimmed text is part of the text.
pub proof fn lemma_trim_len(s: Seq<char>)
    ensures
        trim_start(s).len() <= s.len(),
        trim_end(s).len() <= s.len(),
        trim(s).len() <= s.len(),
        trim_end(s) == s || trim_end(s).len() < s.len(),
        trim(s) == s || trim(s).len() < s.len(),
{
    lemma_trim_start_len(s);
    lemma_trim_end_len(s);
    lemma_trim_end_len(trim_start(s));
}

/// Trimming adds nothing.
pub proof fn lemma_trim_keeps(s: Seq<char>)
    ensures
        forall|c: char| #[trigger] trim(s).contains(c) ==> s.contains(c),
{
    lemma_trim_start_keeps(s);
    lemma_trim_end_keeps(trim_start(s));
}

proof fn lemma_trim_start_keeps(s: Seq<char>)
    ensures
        forall|c: char| #[trigger] trim_start(s).contains(c) ==> s.contains(c),
    decreases s.len(),
{
    if s.len() > 0 && is_space(s[0]) {
        let t = s.drop_first();
        lemma_trim_start_keeps(t);
        assert forall|c: char| #[trigger] trim_start(s).contains(c) implies s.contains(c) by {
            assert(trim_start(t).contains(c));
            let i = choose|i: int| 0 <= i < t.len() && t[i] == c;
            assert(s[i + 1] == c);
        }
    }
}

proof fn lemma_trim_end_keeps(s: Seq<char>)
    ensures
        forall|c: char| #[trigger] trim_end(s).contains(c) ==> s.contains(c),
    decreases s.len(),
{
    if s.len() > 0 && is_space(s.last()) {
        let t = s.drop_last();
        lemma_trim_end_keeps(t);
        assert forall|c: char| #[trigger] trim_end(s).contains(c) implies s.contains(c) by {
            assert(trim_end(t).contains(c));
            let i = choose|i: int| 0 <= i < t.len() && t[i] == c;
            assert(s[i] == c);
        }
    }
}

proof fn lemma_trim_start_len(s: Seq<char>)
    ensures
        trim_start(s).len() <= s.len(),
        trim_start(s) == s || trim_start(s).len() < s.len(),
    decreases s.len(),
{
    if s.len() > 0 && is_space(s[0]) {
        lemma_trim_start_len(s.drop_first());
    }
}

proof fn lemma_trim_end_len(s: Seq<char>)
    ensures
        trim_end(s).len() <= s.len(),
        trim_end(s) == s || trim_end(s).len() < s.len(),
    decreases s.len(),
{
    if s.len() > 0 && is_space(s.last()) {
        lemma_trim_end_len(s.drop_last());
    }
}

/// Whether `a` comes before `b` or equals it in the order of code points.
pub open spec fn text_le(a: Seq<char>, b: Seq<char>) -> bool
    decreases a.len(),
{
    if a.len() == 0 {
        true
    } else if b.len() == 0 {
        false
    } else if a[0] != b[0] {
        a[0] < b[0]
    } else {
        text_le(a.drop_first(), b.drop_first())
    }
}

/// [`text_le`] is a total order.
pub proof fn lemma_text_le_order(a: Seq<char>, b: Seq<char>, c: Seq<char>)
    ensures
        text_le(a, a),
        text_le(a, b) || text_le(b, a),
        text_le(a, b) && text_le(b, a) ==> a == b,
        text_le(a, b) && text_le(b, c) ==> text_le(a, c),
    decreases a.len() + b.len() + c.len(),
{
    if a.len() > 0 {
        if b.len() > 0 && c.len() > 0 {
            lemma_text_le_order(a.drop_first(), b.drop_first(), c.drop_first());
        } else if b.len() > 0 {
            lemma_text_le_order(a.drop_first(), b.drop_first(), c);
        } else {
            lemma_text_le_order(a.drop_first(), b, c);
        }
        if b.len() > 0 && a[0] == b[0] && a.drop_first() == b.drop_first() {
            assert(a =~= seq![a[0]] + a.drop_first());
            assert(b =~= seq![b[0]] + b.drop_first());
        }
    } else {
        if b.len() == 0 {
            assert(a =~= b);
        }
    }
}

/// Decides [`text_le`].
pub fn chars_le(a: &[char], b: &[char]) -> (r: bool)
    ensures
        r == text_le(a@, b@),
{
    let mut i: usize = 0;
    assert(a@.skip(0) =~= a@ && b@.skip(0) =~= b@);
    loop
        invariant
            i <= a@.len(),
            i <= b@.len(),
            text_le(a@, b@) == text_le(a@.skip(i as int), b@.skip(i as int)),
        decreases a@.len() - i,
    {
        if i == a.len() {
            return true;
        }
        if i == b.len() {
            return false;
        }
        let ghost x = a@.skip(i as int);
        let ghost y = b@.skip(i as int);
        assert(x[0] == a@[i as int] && y[0] == b@[i as int]);
        if a[i] != b[i] {
            return a[i] < b[i];
        }
        i = i + 1;
        assert(x.drop_first() =~= a@.skip(i as int));
        assert(y.drop_first() =~= b@.skip(i as int));
    }
}

/// Decides [`text_le`] on texts.
pub fn is_text_le(a: &str, b: &str) -> (r: bool)
    ensures
        r == text_le(a@, b@),
{
    chars_le(to_chars(a).as_slice(), to_chars(b).as_slice())
}

/// The digit that stands for `d`.
pub open spec fn digit_char(d: nat) -> char {
    (('0' as u8) + d) as char
}

/// `n` in decimal digits.
pub open spec fn decimal(n: nat) -> Seq<char>
    decreases n,
{
    if n < 10 {
        seq![digit_char(n)]
    } else {
        decimal(n / 10).push(digit_char(n % 10))
    }
}

/// Writes `n` in decimal digits.
pub fn decimal_chars(n: u128) -> (r: Vec<char>)
    ensures
        r@ == decimal(n as nat),
    decreases n,
{
    if n < 10 {
        let mut r: Vec<char> = Vec::new();
        r.push((48u8 + n as u8) as char);
        assert(r@ =~= decimal(n as nat));
        r
    } else {
        let mut r = decimal_chars(n / 10);
        r.push((48u8 + (n % 10) as u8) as char);
        r
    }
}

/// Writes `n` in decimal digits.
pub fn decimal_text(n: u128) -> (r: String)
    ensures
        r@ == decimal(n as nat),
{
    from_chars(decimal_chars(n).as_slice())
}

/// A decimal number is made of digits.
pub proof fn lemma_decimal_digits(n: nat)
    ensures
        all_digits(decimal(n)),
        decimal(n).len() > 0,
    decreases n,
{
    if n >= 10 {
        lemma_decimal_digits(n / 10);
        assert forall|i: int| 0 <= i < decimal(n).len() implies is_digit(
            #[trigger] decimal(n)[i],
        ) by {
            if i < decimal(n).len() - 1 {
                assert(decimal(n)[i] == decimal(n / 10)[i]);
            }
        }
    }
}

/// Different numbers are written differently.
pub proof fn lemma_decimal_injective(m: nat, n: nat)
    requires
        decimal(m) == decimal(n),
    ensures
        m == n,
    decreases m,
{
    lemma_decimal_digits(m);
    lemma_decimal_digits(n);
    if m >= 10 && n >= 10 {
        assert(decimal(m).drop_last() =~= decimal(m / 10));
        assert(decimal(n).drop_last() =~= decimal(n / 10));
        lemma_decimal_injective(m / 10, n / 10);
        assert(decimal(m).last() == digit_char(m % 10));
        assert(decimal(n).last() == digit_char(n % 10));
        assert(digit_char(m % 10) as u32 == 48 + m % 10);
        assert(digit_char(n % 10) as u32 == 48 + n % 10);
        assert(m % 10 == n % 10);
        assert(m / 10 == n / 10);
        assert(m == n);
    } else if m >= 10 {
        lemma_decimal_digits(m / 10);
        assert(decimal(m).len() >= 2);
        assert(decimal(n) == seq![digit_char(n)]);
        assert(false);
    } else if n >= 10 {
        lemma_decimal_digits(n / 10);
        assert(decimal(n).len() >= 2);
        assert(decimal(m) == seq![digit_char(m)]);
        assert(decimal(m).len() == 1);
        assert(false);
    } else {
        assert(decimal(m) == seq![digit_char(m)]);
        assert(decimal(n) == seq![digit_char(n)]);
        assert(seq![digit_char(m)][0] == digit_char(m));
        assert(seq![digit_char(n)][0] == digit_char(n));
        assert(digit_char(m) == digit_char(n));
        assert(digit_char(m) as u32 == 48 + m);
        assert(digit_char(n) as u32 == 48 + n);
    }
}

/// Where the first `c` at or after `i` stands, or the end.
pub open spec fn next_char(s: Seq<char>, c: char, i: int) -> int
    decreases s.len() - i,
{
    if i < 0 || i >= s.len() || s[i] == c {
        i
    } else {
        next_char(s, c, i + 1)
    }
}

/// A line without the `'\r'` before its line break.
pub open spec fn without_return(s: Seq<char>) -> Seq<char> {
    if s.len() > 0 && s.last() == '\r' {
        s.drop_last()
    } else {
        s
    }
}

/// The lines of `s` from `i` on. A line ends with `"\n"` or `"\r\n"`, neither
/// of which belongs to it; what follows the last line break is a line only if
/// it is not empty.
pub open spec fn lines_from(s: Seq<char>, i: int) -> Seq<Seq<char>>
    decreases s.len() - i,
    via lines_from_ends
{
    if i < 0 || i >= s.len() {
        seq![]
    } else {
        let e = next_char(s, '\n', i);
        if e >= s.len() {
            seq![s.subrange(i, s.len() as int)]
        } else {
            seq![without_return(s.subrange(i, e))] + lines_from(s, e + 1)
        }
    }
}

#[via_fn]
proof fn lines_from_ends(s: Seq<char>, i: int) {
    lemma_next_char(s, '\n', i);
}

/// The lines of a text.
pub open spec fn lines(s: Seq<char>) -> Seq<Seq<char>> {
    lines_from(s, 0)
}

/// The next `c` does not stand before `i`, and nothing before it is `c`.
pub proof fn lemma_next_char(s: Seq<char>, c: char, i: int)
    ensures
        next_char(s, c, i) >= i,
        0 <= i <= s.len() ==> next_char(s, c, i) <= s.len(),
        0 <= i <= s.len() ==> (next_char(s, c, i) < s.len() ==> s[next_char(s, c, i)] == c),
    decreases s.len() - i,
{
    if !(i < 0 || i >= s.len() || s[i] == c) {
        lemma_next_char(s, c, i + 1);
    }
}

/// Splits a text into its lines.
pub fn split_lines(s: &[char]) -> (r: Vec<Vec<char>>)
    ensures
        r@.map_values(|v: Vec<char>| v@) == lines(s@),
{
    let mut out: Vec<Vec<char>> = Vec::new();
    let ghost view = |v: Vec<char>| v@;
    let mut i: usize = 0;
    while i < s.len()
        invariant
            i <= s@.len(),
            view == (|v: Vec<char>| v@),
            out@.map_values(view) + lines_from(s@, i as int) =~= lines(s@),
        decreases s@.len() - i,
    {
        let mut e: usize = i;
        while e < s.len() && s[e] != '\n'
            invariant
                i <= e <= s@.len(),
                next_char(s@, '\n', e as int) == next_char(s@, '\n', i as int),
            decreases s@.len() - e,
        {
            e = e + 1;
        }
        assert(e == next_char(s@, '\n', i as int));
        let stop: usize = if e < s.len() && e > i && s[e - 1] == '\r' {
            e - 1
        } else {
            e
        };
        let line = slice_to_vec(slice_subrange(s, i, stop));
        let ghost before = out@;
        out.push(line);
        assert(out@.map_values(view) =~= before.map_values(view).push(line@));
        if e == s.len() {
            assert(line@ =~= s@.subrange(i as int, s@.len() as int));
            i = e;
        } else {
            assert(line@ =~= without_return(s@.subrange(i as int, e as int)));
            i = e + 1;
        }
    }
    out
}

/// A copy of the characters.
fn slice_to_vec(s: &[char]) -> (r: Vec<char>)
    ensures
        r@ == s@,
{
    let mut out: Vec<char> = Vec::new();
    out.extend_from_slice(s);
    assert(out@ =~= s@);
    out
}

/// The number that digits stand for.
pub open spec fn number(s: Seq<char>) -> nat
    decreases s.len(),
{
    if s.len() == 0 {
        0
    } else {
        number(s.drop_last()) * 10 + (s.last() as nat - '0' as nat) as nat
    }
}

/// The number a text stands for: digits, perhaps after a `+`, up to the
/// largest `u64`.
pub open spec fn parsed_number(s: Seq<char>) -> Option<u64> {
    let digits = if s.len() > 0 && s[0] == '+' {
        s.skip(1)
    } else {
        s
    };
    if digits.len() > 0 && all_digits(digits) && number(digits) <= u64::MAX {
        Some(number(digits) as u64)
    } else {
        None
    }
}

proof fn lemma_number_grows(s: Seq<char>, i: int)
    requires
        0 <= i <= s.len(),
        all_digits(s),
    ensures
        number(s.take(i)) <= number(s),
    decreases s.len(),
{
    if i < s.len() {
        assert(s.drop_last().take(i) =~= s.take(i));
        assert(is_digit(s.last()));
        lemma_number_grows(s.drop_last(), i);
    } else {
        assert(s.take(i) =~= s);
    }
}

/// Reads a number.
pub fn parse_number(s: &[char]) -> (r: Option<u64>)
    ensures
        r == parsed_number(s@),
{
    let start: usize = if s.len() > 0 && s[0] == '+' {
        1
    } else {
        0
    };
    let digits: &[char] = slice_subrange(s, start, s.len());
    let ghost d = if s@.len() > 0 && s@[0] == '+' {
        s@.skip(1)
    } else {
        s@
    };
    assert(digits@ =~= d);
    if digits.len() == 0 || !are_digits(digits) {
        return None;
    }
    let mut n: u64 = 0;
    let mut i: usize = 0;
    while i < digits.len()
        invariant
            i <= digits@.len(),
            all_digits(digits@),
            digits@.len() > 0,
            digits@ == (if s@.len() > 0 && s@[0] == '+' {
                s@.skip(1)
            } else {
                s@
            }),
            n == number(digits@.take(i as int)),
        decreases digits@.len() - i,
    {
        assert(digits@.take(i + 1).drop_last() =~= digits@.take(i as int));
        assert(is_digit(digits@[i as int]));
        let digit: u64 = digits[i] as u64 - 48;
        proof {
            lemma_number_grows(digits@, i + 1);
        }
        match n.checked_mul(10) {
            Some(m) => match m.checked_add(digit) {
                Some(k) => {
                    n = k;
                },
                None => return None,
            },
            None => return None,
        }
        i = i + 1;
    }
    assert(digits@.take(digits@.len() as int) =~= digits@);
    Some(n)
}

/// A copy of the texts.
pub fn copy_texts(list: &Vec<String>) -> (r: Vec<String>)
    ensures
        r@ == list@,
{
    let mut out: Vec<String> = Vec::new();
    let mut i: usize = 0;
    while i < list.len()
        invariant
            i <= list@.len(),
            out@ =~= list@.take(i as int),
        decreases list@.len() - i,
    {
        out.push(list[i].clone());
        i = i + 1;
    }
    assert(list@.take(list@.len() as int) =~= list@);
    out
}

/// In lower case `A` to `Z` become `a` to `z`, and every other character stays,
/// each in its place.
pub proof fn law_lower_case(s: Seq<char>, i: int)
    requires
        0 <= i < s.len(),
    ensures
        ascii_lower(s).len() == s.len(),
        'A' <= s[i] <= 'Z' ==> ascii_lower(s)[i] as u32 == s[i] as u32 + 32,
        !('A' <= s[i] <= 'Z') ==> ascii_lower(s)[i] == s[i],
        is_ascii_text(s) ==> lowercase(s) == ascii_lower(s),
{
}

/// Trimming a text takes white space off both its ends and nothing else: what is
/// left neither begins nor ends with white space.
pub proof fn law_trimming(s: Seq<char>) -> (at: (int, int))
    ensures
        0 <= at.0 <= at.1 <= s.len(),
        trim(s) == s.subrange(at.0, at.1),
        forall|i: int| 0 <= i < at.0 ==> is_space(#[trigger] s[i]),
        forall|i: int| at.1 <= i < s.len() ==> is_space(#[trigger] s[i]),
        trim(s).len() > 0 ==> !is_space(trim(s)[0]) && !is_space(trim(s).last()),
        is_space(' ') && is_space('\t') && is_space('\n') && is_space('\r'),
        forall|c: char| 33 <= c as u32 <= 126 ==> !#[trigger] is_space(c),
{
    let a = lemma_trim_start_at(s);
    let t = trim_start(s);
    let n = lemma_trim_end_at(t);
    assert(trim(s) =~= s.subrange(a, a + n));
    assert forall|i: int| a + n <= i < s.len() implies is_space(#[trigger] s[i]) by {
        assert(s[i] == t[i - a]);
    }
    (a, a + n)
}

proof fn lemma_trim_start_at(s: Seq<char>) -> (a: int)
    ensures
        0 <= a <= s.len(),
        trim_start(s) == s.skip(a),
        forall|i: int| 0 <= i < a ==> is_space(#[trigger] s[i]),
        a < s.len() ==> !is_space(s[a]),
    decreases s.len(),
{
    if s.len() > 0 && is_space(s[0]) {
        let t = s.drop_first();
        let b = lemma_trim_start_at(t);
        assert(s.skip(b + 1) =~= t.skip(b));
        assert forall|i: int| 0 <= i < b + 1 implies is_space(#[trigger] s[i]) by {
            assert(i > 0 ==> s[i] == t[i - 1]);
        }
        b + 1
    } else {
        assert(s.skip(0) =~= s);
        0
    }
}

proof fn lemma_trim_end_at(s: Seq<char>) -> (n: int)
    ensures
        0 <= n <= s.len(),
        trim_end(s) == s.take(n),
        forall|i: int| n <= i < s.len() ==> is_space(#[trigger] s[i]),
        n > 0 ==> !is_space(s[n - 1]),
    decreases s.len(),
{
    if s.len() > 0 && is_space(s.last()) {
        let t = s.drop_last();
        let n = lemma_trim_end_at(t);
        assert(s.take(n) =~= t.take(n));
        assert forall|i: int| n <= i < s.len() implies is_space(#[trigger] s[i]) by {
            assert(i < t.len() ==> s[i] == t[i]);
        }
        n
    } else {
        assert(s.take(s.len() as int) =~= s);
        s.len() as int
    }
}

/// A text found last in another stands there, and nowhere behind; one that isn't
/// found stands nowhere.
pub proof fn law_last_occurrence(s: Seq<char>, p: Seq<char>, k: int)
    requires
        0 <= k,
        k + p.len() <= s.len(),
        s.subrange(k, k + p.len()) == p,
    ensures
        last_occurrence(s, p) matches Some(i) && k <= i && i + p.len() <= s.len() && s.subrange(
            i,
            i + p.len(),
        ) == p,
{
    lemma_last_occurrence_from(s, p, s.len() - p.len(), k);
}

proof fn lemma_last_occurrence_from(s: Seq<char>, p: Seq<char>, i: int, k: int)
    requires
        stands_at(s, p, k),
        k <= i,
    ensures
        last_occurrence_from(s, p, i) matches Some(j) && k <= j <= i && stands_at(s, p, j),
    decreases i + 1,
{
    if !stands_at(s, p, i) {
        lemma_last_occurrence_from(s, p, i - 1, k);
    }
}

/// Texts are ordered by the first character in which they differ; one that another
/// begins with comes before it.
pub proof fn law_texts_are_ordered_by_characters(a: Seq<char>, b: Seq<char>, i: int)
    requires
        0 <= i <= a.len(),
        i <= b.len(),
        forall|k: int| 0 <= k < i ==> a[k] == b[k],
    ensures
        i == a.len() ==> text_le(a, b),
        i < a.len() && i == b.len() ==> !text_le(a, b),
        i < a.len() && i < b.len() && a[i] != b[i] ==> (text_le(a, b) <==> a[i] < b[i]),
    decreases i,
{
    if i > 0 {
        let x = a.drop_first();
        let y = b.drop_first();
        assert forall|k: int| 0 <= k < i - 1 implies x[k] == y[k] by {
            assert(x[k] == a[k + 1] && y[k] == b[k + 1]);
        }
        law_texts_are_ordered_by_characters(x, y, i - 1);
        assert(a[0] == b[0]);
    }
}

/// What digits stand for: every one counts ten times what the next one does.
pub proof fn law_digits_count_tenfold(s: Seq<char>, c: char)
    requires
        '0' <= c <= '9',
    ensures
        number(Seq::<char>::empty()) == 0,
        number(s.push(c)) == 10 * number(s) + (c as u32 - 48),
{
    assert(s.push(c).drop_last() =~= s);
}

/// A number that was written is read back, whether or not a `+` stands before it.
/// Nothing else than digits is read.
pub proof fn law_written_numbers_are_read_back(n: u64, s: Seq<char>)
    ensures
        number(decimal(n as nat)) == n,
        parsed_number(decimal(n as nat)) == Some(n),
        parsed_number(seq!['+'] + decimal(n as nat)) == Some(n),
        parsed_number(Seq::<char>::empty()) is None,
        (exists|i: int|
            1 <= i < s.len() && !('0' <= #[trigger] s[i] <= '9')) ==> parsed_number(s) is None,
        s.len() > 0 && s[0] != '+' && !('0' <= s[0] <= '9') ==> parsed_number(s) is None,
{
    let d = decimal(n as nat);
    lemma_decimal_digits(n as nat);
    lemma_number_of_decimal(n as nat);
    assert(is_digit(d[0]));
    assert((seq!['+'] + d).skip(1) =~= d);
    if exists|i: int| 1 <= i < s.len() && !('0' <= #[trigger] s[i] <= '9') {
        let i = choose|i: int| 1 <= i < s.len() && !('0' <= #[trigger] s[i] <= '9');
        assert(!is_digit(s[i]));
        assert(s.skip(1)[i - 1] == s[i]);
    }
    if s.len() > 0 && s[0] != '+' && !('0' <= s[0] <= '9') {
        assert(!is_digit(s[0]));
    }
}

proof fn lemma_number_of_decimal(n: nat)
    ensures
        number(decimal(n)) == n,
    decreases n,
{
    let d = decimal(n);
    if n < 10 {
        assert(d.drop_last() =~= seq![]);
        assert(d.last() == digit_char(n));
        assert(number(d.drop_last()) == 0);
        assert(digit_char(n) as nat == 48 + n);
    } else {
        lemma_number_of_decimal(n / 10);
        assert(d.drop_last() =~= decimal(n / 10));
        assert(d.last() == digit_char(n % 10));
        assert(digit_char(n % 10) as nat == 48 + n % 10);
    }
}

/// The lines of a text: what stands before a line break, without a carriage return
/// right before it, and then the lines of what follows. What follows the last break
/// is a line unless it is empty.
pub proof fn law_lines_end_at_breaks(a: Seq<char>, b: Seq<char>)
    requires
        !a.contains('\n'),
    ensures
        lines(Seq::<char>::empty()).len() == 0,
        a.len() > 0 ==> lines(a) == seq![a],
        lines(a + seq!['\n'] + b) == seq![
            if a.len() > 0 && a.last() == '\r' {
                a.drop_last()
            } else {
                a
            },
        ] + lines(b),
{
    let s = a + seq!['\n'] + b;
    let n = a.len() as int;
    assert forall|k: int| 0 <= k < n implies a[k] != '\n' by {
        assert(a.contains(a[k]));
    }
    lemma_next_char_is(a, '\n', 0, n);
    assert(a.subrange(0, n) =~= a);
    assert forall|k: int| 0 <= k < n implies s[k] != '\n' by {
        assert(s[k] == a[k]);
    }
    assert(s[n] == '\n');
    lemma_next_char_is(s, '\n', 0, n);
    assert(s.subrange(0, n) =~= a);
    lemma_lines_shifted(s, n + 1, b);
}

proof fn lemma_next_char_is(s: Seq<char>, c: char, i: int, e: int)
    requires
        0 <= i <= e <= s.len(),
        forall|k: int| i <= k < e ==> s[k] != c,
        e < s.len() ==> s[e] == c,
    ensures
        next_char(s, c, i) == e,
    decreases e - i,
{
    if i < e {
        lemma_next_char_is(s, c, i + 1, e);
    }
}

proof fn lemma_next_char_shifted(s: Seq<char>, c: char, at: int, t: Seq<char>, i: int)
    requires
        0 <= at,
        s.len() == at + t.len(),
        0 <= i,
        forall|k: int| 0 <= k < t.len() ==> #[trigger] t[k] == s[at + k],
    ensures
        next_char(s, c, at + i) == at + next_char(t, c, i),
    decreases t.len() - i,
{
    if i < t.len() {
        assert(t[i] == s[at + i]);
        if t[i] != c {
            lemma_next_char_shifted(s, c, at, t, i + 1);
        }
    }
}

proof fn lemma_lines_shifted(s: Seq<char>, at: int, t: Seq<char>)
    requires
        0 <= at,
        s.len() == at + t.len(),
        forall|k: int| 0 <= k < t.len() ==> #[trigger] t[k] == s[at + k],
    ensures
        lines_from(s, at) == lines_from(t, 0),
{
    lemma_lines_shifted_from(s, at, t, 0);
}

proof fn lemma_lines_shifted_from(s: Seq<char>, at: int, t: Seq<char>, i: int)
    requires
        0 <= at,
        0 <= i,
        s.len() == at + t.len(),
        forall|k: int| 0 <= k < t.len() ==> #[trigger] t[k] == s[at + k],
    ensures
        lines_from(s, at + i) == lines_from(t, i),
    decreases t.len() - i,
{
    if i < t.len() {
        let e = next_char(t, '\n', i);
        lemma_next_char(t, '\n', i);
        lemma_next_char_shifted(s, '\n', at, t, i);
        if e >= t.len() {
            assert(s.subrange(at + i, s.len() as int) =~= t.subrange(i, t.len() as int));
        } else {
            assert(s.subrange(at + i, at + e) =~= t.subrange(i, e));
            lemma_lines_shifted_from(s, at, t, e + 1);
        }
    }
}

} // verus!
