//! The grid of results.

use crate::model::{DupeGroup, Timestamp};
use crate::paths;
use crate::selection;
use crate::text;
use crate::view_cache;
use vstd::prelude::*;
use vstd::slice::slice_subrange;

verus! {

/// A cell of the grid.
#[derive(Debug, PartialEq)]
pub struct GridEntry {
    pub path: String,
    pub file_name: String,
    pub size: u64,
    pub created: Timestamp,
    pub modified: Timestamp,
    pub hash: [u8; 32],
    pub is_original: bool,
}

/// A row of up to `columns` cells belonging to a single duplicate group. Groups
/// never share a row (a short trailing row is padded rather than filled with
/// the next group's files), so a thick divider drawn above a group-start row
/// always spans the full row cleanly.
#[derive(Debug, PartialEq)]
pub struct GridRow {
    pub entries: Vec<GridEntry>,
    pub is_group_start: bool,
}

/// Whether this is the cell of file `k` of the group.
pub open spec fn is_cell(e: GridEntry, group: DupeGroup, k: int) -> bool {
    let f = group.files@[k];
    &&& e.path == f.path
    &&& e.file_name@ == paths::name_or_empty(f.path@)
    &&& e.size == f.size
    &&& e.created == f.created
    &&& e.modified == f.modified
    &&& e.hash == group.hash
    &&& e.is_original == (k == 0)
}

/// Whether this is a row of a group: the files from `start` on, as many as fit,
/// the first row of the group if `start` is `first`.
pub open spec fn is_row(
    row: GridRow,
    group: DupeGroup,
    start: int,
    first: int,
    columns: int,
) -> bool {
    let left = group.files@.len() - start;
    &&& row.entries@.len() == (if left <= columns {
        left
    } else {
        columns
    })
    &&& forall|k: int|
        0 <= k < row.entries@.len() ==> is_cell(#[trigger] row.entries@[k], group, start + k)
    &&& row.is_group_start == (start == first)
}

/// Whether the rows are those of a group's files from `start` on, filled one
/// after the other.
pub open spec fn are_rows_from(
    rows: Seq<GridRow>,
    group: DupeGroup,
    start: int,
    first: int,
    columns: int,
) -> bool
    decreases rows.len(),
{
    if start >= group.files@.len() {
        rows.len() == 0
    } else {
        &&& rows.len() > 0
        &&& is_row(rows[0], group, start, first, columns)
        &&& are_rows_from(rows.skip(1), group, start + columns, first, columns)
    }
}

/// Whether the rows are those of the groups, one group after the other, the
/// files of each from `first` on.
pub open spec fn are_grid_rows(
    rows: Seq<GridRow>,
    groups: Seq<DupeGroup>,
    first: int,
    columns: int,
) -> bool
    decreases groups.len(),
{
    if groups.len() == 0 {
        rows.len() == 0
    } else {
        exists|n: int|
            0 <= n <= rows.len() && are_rows_from(
                #[trigger] rows.skip(n),
                groups.last(),
                first,
                first,
                columns,
            ) && are_grid_rows(rows.take(n), groups.drop_last(), first, columns)
    }
}

fn make_row(group: &DupeGroup, start: usize, first: usize, columns: usize) -> (r: GridRow)
    requires
        start < group.files@.len(),
        columns > 0,
    ensures
        is_row(r, *group, start as int, first as int, columns as int),
{
    let left: usize = group.files.len() - start;
    let n: usize = if left <= columns {
        left
    } else {
        columns
    };
    let mut entries: Vec<GridEntry> = Vec::new();
    let mut k: usize = 0;
    assert(group.files.len() <= usize::MAX);
    while k < n
        invariant
            k <= n,
            start + n <= group.files@.len(),
            group.files@.len() <= usize::MAX,
            entries@.len() == k,
            forall|a: int| 0 <= a < k ==> is_cell(#[trigger] entries@[a], *group, start + a),
        decreases n - k,
    {
        let f = &group.files[start + k];
        entries.push(
            GridEntry {
                path: f.path.clone(),
                file_name: paths::file_name_or_empty(f.path.as_str()),
                size: f.size,
                created: f.created,
                modified: f.modified,
                hash: group.hash,
                is_original: start + k == 0,
            },
        );
        k = k + 1;
    }
    GridRow { entries, is_group_start: start == first }
}

fn push_group(rows: &mut Vec<GridRow>, group: &DupeGroup, first: usize, columns: usize)
    requires
        columns > 0,
    ensures
        final(rows)@.len() >= old(rows)@.len(),
        final(rows)@.take(old(rows)@.len() as int) == old(rows)@,
        are_rows_from(
            final(rows)@.skip(old(rows)@.len() as int),
            *group,
            first as int,
            first as int,
            columns as int,
        ),
{
    let ghost before = rows@;
    let ghost c = columns as int;
    let ghost f = first as int;
    let mut start: usize = first;
    let ghost mut at = first as int;
    assert(rows@.skip(before.len() as int) =~= seq![]);
    assert forall|rest: Seq<GridRow>| #[trigger]
        are_rows_from(rest, *group, f, f, c) implies are_rows_from(
        rows@.skip(before.len() as int) + rest,
        *group,
        f,
        f,
        c,
    ) by {
        assert(rows@.skip(before.len() as int) + rest =~= rest);
    }
    while start < group.files.len()
        invariant
            columns > 0,
            c == columns,
            f == first,
            start == at || (start >= group.files@.len() && at >= group.files@.len()),
            rows@.len() >= before.len(),
            rows@.take(before.len() as int) =~= before,
            forall|rest: Seq<GridRow>| #[trigger]
                are_rows_from(rest, *group, at, f, c) ==> are_rows_from(
                    rows@.skip(before.len() as int) + rest,
                    *group,
                    f,
                    f,
                    c,
                ),
        decreases group.files@.len() - start,
    {
        let row = make_row(group, start, first, columns);
        let ghost own = rows@.skip(before.len() as int);
        rows.push(row);
        let ghost now = rows@.skip(before.len() as int);
        assert(now =~= own.push(row));
        assert forall|rest: Seq<GridRow>| #[trigger]
            are_rows_from(rest, *group, at + c, f, c) implies are_rows_from(
            now + rest,
            *group,
            f,
            f,
            c,
        ) by {
            let longer = seq![row] + rest;
            assert(longer.skip(1) =~= rest);
            assert(are_rows_from(longer, *group, at, f, c));
            assert(own + longer =~= now + rest);
        }
        proof {
            at = at + c;
        }
        start = if group.files.len() - start > columns {
            start + columns
        } else {
            group.files.len()
        };
    }
    proof {
        let none = Seq::<GridRow>::empty();
        assert(are_rows_from(none, *group, at, f, c));
        assert(rows@.skip(before.len() as int) + none =~= rows@.skip(before.len() as int));
    }
}

/// The rows of the grid: those of the groups that pass the name filter, their
/// originals left out with `only_dup`.
pub fn build_rows(groups: &[DupeGroup], name_filter: bool, only_dup: bool, columns: usize) -> (r:
    Vec<GridRow>)
    requires
        name_filter ==> view_cache::have_originals(groups@),
        columns > 0,
    ensures
        are_grid_rows(
            r@,
            if name_filter {
                selection::copy_named(groups@)
            } else {
                groups@
            },
            if only_dup {
                1
            } else {
                0
            },
            columns as int,
        ),
{
    let first: usize = if only_dup {
        1
    } else {
        0
    };
    let shown = selection::filter_by_name_pattern(groups, name_filter);
    let ghost all = selection::targets(shown@);
    let mut rows: Vec<GridRow> = Vec::new();
    let mut g: usize = 0;
    while g < shown.len()
        invariant
            g <= shown@.len(),
            columns > 0,
            all == selection::targets(shown@),
            are_grid_rows(rows@, all.take(g as int), first as int, columns as int),
        decreases shown@.len() - g,
    {
        assert(all.take(g + 1).drop_last() =~= all.take(g as int));
        assert(all.take(g + 1).last() == *shown@[g as int]);
        let ghost n = rows@.len() as int;
        let ghost before = rows@;
        push_group(&mut rows, shown[g], first, columns);
        assert(rows@.take(n) == before);
        assert(are_rows_from(
            rows@.skip(n),
            all.take(g + 1).last(),
            first as int,
            first as int,
            columns as int,
        ));
        g = g + 1;
    }
    assert(all.take(all.len() as int) =~= all);
    rows
}

/// The name of a file as it is shown under its picture, shortened to
/// `max_chars` characters.
pub open spec fn shortened(s: Seq<char>, max_chars: nat) -> Seq<char> {
    if s.len() <= max_chars {
        s
    } else {
        s.take(
            if max_chars > 0 {
                max_chars - 1
            } else {
                0
            },
        ) + "…"@
    }
}

/// Computes [`shortened`].
pub fn truncate(s: &str, max_chars: usize) -> (r: String)
    ensures
        r@ == shortened(s@, max_chars as nat),
{
    let chars = text::to_chars(s);
    if chars.len() <= max_chars {
        s.to_owned()
    } else {
        let n: usize = if max_chars > 0 {
            max_chars - 1
        } else {
            0
        };
        let head: &[char] = slice_subrange(chars.as_slice(), 0, n);
        assert(head@ =~= s@.take(n as int));
        text::from_chars(head).concat("…")
    }
}

/// What kind of file a file name stands for.
#[derive(Clone, Copy, Debug, PartialEq, Eq, Structural)]
pub enum FileKind {
    Movie,
    Music,
    Pdf,
    Archive,
    Code,
    Image,
    Other,
}

/// The kind of file that an extension stands for.
pub open spec fn kind_of(e: Seq<char>) -> FileKind {
    if e == "mp4"@ || e == "mkv"@ || e == "avi"@ || e == "mov"@ || e == "webm"@ {
        FileKind::Movie
    } else if e == "mp3"@ || e == "wav"@ || e == "flac"@ || e == "ogg"@ || e == "m4a"@ {
        FileKind::Music
    } else if e == "pdf"@ {
        FileKind::Pdf
    } else if e == "zip"@ || e == "rar"@ || e == "7z"@ || e == "tar"@ || e == "gz"@ {
        FileKind::Archive
    } else if e == "rs"@ || e == "py"@ || e == "js"@ || e == "ts"@ || e == "c"@ || e == "cpp"@ || e
        == "java"@ || e == "go"@ || e == "html"@ || e == "css"@ {
        FileKind::Code
    } else if e == "jpg"@ || e == "jpeg"@ || e == "png"@ || e == "gif"@ || e == "bmp"@ || e
        == "webp"@ {
        FileKind::Image
    } else {
        FileKind::Other
    }
}

/// What follows the last dot of a file name, in lowercase.
pub open spec fn ending(file_name: Seq<char>) -> Seq<char> {
    match text::last_position(file_name, '.') {
        Some(i) => text::lowercase(file_name.skip(i + 1)),
        None => seq![],
    }
}

/// Tells the kind of a file by its name.
pub fn kind_of_name(file_name: &str) -> (r: FileKind)
    ensures
        r == kind_of(ending(file_name@)),
{
    let chars = text::to_chars(file_name);
    let ext: String = match text::rfind(chars.as_slice(), '.') {
        Some(i) => {
            let rest: &[char] = slice_subrange(chars.as_slice(), i + 1, chars.len());
            assert(rest@ =~= file_name@.skip(i + 1));
            text::to_lowercase(text::from_chars(rest).as_str())
        },
        None => {
            proof {
                reveal_strlit("");
            }
            "".to_owned()
        },
    };
    assert(ext@ =~= ending(file_name@));
    let e: &str = ext.as_str();
    if text::text_eq(e, "mp4") || text::text_eq(e, "mkv") || text::text_eq(e, "avi")
        || text::text_eq(e, "mov") || text::text_eq(e, "webm") {
        FileKind::Movie
    } else if text::text_eq(e, "mp3") || text::text_eq(e, "wav") || text::text_eq(e, "flac")
        || text::text_eq(e, "ogg") || text::text_eq(e, "m4a") {
        FileKind::Music
    } else if text::text_eq(e, "pdf") {
        FileKind::Pdf
    } else if text::text_eq(e, "zip") || text::text_eq(e, "rar") || text::text_eq(e, "7z")
        || text::text_eq(e, "tar") || text::text_eq(e, "gz") {
        FileKind::Archive
    } else if text::text_eq(e, "rs") || text::text_eq(e, "py") || text::text_eq(e, "js")
        || text::text_eq(e, "ts") || text::text_eq(e, "c") || text::text_eq(e, "cpp")
        || text::text_eq(e, "java") || text::text_eq(e, "go") || text::text_eq(e, "html")
        || text::text_eq(e, "css") {
        FileKind::Code
    } else if text::text_eq(e, "jpg") || text::text_eq(e, "jpeg") || text::text_eq(e, "png")
        || text::text_eq(e, "gif") || text::text_eq(e, "bmp") || text::text_eq(e, "webp") {
        FileKind::Image
    } else {
        FileKind::Other
    }
}

/// Where the files of a group stand in the grid: row by row from the first that is
/// shown, as many to a row as there are columns. A cell shows its file, marked as
/// the original if it is the first of the group, and a row begins a group if it is
/// the first of it.
pub proof fn law_files_fill_the_rows(
    rows: Seq<GridRow>,
    group: DupeGroup,
    start: int,
    first: int,
    columns: int,
    r: int,
    c: int,
)
    requires
        are_rows_from(rows, group, start, first, columns),
        0 <= first <= start,
        0 <= r,
        0 <= c < columns,
        start + r * columns + c < group.files@.len(),
    ensures
        r < rows.len(),
        c < rows[r].entries@.len(),
        rows[r].is_group_start == (start + r * columns == first),
        ({
            let k = start + r * columns + c;
            let e = rows[r].entries@[c];
            let f = group.files@[k];
            &&& e.path@ == f.path@
            &&& e.file_name@ == paths::name_or_empty(f.path@)
            &&& e.size == f.size
            &&& e.created == f.created
            &&& e.modified == f.modified
            &&& e.hash == group.hash
            &&& e.is_original == (k == 0)
        }),
    decreases r,
{
    assert(0 <= r * columns) by (nonlinear_arith)
        requires
            0 <= r,
            0 <= columns,
    ;
    if r == 0 {
        assert(r * columns == 0) by (nonlinear_arith)
            requires
                r == 0,
        ;
        assert(is_cell(rows[0].entries@[c], group, start + c));
    } else {
        assert(r * columns == (r - 1) * columns + columns) by (nonlinear_arith);
        law_files_fill_the_rows(rows.skip(1), group, start + columns, first, columns, r - 1, c);
        assert(rows.skip(1)[r - 1] == rows[r]);
    }
}

/// There is no row without a file, and none with more than there are columns.
pub proof fn law_rows_are_filled(
    rows: Seq<GridRow>,
    group: DupeGroup,
    start: int,
    first: int,
    columns: int,
    r: int,
)
    requires
        are_rows_from(rows, group, start, first, columns),
        0 <= start,
        0 < columns,
        0 <= r < rows.len(),
    ensures
        start + r * columns < group.files@.len(),
        0 < rows[r].entries@.len() <= columns,
        start + r * columns + rows[r].entries@.len() <= group.files@.len(),
    decreases r,
{
    if r == 0 {
        assert(r * columns == 0) by (nonlinear_arith)
            requires
                r == 0,
        ;
    } else {
        assert(r * columns == (r - 1) * columns + columns) by (nonlinear_arith);
        law_rows_are_filled(rows.skip(1), group, start + columns, first, columns, r - 1);
        assert(rows.skip(1)[r - 1] == rows[r]);
    }
}

/// A name is shown in full if it is no longer than allowed, and otherwise as far
/// as it goes with an ellipsis behind it.
pub proof fn law_long_names_are_cut(s: Seq<char>, n: nat)
    ensures
        s.len() <= n ==> shortened(s, n) == s,
        s.len() > n && n > 0 ==> shortened(s, n) == s.take(n - 1) + "…"@,
        s.len() > 0 && n == 0 ==> shortened(s, n) == "…"@,
{
    assert(s.take(0) + "…"@ =~= "…"@);
}

/// The kinds of files by what follows the last dot of their names, in whatever
/// case.
#[verifier::spinoff_prover]
#[verifier::rlimit(60)]
pub proof fn law_kinds_go_by_the_ending(e: Seq<char>, name: Seq<char>)
    ensures
        kind_of(e) is Movie <==> (e == "mp4"@ || e == "mkv"@ || e == "avi"@ || e == "mov"@ || e == "webm"@),
        kind_of(e) is Music <==> (e == "mp3"@ || e == "wav"@ || e == "flac"@ || e == "ogg"@ || e == "m4a"@),
        kind_of(e) is Pdf <==> (e == "pdf"@),
        kind_of(e) is Archive <==> (e == "zip"@ || e == "rar"@ || e == "7z"@ || e == "tar"@ || e == "gz"@),
        kind_of(e) is Code <==> (e == "rs"@ || e == "py"@ || e == "js"@ || e == "ts"@ || e == "c"@ || e == "cpp"@ || e == "java"@ || e == "go"@ || e == "html"@ || e == "css"@),
        kind_of(e) is Image <==> (e == "jpg"@ || e == "jpeg"@ || e == "png"@ || e == "gif"@ || e == "bmp"@ || e == "webp"@),
        !e.contains('.') ==> ending(name + seq!['.'] + e) == text::lowercase(e),
        !name.contains('.') ==> ending(name).len() == 0,
{
    reveal_strlit("mp4");
    reveal_strlit("mkv");
    reveal_strlit("avi");
    reveal_strlit("mov");
    reveal_strlit("webm");
    reveal_strlit("mp3");
    reveal_strlit("wav");
    reveal_strlit("flac");
    reveal_strlit("ogg");
    reveal_strlit("m4a");
    reveal_strlit("pdf");
    reveal_strlit("zip");
    reveal_strlit("rar");
    reveal_strlit("7z");
    reveal_strlit("tar");
    reveal_strlit("gz");
    reveal_strlit("rs");
    reveal_strlit("py");
    reveal_strlit("js");
    reveal_strlit("ts");
    reveal_strlit("c");
    reveal_strlit("cpp");
    reveal_strlit("java");
    reveal_strlit("go");
    reveal_strlit("html");
    reveal_strlit("css");
    reveal_strlit("jpg");
    reveal_strlit("jpeg");
    reveal_strlit("png");
    reveal_strlit("gif");
    reveal_strlit("bmp");
    reveal_strlit("webp");
    assert("mp4"@[0] == 'm' && "mp4"@[1] == 'p' && "mp4"@[2] == '4');
    assert("mkv"@[0] == 'm' && "mkv"@[1] == 'k' && "mkv"@[2] == 'v');
    assert("avi"@[0] == 'a' && "avi"@[1] == 'v' && "avi"@[2] == 'i');
    assert("mov"@[0] == 'm' && "mov"@[1] == 'o' && "mov"@[2] == 'v');
    assert("webm"@[0] == 'w' && "webm"@[1] == 'e' && "webm"@[2] == 'b' && "webm"@[3] == 'm');
    assert("mp3"@[0] == 'm' && "mp3"@[1] == 'p' && "mp3"@[2] == '3');
    assert("wav"@[0] == 'w' && "wav"@[1] == 'a' && "wav"@[2] == 'v');
    assert("flac"@[0] == 'f' && "flac"@[1] == 'l' && "flac"@[2] == 'a' && "flac"@[3] == 'c');
    assert("ogg"@[0] == 'o' && "ogg"@[1] == 'g' && "ogg"@[2] == 'g');
    assert("m4a"@[0] == 'm' && "m4a"@[1] == '4' && "m4a"@[2] == 'a');
    assert("pdf"@[0] == 'p' && "pdf"@[1] == 'd' && "pdf"@[2] == 'f');
    assert("zip"@[0] == 'z' && "zip"@[1] == 'i' && "zip"@[2] == 'p');
    assert("rar"@[0] == 'r' && "rar"@[1] == 'a' && "rar"@[2] == 'r');
    assert("7z"@[0] == '7' && "7z"@[1] == 'z');
    assert("tar"@[0] == 't' && "tar"@[1] == 'a' && "tar"@[2] == 'r');
    assert("gz"@[0] == 'g' && "gz"@[1] == 'z');
    assert("rs"@[0] == 'r' && "rs"@[1] == 's');
    assert("py"@[0] == 'p' && "py"@[1] == 'y');
    assert("js"@[0] == 'j' && "js"@[1] == 's');
    assert("ts"@[0] == 't' && "ts"@[1] == 's');
    assert("c"@[0] == 'c');
    assert("cpp"@[0] == 'c' && "cpp"@[1] == 'p' && "cpp"@[2] == 'p');
    assert("java"@[0] == 'j' && "java"@[1] == 'a' && "java"@[2] == 'v' && "java"@[3] == 'a');
    assert("go"@[0] == 'g' && "go"@[1] == 'o');
    assert("html"@[0] == 'h' && "html"@[1] == 't' && "html"@[2] == 'm' && "html"@[3] == 'l');
    assert("css"@[0] == 'c' && "css"@[1] == 's' && "css"@[2] == 's');
    assert("jpg"@[0] == 'j' && "jpg"@[1] == 'p' && "jpg"@[2] == 'g');
    assert("jpeg"@[0] == 'j' && "jpeg"@[1] == 'p' && "jpeg"@[2] == 'e' && "jpeg"@[3] == 'g');
    assert("png"@[0] == 'p' && "png"@[1] == 'n' && "png"@[2] == 'g');
    assert("gif"@[0] == 'g' && "gif"@[1] == 'i' && "gif"@[2] == 'f');
    assert("bmp"@[0] == 'b' && "bmp"@[1] == 'm' && "bmp"@[2] == 'p');
    assert("webp"@[0] == 'w' && "webp"@[1] == 'e' && "webp"@[2] == 'b' && "webp"@[3] == 'p');
    lemma_ending(e, name);
}

proof fn lemma_ending(e: Seq<char>, name: Seq<char>)
    ensures
        !e.contains('.') ==> ending(name + seq!['.'] + e) == text::lowercase(e),
        !name.contains('.') ==> ending(name).len() == 0,
{
    if !e.contains('.') {
        let all = name + seq!['.'] + e;
        let k = name.len() as int;
        assert(all[k] == '.');
        assert forall|i: int| k < i < all.len() implies all[i] != '.' by {
            assert(all[i] == e[i - k - 1]);
            assert(e.contains(e[i - k - 1]));
        }
        text::lemma_last_position_is(all, '.', k);
        assert(all.skip(k + 1) =~= e);
    }
    if !name.contains('.') {
        text::lemma_last_position(name, '.');
        if let Some(p) = text::last_position(name, '.') {
            assert(name.contains(name[p]));
        }
    }
}

/// The rows of the groups follow one another, and no row holds files of two groups.
pub proof fn law_groups_follow_one_another(
    rows: Seq<GridRow>,
    more: Seq<GridRow>,
    groups: Seq<DupeGroup>,
    group: DupeGroup,
    first: int,
    columns: int,
)
    ensures
        are_grid_rows(rows, Seq::<DupeGroup>::empty(), first, columns) <==> rows.len() == 0,
        are_grid_rows(rows, groups, first, columns) && are_rows_from(
            more,
            group,
            first,
            first,
            columns,
        ) ==> are_grid_rows(rows + more, groups.push(group), first, columns),
        are_grid_rows(rows, groups.push(group), first, columns) ==> exists|n: int|
            0 <= n <= rows.len() && are_grid_rows(#[trigger] rows.take(n), groups, first, columns)
                && are_rows_from(rows.skip(n), group, first, first, columns),
{
    let all = groups.push(group);
    assert(all.drop_last() =~= groups);
    assert(all.last() == group);
    let n = rows.len() as int;
    assert((rows + more).skip(n) =~= more);
    assert((rows + more).take(n) =~= rows);
    if are_grid_rows(rows, all, first, columns) {
        let m = choose|m: int|
            0 <= m <= rows.len() && are_rows_from(
                #[trigger] rows.skip(m),
                all.last(),
                first,
                first,
                columns,
            ) && are_grid_rows(rows.take(m), all.drop_last(), first, columns);
        assert(are_grid_rows(rows.take(m), groups, first, columns));
    }
}

} // verus!
