//! Planning which file goes where.

use crate::archive;
use crate::grouping;
use crate::paths;
use crate::sets::TextSet;
use crate::sorting;
use crate::text;
use vstd::prelude::*;

verus! {

/// One file to move from a subfolder into the flattened folder.
#[derive(Debug, PartialEq)]
pub struct PlannedMove {
    pub from: String,
    pub to: String,
    /// The file's name had to change to avoid a clash.
    pub renamed: bool,
}

impl Clone for PlannedMove {
    fn clone(&self) -> (r: Self)
        ensures
            r == *self,
    {
        PlannedMove { from: self.from.clone(), to: self.to.clone(), renamed: self.renamed }
    }
}

/// Stem and suffix of a file name, where the suffix is what a clash number
/// goes in front of: a split-archive volume suffix (`.part1.rar`, `.r00`),
/// otherwise the last extension (`.jpg`), or nothing.
pub open spec fn name_split(name: Seq<char>) -> (Seq<char>, Seq<char>) {
    match archive::archive_split(name) {
        Some(s) => s,
        None => match paths::extension_dot(name) {
            Some(dot) => (name.take(dot), name.skip(dot)),
            None => (name, seq![]),
        },
    }
}

/// Stem and suffix make up the name.
pub proof fn law_name_split_is_lossless(name: Seq<char>)
    ensures
        name_split(name).0 + name_split(name).1 == name,
{
    archive::law_split_is_lossless(name);
    text::lemma_last_position(name, '.');
    if archive::archive_split(name) is None {
        match paths::extension_dot(name) {
            Some(dot) => assert(name.take(dot) + name.skip(dot) =~= name),
            None => assert(name + Seq::<char>::empty() =~= name),
        }
    }
}

/// Computes [`name_split`].
pub fn split_name(name: &str) -> (r: (String, String))
    ensures
        (r.0@, r.1@) == name_split(name@),
{
    if let Some((stem, suffix)) = archive::split_archive_name(name) {
        return (stem.to_owned(), suffix.to_owned());
    }
    let cs = text::to_chars(name);
    match text::rfind(cs.as_slice(), '.') {
        Some(dot) if dot > 0 => {
            let stem = name.substring_char(0, dot);
            let suffix = name.substring_char(dot, cs.len());
            assert(stem@ =~= name@.take(dot as int));
            assert(suffix@ =~= name@.skip(dot as int));
            (stem.to_owned(), suffix.to_owned())
        },
        _ => (name.to_owned(), String::new()),
    }
}

/// The name with the clash number `n`; the first keeps its name.
pub open spec fn numbered_name(name: Seq<char>, n: nat) -> Seq<char> {
    let (stem, suffix) = name_split(name);
    if n == 1 {
        stem + suffix
    } else {
        stem + archive::clash_mark(n) + suffix
    }
}

/// Computes [`numbered_name`] from the name's stem and suffix.
fn number_name(n: u32, stem: &str, suffix: &str, Ghost(name): Ghost<Seq<char>>) -> (r: String)
    requires
        (stem@, suffix@) == name_split(name),
    ensures
        r@ == numbered_name(name, n as nat),
{
    if n == 1 {
        stem.to_owned().concat(suffix)
    } else {
        let r = stem.to_owned().concat(" (").concat(text::decimal_text(n as u128).as_str()).concat(
            ")",
        ).concat(suffix);
        assert(r@ =~= stem@ + archive::clash_mark(n as nat) + suffix@);
        r
    }
}

/// The folder a file lies in, `root` if it has none.
pub open spec fn folder_of(root: Seq<char>, path: Seq<char>) -> Seq<char> {
    match paths::parent(path) {
        Some(p) => p,
        None => root,
    }
}

/// What the files that are renamed together share besides their folder: the
/// stem of a split-archive set, or the name of a single file.
pub open spec fn unit_name(path: Seq<char>) -> Seq<char> {
    let name = paths::name_or_empty(path);
    match archive::archive_split(name) {
        Some((stem, suffix)) => "archive:"@ + text::lowercase(stem),
        None => "file:"@ + name,
    }
}

/// What the files that are renamed together share: folder and name.
pub open spec fn unit_key(root: Seq<char>, path: Seq<char>) -> (Seq<char>, Seq<char>) {
    (paths::path_id(folder_of(root, path)), unit_name(path))
}

/// Orders the keys: by folder, then by name.
pub open spec fn unit_le(a: (Seq<char>, Seq<char>), b: (Seq<char>, Seq<char>)) -> bool {
    text::text_le(a.0, b.0) && (a.0 == b.0 ==> text::text_le(a.1, b.1))
}

/// The ranking of the files by key.
pub open spec fn unit_ranking(root: Seq<char>, files: Seq<Seq<char>>) -> spec_fn(
    int,
    int,
) -> bool {
    |i: int, j: int| unit_le(unit_key(root, files[i]), unit_key(root, files[j]))
}

/// The positions of the files that are renamed together, in the order in which
/// they are planned.
pub open spec fn units(root: Seq<char>, files: Seq<Seq<char>>) -> Seq<Seq<int>> {
    grouping::classes(files.len(), unit_ranking(root, files))
}

/// The name of a file with the clash number `n`.
pub open spec fn new_name(path: Seq<char>, n: nat) -> Seq<char> {
    numbered_name(paths::name_or_empty(path), n)
}

/// Whether the clash number `n` is free for all files of the unit.
pub open spec fn is_free(
    files: Seq<Seq<char>>,
    unit: Seq<int>,
    taken: Set<Seq<char>>,
    n: nat,
) -> bool {
    forall|a: int|
        0 <= a < unit.len() ==> !taken.contains(
            text::lowercase(new_name(files[#[trigger] unit[a]], n)),
        )
}

/// The first clash number from `n` on that is free for the unit.
pub open spec fn first_free(
    files: Seq<Seq<char>>,
    unit: Seq<int>,
    taken: Set<Seq<char>>,
    n: nat,
) -> Option<nat>
    decreases u32::MAX + 1 - n,
{
    if n > u32::MAX {
        None
    } else if is_free(files, unit, taken, n) {
        Some(n)
    } else {
        first_free(files, unit, taken, n + 1)
    }
}

/// A planned move: the file's position, its clash number and its new name.
pub type Step = (int, nat, Seq<char>);

/// The moves of one unit.
pub open spec fn unit_steps(files: Seq<Seq<char>>, unit: Seq<int>, n: nat) -> Seq<Step> {
    unit.map_values(|p: int| (p, n, new_name(files[p], n)))
}

/// The names taken once the first `k` moves of the unit are planned.
pub open spec fn taken_after(
    files: Seq<Seq<char>>,
    unit: Seq<int>,
    taken: Set<Seq<char>>,
    n: nat,
    k: nat,
) -> Set<Seq<char>>
    decreases k,
{
    if k == 0 {
        taken
    } else {
        taken_after(files, unit, taken, n, (k - 1) as nat).insert(
            text::lowercase(new_name(files[unit[k - 1]], n)),
        )
    }
}

/// The moves of the first `k` units and the names taken then; nothing if no
/// clash number is free for one of them.
pub open spec fn planned_units(
    files: Seq<Seq<char>>,
    list: Seq<Seq<int>>,
    taken: Set<Seq<char>>,
    k: nat,
) -> Option<(Seq<Step>, Set<Seq<char>>)>
    decreases k,
{
    if k == 0 {
        Some((seq![], taken))
    } else {
        match planned_units(files, list, taken, (k - 1) as nat) {
            None => None,
            Some((steps, now)) => {
                let unit = list[k - 1];
                match first_free(files, unit, now, 1) {
                    None => None,
                    Some(n) => Some(
                        (
                            steps + unit_steps(files, unit, n),
                            taken_after(files, unit, now, n, unit.len()),
                        ),
                    ),
                }
            },
        }
    }
}

/// The names in the folder, in lower case.
pub open spec fn lower_names(names: Seq<Seq<char>>) -> Set<Seq<char>> {
    names.map_values(|n: Seq<char>| text::lowercase(n)).to_set()
}

/// The plan for flattening `root`, which holds `names`, with `files` in its
/// subfolders.
pub open spec fn plan_steps(
    root: Seq<char>,
    names: Seq<Seq<char>>,
    files: Seq<Seq<char>>,
) -> Option<Seq<Step>> {
    let list = units(root, files);
    match planned_units(files, list, lower_names(names), list.len()) {
        Some((steps, now)) => Some(steps),
        None => None,
    }
}

/// A move is carried out as planned: from the file, to its new name in `root`.
pub open spec fn is_step(
    root: Seq<char>,
    files: Seq<Seq<char>>,
    m: PlannedMove,
    step: Step,
) -> bool {
    &&& m.from@ == files[step.0]
    &&& m.to@ == paths::join(root, step.2)
    &&& m.renamed == (step.1 > 1)
}

/// The moves are carried out as planned.
pub open spec fn are_steps(
    root: Seq<char>,
    files: Seq<Seq<char>>,
    moves: Seq<PlannedMove>,
    steps: Seq<Step>,
) -> bool {
    &&& moves.len() == steps.len()
    &&& forall|i: int|
        0 <= i < moves.len() ==> is_step(root, files, #[trigger] moves[i], steps[i])
}

proof fn lemma_unit_ranking(root: Seq<char>, files: Seq<Seq<char>>)
    ensures
        sorting::ranks(files.len() as int, unit_ranking(root, files)),
        forall|i: int, j: int|
            grouping::alike(unit_ranking(root, files), i, j) ==> unit_key(
                root,
                #[trigger] files[i],
            ) == unit_key(root, #[trigger] files[j]),
{
    let le = unit_ranking(root, files);
    let n = files.len() as int;
    assert forall|i: int| 0 <= i < n implies #[trigger] le(i, i) by {
        let x = unit_key(root, files[i]);
        text::lemma_text_le_order(x.0, x.0, x.0);
        text::lemma_text_le_order(x.1, x.1, x.1);
    }
    assert forall|i: int, j: int| 0 <= i < n && 0 <= j < n implies #[trigger] le(i, j)
        || le(j, i) by {
        let x = unit_key(root, files[i]);
        let y = unit_key(root, files[j]);
        text::lemma_text_le_order(x.0, y.0, y.0);
        text::lemma_text_le_order(x.1, y.1, y.1);
    }
    assert forall|i: int, j: int, k: int|
        0 <= i < n && 0 <= j < n && 0 <= k < n && #[trigger] le(i, j) && #[trigger] le(
            j,
            k,
        ) implies le(i, k) by {
        let x = unit_key(root, files[i]);
        let y = unit_key(root, files[j]);
        let z = unit_key(root, files[k]);
        text::lemma_text_le_order(x.0, y.0, z.0);
        text::lemma_text_le_order(x.1, y.1, z.1);
        if x.0 == z.0 {
            text::lemma_text_le_order(y.0, x.0, y.0);
        }
    }
    assert forall|i: int, j: int| grouping::alike(le, i, j) implies unit_key(
        root,
        #[trigger] files[i],
    ) == unit_key(root, #[trigger] files[j]) by {
        let x = unit_key(root, files[i]);
        let y = unit_key(root, files[j]);
        text::lemma_text_le_order(x.0, y.0, y.0);
        text::lemma_text_le_order(x.1, y.1, y.1);
    }
}

/// Computes [`unit_key`].
fn key_of(root: &str, path: &str) -> (r: (String, String))
    ensures
        (r.0@, r.1@) == unit_key(root@, path@),
{
    let folder = match paths::parent_of(path) {
        Some(p) => p,
        None => root.to_owned(),
    };
    let name = paths::file_name_or_empty(path);
    let own: String = match archive::split_archive_name(name.as_str()) {
        Some((stem, _)) => "archive:".to_owned().concat(text::to_lowercase(stem).as_str()),
        None => "file:".to_owned().concat(name.as_str()),
    };
    (paths::id_of(folder.as_str()), own)
}

/// Groups the files that are renamed together.
fn find_units(root: &str, files: &Vec<String>) -> (r: Vec<Vec<usize>>)
    ensures
        grouping::position_lists(r@) == units(root@, text::texts(files@)),
        forall|g: int, a: int|
            0 <= g < r@.len() && 0 <= a < r@[g]@.len() ==> #[trigger] r@[g]@[a] < files@.len(),
{
    let n: usize = files.len();
    let ghost names = text::texts(files@);
    let mut keys: Vec<(String, String)> = Vec::new();
    let mut i: usize = 0;
    while i < n
        invariant
            i <= n,
            n == files@.len(),
            names == text::texts(files@),
            keys@.len() == i,
            forall|k: int|
                0 <= k < i ==> ((#[trigger] keys@[k]).0@, keys@[k].1@) == unit_key(
                    root@,
                    names[k],
                ),
        decreases n - i,
    {
        assert(names[i as int] == files@[i as int]@);
        keys.push(key_of(root, files[i].as_str()));
        i = i + 1;
    }
    let ghost le = unit_ranking(root@, names);
    proof {
        lemma_unit_ranking(root@, names);
    }
    let not_above = |i: usize, j: usize| -> (b: bool)
        requires
            i < n,
            j < n,
            n == files@.len(),
            n == keys@.len(),
            forall|k: int|
                0 <= k < n ==> ((#[trigger] keys@[k]).0@, keys@[k].1@) == unit_key(
                    root@,
                    text::texts(files@)[k],
                ),
        ensures
            b == unit_le(
                unit_key(root@, text::texts(files@)[i as int]),
                unit_key(root@, text::texts(files@)[j as int]),
            ),
        {
            let x: &(String, String) = &keys[i];
            let y: &(String, String) = &keys[j];
            assert((keys@[i as int].0@, keys@[i as int].1@) == unit_key(
                root@,
                text::texts(files@)[i as int],
            ));
            assert((keys@[j as int].0@, keys@[j as int].1@) == unit_key(
                root@,
                text::texts(files@)[j as int],
            ));
            text::is_text_le(x.0.as_str(), y.0.as_str()) && (!text::text_eq(
                x.0.as_str(),
                y.0.as_str(),
            ) || text::is_text_le(x.1.as_str(), y.1.as_str()))
        };
    grouping::group_positions(n, not_above, Ghost(le))
}

/// The stem and suffix of each of the unit's files.
fn split_names(files: &Vec<String>, unit: &Vec<usize>) -> (r: Vec<(String, String)>)
    requires
        forall|a: int| 0 <= a < unit@.len() ==> #[trigger] unit@[a] < files@.len(),
    ensures
        r@.len() == unit@.len(),
        forall|a: int|
            0 <= a < r@.len() ==> ((#[trigger] r@[a]).0@, r@[a].1@) == name_split(
                paths::name_or_empty(text::texts(files@)[unit@[a] as int]),
            ),
{
    let mut out: Vec<(String, String)> = Vec::new();
    let mut a: usize = 0;
    while a < unit.len()
        invariant
            a <= unit@.len(),
            forall|a: int| 0 <= a < unit@.len() ==> #[trigger] unit@[a] < files@.len(),
            out@.len() == a,
            forall|b: int|
                0 <= b < a ==> ((#[trigger] out@[b]).0@, out@[b].1@) == name_split(
                    paths::name_or_empty(text::texts(files@)[unit@[b] as int]),
                ),
        decreases unit@.len() - a,
    {
        let p: usize = unit[a];
        let name = paths::file_name_or_empty(files[p].as_str());
        out.push(split_name(name.as_str()));
        a = a + 1;
    }
    out
}

/// Finds the first clash number that is free for the unit.
fn find_free(
    files: &Vec<String>,
    unit: &Vec<usize>,
    names: &Vec<(String, String)>,
    taken: &TextSet,
) -> (r: Option<u32>)
    requires
        names@.len() == unit@.len(),
        forall|a: int|
            0 <= a < names@.len() ==> ((#[trigger] names@[a]).0@, names@[a].1@) == name_split(
                paths::name_or_empty(text::texts(files@)[unit@[a] as int]),
            ),
    ensures
        match r {
            Some(n) => first_free(
                text::texts(files@),
                sorting::positions(unit@),
                taken@,
                1,
            ) == Some(n as nat),
            None => first_free(
                text::texts(files@),
                sorting::positions(unit@),
                taken@,
                1,
            ) is None,
        },
{
    let ghost paths_ = text::texts(files@);
    let ghost pos = sorting::positions(unit@);
    let mut n: u32 = 1;
    loop
        invariant
            paths_ == text::texts(files@),
            pos == sorting::positions(unit@),
            names@.len() == unit@.len(),
            forall|a: int|
                0 <= a < names@.len() ==> ((#[trigger] names@[a]).0@, names@[a].1@) == name_split(
                    paths::name_or_empty(paths_[unit@[a] as int]),
                ),
            first_free(paths_, pos, taken@, 1) == first_free(paths_, pos, taken@, n as nat),
        decreases u32::MAX - n,
    {
        let mut free: bool = true;
        let mut a: usize = 0;
        while a < names.len() && free
            invariant
                a <= names@.len(),
                paths_ == text::texts(files@),
                pos == sorting::positions(unit@),
                names@.len() == unit@.len(),
                forall|a: int|
                    0 <= a < names@.len() ==> ((#[trigger] names@[a]).0@, names@[a].1@)
                        == name_split(paths::name_or_empty(paths_[unit@[a] as int])),
                free ==> forall|b: int|
                    0 <= b < a ==> !taken@.contains(
                        text::lowercase(new_name(paths_[#[trigger] pos[b]], n as nat)),
                    ),
                !free ==> !is_free(paths_, pos, taken@, n as nat),
            decreases names@.len() - a,
        {
            let ghost name = paths::name_or_empty(paths_[unit@[a as int] as int]);
            assert((names@[a as int].0@, names@[a as int].1@) == name_split(name));
            let new = number_name(n, names[a].0.as_str(), names[a].1.as_str(), Ghost(name));
            assert(pos[a as int] == unit@[a as int]);
            if taken.contains(text::to_lowercase(new.as_str()).as_str()) {
                free = false;
            }
            a = a + 1;
        }
        if free {
            assert(is_free(paths_, pos, taken@, n as nat));
            return Some(n);
        }
        if n == 0xffff_ffff {
            assert(first_free(paths_, pos, taken@, (n + 1) as nat) is None);
            return None;
        }
        n = n + 1;
    }
}

/// The names in the folder, in lower case.
fn take_names(names: &Vec<String>) -> (r: TextSet)
    ensures
        r@ == lower_names(text::texts(names@)),
{
    let ghost all = text::texts(names@);
    let mut taken = TextSet::new();
    let mut i: usize = 0;
    assert(lower_names(all.take(0)) =~= Set::<Seq<char>>::empty());
    while i < names.len()
        invariant
            i <= names@.len(),
            all == text::texts(names@),
            taken@ == lower_names(all.take(i as int)),
        decreases names@.len() - i,
    {
        let lower = text::to_lowercase(names[i].as_str());
        proof {
            let f = |n: Seq<char>| text::lowercase(n);
            let before = all.take(i as int).map_values(f);
            let after = all.take(i + 1).map_values(f);
            assert(after =~= before.push(lower@));
            assert forall|t: Seq<char>| after.to_set().contains(t) == before.to_set().insert(
                lower@,
            ).contains(t) by {
                if before.contains(t) {
                    let k = choose|k: int| 0 <= k < before.len() && before[k] == t;
                    assert(after[k] == t);
                }
                if t == lower@ {
                    assert(after[before.len() as int] == t);
                }
                if after.contains(t) && t != lower@ {
                    let k = choose|k: int| 0 <= k < after.len() && after[k] == t;
                    assert(before[k] == t);
                }
            }
            assert(after.to_set() =~= before.to_set().insert(lower@));
        }
        taken.insert(lower);
        i = i + 1;
    }
    assert(all.take(all.len() as int) =~= all);
    taken
}

/// Plans moving every file in `root`'s subfolders (at any depth) directly
/// into `root`. Clashing names get a Windows-style ` (2)`, ` (3)`, ... before
/// the extension, compared case-insensitively like NTFS, and never reuse the
/// name of anything already in `root` (files *or* folders). Volumes of a
/// split archive from the same folder are renamed together with the same
/// number, so the set still opens after the move.
///
/// `names` are the names of everything in `root`, `files` the paths of the
/// files in its subfolders. Nothing if no number is free for some file.
pub fn plan_flatten(root: &str, names: &Vec<String>, files: &Vec<String>) -> (r: Option<
    Vec<PlannedMove>,
>)
    ensures
        match r {
            Some(moves) => {
                let steps = plan_steps(root@, text::texts(names@), text::texts(files@));
                steps is Some && are_steps(root@, text::texts(files@), moves@, steps->0)
            },
            None => plan_steps(root@, text::texts(names@), text::texts(files@)) is None,
        },
{
    let ghost paths_ = text::texts(files@);
    let ghost before = lower_names(text::texts(names@));
    let mut taken = take_names(names);
    let list = find_units(root, files);
    let ghost all = units(root@, paths_);
    let mut moves: Vec<PlannedMove> = Vec::new();
    let ghost mut steps: Seq<Step> = seq![];
    let mut g: usize = 0;
    while g < list.len()
        invariant
            g <= list@.len(),
            paths_ == text::texts(files@),
            grouping::position_lists(list@) == all,
            forall|g: int, a: int|
                0 <= g < list@.len() && 0 <= a < list@[g]@.len() ==> #[trigger] list@[g]@[a]
                    < files@.len(),
            planned_units(paths_, all, before, g as nat) == Some((steps, taken@)),
            are_steps(root@, paths_, moves@, steps),
            all == units(root@, paths_),
            before == lower_names(text::texts(names@)),
        decreases list@.len() - g,
    {
        let unit: &Vec<usize> = &list[g];
        let ghost pos = sorting::positions(unit@);
        assert(all[g as int] == pos);
        assert forall|a: int| 0 <= a < unit@.len() implies #[trigger] unit@[a] < files@.len() by {
            assert(list@[g as int]@[a] < files@.len());
        }
        let parts = split_names(files, unit);
        let found = find_free(files, unit, &parts, &taken);
        let n: u32 = match found {
            Some(n) => n,
            None => {
                proof {
                    lemma_planned_none(paths_, all, before, (g + 1) as nat, all.len());
                }
                return None;
            },
        };
        let ghost start = taken@;
        let ghost own = unit_steps(paths_, pos, n as nat);
        let ghost old_steps = steps;
        assert(old_steps + own.take(0) =~= old_steps);
        let mut a: usize = 0;
        while a < unit.len()
            invariant
                a <= unit@.len(),
                paths_ == text::texts(files@),
                pos == sorting::positions(unit@),
                own == unit_steps(paths_, pos, n as nat),
                parts@.len() == unit@.len(),
                forall|b: int| 0 <= b < unit@.len() ==> #[trigger] unit@[b] < files@.len(),
                forall|b: int|
                    0 <= b < parts@.len() ==> ((#[trigger] parts@[b]).0@, parts@[b].1@)
                        == name_split(paths::name_or_empty(paths_[unit@[b] as int])),
                taken@ == taken_after(paths_, pos, start, n as nat, a as nat),
                are_steps(root@, paths_, moves@, old_steps + own.take(a as int)),
            decreases unit@.len() - a,
        {
            let p: usize = unit[a];
            let ghost name = paths::name_or_empty(paths_[p as int]);
            assert((parts@[a as int].0@, parts@[a as int].1@) == name_split(name));
            let new = number_name(n, parts[a].0.as_str(), parts[a].1.as_str(), Ghost(name));
            assert(pos[a as int] == p);
            taken.insert(text::to_lowercase(new.as_str()));
            let m = PlannedMove {
                from: files[p].clone(),
                to: paths::join_paths(root, new.as_str()),
                renamed: n > 1,
            };
            let ghost done = moves@;
            moves.push(m);
            proof {
                let now = old_steps + own.take(a + 1);
                assert(now =~= (old_steps + own.take(a as int)).push(own[a as int]));
                assert(is_step(root@, paths_, m, own[a as int]));
                assert forall|i: int| 0 <= i < moves@.len() implies is_step(
                    root@,
                    paths_,
                    #[trigger] moves@[i],
                    now[i],
                ) by {
                    if i < done.len() {
                        assert(is_step(
                            root@,
                            paths_,
                            done[i],
                            (old_steps + own.take(a as int))[i],
                        ));
                    }
                }
            }
            a = a + 1;
        }
        proof {
            assert(own.take(own.len() as int) =~= own);
            steps = old_steps + own;
        }
        g = g + 1;
    }
    Some(moves)
}

proof fn lemma_planned_none(
    files: Seq<Seq<char>>,
    list: Seq<Seq<int>>,
    taken: Set<Seq<char>>,
    j: nat,
    k: nat,
)
    requires
        j <= k,
        planned_units(files, list, taken, j) is None,
    ensures
        planned_units(files, list, taken, k) is None,
    decreases k,
{
    if j < k {
        lemma_planned_none(files, list, taken, j, (k - 1) as nat);
    }
}

proof fn lemma_first_free(
    files: Seq<Seq<char>>,
    unit: Seq<int>,
    taken: Set<Seq<char>>,
    n: nat,
)
    ensures
        first_free(files, unit, taken, n) matches Some(m) ==> n <= m <= u32::MAX && is_free(
            files,
            unit,
            taken,
            m,
        ) && forall|k: nat| n <= k < m ==> !#[trigger] is_free(files, unit, taken, k),
    decreases u32::MAX + 1 - n,
{
    if n <= u32::MAX && !is_free(files, unit, taken, n) {
        lemma_first_free(files, unit, taken, n + 1);
    }
}

proof fn lemma_taken_after(
    files: Seq<Seq<char>>,
    unit: Seq<int>,
    taken: Set<Seq<char>>,
    n: nat,
    k: nat,
)
    requires
        k <= unit.len(),
    ensures
        taken.subset_of(taken_after(files, unit, taken, n, k)),
        forall|a: int|
            0 <= a < k ==> taken_after(files, unit, taken, n, k).contains(
                text::lowercase(new_name(files[#[trigger] unit[a]], n)),
            ),
    decreases k,
{
    if k > 0 {
        lemma_taken_after(files, unit, taken, n, (k - 1) as nat);
    }
}

/// What holds of the moves of the first `k` units.
spec fn plan_holds(
    root: Seq<char>,
    files: Seq<Seq<char>>,
    taken: Set<Seq<char>>,
    steps: Seq<Step>,
    now: Set<Seq<char>>,
) -> bool {
    &&& taken.subset_of(now)
    &&& forall|i: int|
        0 <= i < steps.len() ==> {
            &&& 0 <= (#[trigger] steps[i]).0 < files.len()
            &&& steps[i].1 >= 1
            &&& steps[i].2 == new_name(files[steps[i].0], steps[i].1)
            &&& !taken.contains(text::lowercase(steps[i].2))
            &&& now.contains(text::lowercase(steps[i].2))
        }
    &&& forall|i: int, j: int|
        0 <= i < j < steps.len() ==> if unit_key(root, files[(#[trigger] steps[i]).0]) == unit_key(
            root,
            files[(#[trigger] steps[j]).0],
        ) {
            steps[i].1 == steps[j].1
        } else {
            text::lowercase(steps[i].2) != text::lowercase(steps[j].2)
        }
}

proof fn lemma_plan_holds(
    root: Seq<char>,
    files: Seq<Seq<char>>,
    taken: Set<Seq<char>>,
    k: nat,
)
    requires
        k <= units(root, files).len(),
        planned_units(files, units(root, files), taken, k) is Some,
    ensures
        ({
            let (steps, now) = planned_units(files, units(root, files), taken, k)->0;
            &&& plan_holds(root, files, taken, steps, now)
            &&& forall|i: int|
                0 <= i < steps.len() ==> exists|g: int|
                    0 <= g < k && (#[trigger] units(root, files)[g]).contains(
                        (#[trigger] steps[i]).0,
                    )
        }),
    decreases k,
{
    let list = units(root, files);
    let le = unit_ranking(root, files);
    let (steps, now) = planned_units(files, list, taken, k)->0;
    lemma_unit_ranking(root, files);
    grouping::lemma_classes(files.len(), le);
    if k > 0 {
        lemma_plan_holds(root, files, taken, (k - 1) as nat);
        let (before, mid) = planned_units(files, list, taken, (k - 1) as nat)->0;
        let unit = list[k - 1];
        let n = first_free(files, unit, mid, 1)->0;
        let own = unit_steps(files, unit, n);
        lemma_first_free(files, unit, mid, 1);
        lemma_taken_after(files, unit, mid, n, unit.len());
        assert(steps == before + own);
        let m = before.len() as int;
        assert forall|i: int| 0 <= i < steps.len() implies exists|g: int|
            0 <= g < k && (#[trigger] list[g]).contains((#[trigger] steps[i]).0) by {
            if i < m {
                assert(steps[i] == before[i]);
                let g = choose|g: int| 0 <= g < k - 1 && (#[trigger] list[g]).contains(before[i].0);
                assert(list[g].contains(steps[i].0));
            } else {
                assert(steps[i].0 == unit[i - m]);
                assert(list[k - 1].contains(steps[i].0));
            }
        }
        assert forall|i: int| 0 <= i < steps.len() implies {
            &&& 0 <= (#[trigger] steps[i]).0 < files.len()
            &&& steps[i].1 >= 1
            &&& steps[i].2 == new_name(files[steps[i].0], steps[i].1)
            &&& !taken.contains(text::lowercase(steps[i].2))
            &&& now.contains(text::lowercase(steps[i].2))
        } by {
            if i < m {
                assert(steps[i] == before[i]);
            } else {
                assert(steps[i] == own[i - m]);
                assert(0 <= list[k - 1][i - m] < files.len());
                assert(steps[i].0 == unit[i - m]);
            }
        }
        assert forall|i: int, j: int| 0 <= i < j < steps.len() implies if unit_key(
            root,
            files[(#[trigger] steps[i]).0],
        ) == unit_key(root, files[(#[trigger] steps[j]).0]) {
            steps[i].1 == steps[j].1
        } else {
            text::lowercase(steps[i].2) != text::lowercase(steps[j].2)
        } by {
            if j < m {
                assert(steps[i] == before[i] && steps[j] == before[j]);
            } else if i >= m {
                assert(steps[i] == own[i - m] && steps[j] == own[j - m]);
                let p = list[k - 1][i - m];
                let q = list[k - 1][j - m];
                assert(grouping::alike(le, p, q));
                assert(unit_key(root, files[p]) == unit_key(root, files[q]));
            } else {
                assert(steps[i] == before[i] && steps[j] == own[j - m]);
                let g = choose|g: int| 0 <= g < k - 1 && (#[trigger] list[g]).contains(before[i].0);
                let a = choose|a: int| 0 <= a < list[g].len() && list[g][a] == before[i].0;
                let b = j - m;
                assert(le(list[g][a], list[k - 1][b]) && !le(list[k - 1][b], list[g][a]));
                assert(steps[j].0 == unit[b]);
                assert(mid.contains(text::lowercase(before[i].2)));
                assert(!mid.contains(text::lowercase(new_name(files[unit[b]], n))));
                if unit_key(root, files[steps[i].0]) == unit_key(root, files[steps[j].0]) {
                    let x = unit_key(root, files[steps[i].0]);
                    text::lemma_text_le_order(x.0, x.0, x.0);
                    text::lemma_text_le_order(x.1, x.1, x.1);
                    assert(le(list[k - 1][b], list[g][a]));
                }
            }
        }
    }
}

proof fn lemma_step_positions(
    files: Seq<Seq<char>>,
    list: Seq<Seq<int>>,
    taken: Set<Seq<char>>,
    k: nat,
)
    requires
        k <= list.len(),
        planned_units(files, list, taken, k) is Some,
    ensures
        ({
            let (steps, _) = planned_units(files, list, taken, k)->0;
            steps.map_values(|s: Step| s.0) == grouping::joined(list.take(k as int))
        }),
    decreases k,
{
    let f = |s: Step| s.0;
    let (steps, _) = planned_units(files, list, taken, k)->0;
    if k == 0 {
        assert(list.take(0) =~= seq![]);
        assert(steps.map_values(f) =~= seq![]);
    } else {
        lemma_step_positions(files, list, taken, (k - 1) as nat);
        let (before, mid) = planned_units(files, list, taken, (k - 1) as nat)->0;
        let unit = list[k - 1];
        let own = unit_steps(files, unit, first_free(files, unit, mid, 1)->0);
        assert(steps == before + own);
        assert(own.map_values(f) =~= unit);
        assert(steps.map_values(f) =~= before.map_values(f) + unit);
        assert(list.take(k as int).drop_last() =~= list.take(k - 1));
        assert(list.take(k as int).last() == unit);
    }
}

/// Whether one of the moves is that of the file at `p`.
pub open spec fn is_planned(steps: Seq<Step>, p: int) -> bool {
    exists|i: int| 0 <= i < steps.len() && (#[trigger] steps[i]).0 == p
}

/// Every file is planned, and once: there are as many moves as files, and each
/// file's position occurs in exactly one of them.
pub proof fn law_every_file_is_planned_once(
    root: Seq<char>,
    names: Seq<Seq<char>>,
    files: Seq<Seq<char>>,
)
    requires
        plan_steps(root, names, files) is Some,
    ensures
        ({
            let steps = plan_steps(root, names, files)->0;
            &&& steps.len() == files.len()
            &&& forall|p: int| 0 <= p < files.len() ==> #[trigger] is_planned(steps, p)
            &&& forall|i: int, j: int|
                0 <= i < j < steps.len() ==> (#[trigger] steps[i]).0 != (#[trigger] steps[j]).0
        }),
{
    let le = unit_ranking(root, files);
    let list = units(root, files);
    let steps = plan_steps(root, names, files)->0;
    let all = steps.map_values(|s: Step| s.0);
    lemma_unit_ranking(root, files);
    grouping::lemma_joined_classes(files.len(), le);
    lemma_step_positions(files, list, lower_names(names), list.len());
    assert(list.take(list.len() as int) =~= list);
    assert(all == grouping::joined(list));
    assert(steps.len() == all.len());
    assert forall|p: int| 0 <= p < files.len() implies #[trigger] is_planned(steps, p) by {
        assert(grouping::joined(list).contains(p));
        let i = choose|i: int| 0 <= i < all.len() && all[i] == p;
        assert(steps[i].0 == p);
    }
    assert forall|i: int, j: int| 0 <= i < j < steps.len() implies (#[trigger] steps[i]).0 != (
    #[trigger] steps[j]).0 by {
        assert(all[i] == steps[i].0 && all[j] == steps[j].0);
    }
}

/// A clash number leaves a name a name.
proof fn lemma_numbered_name_is_plain(name: Seq<char>, n: nat)
    requires
        paths::is_plain_name(name),
    ensures
        paths::is_plain_name(numbered_name(name, n)),
{
    let (stem, suffix) = name_split(name);
    let new = numbered_name(name, n);
    law_name_split_is_lossless(name);
    if n != 1 {
        let mark = archive::clash_mark(n);
        reveal_strlit(" (");
        reveal_strlit(")");
        text::lemma_decimal_digits(n);
        assert(mark[1] == '(');
        assert forall|i: int| 0 <= i < new.len() implies !paths::is_separator(
            #[trigger] new[i],
        ) by {
            let m = stem.len() as int;
            let e = m + mark.len();
            if i < m {
                assert(new[i] == name[i]);
            } else if i < e {
                assert(new[i] == mark[i - m]);
                if 2 <= i - m < mark.len() - 1 {
                    assert(mark[i - m] == text::decimal(n)[i - m - 2]);
                    assert(text::is_digit(text::decimal(n)[i - m - 2]));
                }
            } else {
                assert(new[i] == name[i - mark.len()]);
            }
        }
        assert(new.len() >= mark.len());
        assert(mark.len() >= 4);
    }
}

/// Every file lands directly in the root: the folder of its new place is the
/// root, and its name there is the planned one. The root must be one that names
/// can be put behind, and the file must have a name that doesn't read like more
/// than one, nor like a drive.
pub proof fn law_files_land_in_the_root(
    root: Seq<char>,
    names: Seq<Seq<char>>,
    files: Seq<Seq<char>>,
    i: int,
)
    requires
        plan_steps(root, names, files) is Some,
        0 <= i < plan_steps(root, names, files)->0.len(),
        paths::holds_names(root),
        ({
            let step = plan_steps(root, names, files)->0[i];
            &&& paths::file_name(files[step.0]) matches Some(name)
            &&& paths::is_plain_name(name)
            &&& !paths::has_drive(step.2)
        }),
    ensures
        ({
            let step = plan_steps(root, names, files)->0[i];
            let to = paths::join(root, step.2);
            &&& paths::parent(to) matches Some(folder)
            &&& paths::same_path(folder, root)
            &&& paths::file_name(to) == Some(step.2)
        }),
{
    let steps = plan_steps(root, names, files)->0;
    let step = steps[i];
    lemma_plan_holds(root, files, lower_names(names), units(root, files).len());
    assert(step.2 == new_name(files[step.0], step.1));
    lemma_numbered_name_is_plain(paths::file_name(files[step.0])->0, step.1);
    paths::lemma_join_name(root, step.2);
    paths::lemma_join_parent(root, step.2);
}

/// A planned name is new: whatever its case, no file or folder already in the
/// root has it, and no file that is not renamed together with this one gets
/// it.
pub proof fn law_planned_names_are_free(
    root: Seq<char>,
    names: Seq<Seq<char>>,
    files: Seq<Seq<char>>,
    i: int,
    j: int,
)
    requires
        plan_steps(root, names, files) is Some,
        0 <= i < plan_steps(root, names, files)->0.len(),
        0 <= j < plan_steps(root, names, files)->0.len(),
        i != j,
    ensures
        ({
            let steps = plan_steps(root, names, files)->0;
            &&& forall|k: int|
                0 <= k < names.len() ==> text::lowercase(#[trigger] names[k]) != text::lowercase(
                    steps[i].2,
                )
            &&& unit_key(root, files[steps[i].0]) != unit_key(root, files[steps[j].0])
                ==> text::lowercase(steps[i].2) != text::lowercase(steps[j].2)
        }),
{
    let taken = lower_names(names);
    lemma_plan_holds(root, files, taken, units(root, files).len());
    let steps = plan_steps(root, names, files)->0;
    assert forall|k: int| 0 <= k < names.len() implies text::lowercase(#[trigger] names[k])
        != text::lowercase(steps[i].2) by {
        let f = |n: Seq<char>| text::lowercase(n);
        assert(names.map_values(f)[k] == text::lowercase(names[k]));
        assert(taken.contains(text::lowercase(names[k])));
        assert(!taken.contains(text::lowercase(steps[i].2)));
    }
    if i < j {
        assert(0 <= steps[i].0 < files.len() && 0 <= steps[j].0 < files.len());
    } else {
        assert(0 <= steps[j].0 < files.len() && 0 <= steps[i].0 < files.len());
    }
}

/// The volumes of one split archive in one folder get the same number.
pub proof fn law_sets_are_renamed_together(
    root: Seq<char>,
    names: Seq<Seq<char>>,
    files: Seq<Seq<char>>,
    i: int,
    j: int,
)
    requires
        plan_steps(root, names, files) is Some,
        0 <= i < plan_steps(root, names, files)->0.len(),
        0 <= j < plan_steps(root, names, files)->0.len(),
        ({
            let steps = plan_steps(root, names, files)->0;
            unit_key(root, files[steps[i].0]) == unit_key(root, files[steps[j].0])
        }),
    ensures
        ({
            let steps = plan_steps(root, names, files)->0;
            steps[i].1 == steps[j].1
        }),
{
    let taken = lower_names(names);
    lemma_plan_holds(root, files, taken, units(root, files).len());
    let steps = plan_steps(root, names, files)->0;
    if i < j {
        assert(0 <= steps[i].0 < files.len() && 0 <= steps[j].0 < files.len());
    } else if j < i {
        assert(0 <= steps[j].0 < files.len() && 0 <= steps[i].0 < files.len());
    }
}

/// Volumes of one set stay apart: if two files that are renamed together have
/// names that differ by more than the case of `A` to `Z`, so do their new
/// names, and if these are ASCII, they differ by more than case.
pub proof fn law_volumes_stay_apart(
    root: Seq<char>,
    names: Seq<Seq<char>>,
    files: Seq<Seq<char>>,
    i: int,
    j: int,
)
    requires
        plan_steps(root, names, files) is Some,
        0 <= i < plan_steps(root, names, files)->0.len(),
        0 <= j < plan_steps(root, names, files)->0.len(),
        ({
            let steps = plan_steps(root, names, files)->0;
            let (a, b) = (files[steps[i].0], files[steps[j].0]);
            &&& unit_key(root, a) == unit_key(root, b)
            &&& text::ascii_lower(paths::name_or_empty(a)) != text::ascii_lower(
                paths::name_or_empty(b),
            )
        }),
    ensures
        ({
            let steps = plan_steps(root, names, files)->0;
            &&& text::ascii_lower(steps[i].2) != text::ascii_lower(steps[j].2)
            &&& text::is_ascii_text(steps[i].2) && text::is_ascii_text(steps[j].2)
                ==> text::lowercase(steps[i].2) != text::lowercase(steps[j].2)
        }),
{
    let taken = lower_names(names);
    let steps = plan_steps(root, names, files)->0;
    lemma_plan_holds(root, files, taken, units(root, files).len());
    law_sets_are_renamed_together(root, names, files, i, j);
    assert(steps[i].2 == new_name(files[steps[i].0], steps[i].1));
    assert(steps[j].2 == new_name(files[steps[j].0], steps[j].1));
    lemma_unit_is_set(files[steps[i].0], files[steps[j].0]);
    lemma_numbers_keep_apart(
        paths::name_or_empty(files[steps[i].0]),
        paths::name_or_empty(files[steps[j].0]),
        steps[i].1,
    );
}

/// Files that are renamed together under different names are volumes.
proof fn lemma_unit_is_set(a: Seq<char>, b: Seq<char>)
    requires
        unit_name(a) == unit_name(b),
        paths::name_or_empty(a) != paths::name_or_empty(b),
    ensures
        archive::archive_split(paths::name_or_empty(a)) is Some,
        archive::archive_split(paths::name_or_empty(b)) is Some,
{
    reveal_strlit("archive:");
    reveal_strlit("file:");
    let x = paths::name_or_empty(a);
    let y = paths::name_or_empty(b);
    if archive::archive_split(x) is None && archive::archive_split(y) is None {
        assert("file:"@.len() == 5);
        assert(("file:"@ + x).skip(5) =~= x && ("file:"@ + y).skip(5) =~= y);
        assert(unit_name(a) == "file:"@ + x && unit_name(b) == "file:"@ + y);
    } else if archive::archive_split(x) is None || archive::archive_split(y) is None {
        assert("archive:"@[0] == 'a' && "file:"@[0] == 'f');
        if archive::archive_split(x) is None {
            assert(unit_name(a)[0] == 'f' && unit_name(b)[0] == 'a');
        } else {
            assert(unit_name(a)[0] == 'a' && unit_name(b)[0] == 'f');
        }
    }
}

proof fn lemma_numbers_keep_apart(x: Seq<char>, y: Seq<char>, n: nat)
    requires
        archive::archive_split(x) is Some,
        archive::archive_split(y) is Some,
        text::ascii_lower(x) != text::ascii_lower(y),
    ensures
        text::ascii_lower(numbered_name(x, n)) != text::ascii_lower(numbered_name(y, n)),
{
    law_name_split_is_lossless(x);
    law_name_split_is_lossless(y);
    if n != 1 && text::ascii_lower(numbered_name(x, n)) == text::ascii_lower(
        numbered_name(y, n),
    ) {
        archive::law_clash_mark_keeps_the_set(x, n);
        archive::law_clash_mark_keeps_the_set(y, n);
        let m = archive::clash_mark(n);
        let (a, p) = name_split(x);
        let (b, q) = name_split(y);
        let u = numbered_name(x, n);
        let v = numbered_name(y, n);
        // Both are split at the same place.
        assert(u.len() == text::ascii_lower(u).len() && v.len() == text::ascii_lower(v).len());
        archive::lemma_suffix_start(text::ascii_lower(u));
        let at = archive::suffix_start(text::ascii_lower(u))->0;
        assert(u.take(at) == a + m && v.take(at) == b + m);
        assert((a + m).len() == at && (b + m).len() == at);
        assert(a.len() == b.len());
        assert forall|k: int| 0 <= k < x.len() implies #[trigger] text::ascii_lower(x)[k]
            == text::ascii_lower(y)[k] by {
            let at = if k < a.len() {
                k
            } else {
                k + m.len()
            };
            assert(x == a + p && y == b + q);
            assert(x[k] == u[at] && y[k] == v[at]);
            assert(text::ascii_lower(u)[at] == text::ascii_lower(v)[at]);
        }
        assert(text::ascii_lower(x) =~= text::ascii_lower(y));
    }
}

/// What a clash number does to a name: it goes in brackets before the last
/// extension, or before the volume suffix of an archive, or to the end of a name
/// without either.
pub proof fn law_clash_numbers_go_before_the_suffix(
    name: Seq<char>,
    stem: Seq<char>,
    ext: Seq<char>,
    n: nat,
)
    requires
        n > 1,
    ensures
        archive::archive_split(name) matches Some((s, suffix)) ==> numbered_name(name, n) == s
            + (" ("@ + text::decimal(n) + ")"@) + suffix,
        archive::archive_split(name) is None && name == stem + seq!['.'] + ext && stem.len() > 0
            && !ext.contains('.') ==> numbered_name(name, n) == stem + (" ("@ + text::decimal(n)
            + ")"@) + (seq!['.'] + ext),
        archive::archive_split(name) is None && !name.contains('.') ==> numbered_name(name, n)
            == name + (" ("@ + text::decimal(n) + ")"@),
{
    if archive::archive_split(name) is None {
        text::lemma_last_position(name, '.');
        if name == stem + seq!['.'] + ext && stem.len() > 0 && !ext.contains('.') {
            let k = stem.len() as int;
            assert(name[k] == '.');
            assert forall|i: int| k < i < name.len() implies name[i] != '.' by {
                assert(name[i] == ext[i - k - 1]);
                assert(ext.contains(ext[i - k - 1]));
            }
            text::lemma_last_position_is(name, '.', k);
            assert(name.take(k) =~= stem);
            assert(name.skip(k) =~= seq!['.'] + ext);
        }
        if !name.contains('.') {
            if let Some(p) = text::last_position(name, '.') {
                assert(name.contains(name[p]));
            }
            let m = archive::clash_mark(n);
            assert(name + m + Seq::<char>::empty() =~= name + m);
        }
    }
}

/// Any other number than the first changes the name.
pub proof fn law_numbers_change_the_name(name: Seq<char>, n: nat)
    ensures
        numbered_name(name, n) == name <==> n == 1,
{
    law_name_split_is_lossless(name);
    if n != 1 {
        reveal_strlit(" (");
        let (stem, suffix) = name_split(name);
        assert(numbered_name(name, n).len() > (stem + suffix).len());
    }
}

/// Which files are renamed together: those of one folder that are volumes of
/// archives with one stem, in whatever case, or that have one and the same name.
pub proof fn law_sets_are_told_by_folder_and_stem(root: Seq<char>, a: Seq<char>, b: Seq<char>)
    ensures
        ({
            let x = paths::name_or_empty(a);
            let y = paths::name_or_empty(b);
            let f = match paths::parent(a) {
                Some(p) => p,
                None => root,
            };
            let g = match paths::parent(b) {
                Some(p) => p,
                None => root,
            };
            unit_key(root, a) == unit_key(root, b) <==> paths::path_id(f) == paths::path_id(g) && (
            match (archive::archive_split(x), archive::archive_split(y)) {
                (Some((s, _)), Some((t, _))) => text::lowercase(s) == text::lowercase(t),
                (None, None) => x == y,
                _ => false,
            })
        }),
{
    reveal_strlit("archive:");
    reveal_strlit("file:");
    let x = paths::name_or_empty(a);
    let y = paths::name_or_empty(b);
    match (archive::archive_split(x), archive::archive_split(y)) {
        (Some((s, _)), Some((t, _))) => {
            let u = text::lowercase(s);
            let v = text::lowercase(t);
            assert(("archive:"@ + u).skip(8) =~= u && ("archive:"@ + v).skip(8) =~= v);
        },
        (None, None) => {
            assert(("file:"@ + x).skip(5) =~= x && ("file:"@ + y).skip(5) =~= y);
        },
        (Some((s, _)), None) => {
            assert(unit_name(a)[0] == 'a' && unit_name(b)[0] == 'f');
        },
        (None, Some((t, _))) => {
            assert(unit_name(a)[0] == 'f' && unit_name(b)[0] == 'a');
        },
    }
}

/// What a move of the plan is: from the file, to its new name in the root, and
/// marked as renamed exactly if that is another name.
pub proof fn law_moves_go_to_the_root(
    root: Seq<char>,
    names: Seq<Seq<char>>,
    files: Seq<Seq<char>>,
    moves: Seq<PlannedMove>,
    i: int,
)
    requires
        plan_steps(root, names, files) is Some,
        are_steps(root, files, moves, plan_steps(root, names, files)->0),
        0 <= i < moves.len(),
    ensures
        ({
            let step = plan_steps(root, names, files)->0[i];
            &&& 0 <= step.0 < files.len()
            &&& moves[i].from@ == files[step.0]
            &&& moves[i].to@ == paths::join(root, step.2)
            &&& moves[i].renamed == (step.2 != paths::name_or_empty(files[step.0]))
        }),
{
    let steps = plan_steps(root, names, files)->0;
    lemma_plan_holds(root, files, lower_names(names), units(root, files).len());
    assert(is_step(root, files, moves[i], steps[i]));
    assert(steps[i].2 == new_name(files[steps[i].0], steps[i].1));
    law_numbers_change_the_name(paths::name_or_empty(files[steps[i].0]), steps[i].1);
}

/// Whether the name stands in the root already, or one of the moves brings it
/// there, in whatever case.
pub open spec fn is_used(names: Seq<Seq<char>>, steps: Seq<Step>, name: Seq<char>) -> bool {
    ||| exists|k: int|
        0 <= k < names.len() && text::lowercase(#[trigger] names[k]) == text::lowercase(name)
    ||| exists|j: int|
        0 <= j < steps.len() && text::lowercase((#[trigger] steps[j]).2) == text::lowercase(name)
}

/// Whether some file of the unit would get a name that is used.
spec fn is_blocked(
    files: Seq<Seq<char>>,
    unit: Seq<int>,
    names: Seq<Seq<char>>,
    steps: Seq<Step>,
    k: nat,
) -> bool {
    exists|a: int| 0 <= a < unit.len() && is_used(names, steps, new_name(files[#[trigger] unit[a]], k))
}

proof fn lemma_used_grows(names: Seq<Seq<char>>, before: Seq<Step>, own: Seq<Step>, name: Seq<char>)
    requires
        is_used(names, before, name),
    ensures
        is_used(names, before + own, name),
{
    if exists|j: int|
        0 <= j < before.len() && text::lowercase((#[trigger] before[j]).2) == text::lowercase(
            name,
        ) {
        let j = choose|j: int|
            0 <= j < before.len() && text::lowercase((#[trigger] before[j]).2) == text::lowercase(
                name,
            );
        assert((before + own)[j] == before[j]);
    }
}

proof fn lemma_taken_are_used(
    files: Seq<Seq<char>>,
    unit: Seq<int>,
    names: Seq<Seq<char>>,
    before: Seq<Step>,
    taken: Set<Seq<char>>,
    n: nat,
    k: nat,
    name: Seq<char>,
)
    requires
        k <= unit.len(),
        taken_after(files, unit, taken, n, k).contains(text::lowercase(name)),
        taken.contains(text::lowercase(name)) ==> is_used(names, before, name),
    ensures
        is_used(names, before + unit_steps(files, unit, n), name),
    decreases k,
{
    let own = unit_steps(files, unit, n);
    if k == 0 {
        lemma_used_grows(names, before, own, name);
    } else if text::lowercase(name) == text::lowercase(new_name(files[unit[k - 1]], n)) {
        let j = before.len() + k - 1;
        assert((before + own)[j] == own[k - 1]);
        assert((before + own)[j].2 == new_name(files[unit[k - 1]], n));
    } else {
        lemma_taken_are_used(files, unit, names, before, taken, n, (k - 1) as nat, name);
    }
}

proof fn lemma_now_are_used(
    files: Seq<Seq<char>>,
    list: Seq<Seq<int>>,
    names: Seq<Seq<char>>,
    k: nat,
    name: Seq<char>,
)
    requires
        k <= list.len(),
        planned_units(files, list, lower_names(names), k) is Some,
        ({
            let (_, now) = planned_units(files, list, lower_names(names), k)->0;
            now.contains(text::lowercase(name))
        }),
    ensures
        ({
            let (steps, _) = planned_units(files, list, lower_names(names), k)->0;
            is_used(names, steps, name)
        }),
    decreases k,
{
    let taken = lower_names(names);
    if k == 0 {
        let lowered = names.map_values(|n: Seq<char>| text::lowercase(n));
        let i = choose|i: int| 0 <= i < lowered.len() && lowered[i] == text::lowercase(name);
        assert(text::lowercase(names[i]) == text::lowercase(name));
    } else {
        let (before, mid) = planned_units(files, list, taken, (k - 1) as nat)->0;
        let unit = list[k - 1];
        let n = first_free(files, unit, mid, 1)->0;
        if mid.contains(text::lowercase(name)) {
            lemma_now_are_used(files, list, names, (k - 1) as nat, name);
        }
        lemma_taken_are_used(files, unit, names, before, mid, n, unit.len(), name);
    }
}

proof fn lemma_smaller_numbers_are_blocked(
    files: Seq<Seq<char>>,
    list: Seq<Seq<int>>,
    names: Seq<Seq<char>>,
    k: nat,
    i: int,
    m: nat,
) -> (g: int)
    requires
        k <= list.len(),
        planned_units(files, list, lower_names(names), k) is Some,
        ({
            let (steps, _) = planned_units(files, list, lower_names(names), k)->0;
            0 <= i < steps.len() && 1 <= m < steps[i].1
        }),
    ensures
        ({
            let (steps, _) = planned_units(files, list, lower_names(names), k)->0;
            &&& 0 <= g < k
            &&& list[g].contains(steps[i].0)
            &&& is_blocked(files, list[g], names, steps, m)
        }),
    decreases k,
{
    let taken = lower_names(names);
    let (steps, now) = planned_units(files, list, taken, k)->0;
    let (before, mid) = planned_units(files, list, taken, (k - 1) as nat)->0;
    let unit = list[k - 1];
    let n = first_free(files, unit, mid, 1)->0;
    let own = unit_steps(files, unit, n);
    if i < before.len() {
        let g = lemma_smaller_numbers_are_blocked(files, list, names, (k - 1) as nat, i, m);
        assert(is_blocked(files, list[g], names, before, m));
        let a = choose|a: int|
            0 <= a < list[g].len() && is_used(
                names,
                before,
                new_name(files[#[trigger] list[g][a]], m),
            );
        lemma_used_grows(names, before, own, new_name(files[list[g][a]], m));
        assert(is_used(names, steps, new_name(files[list[g][a]], m)));
        g
    } else {
        lemma_first_free(files, unit, mid, 1);
        assert(steps[i] == own[i - before.len()]);
        assert(!is_free(files, unit, mid, m));
        let a = choose|a: int|
            0 <= a < unit.len() && mid.contains(
                text::lowercase(new_name(files[#[trigger] unit[a]], m)),
            );
        lemma_now_are_used(files, list, names, (k - 1) as nat, new_name(files[unit[a]], m));
        lemma_used_grows(names, before, own, new_name(files[unit[a]], m));
        assert(is_used(names, steps, new_name(files[unit[a]], m)));
        assert(unit[i - before.len()] == steps[i].0);
        assert(list[k - 1].contains(steps[i].0));
        k - 1
    }
}

/// Numbers are as small as can be: a file gets a number only if with each smaller
/// one some file that is renamed together with it would get a name that stands in
/// the root or that another file gets, in whatever case. So a file whose name
/// clashes with nothing keeps it.
pub proof fn law_numbers_are_the_smallest(
    root: Seq<char>,
    names: Seq<Seq<char>>,
    files: Seq<Seq<char>>,
    i: int,
    m: nat,
) -> (p: int)
    requires
        plan_steps(root, names, files) is Some,
        0 <= i < plan_steps(root, names, files)->0.len(),
        1 <= m < plan_steps(root, names, files)->0[i].1,
    ensures
        ({
            let steps = plan_steps(root, names, files)->0;
            &&& 0 <= p < files.len()
            &&& unit_key(root, files[p]) == unit_key(root, files[steps[i].0])
            &&& is_used(names, steps, numbered_name(paths::name_or_empty(files[p]), m))
        }),
{
    let le = unit_ranking(root, files);
    let list = units(root, files);
    let steps = plan_steps(root, names, files)->0;
    lemma_unit_ranking(root, files);
    grouping::lemma_classes(files.len(), le);
    let g = lemma_smaller_numbers_are_blocked(files, list, names, list.len(), i, m);
    let a = choose|a: int|
        0 <= a < list[g].len() && is_used(names, steps, new_name(files[#[trigger] list[g][a]], m));
    let b = choose|b: int| 0 <= b < list[g].len() && list[g][b] == steps[i].0;
    assert(grouping::alike(le, list[g][a], list[g][b]));
    assert(0 <= list[g][a] < files.len());
    list[g][a]
}

/// Where a file keeps its name in the plan, it keeps it as it is.
pub proof fn law_first_number_keeps_the_name(name: Seq<char>)
    ensures
        numbered_name(name, 1) == name,
{
    law_name_split_is_lossless(name);
}

} // verus!
