//! Sets of texts and of paths.

use crate::grouping;
use crate::paths;
use crate::sorting;
use crate::text;
use vstd::prelude::*;

verus! {

/// A set of texts, kept in order so that membership is found by halving.
#[derive(Debug)]
pub struct TextSet {
    items: Vec<String>,
}

/// Each text comes before those behind it and differs from them.
pub open spec fn ascending(s: Seq<Seq<char>>) -> bool {
    forall|a: int, b: int|
        0 <= a < b < s.len() ==> text::text_le(#[trigger] s[a], #[trigger] s[b]) && s[a] != s[b]
}

/// Whether `r` of the texts come before `t`, and they are the first.
pub open spec fn is_rank(s: Seq<Seq<char>>, t: Seq<char>, r: int) -> bool {
    &&& 0 <= r <= s.len()
    &&& forall|k: int| 0 <= k < r ==> text::text_le(#[trigger] s[k], t) && s[k] != t
    &&& forall|k: int| r <= k < s.len() ==> text::text_le(t, #[trigger] s[k])
}

/// How many of the texts come before `t`.
fn rank_in(items: &Vec<String>, t: &str) -> (r: usize)
    requires
        ascending(text::texts(items@)),
    ensures
        is_rank(text::texts(items@), t@, r as int),
{
    let ghost s = text::texts(items@);
    let mut lo: usize = 0;
    let mut hi: usize = items.len();
    while lo < hi
        invariant
            s == text::texts(items@),
            ascending(s),
            lo <= hi <= items@.len(),
            forall|k: int| 0 <= k < lo ==> text::text_le(#[trigger] s[k], t@) && s[k] != t@,
            forall|k: int| hi <= k < s.len() ==> text::text_le(t@, #[trigger] s[k]),
        decreases hi - lo,
    {
        let mid: usize = lo + (hi - lo) / 2;
        assert(s[mid as int] == items@[mid as int]@);
        if text::is_text_le(t, items[mid].as_str()) {
            assert forall|k: int| mid <= k < s.len() implies text::text_le(t@, #[trigger] s[k]) by {
                if k > mid {
                    assert(text::text_le(s[mid as int], s[k]));
                    text::lemma_text_le_order(t@, s[mid as int], s[k]);
                }
            }
            hi = mid;
        } else {
            assert forall|k: int| 0 <= k <= mid implies text::text_le(#[trigger] s[k], t@) && s[k]
                != t@ by {
                text::lemma_text_le_order(s[mid as int], t@, t@);
                if k < mid {
                    assert(text::text_le(s[k], s[mid as int]));
                    text::lemma_text_le_order(s[k], s[mid as int], t@);
                    if s[k] == t@ {
                        text::lemma_text_le_order(t@, s[mid as int], t@);
                    }
                }
            }
            lo = mid + 1;
        }
    }
    lo
}

impl View for TextSet {
    type V = Set<Seq<char>>;

    closed spec fn view(&self) -> Set<Seq<char>> {
        text::texts(self.items@).to_set()
    }
}

impl TextSet {
    /// The texts of the set, ascending.
    pub closed spec fn order(&self) -> Seq<Seq<char>> {
        text::texts(self.items@)
    }

    #[verifier::type_invariant]
    spec fn is_ordered(self) -> bool {
        ascending(text::texts(self.items@))
    }

    /// The empty set.
    pub fn new() -> (r: Self)
        ensures
            r@ == Set::<Seq<char>>::empty(),
            r.order().len() == 0,
    {
        let items: Vec<String> = Vec::new();
        assert(text::texts(items@).to_set() =~= Set::<Seq<char>>::empty());
        TextSet { items }
    }

    /// How many texts the set holds.
    pub fn len(&self) -> (r: usize)
        ensures
            r == self@.len(),
            r == self.order().len(),
            self@.finite(),
    {
        proof {
            use_type_invariant(self);
            let s = text::texts(self.items@);
            lemma_ascending_distinct(s);
            s.unique_seq_to_set();
        }
        self.items.len()
    }

    /// Whether the set is empty.
    pub fn is_empty(&self) -> (r: bool)
        ensures
            r == (self@ == Set::<Seq<char>>::empty()),
    {
        proof {
            let s = text::texts(self.items@);
            if s.len() > 0 {
                assert(s.to_set().contains(s[0]));
            } else {
                assert(s.to_set() =~= Set::<Seq<char>>::empty());
            }
        }
        self.items.len() == 0
    }

    /// The texts in order.
    pub fn texts(&self) -> (r: &Vec<String>)
        ensures
            text::texts(r@) == self.order(),
            ascending(text::texts(r@)),
            text::texts(r@).to_set() == self@,
    {
        proof {
            use_type_invariant(self);
        }
        &self.items
    }

    /// How many texts come before `t`.
    fn rank(&self, t: &str) -> (r: usize)
        ensures
            is_rank(text::texts(self.items@), t@, r as int),
    {
        proof {
            use_type_invariant(self);
        }
        rank_in(&self.items, t)
    }

    /// Whether the set holds `t`.
    pub fn contains(&self, t: &str) -> (r: bool)
        ensures
            r == self@.contains(t@),
    {
        let i: usize = self.rank(t);
        let ghost s = text::texts(self.items@);
        proof {
            use_type_invariant(self);
            lemma_member(s, t@, i as int);
        }
        i < self.items.len() && text::text_eq(self.items[i].as_str(), t)
    }

    /// Puts `t` into the set; says whether it was not there yet.
    pub fn insert(&mut self, t: String) -> (r: bool)
        ensures
            final(self)@ == old(self)@.insert(t@),
            r == !old(self)@.contains(t@),
    {
        let i: usize = self.rank(t.as_str());
        let ghost s = text::texts(self.items@);
        proof {
            use_type_invariant(&*self);
            lemma_member(s, t@, i as int);
        }
        if i < self.items.len() && text::text_eq(self.items[i].as_str(), t.as_str()) {
            assert(s.to_set().insert(t@) =~= s.to_set());
            return false;
        }
        let mut items: Vec<String> = Vec::new();
        std::mem::swap(&mut items, &mut self.items);
        let ghost text = t@;
        items.insert(i, t);
        proof {
            let n = text::texts(items@);
            assert(n =~= s.insert(i as int, text));
            lemma_insert(s, text, i as int);
        }
        self.items = items;
        true
    }

    /// Takes `t` out of the set; says whether it was there.
    pub fn remove(&mut self, t: &str) -> (r: bool)
        ensures
            final(self)@ == old(self)@.remove(t@),
            r == old(self)@.contains(t@),
    {
        let i: usize = self.rank(t);
        let ghost s = text::texts(self.items@);
        proof {
            use_type_invariant(&*self);
            lemma_member(s, t@, i as int);
        }
        if !(i < self.items.len() && text::text_eq(self.items[i].as_str(), t)) {
            assert(s.to_set().remove(t@) =~= s.to_set());
            return false;
        }
        let mut items: Vec<String> = Vec::new();
        std::mem::swap(&mut items, &mut self.items);
        items.remove(i);
        proof {
            let n = text::texts(items@);
            assert(n =~= s.remove(i as int));
            lemma_remove(s, i as int);
        }
        self.items = items;
        true
    }

    /// Takes everything out of the set.
    pub fn clear(&mut self)
        ensures
            final(self)@ == Set::<Seq<char>>::empty(),
    {
        *self = TextSet::new();
    }
}

proof fn lemma_ascending_distinct(s: Seq<Seq<char>>)
    requires
        ascending(s),
    ensures
        s.no_duplicates(),
{
    assert forall|i: int, j: int| 0 <= i < s.len() && 0 <= j < s.len() && i != j implies s[i]
        != s[j] by {
        if i < j {
            assert(s[i] != s[j]);
        } else {
            assert(s[j] != s[i]);
        }
    }
}

proof fn lemma_member(s: Seq<Seq<char>>, t: Seq<char>, i: int)
    requires
        ascending(s),
        0 <= i <= s.len(),
        forall|k: int| 0 <= k < i ==> #[trigger] s[k] != t,
        forall|k: int| i <= k < s.len() ==> text::text_le(t, #[trigger] s[k]),
    ensures
        s.to_set().contains(t) == (i < s.len() && s[i] == t),
{
    if s.to_set().contains(t) {
        let k = choose|k: int| 0 <= k < s.len() && s[k] == t;
        if k > i {
            assert(text::text_le(s[i], s[k]) && s[i] != s[k]);
            text::lemma_text_le_order(t, s[i], t);
        }
    }
}

proof fn lemma_insert(s: Seq<Seq<char>>, t: Seq<char>, i: int)
    requires
        ascending(s),
        0 <= i <= s.len(),
        !s.to_set().contains(t),
        forall|k: int| 0 <= k < i ==> text::text_le(#[trigger] s[k], t),
        forall|k: int| i <= k < s.len() ==> text::text_le(t, #[trigger] s[k]),
    ensures
        ascending(s.insert(i, t)),
        s.insert(i, t).to_set() == s.to_set().insert(t),
{
    let n = s.insert(i, t);
    assert forall|a: int, b: int| 0 <= a < b < n.len() implies text::text_le(
        #[trigger] n[a],
        #[trigger] n[b],
    ) && n[a] != n[b] by {
        let x = if a < i {
            a
        } else {
            a - 1
        };
        let y = if b < i {
            b
        } else {
            b - 1
        };
        if a == i {
            assert(n[b] == s[y]);
            assert(s.contains(s[y]));
        } else if b == i {
            assert(n[a] == s[x]);
            assert(s.contains(s[x]));
        } else {
            assert(n[a] == s[x] && n[b] == s[y]);
        }
    }
    assert forall|u: Seq<char>| n.to_set().contains(u) == s.to_set().insert(t).contains(u) by {
        if n.to_set().contains(u) {
            let k = choose|k: int| 0 <= k < n.len() && n[k] == u;
            if k < i {
                assert(s[k] == u);
            } else if k > i {
                assert(s[k - 1] == u);
            }
        }
        if s.to_set().contains(u) {
            let k = choose|k: int| 0 <= k < s.len() && s[k] == u;
            if k < i {
                assert(n[k] == u);
            } else {
                assert(n[k + 1] == u);
            }
        }
        if u == t {
            assert(n[i] == u);
        }
    }
    assert(n.to_set() =~= s.to_set().insert(t));
}

proof fn lemma_remove(s: Seq<Seq<char>>, i: int)
    requires
        ascending(s),
        0 <= i < s.len(),
    ensures
        ascending(s.remove(i)),
        s.remove(i).to_set() == s.to_set().remove(s[i]),
{
    let n = s.remove(i);
    assert forall|a: int, b: int| 0 <= a < b < n.len() implies text::text_le(
        #[trigger] n[a],
        #[trigger] n[b],
    ) && n[a] != n[b] by {
        let x = if a < i {
            a
        } else {
            a + 1
        };
        let y = if b < i {
            b
        } else {
            b + 1
        };
        assert(n[a] == s[x] && n[b] == s[y]);
    }
    assert forall|u: Seq<char>| n.to_set().contains(u) == s.to_set().remove(s[i]).contains(u) by {
        if n.to_set().contains(u) {
            let k = choose|k: int| 0 <= k < n.len() && n[k] == u;
            let x = if k < i {
                k
            } else {
                k + 1
            };
            assert(s[x] == u);
            lemma_ascending_distinct(s);
        }
        if s.to_set().remove(s[i]).contains(u) {
            let k = choose|k: int| 0 <= k < s.len() && s[k] == u;
            if k < i {
                assert(n[k] == u);
            } else {
                assert(n[k - 1] == u);
            }
        }
    }
    assert(n.to_set() =~= s.to_set().remove(s[i]));
}

/// The paths by their identities.
pub open spec fn table(ids: Seq<Seq<char>>, paths: Seq<Seq<char>>) -> Map<Seq<char>, Seq<char>>
    decreases ids.len(),
{
    if ids.len() == 0 {
        Map::empty()
    } else {
        table(ids.drop_last(), paths).insert(ids.last(), paths[ids.len() - 1])
    }
}

proof fn lemma_table(ids: Seq<Seq<char>>, list: Seq<Seq<char>>)
    requires
        ids.no_duplicates(),
    ensures
        forall|id: Seq<char>| #[trigger] table(ids, list).contains_key(id) == ids.contains(id),
        forall|i: int| 0 <= i < ids.len() ==> table(ids, list)[#[trigger] ids[i]] == list[i],
    decreases ids.len(),
{
    if ids.len() > 0 {
        let t = ids.drop_last();
        assert(t.no_duplicates());
        lemma_table(t, list);
        assert forall|id: Seq<char>| #[trigger] table(ids, list).contains_key(id) == ids.contains(
            id,
        ) by {
            assert(table(t, list).contains_key(id) == t.contains(id));
            if t.contains(id) {
                let k = choose|k: int| 0 <= k < t.len() && t[k] == id;
                assert(ids[k] == id);
            }
            if ids.contains(id) && id != ids.last() {
                let k = choose|k: int| 0 <= k < ids.len() && ids[k] == id;
                assert(t[k] == id);
            }
            if id == ids.last() {
                assert(ids[ids.len() - 1] == id);
            }
        }
        assert forall|i: int| 0 <= i < ids.len() implies table(ids, list)[#[trigger] ids[i]]
            == list[i] by {
            if i < t.len() {
                assert(t[i] == ids[i]);
                assert(ids[i] != ids[ids.len() - 1]);
            }
        }
    }
}

/// A set of paths. Paths that are the same count once, and the one that came
/// first stays.
#[derive(Debug)]
pub struct PathSet {
    ids: Vec<String>,
    list: Vec<String>,
}

/// The set with one more path.
pub open spec fn with_path(
    m: Map<Seq<char>, Seq<char>>,
    path: Seq<char>,
) -> Map<Seq<char>, Seq<char>> {
    if m.contains_key(paths::path_id(path)) {
        m
    } else {
        m.insert(paths::path_id(path), path)
    }
}

/// The set with all the listed paths, one after the other.
pub open spec fn with_paths(
    m: Map<Seq<char>, Seq<char>>,
    list: Seq<Seq<char>>,
) -> Map<Seq<char>, Seq<char>>
    decreases list.len(),
{
    if list.len() == 0 {
        m
    } else {
        with_path(with_paths(m, list.drop_last()), list.last())
    }
}

impl View for PathSet {
    type V = Map<Seq<char>, Seq<char>>;

    /// The paths by their identities.
    closed spec fn view(&self) -> Map<Seq<char>, Seq<char>> {
        table(text::texts(self.ids@), text::texts(self.list@))
    }
}

/// Whether the texts are the identities of the paths.
pub open spec fn are_ids(ids: Seq<Seq<char>>, list: Seq<Seq<char>>) -> bool {
    &&& ids.len() == list.len()
    &&& forall|i: int| 0 <= i < ids.len() ==> #[trigger] ids[i] == paths::path_id(list[i])
}

/// The identities of the paths.
pub open spec fn path_ids(list: Seq<Seq<char>>) -> Seq<Seq<char>> {
    list.map_values(|p: Seq<char>| paths::path_id(p))
}

/// What a set holds once paths were added to it.
pub proof fn lemma_with_paths(m: Map<Seq<char>, Seq<char>>, list: Seq<Seq<char>>)
    ensures
        forall|id: Seq<char>| #[trigger]
            with_paths(m, list).contains_key(id) == (m.contains_key(id) || path_ids(list).contains(
                id,
            )),
        forall|id: Seq<char>|
            m.contains_key(id) ==> #[trigger] with_paths(m, list)[id] == m[id],
        forall|i: int|
            0 <= i < list.len() && !m.contains_key(paths::path_id(list[i])) && (forall|k: int|
                0 <= k < i ==> paths::path_id(#[trigger] list[k]) != paths::path_id(list[i]))
                ==> with_paths(m, list)[paths::path_id(#[trigger] list[i])] == list[i],
    decreases list.len(),
{
    if list.len() > 0 {
        let t = list.drop_last();
        lemma_with_paths(m, t);
        let ids = path_ids(list);
        let tids = path_ids(t);
        assert(tids =~= ids.drop_last());
        let r = with_paths(m, list);
        let q = with_paths(m, t);
        let last = paths::path_id(list.last());
        assert forall|id: Seq<char>| #[trigger] r.contains_key(id) == (m.contains_key(id)
            || ids.contains(id)) by {
            if tids.contains(id) {
                let k = choose|k: int| 0 <= k < tids.len() && tids[k] == id;
                assert(ids[k] == id);
            }
            if ids.contains(id) && id != last {
                let k = choose|k: int| 0 <= k < ids.len() && ids[k] == id;
                assert(tids[k] == id);
            }
            if id == last {
                assert(ids[ids.len() - 1] == id);
            }
        }
        assert forall|id: Seq<char>| m.contains_key(id) implies #[trigger] r[id] == m[id] by {
            assert(q.contains_key(id));
            assert(q[id] == m[id]);
        }
        assert forall|i: int|
            0 <= i < list.len() && !m.contains_key(paths::path_id(list[i])) && (forall|k: int|
                0 <= k < i ==> paths::path_id(#[trigger] list[k]) != paths::path_id(
                    list[i],
                )) implies r[paths::path_id(#[trigger] list[i])] == list[i] by {
            let id = paths::path_id(list[i]);
            if i < t.len() {
                assert(t[i] == list[i]);
                assert(forall|k: int|
                    0 <= k < i ==> paths::path_id(#[trigger] t[k]) != paths::path_id(t[i]));
                assert(q[paths::path_id(t[i])] == t[i]);
                assert(tids[i] == id);
                assert(q.contains_key(id));
            } else {
                assert(!q.contains_key(id)) by {
                    if tids.contains(id) {
                        let k = choose|k: int| 0 <= k < tids.len() && tids[k] == id;
                        assert(paths::path_id(list[k]) == id);
                    }
                }
            }
        }
    }
}

impl PathSet {
    /// The paths of the set, ascending.
    pub closed spec fn order(&self) -> Seq<Seq<char>> {
        text::texts(self.list@)
    }

    #[verifier::type_invariant]
    spec fn is_ordered(self) -> bool {
        &&& ascending(text::texts(self.ids@))
        &&& are_ids(text::texts(self.ids@), text::texts(self.list@))
    }

    /// The empty set.
    pub fn new() -> (r: Self)
        ensures
            r@ == Map::<Seq<char>, Seq<char>>::empty(),
    {
        PathSet { ids: Vec::new(), list: Vec::new() }
    }

    /// How many paths the set holds.
    pub fn len(&self) -> (r: usize)
        ensures
            r == self@.dom().len(),
            r == self.order().len(),
            self@.dom().finite(),
    {
        proof {
            use_type_invariant(self);
            let s = text::texts(self.ids@);
            lemma_ascending_distinct(s);
            lemma_table(s, text::texts(self.list@));
            s.unique_seq_to_set();
            assert(self@.dom() =~= s.to_set());
        }
        self.list.len()
    }

    /// Whether the set is empty.
    pub fn is_empty(&self) -> (r: bool)
        ensures
            r == (self@ == Map::<Seq<char>, Seq<char>>::empty()),
    {
        proof {
            use_type_invariant(self);
            let s = text::texts(self.ids@);
            lemma_ascending_distinct(s);
            lemma_table(s, text::texts(self.list@));
            if s.len() > 0 {
                assert(s.contains(s[0]));
                assert(self@.contains_key(s[0]));
            }
        }
        self.list.len() == 0
    }

    /// The paths, in order.
    pub fn paths(&self) -> (r: &Vec<String>)
        ensures
            text::texts(r@) == self.order(),
            forall|id: Seq<char>| #[trigger]
                self@.contains_key(id) ==> paths::path_id(self@[id]) == id && exists|i: int|
                    0 <= i < r@.len() && #[trigger] text::texts(r@)[i] == self@[id],
            forall|i: int|
                0 <= i < r@.len() ==> self@.contains_key(
                    paths::path_id(#[trigger] text::texts(r@)[i]),
                ) && self@[paths::path_id(text::texts(r@)[i])] == text::texts(r@)[i],
            path_ids(text::texts(r@)).no_duplicates(),
    {
        proof {
            use_type_invariant(self);
            let s = text::texts(self.ids@);
            let l = text::texts(self.list@);
            lemma_ascending_distinct(s);
            lemma_table(s, l);
            assert(path_ids(l) =~= s);
            assert forall|id: Seq<char>| #[trigger] self@.contains_key(id) implies paths::path_id(
                self@[id],
            ) == id && exists|i: int| 0 <= i < l.len() && #[trigger] l[i] == self@[id] by {
                let k = choose|k: int| 0 <= k < s.len() && s[k] == id;
                assert(l[k] == self@[s[k]]);
            }
            assert forall|i: int| 0 <= i < l.len() implies self@.contains_key(
                paths::path_id(#[trigger] l[i]),
            ) && self@[paths::path_id(l[i])] == l[i] by {
                assert(s[i] == paths::path_id(l[i]));
                assert(s.contains(s[i]));
            }
        }
        &self.list
    }

    /// Whether the set holds the path.
    pub fn contains(&self, path: &str) -> (r: bool)
        ensures
            r == self@.contains_key(paths::path_id(path@)),
    {
        let id = paths::id_of(path);
        proof {
            use_type_invariant(self);
        }
        let i: usize = rank_in(&self.ids, id.as_str());
        proof {
            let s = text::texts(self.ids@);
            lemma_ascending_distinct(s);
            lemma_table(s, text::texts(self.list@));
            lemma_member(s, id@, i as int);
        }
        i < self.ids.len() && text::text_eq(self.ids[i].as_str(), id.as_str())
    }

    /// Puts the path into the set; says whether it was not there yet.
    pub fn insert(&mut self, path: String) -> (r: bool)
        ensures
            final(self)@ == with_path(old(self)@, path@),
            r == !old(self)@.contains_key(paths::path_id(path@)),
    {
        let id = paths::id_of(path.as_str());
        proof {
            use_type_invariant(&*self);
        }
        let i: usize = rank_in(&self.ids, id.as_str());
        let ghost s = text::texts(self.ids@);
        let ghost l = text::texts(self.list@);
        proof {
            lemma_ascending_distinct(s);
            lemma_table(s, l);
            lemma_member(s, id@, i as int);
        }
        if i < self.ids.len() && text::text_eq(self.ids[i].as_str(), id.as_str()) {
            return false;
        }
        let mut own = PathSet::new();
        std::mem::swap(&mut own, self);
        let mut ids: Vec<String> = own.ids;
        let mut list: Vec<String> = own.list;
        let ghost text = path@;
        ids.insert(i, id);
        list.insert(i, path);
        proof {
            let n = text::texts(ids@);
            let m = text::texts(list@);
            assert(n =~= s.insert(i as int, id@));
            assert(m =~= l.insert(i as int, text));
            lemma_insert(s, id@, i as int);
            lemma_ascending_distinct(n);
            lemma_table(n, m);
            let a = table(n, m);
            let b = table(s, l).insert(id@, text);
            assert(a =~= b) by {
                assert forall|x: Seq<char>| a.contains_key(x) == b.contains_key(x) by {
                    assert(n.to_set().contains(x) == s.to_set().insert(id@).contains(x));
                }
                assert forall|x: Seq<char>| a.contains_key(x) implies a[x] == b[x] by {
                    let k = choose|k: int| 0 <= k < n.len() && n[k] == x;
                    assert(a[n[k]] == m[k]);
                    if k < i {
                        assert(s[k] == x && l[k] == m[k]);
                        assert(table(s, l)[s[k]] == l[k]);
                        assert(s.contains(x));
                    } else if k > i {
                        assert(s[k - 1] == x && l[k - 1] == m[k]);
                        assert(table(s, l)[s[k - 1]] == l[k - 1]);
                        assert(s.contains(x));
                    }
                }
            }
        }
        *self = PathSet { ids, list };
        true
    }

    /// Takes the path out of the set; says whether it was there.
    pub fn remove(&mut self, path: &str) -> (r: bool)
        ensures
            final(self)@ == old(self)@.remove(paths::path_id(path@)),
            r == old(self)@.contains_key(paths::path_id(path@)),
    {
        let id = paths::id_of(path);
        proof {
            use_type_invariant(&*self);
        }
        let i: usize = rank_in(&self.ids, id.as_str());
        let ghost s = text::texts(self.ids@);
        let ghost l = text::texts(self.list@);
        proof {
            lemma_ascending_distinct(s);
            lemma_table(s, l);
            lemma_member(s, id@, i as int);
        }
        if !(i < self.ids.len() && text::text_eq(self.ids[i].as_str(), id.as_str())) {
            assert(self@.remove(id@) =~= self@);
            return false;
        }
        let mut own = PathSet::new();
        std::mem::swap(&mut own, self);
        let mut ids: Vec<String> = own.ids;
        let mut list: Vec<String> = own.list;
        ids.remove(i);
        list.remove(i);
        proof {
            let n = text::texts(ids@);
            let m = text::texts(list@);
            assert(n =~= s.remove(i as int));
            assert(m =~= l.remove(i as int));
            lemma_remove(s, i as int);
            lemma_ascending_distinct(n);
            lemma_table(n, m);
            let a = table(n, m);
            let b = table(s, l).remove(id@);
            assert(a =~= b) by {
                assert forall|x: Seq<char>| a.contains_key(x) == b.contains_key(x) by {
                    assert(n.to_set().contains(x) == s.to_set().remove(s[i as int]).contains(x));
                }
                assert forall|x: Seq<char>| a.contains_key(x) implies a[x] == b[x] by {
                    let k = choose|k: int| 0 <= k < n.len() && n[k] == x;
                    let j = if k < i {
                        k
                    } else {
                        k + 1
                    };
                    assert(a[n[k]] == m[k]);
                    assert(s[j] == x && l[j] == m[k]);
                    assert(table(s, l)[s[j]] == l[j]);
                }
            }
        }
        *self = PathSet { ids, list };
        true
    }

    /// Takes everything out of the set.
    pub fn clear(&mut self)
        ensures
            final(self)@ == Map::<Seq<char>, Seq<char>>::empty(),
    {
        *self = PathSet::new();
    }

    /// The set of the listed paths.
    pub fn from_paths(list: &Vec<String>) -> (r: Self)
        ensures
            r@ == with_paths(Map::empty(), text::texts(list@)),
    {
        let n: usize = list.len();
        let ghost all = text::texts(list@);
        let mut ids: Vec<String> = Vec::new();
        let mut i: usize = 0;
        while i < n
            invariant
                i <= n,
                n == list@.len(),
                all == text::texts(list@),
                text::texts(ids@) =~= path_ids(all.take(i as int)),
            decreases n - i,
        {
            assert(all.take(i + 1) =~= all.take(i as int).push(all[i as int]));
            let id = paths::id_of(list[i].as_str());
            let ghost before = ids@;
            ids.push(id);
            assert(text::texts(ids@) =~= text::texts(before).push(id@));
            assert(path_ids(all.take(i + 1)) =~= path_ids(all.take(i as int)).push(
                paths::path_id(all[i as int]),
            ));
            i = i + 1;
        }
        assert(all.take(n as int) =~= all);
        let ghost keys = path_ids(all);
        assert(text::texts(ids@) == keys);
        let ghost le = |i: int, j: int| text::text_le(keys[i], keys[j]);
        proof {
            lemma_text_ranking(keys);
        }
        let not_above = |i: usize, j: usize| -> (b: bool)
            requires
                i < n,
                j < n,
                n == ids@.len(),
            ensures
                b == text::text_le(text::texts(ids@)[i as int], text::texts(ids@)[j as int]),
            { text::is_text_le(ids[i].as_str(), ids[j].as_str()) };
        let groups = grouping::group_positions(n, not_above, Ghost(le));
        let ghost c = grouping::classes(n as nat, le);
        proof {
            grouping::lemma_classes(n as nat, le);
        }
        let mut own: Vec<String> = Vec::new();
        let mut out: Vec<String> = Vec::new();
        let mut g: usize = 0;
        while g < groups.len()
            invariant
                g <= groups@.len(),
                n == list@.len(),
                n == ids@.len(),
                all == text::texts(list@),
                keys == path_ids(all),
                text::texts(ids@) == keys,
                grouping::position_lists(groups@) == c,
                forall|h: int| 0 <= h < c.len() ==> (#[trigger] c[h]).len() > 0,
                forall|h: int, a: int|
                    0 <= h < groups@.len() && 0 <= a < groups@[h]@.len()
                        ==> #[trigger] groups@[h]@[a] < n,
                own@.len() == g,
                out@.len() == g,
                forall|h: int|
                    0 <= h < g ==> #[trigger] text::texts(own@)[h] == keys[c[h][0]]
                        && text::texts(out@)[h] == all[c[h][0]],
            decreases groups@.len() - g,
        {
            assert(c[g as int] == sorting::positions(groups@[g as int]@));
            assert(c[g as int].len() > 0);
            let p: usize = groups[g][0];
            assert(groups@[g as int]@[0] < n);
            assert(c[g as int][0] == p);
            let ghost x = own@;
            let ghost y = out@;
            own.push(ids[p].clone());
            out.push(list[p].clone());
            assert(text::texts(own@) =~= text::texts(x).push(keys[p as int]));
            assert(text::texts(out@) =~= text::texts(y).push(all[p as int]));
            g = g + 1;
        }
        proof {
            let s = text::texts(own@);
            let l = text::texts(out@);
            let m = Map::<Seq<char>, Seq<char>>::empty();
            lemma_with_paths(m, all);
            assert forall|a: int, b: int| 0 <= a < b < s.len() implies text::text_le(
                #[trigger] s[a],
                #[trigger] s[b],
            ) && s[a] != s[b] by {
                assert(le(c[a][0], c[b][0]) && !le(c[b][0], c[a][0]));
                text::lemma_text_le_order(s[a], s[a], s[a]);
            }
            assert forall|h: int| 0 <= h < s.len() implies #[trigger] s[h] == paths::path_id(
                l[h],
            ) by {
                assert(0 <= c[h][0] < n);
                assert(keys[c[h][0]] == paths::path_id(all[c[h][0]]));
            }
            lemma_ascending_distinct(s);
            lemma_table(s, l);
            let want = with_paths(m, all);
            let got = table(s, l);
            assert forall|id: Seq<char>| got.contains_key(id) == want.contains_key(id) by {
                if s.contains(id) {
                    let h = choose|h: int| 0 <= h < s.len() && s[h] == id;
                    assert(s[h] == keys[c[h][0]]);
                    assert(0 <= c[h][0] < n);
                    assert(keys.contains(id));
                }
                if keys.contains(id) {
                    let k = choose|k: int| 0 <= k < keys.len() && keys[k] == id;
                    assert(grouping::in_some_group(c, k));
                    let h = choose|h: int| 0 <= h < c.len() && (#[trigger] c[h]).contains(k);
                    let a = choose|a: int| 0 <= a < c[h].len() && c[h][a] == k;
                    assert(grouping::alike(le, c[h][a], c[h][0]));
                    text::lemma_text_le_order(keys[k], keys[c[h][0]], keys[k]);
                    assert(s[h] == id);
                }
            }
            assert forall|id: Seq<char>| got.contains_key(id) implies got[id] == want[id] by {
                let h = choose|h: int| 0 <= h < s.len() && s[h] == id;
                let p = c[h][0];
                assert(got[s[h]] == l[h]);
                assert(s[h] == keys[p] && l[h] == all[p]);
                assert(0 <= c[h][0] < n);
                assert forall|k: int| 0 <= k < p implies paths::path_id(#[trigger] all[k])
                    != paths::path_id(all[p]) by {
                    if paths::path_id(all[k]) == paths::path_id(all[p]) {
                        assert(keys[k] == keys[p]);
                        assert(grouping::in_some_group(c, k));
                        let j = choose|j: int| 0 <= j < c.len() && (#[trigger] c[j]).contains(k);
                        let a = choose|a: int| 0 <= a < c[j].len() && c[j][a] == k;
                        text::lemma_text_le_order(keys[k], keys[k], keys[k]);
                        if j < h {
                            assert(!le(c[h][0], c[j][a]));
                        } else if h < j {
                            assert(!le(c[j][a], c[h][0]));
                        } else if a > 0 {
                            assert(c[h][0] < c[h][a]);
                        }
                    }
                }
                assert(want[paths::path_id(all[p])] == all[p]);
            }
            assert(got =~= want);
        }
        PathSet { ids: own, list: out }
    }
}

proof fn lemma_text_ranking(keys: Seq<Seq<char>>)
    ensures
        sorting::ranks(
            keys.len() as int,
            |i: int, j: int| text::text_le(keys[i], keys[j]),
        ),
{
    let le = |i: int, j: int| text::text_le(keys[i], keys[j]);
    let n = keys.len() as int;
    assert forall|i: int| 0 <= i < n implies #[trigger] le(i, i) by {
        text::lemma_text_le_order(keys[i], keys[i], keys[i]);
    }
    assert forall|i: int, j: int| 0 <= i < n && 0 <= j < n implies #[trigger] le(i, j)
        || le(j, i) by {
        text::lemma_text_le_order(keys[i], keys[j], keys[j]);
    }
    assert forall|i: int, j: int, k: int|
        0 <= i < n && 0 <= j < n && 0 <= k < n && #[trigger] le(i, j) && #[trigger] le(
            j,
            k,
        ) implies le(i, k) by {
        text::lemma_text_le_order(keys[i], keys[j], keys[k]);
    }
}

/// A set of paths holds a path once, however it is written, and as it came first.
pub proof fn law_paths_are_held_once(
    m: Map<Seq<char>, Seq<char>>,
    list: Seq<Seq<char>>,
    path: Seq<char>,
)
    ensures
        with_paths(m, Seq::<Seq<char>>::empty()) == m,
        ({
            let set = with_paths(m, list);
            let id = paths::path_id(path);
            &&& set.contains_key(id) ==> with_paths(m, list.push(path)) == set
            &&& !set.contains_key(id) ==> with_paths(m, list.push(path)) == set.insert(id, path)
        }),
        with_path(m, path).contains_key(paths::path_id(path)),
        m.contains_key(paths::path_id(path)) ==> with_path(m, path) == m,
{
    assert(list.push(path).drop_last() =~= list);
}

} // verus!
