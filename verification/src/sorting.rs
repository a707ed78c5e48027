//! Stable sorting of positions.
//!
//! A list is sorted by arranging the positions `0..n` of its items. Two
//! positions whose items rank alike keep their order, so the arrangement is
//! determined by the ranking alone: [`stable_order`].

use vstd::prelude::*;

verus! {

/// Whether `le` ranks the positions `0..n`: reflexive, transitive and total.
pub open spec fn ranks(n: int, le: spec_fn(int, int) -> bool) -> bool {
    &&& forall|i: int| 0 <= i < n ==> #[trigger] le(i, i)
    &&& forall|i: int, j: int|
        0 <= i < n && 0 <= j < n ==> #[trigger] le(i, j) || le(j, i)
    &&& forall|i: int, j: int, k: int|
        0 <= i < n && 0 <= j < n && 0 <= k < n && #[trigger] le(i, j) && #[trigger] le(j, k)
            ==> le(i, k)
}

/// Position `i` comes before position `j`: it ranks lower, or alike and `i`
/// is the smaller position.
pub open spec fn comes_before(le: spec_fn(int, int) -> bool, i: int, j: int) -> bool {
    le(i, j) && (le(j, i) ==> i < j)
}

/// `s` holds each position of `lo..hi` once, in order.
pub open spec fn is_arranged(
    s: Seq<int>,
    lo: int,
    hi: int,
    le: spec_fn(int, int) -> bool,
) -> bool {
    &&& s.len() == hi - lo
    &&& forall|a: int| 0 <= a < s.len() ==> lo <= #[trigger] s[a] < hi
    &&& forall|x: int| lo <= x < hi ==> #[trigger] s.contains(x)
    &&& forall|a: int, b: int|
        0 <= a < b < s.len() ==> comes_before(le, #[trigger] s[a], #[trigger] s[b])
}

/// Puts `x` behind the last item of `s` that does not rank above it.
pub open spec fn insert_position(
    s: Seq<int>,
    x: int,
    le: spec_fn(int, int) -> bool,
) -> Seq<int>
    decreases s.len(),
{
    if s.len() == 0 || le(s.last(), x) {
        s.push(x)
    } else {
        insert_position(s.drop_last(), x, le).push(s.last())
    }
}

/// The positions `0..n` sorted by `le`, those that rank alike in their own
/// order.
pub open spec fn stable_order(n: nat, le: spec_fn(int, int) -> bool) -> Seq<int>
    decreases n,
{
    if n == 0 {
        seq![]
    } else {
        insert_position(stable_order((n - 1) as nat, le), n - 1, le)
    }
}

/// The items of `s` in the order given by positions.
pub open spec fn pick<T>(s: Seq<T>, order: Seq<int>) -> Seq<T> {
    order.map_values(|k: int| s[k])
}

/// `s` sorted by a ranking of its items, stably.
pub open spec fn sorted<T>(s: Seq<T>, le: spec_fn(T, T) -> bool) -> Seq<T> {
    pick(s, stable_order(s.len(), |i: int, j: int| le(s[i], s[j])))
}

proof fn lemma_insert_position(s: Seq<int>, x: int, n: int, le: spec_fn(int, int) -> bool)
    requires
        ranks(n, le),
        0 <= x < n,
        forall|a: int| 0 <= a < s.len() ==> 0 <= #[trigger] s[a] < x,
        forall|a: int, b: int|
            0 <= a < b < s.len() ==> comes_before(le, #[trigger] s[a], #[trigger] s[b]),
    ensures
        ({
            let r = insert_position(s, x, le);
            &&& r.len() == s.len() + 1
            &&& forall|a: int| 0 <= a < r.len() ==> 0 <= #[trigger] r[a] <= x
            &&& forall|y: int| s.contains(y) ==> #[trigger] r.contains(y)
            &&& r.contains(x)
            &&& forall|a: int| 0 <= a < r.len() ==> #[trigger] r[a] == x || s.contains(r[a])
            &&& forall|a: int, b: int|
                0 <= a < b < r.len() ==> comes_before(le, #[trigger] r[a], #[trigger] r[b])
        }),
    decreases s.len(),
{
    let r = insert_position(s, x, le);
    if s.len() == 0 || le(s.last(), x) {
        assert(r == s.push(x));
        assert(r[s.len() as int] == x);
        assert forall|y: int| s.contains(y) implies #[trigger] r.contains(y) by {
            let a = choose|a: int| 0 <= a < s.len() && s[a] == y;
            assert(r[a] == y);
        }
        assert forall|a: int| 0 <= a < r.len() implies #[trigger] r[a] == x || s.contains(r[a]) by {
            if a < s.len() {
                assert(r[a] == s[a]);
            }
        }
        assert forall|a: int, b: int| 0 <= a < b < r.len() implies comes_before(
            le,
            #[trigger] r[a],
            #[trigger] r[b],
        ) by {
            if b == s.len() {
                assert(r[a] == s[a]);
                if a < s.len() - 1 {
                    assert(comes_before(le, s[a], s[s.len() - 1]));
                    assert(le(s[a], s.last()) && le(s.last(), x));
                }
            } else {
                assert(r[a] == s[a] && r[b] == s[b]);
            }
        }
    } else {
        let t = s.drop_last();
        assert forall|a: int, b: int| 0 <= a < b < t.len() implies comes_before(
            le,
            #[trigger] t[a],
            #[trigger] t[b],
        ) by {
            assert(t[a] == s[a] && t[b] == s[b]);
        }
        lemma_insert_position(t, x, n, le);
        let q = insert_position(t, x, le);
        assert(r == q.push(s.last()));
        assert forall|y: int| s.contains(y) implies #[trigger] r.contains(y) by {
            let a = choose|a: int| 0 <= a < s.len() && s[a] == y;
            if a < t.len() {
                assert(t[a] == y);
                assert(q.contains(y));
                let c = choose|c: int| 0 <= c < q.len() && q[c] == y;
                assert(r[c] == y);
            } else {
                assert(r[q.len() as int] == y);
            }
        }
        assert(r.contains(x)) by {
            assert(q.contains(x));
            let c = choose|c: int| 0 <= c < q.len() && q[c] == x;
            assert(r[c] == x);
        }
        assert forall|a: int| 0 <= a < r.len() implies #[trigger] r[a] == x || s.contains(r[a]) by {
            if a < q.len() {
                assert(r[a] == q[a]);
                if q[a] != x {
                    let c = choose|c: int| 0 <= c < t.len() && t[c] == q[a];
                    assert(s[c] == q[a]);
                }
            } else {
                assert(s[s.len() - 1] == r[a]);
            }
        }
        assert forall|a: int, b: int| 0 <= a < b < r.len() implies comes_before(
            le,
            #[trigger] r[a],
            #[trigger] r[b],
        ) by {
            assert(r[a] == q[a]);
            if b == q.len() {
                assert(r[b] == s.last());
                if q[a] == x {
                    assert(le(x, s.last()));
                } else {
                    assert(t.contains(q[a]));
                    let c = choose|c: int| 0 <= c < t.len() && t[c] == q[a];
                    assert(comes_before(le, s[c], s[s.len() - 1]));
                }
            } else {
                assert(r[b] == q[b]);
            }
        }
    }
}

/// The stable order of a ranking holds every position once, sorted.
pub proof fn lemma_stable_order(n: nat, m: int, le: spec_fn(int, int) -> bool)
    requires
        ranks(m, le),
        n <= m,
    ensures
        is_arranged(stable_order(n, le), 0, n as int, le),
    decreases n,
{
    if n > 0 {
        let p = stable_order((n - 1) as nat, le);
        lemma_stable_order((n - 1) as nat, m, le);
        lemma_insert_position(p, n - 1, m, le);
        assert forall|x: int| 0 <= x < n implies #[trigger] stable_order(n, le).contains(x) by {
            if x < n - 1 {
                assert(p.contains(x));
            }
        }
    }
}

/// What an order that holds each position once picks is the items, each as
/// often as before.
pub proof fn lemma_pick_multiset<T>(s: Seq<T>, order: Seq<int>)
    requires
        order.len() == s.len(),
        forall|a: int| 0 <= a < order.len() ==> 0 <= #[trigger] order[a] < s.len(),
        forall|a: int, b: int| 0 <= a < b < order.len() ==> #[trigger] order[a] != #[trigger] order[b],
    ensures
        pick(s, order).to_multiset() == s.to_multiset(),
    decreases s.len(),
{
    broadcast use vstd::seq_lib::group_to_multiset_ensures;

    let r = pick(s, order);
    if s.len() == 0 {
        assert(r =~= s);
    } else {
        let n = s.len() - 1;
        lemma_holds_every(order, s.len() as int);
        let k = choose|k: int| 0 <= k < order.len() && order[k] == n;
        let t = s.drop_last();
        let rest = order.remove(k);
        assert forall|a: int| 0 <= a < rest.len() implies 0 <= #[trigger] rest[a] < t.len() by {
            let b = if a < k {
                a
            } else {
                a + 1
            };
            assert(rest[a] == order[b]);
            assert(order[b] != order[k]) by {
                if b < k {
                    assert(order[b] != order[k]);
                } else {
                    assert(order[k] != order[b]);
                }
            }
        }
        assert forall|a: int, b: int| 0 <= a < b < rest.len() implies #[trigger] rest[a]
            != #[trigger] rest[b] by {
            let x = if a < k {
                a
            } else {
                a + 1
            };
            let y = if b < k {
                b
            } else {
                b + 1
            };
            assert(rest[a] == order[x] && rest[b] == order[y]);
        }
        lemma_pick_multiset(t, rest);
        assert(r[k] == s[n]);
        assert(r.remove(k) =~= pick(t, rest));
        assert(r.remove(k).insert(k, s[n]) =~= r);
        assert(t.push(s[n]) =~= s);
        vstd::seq_lib::to_multiset_insert(r.remove(k), k, s[n]);
    }
}

/// Positions that don't repeat, as many as there are, are all of them.
proof fn lemma_holds_every(order: Seq<int>, n: int)
    requires
        order.len() == n,
        n > 0,
        forall|a: int| 0 <= a < order.len() ==> 0 <= #[trigger] order[a] < n,
        forall|a: int, b: int| 0 <= a < b < order.len() ==> #[trigger] order[a] != #[trigger] order[b],
    ensures
        order.contains(n - 1),
{
    if !order.contains(n - 1) {
        assert(order.no_duplicates()) by {
            assert forall|a: int, b: int|
                0 <= a < order.len() && 0 <= b < order.len() && a != b implies order[a]
                != order[b] by {
                if a < b {
                    assert(order[a] != order[b]);
                } else {
                    assert(order[b] != order[a]);
                }
            }
        }
        order.unique_seq_to_set();
        let all = vstd::set_lib::set_int_range(0, n - 1);
        vstd::set_lib::lemma_int_range(0, n - 1);
        assert(order.to_set().subset_of(all)) by {
            assert forall|x: int| order.to_set().contains(x) implies all.contains(x) by {
                let a = choose|a: int| 0 <= a < order.len() && order[a] == x;
                assert(0 <= order[a] < n);
            }
        }
        vstd::set_lib::lemma_len_subset(order.to_set(), all);
    }
}

/// Sorting keeps the items, each as often as before.
pub proof fn lemma_sorted_multiset<T>(s: Seq<T>, le: spec_fn(T, T) -> bool)
    requires
        ranks(s.len() as int, |i: int, j: int| le(s[i], s[j])),
    ensures
        sorted(s, le).to_multiset() == s.to_multiset(),
{
    let rank = |i: int, j: int| le(s[i], s[j]);
    let order = stable_order(s.len(), rank);
    lemma_stable_order(s.len(), s.len() as int, rank);
    assert forall|a: int, b: int| 0 <= a < b < order.len() implies #[trigger] order[a]
        != #[trigger] order[b] by {
        assert(comes_before(rank, order[a], order[b]));
    }
    lemma_pick_multiset(s, order);
}

/// Sorting keeps the items and puts them in order.
pub proof fn lemma_sorted<T>(s: Seq<T>, le: spec_fn(T, T) -> bool)
    requires
        ranks(s.len() as int, |i: int, j: int| le(s[i], s[j])),
    ensures
        sorted(s, le).len() == s.len(),
        forall|k: int| 0 <= k < s.len() ==> sorted(s, le).contains(#[trigger] s[k]),
        forall|k: int| 0 <= k < s.len() ==> s.contains(#[trigger] sorted(s, le)[k]),
        forall|a: int, b: int|
            0 <= a <= b < s.len() ==> le(#[trigger] sorted(s, le)[a], #[trigger] sorted(s, le)[b]),
{
    let rank = |i: int, j: int| le(s[i], s[j]);
    let order = stable_order(s.len(), rank);
    lemma_stable_order(s.len(), s.len() as int, rank);
    let r = sorted(s, le);
    assert forall|k: int| 0 <= k < s.len() implies r.contains(#[trigger] s[k]) by {
        assert(order.contains(k));
        let a = choose|a: int| 0 <= a < order.len() && order[a] == k;
        assert(r[a] == s[k]);
    }
    assert forall|k: int| 0 <= k < s.len() implies s.contains(#[trigger] r[k]) by {
        assert(r[k] == s[order[k]]);
    }
    assert forall|a: int, b: int| 0 <= a <= b < s.len() implies le(
        #[trigger] r[a],
        #[trigger] r[b],
    ) by {
        assert(r[a] == s[order[a]] && r[b] == s[order[b]]);
        if a == b {
            assert(rank(order[a], order[a]));
        } else {
            assert(comes_before(rank, order[a], order[b]));
        }
    }
}

/// Only one arrangement of `0..n` is in order.
pub proof fn lemma_arranged_unique(
    s: Seq<int>,
    t: Seq<int>,
    n: int,
    le: spec_fn(int, int) -> bool,
)
    requires
        is_arranged(s, 0, n, le),
        is_arranged(t, 0, n, le),
    ensures
        s == t,
{
    assert forall|k: int| 0 <= k < n implies s[k] == t[k] by {
        lemma_arranged_agree(s, t, n, le, k + 1);
    }
    assert(s =~= t);
}

proof fn lemma_arranged_agree(
    s: Seq<int>,
    t: Seq<int>,
    n: int,
    le: spec_fn(int, int) -> bool,
    k: int,
)
    requires
        is_arranged(s, 0, n, le),
        is_arranged(t, 0, n, le),
        0 <= k <= n,
    ensures
        forall|a: int| 0 <= a < k ==> s[a] == t[a],
    decreases k,
{
    if k > 0 {
        lemma_arranged_agree(s, t, n, le, k - 1);
        let x = s[k - 1];
        let y = t[k - 1];
        assert(t.contains(x) && s.contains(y));
        let p = choose|p: int| 0 <= p < t.len() && t[p] == x;
        let q = choose|q: int| 0 <= q < s.len() && s[q] == y;
        if p < k - 1 {
            assert(s[p] == t[p]);
            assert(comes_before(le, s[p], s[k - 1]));
        }
        if q < k - 1 {
            assert(s[q] == t[q]);
            assert(comes_before(le, t[q], t[k - 1]));
        }
        if p > k - 1 && q > k - 1 {
            assert(comes_before(le, t[k - 1], t[p]));
            assert(comes_before(le, s[k - 1], s[q]));
        }
    }
}

/// The positions of `v` as integers.
pub open spec fn positions(v: Seq<usize>) -> Seq<int> {
    v.map_values(|k: usize| k as int)
}

proof fn lemma_merged(
    s: Seq<int>,
    left: Seq<int>,
    right: Seq<int>,
    lo: int,
    mid: int,
    hi: int,
    le: spec_fn(int, int) -> bool,
)
    requires
        is_arranged(left, lo, mid, le),
        is_arranged(right, mid, hi, le),
        s.len() == hi - lo,
        lo <= mid <= hi,
        forall|x: int| left.contains(x) ==> #[trigger] s.contains(x),
        forall|x: int| right.contains(x) ==> #[trigger] s.contains(x),
        forall|a: int| 0 <= a < s.len() ==> lo <= #[trigger] s[a] < hi,
        forall|a: int, b: int|
            0 <= a < b < s.len() ==> comes_before(le, #[trigger] s[a], #[trigger] s[b]),
    ensures
        is_arranged(s, lo, hi, le),
{
    assert forall|x: int| lo <= x < hi implies #[trigger] s.contains(x) by {
        if x < mid {
            assert(left.contains(x));
        } else {
            assert(right.contains(x));
        }
    }
}

/// Merges two neighbouring arrangements.
fn merge<F: Fn(usize, usize) -> bool>(
    left: &Vec<usize>,
    right: &Vec<usize>,
    lo: usize,
    mid: usize,
    hi: usize,
    not_above: &F,
    Ghost(le): Ghost<spec_fn(int, int) -> bool>,
) -> (r: Vec<usize>)
    requires
        lo <= mid <= hi,
        ranks(hi as int, le),
        is_arranged(positions(left@), lo as int, mid as int, le),
        is_arranged(positions(right@), mid as int, hi as int, le),
        forall|i: usize, j: usize| i < hi && j < hi ==> call_requires(not_above, (i, j)),
        forall|i: usize, j: usize, b: bool|
            call_ensures(not_above, (i, j), b) ==> b == le(i as int, j as int),
    ensures
        is_arranged(positions(r@), lo as int, hi as int, le),
{
    let ghost ls = positions(left@);
    let ghost rs = positions(right@);
    let mut out: Vec<usize> = Vec::new();
    let mut a: usize = 0;
    let mut b: usize = 0;
    assert(ls.len() == left@.len() && rs.len() == right@.len());
    while a < left.len() || b < right.len()
        invariant
            lo <= mid <= hi,
            ranks(hi as int, le),
            ls == positions(left@),
            rs == positions(right@),
            is_arranged(ls, lo as int, mid as int, le),
            is_arranged(rs, mid as int, hi as int, le),
            forall|i: usize, j: usize| i < hi && j < hi ==> call_requires(not_above, (i, j)),
            forall|i: usize, j: usize, b: bool|
                call_ensures(not_above, (i, j), b) ==> b == le(i as int, j as int),
            a <= left.len(),
            b <= right.len(),
            out.len() == a + b,
            forall|c: int| 0 <= c < a ==> #[trigger] positions(out@).contains(ls[c]),
            forall|c: int| 0 <= c < b ==> #[trigger] positions(out@).contains(rs[c]),
            forall|c: int| 0 <= c < out.len() ==> lo <= #[trigger] positions(out@)[c] < hi,
            forall|c: int, d: int|
                0 <= c < out.len() && a <= d < ls.len() ==> comes_before(
                    le,
                    #[trigger] positions(out@)[c],
                    #[trigger] ls[d],
                ),
            forall|c: int, d: int|
                0 <= c < out.len() && b <= d < rs.len() ==> comes_before(
                    le,
                    #[trigger] positions(out@)[c],
                    #[trigger] rs[d],
                ),
            forall|c: int, d: int|
                0 <= c < d < out.len() ==> comes_before(
                    le,
                    #[trigger] positions(out@)[c],
                    #[trigger] positions(out@)[d],
                ),
        decreases left.len() + right.len() - a - b,
    {
        let ghost before = positions(out@);
        proof {
            if a < left.len() {
                assert(ls[a as int] == left@[a as int]);
                assert(lo <= ls[a as int] < mid);
            }
            if b < right.len() {
                assert(rs[b as int] == right@[b as int]);
                assert(mid <= rs[b as int] < hi);
            }
        }
        let from_left: bool = if b >= right.len() {
            true
        } else if a >= left.len() {
            false
        } else {
            not_above(left[a], right[b])
        };
        let x: usize = if from_left { left[a] } else { right[b] };
        out.push(x);
        let ghost now = positions(out@);
        assert(now =~= before.push(x as int));
        assert forall|c: int| 0 <= c < before.len() implies #[trigger] now[c] == before[c] by {}
        assert(now[before.len() as int] == x);
        proof {
            assert forall|y: int| #[trigger] before.contains(y) implies now.contains(y) by {
                let c = choose|c: int| 0 <= c < before.len() && before[c] == y;
                assert(now[c] == y);
            }
            assert forall|c: int, d: int|
                0 <= c < d < now.len() implies comes_before(
                le,
                #[trigger] now[c],
                #[trigger] now[d],
            ) by {
                assert(now[c] == before[c]);
                if d < before.len() {
                    assert(now[d] == before[d]);
                    assert(comes_before(le, before[c], before[d]));
                } else if from_left {
                    assert(comes_before(le, before[c], ls[a as int]));
                } else {
                    assert(comes_before(le, before[c], rs[b as int]));
                }
            }
            if from_left {
                assert forall|d: int| a < d < ls.len() implies comes_before(
                    le,
                    x as int,
                    #[trigger] ls[d],
                ) by {
                    assert(comes_before(le, ls[a as int], ls[d]));
                }
                assert forall|d: int| b <= d < rs.len() implies comes_before(
                    le,
                    x as int,
                    #[trigger] rs[d],
                ) by {
                    assert(le(x as int, rs[b as int]));
                    if d > b {
                        assert(comes_before(le, rs[b as int], rs[d]));
                        assert(le(x as int, rs[b as int]) && le(rs[b as int], rs[d]));
                    }
                }
            } else {
                assert forall|d: int| b < d < rs.len() implies comes_before(
                    le,
                    x as int,
                    #[trigger] rs[d],
                ) by {
                    assert(comes_before(le, rs[b as int], rs[d]));
                }
                assert forall|d: int| a <= d < ls.len() implies comes_before(
                    le,
                    x as int,
                    #[trigger] ls[d],
                ) by {
                    assert(!le(ls[a as int], x as int));
                    assert(le(x as int, ls[a as int]));
                    if d > a {
                        assert(comes_before(le, ls[a as int], ls[d]));
                        assert(le(x as int, ls[a as int]) && le(ls[a as int], ls[d]));
                        if le(ls[d], x as int) {
                            assert(le(ls[a as int], ls[d]) && le(ls[d], x as int));
                        }
                    }
                }
            }
        }
        if from_left {
            a = a + 1;
        } else {
            b = b + 1;
        }
        proof {
            assert forall|c: int| 0 <= c < a implies #[trigger] now.contains(ls[c]) by {
                if from_left && c == a - 1 {
                    assert(now[before.len() as int] == ls[c]);
                } else {
                    assert(before.contains(ls[c]));
                }
            }
            assert forall|c: int| 0 <= c < b implies #[trigger] now.contains(rs[c]) by {
                if !from_left && c == b - 1 {
                    assert(now[before.len() as int] == rs[c]);
                } else {
                    assert(before.contains(rs[c]));
                }
            }
            assert forall|c: int, d: int|
                0 <= c < now.len() && a <= d < ls.len() implies comes_before(
                le,
                #[trigger] now[c],
                #[trigger] ls[d],
            ) by {
                if c < before.len() {
                    assert(comes_before(le, before[c], ls[d]));
                }
            }
            assert forall|c: int, d: int|
                0 <= c < now.len() && b <= d < rs.len() implies comes_before(
                le,
                #[trigger] now[c],
                #[trigger] rs[d],
            ) by {
                if c < before.len() {
                    assert(comes_before(le, before[c], rs[d]));
                }
            }
        }
    }
    proof {
        let s = positions(out@);
        assert forall|x: int| ls.contains(x) implies #[trigger] s.contains(x) by {
            let c = choose|c: int| 0 <= c < ls.len() && ls[c] == x;
            assert(s.contains(ls[c]));
        }
        assert forall|x: int| rs.contains(x) implies #[trigger] s.contains(x) by {
            let c = choose|c: int| 0 <= c < rs.len() && rs[c] == x;
            assert(s.contains(rs[c]));
        }
        lemma_merged(s, ls, rs, lo as int, mid as int, hi as int, le);
    }
    out
}

/// Arranges the positions `lo..hi`.
fn arrange<F: Fn(usize, usize) -> bool>(
    lo: usize,
    hi: usize,
    not_above: &F,
    Ghost(le): Ghost<spec_fn(int, int) -> bool>,
) -> (r: Vec<usize>)
    requires
        lo <= hi,
        ranks(hi as int, le),
        forall|i: usize, j: usize| i < hi && j < hi ==> call_requires(not_above, (i, j)),
        forall|i: usize, j: usize, b: bool|
            call_ensures(not_above, (i, j), b) ==> b == le(i as int, j as int),
    ensures
        is_arranged(positions(r@), lo as int, hi as int, le),
    decreases hi - lo,
{
    if hi - lo == 0 {
        Vec::new()
    } else if hi - lo == 1 {
        let mut r: Vec<usize> = Vec::new();
        r.push(lo);
        assert(positions(r@)[0] == lo);
        assert forall|x: int| lo <= x < hi implies #[trigger] positions(r@).contains(x) by {
            assert(positions(r@)[0] == x);
        }
        r
    } else {
        let mid: usize = lo + (hi - lo) / 2;
        let left = arrange(lo, mid, not_above, Ghost(le));
        let right = arrange(mid, hi, not_above, Ghost(le));
        merge(&left, &right, lo, mid, hi, not_above, Ghost(le))
    }
}

/// Sorts the positions `0..n` stably by the ranking that `not_above` decides:
/// whether one position does not rank above another.
pub fn sort_positions<F: Fn(usize, usize) -> bool>(
    n: usize,
    not_above: F,
    Ghost(le): Ghost<spec_fn(int, int) -> bool>,
) -> (r: Vec<usize>)
    requires
        ranks(n as int, le),
        forall|i: usize, j: usize| i < n && j < n ==> call_requires(not_above, (i, j)),
        forall|i: usize, j: usize, b: bool|
            call_ensures(not_above, (i, j), b) ==> b == le(i as int, j as int),
    ensures
        positions(r@) == stable_order(n as nat, le),
        is_arranged(positions(r@), 0, n as int, le),
{
    let r = arrange(0, n, &not_above, Ghost(le));
    proof {
        lemma_stable_order(n as nat, n as int, le);
        lemma_arranged_unique(positions(r@), stable_order(n as nat, le), n as int, le);
    }
    r
}

/// Two rankings that agree on the positions `0..n` sort them alike.
pub proof fn lemma_same_ranking(
    n: nat,
    a: spec_fn(int, int) -> bool,
    b: spec_fn(int, int) -> bool,
)
    requires
        ranks(n as int, a),
        forall|i: int, j: int| 0 <= i < n && 0 <= j < n ==> #[trigger] a(i, j) == b(i, j),
    ensures
        stable_order(n, a) == stable_order(n, b),
{
    assert(ranks(n as int, b)) by {
        assert forall|i: int| 0 <= i < n implies #[trigger] b(i, i) by {
            assert(a(i, i) == b(i, i));
        }
        assert forall|i: int, j: int| 0 <= i < n && 0 <= j < n implies #[trigger] b(i, j) || b(
            j,
            i,
        ) by {
            assert(a(i, j) == b(i, j) && a(j, i) == b(j, i));
        }
        assert forall|i: int, j: int, k: int|
            0 <= i < n && 0 <= j < n && 0 <= k < n && #[trigger] b(i, j) && #[trigger] b(
                j,
                k,
            ) implies b(i, k) by {
            assert(a(i, j) == b(i, j) && a(j, k) == b(j, k) && a(i, k) == b(i, k));
        }
    }
    lemma_stable_order(n, n as int, a);
    lemma_stable_order(n, n as int, b);
    let s = stable_order(n, a);
    assert forall|x: int, y: int| 0 <= x < y < s.len() implies comes_before(
        b,
        #[trigger] s[x],
        #[trigger] s[y],
    ) by {
        assert(comes_before(a, s[x], s[y]));
        assert(a(s[x], s[y]) == b(s[x], s[y]) && a(s[y], s[x]) == b(s[y], s[x]));
    }
    lemma_arranged_unique(s, stable_order(n, b), n as int, b);
}

/// Puts items in the order given by their positions, each of which occurs
/// once.
pub fn rearrange<T>(items: Vec<T>, order: &Vec<usize>) -> (r: Vec<T>)
    requires
        forall|a: int| 0 <= a < order@.len() ==> #[trigger] order@[a] < items@.len(),
        forall|a: int, b: int|
            0 <= a < b < order@.len() ==> #[trigger] order@[a] != #[trigger] order@[b],
    ensures
        r@ == pick(items@, positions(order@)),
{
    let ghost all = items@;
    let mut slots: Vec<Option<T>> = Vec::new();
    for item in it: items
        invariant
            it.seq() == all,
            slots@.len() == it.index(),
            forall|k: int| 0 <= k < slots@.len() ==> #[trigger] slots@[k] == Some(all[k]),
    {
        slots.push(Some(item));
    }
    let mut out: Vec<T> = Vec::new();
    let mut i: usize = 0;
    while i < order.len()
        invariant
            i <= order@.len(),
            slots@.len() == all.len(),
            forall|a: int| 0 <= a < order@.len() ==> #[trigger] order@[a] < all.len(),
            forall|a: int, b: int|
                0 <= a < b < order@.len() ==> #[trigger] order@[a] != #[trigger] order@[b],
            forall|a: int|
                i <= a < order@.len() ==> slots@[#[trigger] order@[a] as int] == Some(
                    all[order@[a] as int],
                ),
            out@.len() == i,
            forall|a: int| 0 <= a < i ==> #[trigger] out@[a] == all[order@[a] as int],
        decreases order@.len() - i,
    {
        let p: usize = order[i];
        assert(slots@[order@[i as int] as int] == Some(all[p as int]));
        let taken: Option<T> = slots[p].take();
        if let Some(item) = taken {
            out.push(item);
        }
        i = i + 1;
    }
    assert(out@ =~= pick(all, positions(order@)));
    out
}

} // verus!
