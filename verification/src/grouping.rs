//! Grouping list items that rank alike.

use crate::sorting;
use crate::text;
use vstd::prelude::*;

verus! {

/// Cuts sorted positions into runs that rank alike.
pub open spec fn runs(order: Seq<int>, le: spec_fn(int, int) -> bool) -> Seq<Seq<int>>
    decreases order.len(),
{
    if order.len() == 0 {
        seq![]
    } else {
        let r = runs(order.drop_last(), le);
        let x = order.last();
        if r.len() > 0 && le(x, r.last().last()) {
            r.drop_last().push(r.last().push(x))
        } else {
            r.push(seq![x])
        }
    }
}

/// The positions `0..n` grouped by rank: the groups ascend by rank, and each
/// holds its positions in order.
pub open spec fn classes(n: nat, le: spec_fn(int, int) -> bool) -> Seq<Seq<int>> {
    runs(sorting::stable_order(n, le), le)
}

/// Whether two positions rank alike.
pub open spec fn alike(le: spec_fn(int, int) -> bool, i: int, j: int) -> bool {
    le(i, j) && le(j, i)
}

/// Whether one of the groups holds `x`.
pub open spec fn in_some_group(groups: Seq<Seq<int>>, x: int) -> bool {
    exists|g: int| 0 <= g < groups.len() && (#[trigger] groups[g]).contains(x)
}

/// Whether `groups` are the classes of the positions in `order`.
pub open spec fn are_classes(
    groups: Seq<Seq<int>>,
    order: Seq<int>,
    le: spec_fn(int, int) -> bool,
) -> bool {
    // No group is empty, and each holds positions of the order, ascending.
    &&& forall|g: int| 0 <= g < groups.len() ==> (#[trigger] groups[g]).len() > 0
    &&& forall|g: int, a: int|
        0 <= g < groups.len() && 0 <= a < groups[g].len() ==> order.contains(
            #[trigger] groups[g][a],
        )
    &&& forall|g: int, a: int, b: int|
        0 <= g < groups.len() && 0 <= a < b < groups[g].len() ==> #[trigger] groups[g][a]
            < #[trigger] groups[g][b]
    // Every position is in a group.
    &&& forall|x: int| #[trigger] order.contains(x) ==> in_some_group(groups, x)
    // Members of one group rank alike.
    &&& forall|g: int, a: int, b: int|
        0 <= g < groups.len() && 0 <= a < groups[g].len() && 0 <= b < groups[g].len() ==> alike(
            le,
            #[trigger] groups[g][a],
            #[trigger] groups[g][b],
        )
    // Members of different groups do not, and the groups ascend.
    &&& forall|g: int, h: int, a: int, b: int|
        0 <= g < h < groups.len() && 0 <= a < groups[g].len() && 0 <= b < groups[h].len() ==> le(
            #[trigger] groups[g][a],
            #[trigger] groups[h][b],
        ) && !le(groups[h][b], groups[g][a])
}

proof fn lemma_runs(order: Seq<int>, n: int, le: spec_fn(int, int) -> bool)
    requires
        sorting::ranks(n, le),
        forall|a: int| 0 <= a < order.len() ==> 0 <= #[trigger] order[a] < n,
        forall|a: int, b: int|
            0 <= a < b < order.len() ==> sorting::comes_before(
                le,
                #[trigger] order[a],
                #[trigger] order[b],
            ),
    ensures
        are_classes(runs(order, le), order, le),
        order.len() > 0 ==> runs(order, le).len() > 0 && runs(order, le).last().last()
            == order.last(),
    decreases order.len(),
{
    if order.len() > 0 {
        let t = order.drop_last();
        let x = order.last();
        assert forall|a: int, b: int| 0 <= a < b < t.len() implies sorting::comes_before(
            le,
            #[trigger] t[a],
            #[trigger] t[b],
        ) by {
            assert(t[a] == order[a] && t[b] == order[b]);
        }
        lemma_runs(t, n, le);
        let r = runs(t, le);
        let q = runs(order, le);
        // Everything so far comes before x.
        assert forall|y: int| #[trigger] t.contains(y) implies sorting::comes_before(le, y, x)
            && 0 <= y < n by {
            let a = choose|a: int| 0 <= a < t.len() && t[a] == y;
            assert(order[a] == y);
            assert(sorting::comes_before(le, order[a], order[order.len() - 1]));
        }
        assert(0 <= order[order.len() - 1] < n);
        assert forall|y: int| #[trigger] t.contains(y) implies order.contains(y) by {
            let a = choose|a: int| 0 <= a < t.len() && t[a] == y;
            assert(order[a] == y);
        }
        assert(order.contains(x)) by {
            assert(order[order.len() - 1] == x);
        }
        assert forall|g: int, a: int| 0 <= g < r.len() && 0 <= a < r[g].len() implies t.contains(
            #[trigger] r[g][a],
        ) by {}
        let joins = r.len() > 0 && le(x, r.last().last());
        let k = r.len() - 1;
        if joins {
            assert(q == r.drop_last().push(r.last().push(x)));
            let last = r.last();
            let l = last.len() - 1;
            assert(t.contains(r[k][l]));
            // x ranks like every member of the last run.
            assert forall|a: int| 0 <= a < last.len() implies alike(le, #[trigger] last[a], x) by {
                assert(alike(le, r[k][a], r[k][l]));
                assert(t.contains(r[k][a]));
                assert(le(x, r[k][l]) && le(r[k][l], r[k][a]));
            }
            assert forall|g: int| 0 <= g < k implies #[trigger] q[g] == r[g] by {}
            assert(q[k] == last.push(x));
            assert forall|g: int, h: int, a: int, b: int|
                0 <= g < h < q.len() && 0 <= a < q[g].len() && 0 <= b < q[h].len() implies le(
                #[trigger] q[g][a],
                #[trigger] q[h][b],
            ) && !le(q[h][b], q[g][a]) by {
                if h == k && b == last.len() {
                    assert(q[g][a] == r[g][a]);
                    assert(le(r[g][a], r[k][l]) && !le(r[k][l], r[g][a]));
                    assert(t.contains(r[g][a]));
                    assert(alike(le, last[l], x));
                    if le(x, r[g][a]) {
                        assert(le(r[k][l], x) && le(x, r[g][a]));
                    }
                } else {
                    assert(q[g][a] == r[g][a] && q[h][b] == r[h][b]);
                }
            }
            assert forall|g: int, a: int, b: int|
                0 <= g < q.len() && 0 <= a < q[g].len() && 0 <= b < q[g].len() implies alike(
                le,
                #[trigger] q[g][a],
                #[trigger] q[g][b],
            ) by {
                if g == k {
                    assert(a < last.len() ==> alike(le, last[a], x));
                    assert(b < last.len() ==> alike(le, last[b], x));
                    assert(le(x, x));
                    if a < last.len() && b < last.len() {
                        assert(alike(le, r[k][a], r[k][b]));
                    }
                } else {
                    assert(q[g][a] == r[g][a] && q[g][b] == r[g][b]);
                }
            }
            assert forall|g: int, a: int, b: int|
                0 <= g < q.len() && 0 <= a < b < q[g].len() implies #[trigger] q[g][a]
                < #[trigger] q[g][b] by {
                if g == k && b == last.len() {
                    assert(alike(le, last[a], x));
                    assert(t.contains(r[k][a]));
                } else {
                    assert(q[g][a] == r[g][a] && q[g][b] == r[g][b]);
                }
            }
            assert forall|g: int, a: int| 0 <= g < q.len() && 0 <= a < q[g].len() implies order
                .contains(#[trigger] q[g][a]) by {
                if !(g == k && a == last.len()) {
                    assert(q[g][a] == r[g][a]);
                }
            }
            assert forall|y: int| #[trigger] order.contains(y) implies in_some_group(q, y) by {
                if y == x {
                    assert(q[k][last.len() as int] == x);
                    assert(q[k].contains(x));
                } else {
                    let a = choose|a: int| 0 <= a < order.len() && order[a] == y;
                    assert(t[a] == y);
                    assert(t.contains(y));
                    assert(in_some_group(r, y));
                    let g = choose|g: int| 0 <= g < r.len() && (#[trigger] r[g]).contains(y);
                    let b = choose|b: int| 0 <= b < r[g].len() && r[g][b] == y;
                    assert(q[g][b] == y);
                    assert(q[g].contains(y));
                }
            }
        } else {
            assert(q == r.push(seq![x]));
            let m = r.len() as int;
            assert forall|g: int| 0 <= g < m implies #[trigger] q[g] == r[g] by {}
            assert(q[m] == seq![x]);
            assert forall|g: int, h: int, a: int, b: int|
                0 <= g < h < q.len() && 0 <= a < q[g].len() && 0 <= b < q[h].len() implies le(
                #[trigger] q[g][a],
                #[trigger] q[h][b],
            ) && !le(q[h][b], q[g][a]) by {
                assert(q[g][a] == r[g][a]);
                if h == m {
                    assert(t.contains(r[g][a]));
                    let l = r[k].len() - 1;
                    assert(!le(x, r[k][l]));
                    assert(t.contains(r[k][l]));
                    if le(x, r[g][a]) {
                        if g == k {
                            assert(alike(le, r[g][a], r[k][l]));
                        } else {
                            assert(le(r[g][a], r[k][l]));
                        }
                        assert(le(x, r[g][a]) && le(r[g][a], r[k][l]));
                    }
                } else {
                    assert(q[h][b] == r[h][b]);
                }
            }
            assert forall|g: int, a: int, b: int|
                0 <= g < q.len() && 0 <= a < q[g].len() && 0 <= b < q[g].len() implies alike(
                le,
                #[trigger] q[g][a],
                #[trigger] q[g][b],
            ) by {
                if g < m {
                    assert(q[g][a] == r[g][a] && q[g][b] == r[g][b]);
                } else {
                    assert(le(x, x));
                }
            }
            assert forall|g: int, a: int, b: int|
                0 <= g < q.len() && 0 <= a < b < q[g].len() implies #[trigger] q[g][a]
                < #[trigger] q[g][b] by {
                assert(g < m);
                assert(q[g][a] == r[g][a] && q[g][b] == r[g][b]);
            }
            assert forall|g: int, a: int| 0 <= g < q.len() && 0 <= a < q[g].len() implies order
                .contains(#[trigger] q[g][a]) by {
                if g < m {
                    assert(q[g][a] == r[g][a]);
                }
            }
            assert forall|y: int| #[trigger] order.contains(y) implies in_some_group(q, y) by {
                if y == x {
                    assert(q[m][0] == x);
                    assert(q[m].contains(x));
                } else {
                    let a = choose|a: int| 0 <= a < order.len() && order[a] == y;
                    assert(t[a] == y);
                    assert(t.contains(y));
                    assert(in_some_group(r, y));
                    let g = choose|g: int| 0 <= g < r.len() && (#[trigger] r[g]).contains(y);
                    assert(q[g].contains(y));
                }
            }
        }
    }
}

/// The classes of `0..n`: every position is in a group, and two positions
/// are in one group exactly if they rank alike.
pub proof fn lemma_classes(n: nat, le: spec_fn(int, int) -> bool)
    requires
        sorting::ranks(n as int, le),
    ensures
        are_classes(classes(n, le), sorting::stable_order(n, le), le),
        forall|g: int, a: int|
            0 <= g < classes(n, le).len() && 0 <= a < classes(n, le)[g].len() ==> 0
                <= #[trigger] classes(n, le)[g][a] < n,
        forall|x: int| 0 <= x < n ==> #[trigger] in_some_group(classes(n, le), x),
{
    sorting::lemma_stable_order(n, n as int, le);
    let order = sorting::stable_order(n, le);
    lemma_runs(order, n as int, le);
    let c = classes(n, le);
    assert forall|g: int, a: int| 0 <= g < c.len() && 0 <= a < c[g].len() implies 0
        <= #[trigger] c[g][a] < n by {
        assert(order.contains(c[g][a]));
        let k = choose|k: int| 0 <= k < order.len() && order[k] == c[g][a];
        assert(0 <= order[k] < n);
    }
    assert forall|x: int| 0 <= x < n implies #[trigger] in_some_group(c, x) by {
        assert(order.contains(x));
    }
}

/// The groups one after the other.
pub open spec fn joined(groups: Seq<Seq<int>>) -> Seq<int>
    decreases groups.len(),
{
    if groups.len() == 0 {
        seq![]
    } else {
        joined(groups.drop_last()) + groups.last()
    }
}

proof fn lemma_runs_joined(order: Seq<int>, le: spec_fn(int, int) -> bool)
    ensures
        joined(runs(order, le)) == order,
    decreases order.len(),
{
    if order.len() == 0 {
        assert(joined(runs(order, le)) =~= order);
    } else {
        let front = order.drop_last();
        let r = runs(front, le);
        let x = order.last();
        lemma_runs_joined(front, le);
        if r.len() > 0 && le(x, r.last().last()) {
            let grown = r.drop_last().push(r.last().push(x));
            assert(grown.drop_last() =~= r.drop_last());
            assert(joined(grown) =~= joined(r).push(x));
        } else {
            let longer = r.push(seq![x]);
            assert(longer.drop_last() =~= r);
            assert(joined(longer) =~= joined(r).push(x));
        }
        assert(front.push(x) =~= order);
    }
}

/// Every position of `0..n` is in exactly one group, once.
pub proof fn lemma_joined_classes(n: nat, le: spec_fn(int, int) -> bool)
    requires
        sorting::ranks(n as int, le),
    ensures
        joined(classes(n, le)).len() == n,
        forall|x: int| 0 <= x < n ==> #[trigger] joined(classes(n, le)).contains(x),
        forall|a: int, b: int|
            0 <= a < b < n ==> #[trigger] joined(classes(n, le))[a] != #[trigger] joined(
                classes(n, le),
            )[b],
{
    let order = sorting::stable_order(n, le);
    lemma_runs_joined(order, le);
    sorting::lemma_stable_order(n, n as int, le);
    assert forall|a: int, b: int| 0 <= a < b < n implies #[trigger] order[a]
        != #[trigger] order[b] by {
        assert(sorting::comes_before(le, order[a], order[b]));
        assert(0 <= order[a] < n);
        assert(le(order[a], order[a]));
    }
}

/// Lists of positions as lists of integers.
pub open spec fn position_lists(v: Seq<Vec<usize>>) -> Seq<Seq<int>> {
    v.map_values(|g: Vec<usize>| sorting::positions(g@))
}

/// Groups the positions `0..n` by the ranking that `not_above` decides.
pub fn group_positions<F: Fn(usize, usize) -> bool>(
    n: usize,
    not_above: F,
    Ghost(le): Ghost<spec_fn(int, int) -> bool>,
) -> (r: Vec<Vec<usize>>)
    requires
        sorting::ranks(n as int, le),
        forall|i: usize, j: usize| i < n && j < n ==> call_requires(&not_above, (i, j)),
        forall|i: usize, j: usize, b: bool|
            call_ensures(&not_above, (i, j), b) ==> b == le(i as int, j as int),
    ensures
        position_lists(r@) == classes(n as nat, le),
        forall|g: int, a: int|
            0 <= g < r@.len() && 0 <= a < r@[g]@.len() ==> #[trigger] r@[g]@[a] < n,
{
    let order = sorting::sort_positions(n, &not_above, Ghost(le));
    let ghost ord = sorting::positions(order@);
    let mut groups: Vec<Vec<usize>> = Vec::new();
    let mut current: Vec<usize> = Vec::new();
    let mut k: usize = 0;
    assert(ord.take(0) =~= seq![]);
    while k < order.len()
        invariant
            k <= order@.len(),
            ord == sorting::positions(order@),
            order@.len() == n,
            forall|a: int| 0 <= a < ord.len() ==> 0 <= #[trigger] ord[a] < n,
            forall|i: usize, j: usize| i < n && j < n ==> call_requires(&not_above, (i, j)),
            forall|i: usize, j: usize, b: bool|
                call_ensures(&not_above, (i, j), b) ==> b == le(i as int, j as int),
            k == 0 ==> current@.len() == 0 && groups@.len() == 0,
            k > 0 ==> current@.len() > 0 && current@.last() == order@[k - 1] && position_lists(
                groups@,
            ).push(sorting::positions(current@)) == runs(ord.take(k as int), le),
        decreases order@.len() - k,
    {
        let x: usize = order[k];
        let ghost prior = runs(ord.take(k as int), le);
        assert(ord[k as int] == x);
        assert(ord.take(k + 1).drop_last() =~= ord.take(k as int));
        assert(ord.take(k + 1).last() == x);
        if k == 0 {
            current.push(x);
            assert(ord.take(0) =~= seq![]);
            assert(sorting::positions(current@) =~= seq![x as int]);
            assert(position_lists(groups@).push(sorting::positions(current@)) =~= runs(
                ord.take(1),
                le,
            ));
        } else {
            let last: usize = current[current.len() - 1];
            let ghost cur = sorting::positions(current@);
            let ghost done = position_lists(groups@);
            assert(ord[k - 1] == last);
            assert(cur.last() == last);
            assert(prior.last() == cur && prior.drop_last() =~= done);
            if not_above(x, last) {
                current.push(x);
                assert(sorting::positions(current@) =~= cur.push(x as int));
            } else {
                let mut fresh: Vec<usize> = Vec::new();
                fresh.push(x);
                std::mem::swap(&mut fresh, &mut current);
                groups.push(fresh);
                assert(sorting::positions(current@) =~= seq![x as int]);
                assert(position_lists(groups@) =~= done.push(cur));
                assert(position_lists(groups@) =~= prior);
            }
        }
        k = k + 1;
    }
    assert(ord.take(ord.len() as int) =~= ord);
    if current.len() > 0 {
        let ghost done = position_lists(groups@);
        let ghost cur = sorting::positions(current@);
        groups.push(current);
        assert(position_lists(groups@) =~= done.push(cur));
    } else {
        assert(position_lists(groups@) =~= runs(ord, le));
    }
    proof {
        lemma_classes(n as nat, le);
        let c = classes(n as nat, le);
        assert forall|g: int, a: int|
            0 <= g < groups@.len() && 0 <= a < groups@[g]@.len() implies #[trigger] groups@[g]@[a]
            < n by {
            assert(c[g] == sorting::positions(groups@[g]@));
            assert(c[g][a] == groups@[g]@[a]);
        }
    }
    groups
}

/// Whether `a` comes before `b` or equals it, byte by byte.
pub open spec fn bytes_le(a: Seq<u8>, b: Seq<u8>) -> bool
    decreases a.len(),
{
    if a.len() == 0 {
        true
    } else if b.len() == 0 {
        false
    } else if a[0] != b[0] {
        a[0] < b[0]
    } else {
        bytes_le(a.drop_first(), b.drop_first())
    }
}

/// [`bytes_le`] is a total order.
pub proof fn lemma_bytes_le_order(a: Seq<u8>, b: Seq<u8>, c: Seq<u8>)
    ensures
        bytes_le(a, a),
        bytes_le(a, b) || bytes_le(b, a),
        bytes_le(a, b) && bytes_le(b, a) ==> a == b,
        bytes_le(a, b) && bytes_le(b, c) ==> bytes_le(a, c),
    decreases a.len() + b.len() + c.len(),
{
    if a.len() > 0 {
        if b.len() > 0 && c.len() > 0 {
            lemma_bytes_le_order(a.drop_first(), b.drop_first(), c.drop_first());
        } else if b.len() > 0 {
            lemma_bytes_le_order(a.drop_first(), b.drop_first(), c);
        } else {
            lemma_bytes_le_order(a.drop_first(), b, c);
        }
        if b.len() > 0 && a[0] == b[0] && a.drop_first() == b.drop_first() {
            assert(a =~= seq![a[0]] + a.drop_first());
            assert(b =~= seq![b[0]] + b.drop_first());
        }
    } else {
        if b.len() == 0 {
            assert(a =~= b);
        }
    }
}

/// Decides [`bytes_le`].
pub fn is_bytes_le(a: &[u8], b: &[u8]) -> (r: bool)
    ensures
        r == bytes_le(a@, b@),
{
    let mut i: usize = 0;
    assert(a@.skip(0) =~= a@ && b@.skip(0) =~= b@);
    loop
        invariant
            i <= a@.len(),
            i <= b@.len(),
            bytes_le(a@, b@) == bytes_le(a@.skip(i as int), b@.skip(i as int)),
        decreases a@.len() - i,
    {
        if i == a.len() {
            return true;
        }
        if i == b.len() {
            return false;
        }
        let ghost x = a@.skip(i as int);
        let ghost y = b@.skip(i as int);
        assert(x[0] == a@[i as int] && y[0] == b@[i as int]);
        if a[i] != b[i] {
            return a[i] < b[i];
        }
        i = i + 1;
        assert(x.drop_first() =~= a@.skip(i as int));
        assert(y.drop_first() =~= b@.skip(i as int));
    }
}

/// Orders optional texts: nothing comes first.
pub open spec fn option_le(a: Option<Seq<char>>, b: Option<Seq<char>>) -> bool {
    match (a, b) {
        (None, _) => true,
        (Some(_), None) => false,
        (Some(x), Some(y)) => text::text_le(x, y),
    }
}

/// [`option_le`] is a total order.
pub proof fn lemma_option_le_order(
    a: Option<Seq<char>>,
    b: Option<Seq<char>>,
    c: Option<Seq<char>>,
)
    ensures
        option_le(a, a),
        option_le(a, b) || option_le(b, a),
        option_le(a, b) && option_le(b, a) ==> a == b,
        option_le(a, b) && option_le(b, c) ==> option_le(a, c),
{
    let x = if a is Some { a->0 } else { seq![] };
    let y = if b is Some { b->0 } else { seq![] };
    let z = if c is Some { c->0 } else { seq![] };
    text::lemma_text_le_order(x, y, z);
}

/// The characters of an optional text.
pub open spec fn option_text(a: Option<String>) -> Option<Seq<char>> {
    match a {
        Some(s) => Some(s@),
        None => None,
    }
}

/// Decides [`option_le`].
pub fn is_option_le(a: &Option<String>, b: &Option<String>) -> (r: bool)
    ensures
        r == option_le(option_text(*a), option_text(*b)),
{
    match a {
        None => true,
        Some(x) => match b {
            None => false,
            Some(y) => text::is_text_le(x.as_str(), y.as_str()),
        },
    }
}

} // verus!
