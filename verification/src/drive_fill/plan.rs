//! Choosing which folders fill a drive best.

use crate::sorting;
use vstd::prelude::*;

verus! {

/// Upper bound on the cells of the dynamic program (items times capacity
/// buckets). Keeps planning well under a second and a few MB of memory however
/// large the drive is.
pub const MAX_DP_CELLS: u64 = 40_000_000;

/// The total weight of the items that `mask` marks.
pub open spec fn load(weights: Seq<u64>, mask: Seq<bool>) -> nat
    decreases mask.len(),
{
    if mask.len() == 0 {
        0
    } else {
        load(weights, mask.drop_last()) + (if mask.last() {
            weights[mask.len() - 1] as nat
        } else {
            0
        })
    }
}

/// The marked positions, ascending.
pub open spec fn marked(mask: Seq<bool>) -> Seq<int>
    decreases mask.len(),
{
    if mask.len() == 0 {
        seq![]
    } else if mask.last() {
        marked(mask.drop_last()).push(mask.len() - 1)
    } else {
        marked(mask.drop_last())
    }
}

/// `a / b`, rounded up.
pub open spec fn ceil_div(a: nat, b: nat) -> nat {
    a / b + (if a % b == 0 {
        0nat
    } else {
        1nat
    })
}

/// The marks of the items that are not heavier than the capacity.
pub open spec fn fitting_mask(weights: Seq<u64>, capacity: u64) -> Seq<bool> {
    weights.map_values(|w: u64| w <= capacity)
}

/// The positions of the items that are not heavier than the capacity.
pub open spec fn candidates(weights: Seq<u64>, capacity: u64) -> Seq<int> {
    marked(fitting_mask(weights, capacity))
}

/// How many buckets the capacity is divided into for `n` candidates.
pub open spec fn bucket_count(n: nat, capacity: u64) -> nat {
    let most = if capacity > 1 {
        capacity as nat
    } else {
        1
    };
    let wanted = MAX_DP_CELLS as nat / n;
    if wanted < 1 {
        1
    } else if wanted > most {
        most
    } else {
        wanted
    }
}

/// The size of one bucket.
pub open spec fn bucket_unit(n: nat, capacity: u64) -> nat {
    let u = ceil_div(capacity as nat, bucket_count(n, capacity));
    if u < 1 {
        1
    } else {
        u
    }
}

/// The weights in whole buckets, rounded up.
pub open spec fn in_buckets(weights: Seq<u64>, unit: nat) -> Seq<nat> {
    weights.map_values(|w: u64| ceil_div(w as nat, unit))
}

/// Whether some of the first `k` items weigh `j` buckets together.
pub open spec fn reachable(buckets: Seq<nat>, k: nat, j: int) -> bool
    decreases k,
{
    if k == 0 {
        j == 0
    } else {
        reachable(buckets, (k - 1) as nat, j) || (buckets[k - 1] <= j && reachable(
            buckets,
            (k - 1) as nat,
            j - buckets[k - 1],
        ))
    }
}

/// The largest reachable bucket total that is at most `j`.
pub open spec fn best_total(buckets: Seq<nat>, j: nat) -> nat
    decreases j,
{
    if j == 0 || reachable(buckets, buckets.len(), j as int) {
        j
    } else {
        best_total(buckets, (j - 1) as nat)
    }
}

/// Which of the first `k` items make up the total `j`: an item is left out
/// wherever the items before it reach the total without it.
pub open spec fn traced(buckets: Seq<nat>, k: nat, j: int) -> Seq<bool>
    decreases k,
{
    if k == 0 {
        seq![]
    } else if reachable(buckets, (k - 1) as nat, j) {
        traced(buckets, (k - 1) as nat, j).push(false)
    } else {
        traced(buckets, (k - 1) as nat, j - buckets[k - 1]).push(true)
    }
}

/// The choice of the dynamic program over buckets.
pub open spec fn dp_choice(weights: Seq<u64>, capacity: u64) -> Seq<bool> {
    let unit = bucket_unit(weights.len(), capacity);
    let buckets = in_buckets(weights, unit);
    traced(
        buckets,
        buckets.len(),
        best_total(buckets, capacity as nat / unit) as int,
    )
}

/// The positions from the heaviest item to the lightest.
pub open spec fn heaviest_first(weights: Seq<u64>) -> Seq<int> {
    sorting::stable_order(weights.len(), |i: int, j: int| weights[i] >= weights[j])
}

/// What taking the first `k` items of `order`, as far as they fit, marks and
/// how much room it leaves.
pub open spec fn taken_in_order(
    weights: Seq<u64>,
    order: Seq<int>,
    capacity: u64,
    k: nat,
) -> (Seq<bool>, int)
    decreases k,
{
    if k == 0 {
        (Seq::new(weights.len(), |i: int| false), capacity as int)
    } else {
        let (mask, left) = taken_in_order(weights, order, capacity, (k - 1) as nat);
        let i = order[k - 1];
        if weights[i] <= left {
            (mask.update(i, true), left - weights[i])
        } else {
            (mask, left)
        }
    }
}

/// The choice of taking the heaviest item that fits, again and again.
pub open spec fn greedy_choice(weights: Seq<u64>, capacity: u64) -> Seq<bool> {
    taken_in_order(weights, heaviest_first(weights), capacity, weights.len()).0
}

/// The choice among items that each fit: all of them where they fit together,
/// otherwise the heavier of the two choices, the dynamic program's if they
/// weigh the same.
pub open spec fn best_choice(weights: Seq<u64>, capacity: u64) -> Seq<bool> {
    let all = Seq::new(weights.len(), |i: int| true);
    if load(weights, all) <= capacity {
        all
    } else if load(weights, greedy_choice(weights, capacity)) > load(
        weights,
        dp_choice(weights, capacity),
    ) {
        greedy_choice(weights, capacity)
    } else {
        dp_choice(weights, capacity)
    }
}

/// The positions that are chosen, ascending.
pub open spec fn best_fit(weights: Seq<u64>, capacity: u64) -> Seq<int> {
    let c = candidates(weights, capacity);
    sorting::pick(c, marked(best_choice(sorting::pick(weights, c), capacity)))
}

/// The total weight of the items at the given positions.
pub open spec fn total(weights: Seq<u64>, set: Seq<int>) -> nat
    decreases set.len(),
{
    if set.len() == 0 {
        0
    } else {
        total(weights, set.drop_last()) + weights[set.last()] as nat
    }
}

proof fn lemma_marked(mask: Seq<bool>)
    ensures
        forall|a: int| 0 <= a < marked(mask).len() ==> 0 <= #[trigger] marked(mask)[a]
            < mask.len() && mask[marked(mask)[a]],
        forall|a: int, b: int|
            0 <= a < b < marked(mask).len() ==> #[trigger] marked(mask)[a] < #[trigger] marked(
                mask,
            )[b],
        forall|i: int| 0 <= i < mask.len() && #[trigger] mask[i] ==> marked(mask).contains(i),
        marked(mask).len() <= mask.len(),
    decreases mask.len(),
{
    if mask.len() > 0 {
        let m = mask.drop_last();
        lemma_marked(m);
        let s = marked(mask);
        let t = marked(m);
        assert forall|a: int| 0 <= a < t.len() implies s[a] == t[a] by {}
        assert forall|a: int| 0 <= a < s.len() implies 0 <= #[trigger] s[a] < mask.len()
            && mask[s[a]] by {
            if a < t.len() {
                assert(m[t[a]]);
            }
        }
        assert forall|i: int| 0 <= i < mask.len() && #[trigger] mask[i] implies s.contains(i) by {
            if i < m.len() {
                assert(m[i]);
                let a = choose|a: int| 0 <= a < t.len() && t[a] == i;
                assert(s[a] == i);
            } else {
                assert(s[t.len() as int] == i);
            }
        }
    }
}

proof fn lemma_total_marked(weights: Seq<u64>, mask: Seq<bool>)
    requires
        mask.len() <= weights.len(),
    ensures
        total(weights, marked(mask)) == load(weights, mask),
    decreases mask.len(),
{
    if mask.len() > 0 {
        let m = mask.drop_last();
        lemma_total_marked(weights, m);
        if mask.last() {
            assert(marked(mask).drop_last() =~= marked(m));
        }
    }
}

proof fn lemma_total_pick(weights: Seq<u64>, c: Seq<int>, set: Seq<int>)
    requires
        forall|a: int| 0 <= a < set.len() ==> 0 <= #[trigger] set[a] < c.len(),
    ensures
        total(weights, sorting::pick(c, set)) == total(sorting::pick(weights, c), set),
    decreases set.len(),
{
    if set.len() > 0 {
        lemma_total_pick(weights, c, set.drop_last());
        let p = sorting::pick(c, set);
        assert(p.drop_last() =~= sorting::pick(c, set.drop_last()));
        assert(p.last() == c[set.last()]);
    }
}

pub proof fn lemma_ceil_div(a: nat, b: nat)
    requires
        b > 0,
    ensures
        a <= ceil_div(a, b) * b,
        ceil_div(a, b) * b < a + b,
{
    let q = a / b;
    assert(a == q * b + a % b && 0 <= a % b < b) by (nonlinear_arith)
        requires
            b > 0,
            q == a / b,
    ;
    assert((q + 1) * b == q * b + b) by (nonlinear_arith);
}

proof fn lemma_div_bounds(a: nat, b: nat)
    requires
        b > 0,
    ensures
        (a / b) * b <= a,
        a < (a / b + 1) * b,
{
    let q = a / b;
    assert(a == q * b + a % b && 0 <= a % b < b) by (nonlinear_arith)
        requires
            b > 0,
            q == a / b,
    ;
    assert((q + 1) * b == q * b + b) by (nonlinear_arith);
}

proof fn lemma_bucket_cap(n: nat, capacity: u64)
    requires
        n > 0,
    ensures
        bucket_unit(n, capacity) >= 1,
        1 <= bucket_count(n, capacity) <= MAX_DP_CELLS,
        capacity as nat / bucket_unit(n, capacity) <= bucket_count(n, capacity),
{
    let b = bucket_count(n, capacity);
    let u = bucket_unit(n, capacity);
    let cap = capacity as nat / u;
    assert(MAX_DP_CELLS as nat / n <= MAX_DP_CELLS) by (nonlinear_arith)
        requires
            n > 0,
    ;
    lemma_ceil_div(capacity as nat, b);
    lemma_div_bounds(capacity as nat, u);
    assert(capacity as nat <= u * b) by (nonlinear_arith)
        requires
            capacity as nat <= ceil_div(capacity as nat, b) * b,
            ceil_div(capacity as nat, b) <= u,
            b >= 1,
    ;
    if cap > b {
        assert(cap * u >= (b + 1) * u) by (nonlinear_arith)
            requires
                cap >= b + 1,
                u >= 1,
        ;
        assert((b + 1) * u == u * b + u) by (nonlinear_arith);
    }
}

proof fn lemma_load_zero(weights: Seq<u64>, n: nat)
    ensures
        load(weights, Seq::new(n, |i: int| false)) == 0,
    decreases n,
{
    if n > 0 {
        let z = Seq::new(n, |i: int| false);
        assert(z.drop_last() =~= Seq::new((n - 1) as nat, |i: int| false));
        lemma_load_zero(weights, (n - 1) as nat);
    }
}

proof fn lemma_load_update(weights: Seq<u64>, mask: Seq<bool>, i: int)
    requires
        0 <= i < mask.len(),
        !mask[i],
    ensures
        load(weights, mask.update(i, true)) == load(weights, mask) + weights[i],
    decreases mask.len(),
{
    let u = mask.update(i, true);
    if i == mask.len() - 1 {
        assert(u.drop_last() =~= mask.drop_last());
    } else {
        assert(u.drop_last() =~= mask.drop_last().update(i, true));
        lemma_load_update(weights, mask.drop_last(), i);
    }
}

/// What the greedy choice keeps: marks only items of the order seen so far,
/// and the room left is the capacity less the load.
proof fn lemma_taken(weights: Seq<u64>, order: Seq<int>, capacity: u64, k: nat)
    requires
        k <= order.len(),
        forall|a: int| 0 <= a < order.len() ==> 0 <= #[trigger] order[a] < weights.len(),
        forall|a: int, b: int|
            0 <= a < b < order.len() ==> #[trigger] order[a] != #[trigger] order[b],
    ensures
        ({
            let (mask, left) = taken_in_order(weights, order, capacity, k);
            &&& mask.len() == weights.len()
            &&& left == capacity - load(weights, mask)
            &&& left >= 0
            &&& forall|i: int|
                0 <= i < mask.len() && #[trigger] mask[i] ==> order.take(k as int).contains(i)
        }),
    decreases k,
{
    if k == 0 {
        lemma_load_zero(weights, weights.len());
    } else {
        lemma_taken(weights, order, capacity, (k - 1) as nat);
        let (mask, left) = taken_in_order(weights, order, capacity, (k - 1) as nat);
        let i = order[k - 1];
        let seen = order.take(k - 1);
        if mask[i] {
            assert(seen.contains(i));
            let a = choose|a: int| 0 <= a < seen.len() && seen[a] == i;
            assert(order[a] == order[k - 1]);
        }
        if weights[i] <= left {
            lemma_load_update(weights, mask, i);
        }
        let now = taken_in_order(weights, order, capacity, k).0;
        assert forall|x: int| 0 <= x < now.len() && #[trigger] now[x] implies order.take(
            k as int,
        ).contains(x) by {
            if x == i {
                assert(order.take(k as int)[k - 1] == i);
            } else {
                assert(mask[x]);
                assert(seen.contains(x));
                let a = choose|a: int| 0 <= a < seen.len() && seen[a] == x;
                assert(order.take(k as int)[a] == x);
            }
        }
    }
}

proof fn lemma_heaviest_first(weights: Seq<u64>)
    ensures
        sorting::is_arranged(
            heaviest_first(weights),
            0,
            weights.len() as int,
            |i: int, j: int| weights[i] >= weights[j],
        ),
        heaviest_first(weights).len() == weights.len(),
        forall|a: int|
            0 <= a < weights.len() ==> 0 <= #[trigger] heaviest_first(weights)[a] < weights.len(),
        forall|a: int, b: int|
            0 <= a < b < weights.len() ==> #[trigger] heaviest_first(weights)[a]
                != #[trigger] heaviest_first(weights)[b],
{
    let le = |i: int, j: int| weights[i] >= weights[j];
    sorting::lemma_stable_order(weights.len(), weights.len() as int, le);
    let s = heaviest_first(weights);
    assert forall|a: int, b: int| 0 <= a < b < weights.len() implies #[trigger] s[a]
        != #[trigger] s[b] by {
        assert(sorting::comes_before(le, s[a], s[b]));
    }
}

proof fn lemma_greedy_fits(weights: Seq<u64>, capacity: u64)
    ensures
        greedy_choice(weights, capacity).len() == weights.len(),
        load(weights, greedy_choice(weights, capacity)) <= capacity,
{
    lemma_heaviest_first(weights);
    lemma_taken(weights, heaviest_first(weights), capacity, weights.len());
}

/// The bucket total of the items that `mask` marks.
pub open spec fn bucket_load(buckets: Seq<nat>, mask: Seq<bool>) -> nat
    decreases mask.len(),
{
    if mask.len() == 0 {
        0
    } else {
        bucket_load(buckets, mask.drop_last()) + (if mask.last() {
            buckets[mask.len() - 1]
        } else {
            0
        })
    }
}

proof fn lemma_reachable_nonneg(buckets: Seq<nat>, k: nat, j: int)
    requires
        reachable(buckets, k, j),
    ensures
        j >= 0,
    decreases k,
{
    if k > 0 {
        if reachable(buckets, (k - 1) as nat, j) {
            lemma_reachable_nonneg(buckets, (k - 1) as nat, j);
        }
    }
}

/// Every selection's bucket total is reachable.
proof fn lemma_load_reachable(buckets: Seq<nat>, mask: Seq<bool>)
    ensures
        reachable(buckets, mask.len(), bucket_load(buckets, mask) as int),
    decreases mask.len(),
{
    if mask.len() > 0 {
        lemma_load_reachable(buckets, mask.drop_last());
    }
}

/// Tracing a reachable total gives a selection with that total.
proof fn lemma_traced(buckets: Seq<nat>, k: nat, j: int)
    requires
        reachable(buckets, k, j),
    ensures
        traced(buckets, k, j).len() == k,
        bucket_load(buckets, traced(buckets, k, j)) == j,
    decreases k,
{
    if k > 0 {
        let t = traced(buckets, k, j);
        if reachable(buckets, (k - 1) as nat, j) {
            lemma_traced(buckets, (k - 1) as nat, j);
            assert(t.drop_last() =~= traced(buckets, (k - 1) as nat, j));
        } else {
            lemma_traced(buckets, (k - 1) as nat, j - buckets[k - 1]);
            assert(t.drop_last() =~= traced(buckets, (k - 1) as nat, j - buckets[k - 1]));
        }
    }
}

proof fn lemma_zero_reachable(buckets: Seq<nat>, k: nat)
    ensures
        reachable(buckets, k, 0),
    decreases k,
{
    if k > 0 {
        lemma_zero_reachable(buckets, (k - 1) as nat);
    }
}

/// [`best_total`] is reachable, and no reachable total up to `j` is larger.
proof fn lemma_best_total(buckets: Seq<nat>, j: nat)
    ensures
        reachable(buckets, buckets.len(), best_total(buckets, j) as int),
        best_total(buckets, j) <= j,
        forall|i: int|
            0 <= i <= j && #[trigger] reachable(buckets, buckets.len(), i) ==> i <= best_total(
                buckets,
                j,
            ),
    decreases j,
{
    lemma_zero_reachable(buckets, buckets.len());
    if j > 0 && !reachable(buckets, buckets.len(), j as int) {
        lemma_best_total(buckets, (j - 1) as nat);
    }
}

/// A selection weighs at most its bucket total in units.
proof fn lemma_load_in_buckets(weights: Seq<u64>, unit: nat, mask: Seq<bool>)
    requires
        unit > 0,
        mask.len() <= weights.len(),
    ensures
        load(weights, mask) <= bucket_load(in_buckets(weights, unit), mask) * unit,
        unit == 1 ==> load(weights, mask) == bucket_load(in_buckets(weights, unit), mask),
    decreases mask.len(),
{
    let b = in_buckets(weights, unit);
    if mask.len() > 0 {
        let m = mask.drop_last();
        lemma_load_in_buckets(weights, unit, m);
        let w = weights[mask.len() - 1] as nat;
        lemma_ceil_div(w, unit);
        assert(b[mask.len() - 1] == ceil_div(w, unit));
        assert((bucket_load(b, m) + ceil_div(w, unit)) * unit == bucket_load(b, m) * unit
            + ceil_div(w, unit) * unit) by (nonlinear_arith);
        if unit == 1 {
            assert(w / 1 == w && w % 1 == 0);
        }
    } else {
        assert(0 * unit == 0) by (nonlinear_arith);
    }
}

proof fn lemma_dp_fits(weights: Seq<u64>, capacity: u64)
    requires
        weights.len() > 0,
    ensures
        dp_choice(weights, capacity).len() == weights.len(),
        load(weights, dp_choice(weights, capacity)) <= capacity,
{
    let unit = bucket_unit(weights.len(), capacity);
    let b = in_buckets(weights, unit);
    let cap = capacity as nat / unit;
    let top = best_total(b, cap);
    lemma_bucket_cap(weights.len(), capacity);
    lemma_best_total(b, cap);
    lemma_traced(b, b.len(), top as int);
    lemma_load_in_buckets(weights, unit, dp_choice(weights, capacity));
    lemma_div_bounds(capacity as nat, unit);
    assert(top * unit <= cap * unit) by (nonlinear_arith)
        requires
            top <= cap,
    ;
}

proof fn lemma_best_choice_fits(weights: Seq<u64>, capacity: u64)
    ensures
        best_choice(weights, capacity).len() == weights.len(),
        load(weights, best_choice(weights, capacity)) <= capacity,
{
    lemma_greedy_fits(weights, capacity);
    if weights.len() > 0 {
        lemma_dp_fits(weights, capacity);
    } else {
        assert(load(weights, Seq::new(0, |i: int| true)) == 0);
    }
}

proof fn lemma_candidates(weights: Seq<u64>, capacity: u64)
    ensures
        forall|a: int|
            0 <= a < candidates(weights, capacity).len() ==> 0 <= #[trigger] candidates(
                weights,
                capacity,
            )[a] < weights.len() && weights[candidates(weights, capacity)[a]] <= capacity,
        forall|a: int, b: int|
            0 <= a < b < candidates(weights, capacity).len() ==> #[trigger] candidates(
                weights,
                capacity,
            )[a] < #[trigger] candidates(weights, capacity)[b],
        candidates(weights, capacity).len() <= weights.len(),
{
    lemma_marked(fitting_mask(weights, capacity));
}

/// The choice is a set of positions that fits: ascending, in range, and of a
/// total weight within the capacity.
pub proof fn law_choice_fits(weights: Seq<u64>, capacity: u64)
    ensures
        forall|a: int|
            0 <= a < best_fit(weights, capacity).len() ==> 0 <= #[trigger] best_fit(
                weights,
                capacity,
            )[a] < weights.len(),
        forall|a: int, b: int|
            0 <= a < b < best_fit(weights, capacity).len() ==> #[trigger] best_fit(
                weights,
                capacity,
            )[a] < #[trigger] best_fit(weights, capacity)[b],
        total(weights, best_fit(weights, capacity)) <= capacity,
{
    let c = candidates(weights, capacity);
    let cw = sorting::pick(weights, c);
    let m = best_choice(cw, capacity);
    let r = best_fit(weights, capacity);
    lemma_candidates(weights, capacity);
    lemma_best_choice_fits(cw, capacity);
    lemma_marked(m);
    lemma_total_marked(cw, m);
    lemma_total_pick(weights, c, marked(m));
    assert forall|a: int| 0 <= a < r.len() implies 0 <= #[trigger] r[a] < weights.len() by {
        assert(r[a] == c[marked(m)[a]]);
    }
    assert forall|a: int, b: int| 0 <= a < b < r.len() implies #[trigger] r[a]
        < #[trigger] r[b] by {
        assert(r[a] == c[marked(m)[a]] && r[b] == c[marked(m)[b]]);
        assert(marked(m)[a] < marked(m)[b]);
    }
}

proof fn lemma_marked_all(n: nat)
    ensures
        marked(Seq::new(n, |i: int| true)) == Seq::new(n, |i: int| i),
    decreases n,
{
    let z = Seq::new(n, |i: int| true);
    if n > 0 {
        assert(z.drop_last() =~= Seq::new((n - 1) as nat, |i: int| true));
        lemma_marked_all((n - 1) as nat);
        assert(marked(z) =~= Seq::new(n, |i: int| i));
    } else {
        assert(marked(z) =~= Seq::new(n, |i: int| i));
    }
}

/// Where everything that fits by itself also fits together, all of it is
/// chosen.
pub proof fn law_takes_everything_that_fits(weights: Seq<u64>, capacity: u64)
    requires
        total(weights, candidates(weights, capacity)) <= capacity,
    ensures
        best_fit(weights, capacity) == candidates(weights, capacity),
{
    let c = candidates(weights, capacity);
    let cw = sorting::pick(weights, c);
    let all = Seq::new(cw.len(), |i: int| true);
    let every = Seq::new(cw.len(), |i: int| i);
    lemma_marked_all(cw.len());
    lemma_total_marked(cw, all);
    lemma_total_pick(weights, c, every);
    assert(sorting::pick(c, every) =~= c);
    assert(best_choice(cw, capacity) == all);
}

/// The choice weighs at least as much as taking the heaviest item that fits
/// again and again.
pub proof fn law_no_lighter_than_greedy(weights: Seq<u64>, capacity: u64)
    ensures
        ({
            let cw = sorting::pick(weights, candidates(weights, capacity));
            total(weights, best_fit(weights, capacity)) >= load(cw, greedy_choice(cw, capacity))
        }),
{
    let c = candidates(weights, capacity);
    let cw = sorting::pick(weights, c);
    let m = best_choice(cw, capacity);
    lemma_candidates(weights, capacity);
    lemma_best_choice_fits(cw, capacity);
    lemma_greedy_fits(cw, capacity);
    lemma_marked(m);
    lemma_total_marked(cw, m);
    lemma_total_pick(weights, c, marked(m));
    lemma_load_at_most_all(cw, greedy_choice(cw, capacity));
}

proof fn lemma_load_at_most_all(weights: Seq<u64>, mask: Seq<bool>)
    requires
        mask.len() <= weights.len(),
    ensures
        load(weights, mask) <= load(weights, Seq::new(mask.len(), |i: int| true)),
    decreases mask.len(),
{
    if mask.len() > 0 {
        lemma_load_at_most_all(weights, mask.drop_last());
        let all = Seq::new(mask.len(), |i: int| true);
        assert(all.drop_last() =~= Seq::new((mask.len() - 1) as nat, |i: int| true));
    }
}

/// The marks of a selection, carried over to the listed positions.
spec fn restricted(mask: Seq<bool>, c: Seq<int>) -> Seq<bool> {
    c.map_values(|i: int| mask[i])
}

/// A selection of items that each fit weighs the same, seen on the
/// candidates alone.
proof fn lemma_restricted(weights: Seq<u64>, mask: Seq<bool>, keep: Seq<bool>)
    requires
        mask.len() == keep.len(),
        mask.len() <= weights.len(),
        forall|i: int| 0 <= i < mask.len() && #[trigger] mask[i] ==> keep[i],
    ensures
        load(weights, mask) == load(
            sorting::pick(weights, marked(keep)),
            restricted(mask, marked(keep)),
        ),
    decreases mask.len(),
{
    let c = marked(keep);
    let cw = sorting::pick(weights, c);
    if mask.len() > 0 {
        let m = mask.drop_last();
        let k = keep.drop_last();
        let d = marked(k);
        let dw = sorting::pick(weights, d);
        lemma_restricted(weights, m, k);
        lemma_marked(k);
        if keep.last() {
            let r = restricted(mask, c);
            assert(c.drop_last() =~= d);
            assert forall|a: int| 0 <= a < d.len() implies #[trigger] mask[d[a]] == m[d[a]] by {}
            assert(r.drop_last() =~= restricted(m, d));
            assert(r.last() == mask.last());
            lemma_load_prefix(cw, dw, restricted(m, d));
        } else {
            assert(!mask[mask.len() - 1]);
            assert(restricted(mask, c) =~= restricted(m, d));
        }
    }
}

proof fn lemma_load_prefix(a: Seq<u64>, b: Seq<u64>, mask: Seq<bool>)
    requires
        forall|i: int| 0 <= i < mask.len() ==> a[i] == b[i],
    ensures
        load(a, mask) == load(b, mask),
    decreases mask.len(),
{
    if mask.len() > 0 {
        lemma_load_prefix(a, b, mask.drop_last());
    }
}

proof fn lemma_load_member(weights: Seq<u64>, mask: Seq<bool>, i: int)
    requires
        0 <= i < mask.len(),
        mask[i],
    ensures
        weights[i] <= load(weights, mask),
    decreases mask.len(),
{
    if i < mask.len() - 1 {
        lemma_load_member(weights, mask.drop_last(), i);
    }
}

/// With one bucket per unit of capacity the choice is the best there is: no
/// selection that stays within the capacity weighs more.
pub proof fn law_exact_optimum(weights: Seq<u64>, capacity: u64, mask: Seq<bool>)
    requires
        mask.len() == weights.len(),
        load(weights, mask) <= capacity,
        candidates(weights, capacity).len() * capacity <= MAX_DP_CELLS,
    ensures
        load(weights, mask) <= total(weights, best_fit(weights, capacity)),
{
    let keep = fitting_mask(weights, capacity);
    let c = candidates(weights, capacity);
    let cw = sorting::pick(weights, c);
    let m = restricted(mask, c);
    assert forall|i: int| 0 <= i < mask.len() && #[trigger] mask[i] implies keep[i] by {
        lemma_load_member(weights, mask, i);
    }
    lemma_restricted(weights, mask, keep);
    lemma_candidates(weights, capacity);
    let best = best_choice(cw, capacity);
    lemma_best_choice_fits(cw, capacity);
    lemma_marked(best);
    lemma_total_marked(cw, best);
    lemma_total_pick(weights, c, marked(best));
    lemma_load_at_most_all(cw, m);
    if c.len() > 0 {
        let n = c.len();
        assert(bucket_count(n, capacity) == (if capacity > 1 {
            capacity as nat
        } else {
            1nat
        })) by {
            let wanted = MAX_DP_CELLS as nat / n;
            assert(wanted >= capacity) by (nonlinear_arith)
                requires
                    n > 0,
                    n * (capacity as nat) <= MAX_DP_CELLS as nat,
                    wanted == MAX_DP_CELLS as nat / n,
            ;
        }
        let unit = bucket_unit(n, capacity);
        assert(unit == 1) by {
            if capacity > 1 {
                let q = capacity as nat;
                assert(q / q == 1 && q % q == 0) by (nonlinear_arith)
                    requires
                        q > 0,
                ;
            }
        }
        let b = in_buckets(cw, 1);
        lemma_dp_fits(cw, capacity);
        lemma_load_in_buckets(cw, 1, m);
        lemma_load_in_buckets(cw, 1, dp_choice(cw, capacity));
        lemma_load_reachable(b, m);
        lemma_best_total(b, capacity as nat);
        assert(capacity as nat / 1 == capacity as nat);
        lemma_traced(b, b.len(), best_total(b, capacity as nat) as int);
    }
}

/// A selection's buckets hold little more than its items weigh.
proof fn lemma_buckets_in_load(weights: Seq<u64>, unit: nat, mask: Seq<bool>)
    requires
        unit > 0,
        mask.len() <= weights.len(),
    ensures
        bucket_load(in_buckets(weights, unit), mask) * unit <= load(weights, mask) + mask.len()
            * unit,
    decreases mask.len(),
{
    let b = in_buckets(weights, unit);
    if mask.len() > 0 {
        let m = mask.drop_last();
        lemma_buckets_in_load(weights, unit, m);
        let w = weights[mask.len() - 1] as nat;
        lemma_ceil_div(w, unit);
        assert(b[mask.len() - 1] == ceil_div(w, unit));
        assert((bucket_load(b, m) + ceil_div(w, unit)) * unit == bucket_load(b, m) * unit
            + ceil_div(w, unit) * unit) by (nonlinear_arith);
        assert(mask.len() * unit == m.len() * unit + unit) by (nonlinear_arith)
            requires
                mask.len() == m.len() + 1,
        ;
    } else {
        assert(0 * unit == 0) by (nonlinear_arith);
        assert(mask.len() * unit == 0) by (nonlinear_arith)
            requires
                mask.len() == 0,
        ;
    }
}

proof fn lemma_rounded_up(a: nat, b: nat)
    requires
        b > 0,
    ensures
        ceil_div(a, b) == (a + b - 1) / (b as int),
{
    let q = a / b;
    let r = a % b;
    assert(a == q * b + r && 0 <= r < b) by (nonlinear_arith)
        requires
            b > 0,
            q == a / b,
            r == a % b,
    ;
    if r == 0 {
        assert((a + b - 1) / (b as int) == q) by (nonlinear_arith)
            requires
                b > 0,
                a == q * b,
        ;
    } else {
        assert((a + b - 1) / (b as int) == q + 1) by (nonlinear_arith)
            requires
                b > 0,
                a == q * b + r,
                0 < r < b,
        ;
    }
}

/// The size of a bucket: the capacity over as many buckets as there are cells
/// for each item, rounded up, and never nothing.
proof fn lemma_bucket_unit(n: nat, capacity: u64)
    requires
        n > 0,
    ensures
        ({
            let cells = 40_000_000nat / n;
            let share = if cells > 1 {
                cells as int
            } else {
                1
            };
            let unit = (capacity + share - 1) / share;
            bucket_unit(n, capacity) == if unit > 1 {
                unit
            } else {
                1
            }
        }),
{
    let cells = 40_000_000nat / n;
    let share = if cells > 1 {
        cells
    } else {
        1nat
    };
    let cap = capacity as nat;
    let b = bucket_count(n, capacity);
    lemma_rounded_up(cap, share);
    if b != share {
        assert(share > cap && share > 1);
        assert(ceil_div(cap, share) <= 1) by {
            lemma_ceil_div(cap, share);
            assert(ceil_div(cap, share) < 2) by (nonlinear_arith)
                requires
                    ceil_div(cap, share) * share < cap + share,
                    cap < share,
            ;
        }
        if cap > 1 {
            assert(cap / cap == 1 && cap % cap == 0) by (nonlinear_arith)
                requires
                    cap > 0,
            ;
        }
    }
}

/// The items that fit, and the positions of them, are as many.
proof fn lemma_candidate_count(weights: Seq<u64>, capacity: u64)
    ensures
        candidates(weights, capacity).len() == weights.filter(|w: u64| w <= capacity).len(),
    decreases weights.len(),
{
    reveal(Seq::filter);
    if weights.len() > 0 {
        lemma_candidate_count(weights.drop_last(), capacity);
        assert(fitting_mask(weights, capacity).drop_last() =~= fitting_mask(
            weights.drop_last(),
            capacity,
        ));
    }
}

/// The choice is near the best there is, whatever the capacity: a selection
/// that leaves a small bucket free for each of the items weighs at most a small
/// bucket per item more. A bucket is the capacity over as many parts as there
/// are cells of the forty million for each item that fits.
pub proof fn law_choice_is_near_the_best(weights: Seq<u64>, capacity: u64, mask: Seq<bool>)
    requires
        mask.len() == weights.len(),
        ({
            let n = weights.filter(|w: u64| w <= capacity).len();
            let cells = 40_000_000nat / n;
            let share = if cells > 1 {
                cells as int
            } else {
                1
            };
            let rounded = (capacity + share - 1) / share;
            let unit = if rounded > 1 {
                rounded
            } else {
                1
            };
            n > 0 && load(weights, mask) + n * unit <= capacity
        }),
    ensures
        ({
            let n = weights.filter(|w: u64| w <= capacity).len();
            let cells = 40_000_000nat / n;
            let share = if cells > 1 {
                cells as int
            } else {
                1
            };
            let rounded = (capacity + share - 1) / share;
            let unit = if rounded > 1 {
                rounded
            } else {
                1
            };
            load(weights, mask) <= total(weights, best_fit(weights, capacity)) + n * unit
        }),
{
    let keep = fitting_mask(weights, capacity);
    let c = candidates(weights, capacity);
    let cw = sorting::pick(weights, c);
    let m = restricted(mask, c);
    let n = c.len();
    lemma_candidate_count(weights, capacity);
    lemma_bucket_unit(n, capacity);
    let unit = bucket_unit(n, capacity);
    assert forall|i: int| 0 <= i < mask.len() && #[trigger] mask[i] implies keep[i] by {
        lemma_load_member(weights, mask, i);
        assert(n * unit >= 0) by (nonlinear_arith);
    }
    lemma_restricted(weights, mask, keep);
    lemma_candidates(weights, capacity);
    let best = best_choice(cw, capacity);
    lemma_best_choice_fits(cw, capacity);
    lemma_marked(best);
    lemma_total_marked(cw, best);
    lemma_total_pick(weights, c, marked(best));
    lemma_load_at_most_all(cw, m);
    assert(n * unit >= 0) by (nonlinear_arith);
    if best != Seq::new(cw.len(), |i: int| true) {
        let b = in_buckets(cw, unit);
        let cap = capacity as nat / unit;
        let dp = dp_choice(cw, capacity);
        let top = best_total(b, cap);
        let own = bucket_load(b, m);
        lemma_dp_fits(cw, capacity);
        lemma_best_total(b, cap);
        lemma_traced(b, b.len(), top as int);
        lemma_load_in_buckets(cw, unit, m);
        lemma_buckets_in_load(cw, unit, m);
        lemma_buckets_in_load(cw, unit, dp);
        lemma_load_reachable(b, m);
        lemma_div_bounds(capacity as nat, unit);
        assert(own * unit <= capacity);
        assert(own <= cap) by (nonlinear_arith)
            requires
                own * unit <= capacity,
                capacity < (cap + 1) * unit,
                unit > 0,
        ;
        assert(own <= top);
        assert(own * unit <= top * unit) by (nonlinear_arith)
            requires
                own <= top,
        ;
    } else {
        assert(m.len() == cw.len());
    }
}

/// The weight of a set adds up: nothing weighs nothing, and one more position
/// adds what stands there.
pub proof fn law_weights_add_up(weights: Seq<u64>, set: Seq<int>, i: int)
    ensures
        total(weights, Seq::<int>::empty()) == 0,
        total(weights, set.push(i)) == total(weights, set) + weights[i],
{
    assert(set.push(i).drop_last() =~= set);
}

/// The load of a selection is the weight of the positions that it marks.
pub proof fn law_load_is_what_is_marked(weights: Seq<u64>, mask: Seq<bool>, b: bool)
    ensures
        load(weights, Seq::<bool>::empty()) == 0,
        load(weights, mask.push(b)) == load(weights, mask) + (if b {
            weights[mask.len() as int] as int
        } else {
            0
        }),
{
    assert(mask.push(b).drop_last() =~= mask);
}

/// Whether bit `j` of the bitset `row` is set.
pub open spec fn bit_at(row: Seq<u64>, j: int) -> bool {
    (row[j / 64] >> ((j % 64) as u64)) & 1 == 1
}

/// Reads bit `j` of the bitset `row`.
fn bit(row: &Vec<u64>, j: usize) -> (r: bool)
    requires
        j / 64 < row@.len(),
    ensures
        r == bit_at(row@, j as int),
{
    (row[j / 64] >> ((j % 64) as u64)) & 1 == 1
}

proof fn lemma_shift_left(x: u64, s: u64, b: u64)
    by (bit_vector)
    requires
        s < 64,
        b < 64,
    ensures
        b >= s ==> ((x << s) >> b) & 1 == (x >> ((b - s) as u64)) & 1,
        b < s ==> ((x << s) >> b) & 1 == 0,
{
}

proof fn lemma_shift_right(x: u64, s: u64, b: u64)
    by (bit_vector)
    requires
        0 < s < 64,
        b < 64,
    ensures
        b < s ==> ((x >> ((64 - s) as u64)) >> b) & 1 == (x >> ((64 - s + b) as u64)) & 1,
        b >= s ==> ((x >> ((64 - s) as u64)) >> b) & 1 == 0,
{
}

proof fn lemma_or_bit(x: u64, y: u64, b: u64)
    by (bit_vector)
    requires
        b < 64,
    ensures
        (((x | y) >> b) & 1 == 1) == ((x >> b) & 1 == 1 || (y >> b) & 1 == 1),
{
}

/// `dst |= src << shift` over little-endian bitsets of one length.
fn or_shifted(dst: &mut Vec<u64>, src: &Vec<u64>, shift: usize)
    requires
        old(dst)@.len() == src@.len(),
        64 * src@.len() <= usize::MAX,
    ensures
        final(dst)@.len() == old(dst)@.len(),
        forall|j: int|
            0 <= j < 64 * src@.len() ==> #[trigger] bit_at(final(dst)@, j) == (bit_at(
                old(dst)@,
                j,
            ) || (j >= shift && bit_at(src@, j - shift))),
{
    let word_shift: usize = shift / 64;
    let bit_shift: u64 = (shift % 64) as u64;
    let mut i: usize = dst.len();
    let ghost before = dst@;
    while i > word_shift
        invariant
            before.len() == src@.len(),
            dst@.len() == src@.len(),
            i <= dst@.len(),
            word_shift == shift / 64,
            bit_shift == shift % 64,
            forall|k: int| 0 <= k < i ==> dst@[k] == before[k],
            forall|j: int|
                64 * i <= j < 64 * src@.len() ==> #[trigger] bit_at(dst@, j) == (bit_at(before, j)
                    || (j >= shift && bit_at(src@, j - shift))),
        decreases i,
    {
        let ghost prior = dst@;
        i = i - 1;
        let from: usize = i - word_shift;
        let mut v: u64 = src[from] << bit_shift;
        if bit_shift > 0 && from > 0 {
            v = v | (src[from - 1] >> (64 - bit_shift));
        }
        let merged: u64 = dst[i] | v;
        dst[i] = merged;
        proof {
            assert forall|j: int| 64 * i <= j < 64 * src@.len() implies #[trigger] bit_at(dst@, j)
                == (bit_at(before, j) || (j >= shift && bit_at(src@, j - shift))) by {
                if j >= 64 * (i + 1) {
                    assert(dst@[j / 64] == prior[j / 64]);
                    assert(bit_at(prior, j) == bit_at(dst@, j));
                } else {
                    let b: u64 = (j - 64 * i) as u64;
                    assert(j / 64 == i && j % 64 == b);
                    lemma_or_bit(before[i as int], v, b);
                    let hi = src@[from as int] << bit_shift;
                    lemma_shift_left(src@[from as int], bit_shift, b);
                    if bit_shift > 0 && from > 0 {
                        let lo = src@[from - 1] >> ((64 - bit_shift) as u64);
                        lemma_or_bit(hi, lo, b);
                        lemma_shift_right(src@[from - 1], bit_shift, b);
                    }
                    let d = j - shift;
                    if b >= bit_shift {
                        assert(d == 64 * from + (b - bit_shift));
                        assert(d / 64 == from && d % 64 == b - bit_shift);
                    } else {
                        assert(d == 64 * (from - 1) + (64 - bit_shift + b));
                        if from > 0 {
                            assert(d / 64 == from - 1 && d % 64 == 64 - bit_shift + b);
                        } else {
                            assert(d < 0);
                        }
                    }
                }
            }
        }
    }
    proof {
        assert forall|j: int| 0 <= j < 64 * src@.len() implies #[trigger] bit_at(dst@, j) == (
        bit_at(before, j) || (j >= shift && bit_at(src@, j - shift))) by {
            if j < 64 * i {
                assert(dst@[j / 64] == before[j / 64]);
                assert(j < shift);
            }
        }
    }
}

/// `a / b`, rounded up.
fn div_ceil(a: u64, b: u64) -> (r: u64)
    requires
        b > 0,
    ensures
        r == ceil_div(a as nat, b as nat),
{
    let q: u64 = a / b;
    if a % b == 0 {
        q
    } else {
        proof {
            assert(q < a || q == 0) by (nonlinear_arith)
                requires
                    q == a / b,
                    a % b != 0,
                    b > 0,
            ;
        }
        q + 1
    }
}

/// The size of one bucket for `n` candidates.
fn unit_for(n: usize, capacity: u64) -> (r: u64)
    requires
        n > 0,
    ensures
        r == bucket_unit(n as nat, capacity),
        r >= 1,
{
    let most: u64 = if capacity > 1 {
        capacity
    } else {
        1
    };
    let wanted: u64 = MAX_DP_CELLS / (n as u64);
    let buckets: u64 = if wanted < 1 {
        1
    } else if wanted > most {
        most
    } else {
        wanted
    };
    let unit: u64 = div_ceil(capacity, buckets);
    if unit < 1 {
        1
    } else {
        unit
    }
}

/// A row of the dynamic program: bit `j` says whether `j` is reachable.
spec fn is_row(row: Seq<u64>, buckets: Seq<nat>, k: nat, cap: nat) -> bool {
    &&& row.len() == cap / 64 + 1
    &&& forall|j: int| 0 <= j <= cap ==> #[trigger] bit_at(row, j) == reachable(buckets, k, j)
}

proof fn lemma_first_row(row: Seq<u64>, buckets: Seq<nat>, cap: nat)
    requires
        row.len() == cap / 64 + 1,
        row[0] == 1,
        forall|i: int| 1 <= i < row.len() ==> row[i] == 0,
    ensures
        is_row(row, buckets, 0, cap),
{
    assert forall|j: int| 0 <= j <= cap implies #[trigger] bit_at(row, j) == reachable(
        buckets,
        0,
        j,
    ) by {
        let b = (j % 64) as u64;
        let w = row[j / 64];
        assert(w == 0 ==> (w >> b) & 1 == 0) by (bit_vector);
        assert(w == 1 && 0 < b < 64 ==> (w >> b) & 1 == 0) by (bit_vector);
        assert(w == 1 && b == 0 ==> (w >> b) & 1 == 1) by (bit_vector);
        if j / 64 == 0 {
            assert(j < 64);
        }
    }
}

/// Computes the rows for all prefixes of the items.
fn reach_rows(scaled: &Vec<usize>, cap: usize, Ghost(buckets): Ghost<Seq<nat>>) -> (rows: Vec<
    Vec<u64>,
>)
    requires
        cap <= MAX_DP_CELLS,
        buckets.len() == scaled@.len(),
        forall|i: int| 0 <= i < buckets.len() ==> #[trigger] scaled@[i] == buckets[i],
    ensures
        rows@.len() == scaled@.len() + 1,
        forall|k: int|
            0 <= k < rows@.len() ==> is_row(#[trigger] rows@[k]@, buckets, k as nat, cap as nat),
{
    let words: usize = cap / 64 + 1;
    let mut first: Vec<u64> = Vec::new();
    first.push(1);
    while first.len() < words
        invariant
            1 <= first@.len() <= words,
            first@[0] == 1,
            forall|i: int| 1 <= i < first@.len() ==> first@[i] == 0,
        decreases words - first@.len(),
    {
        first.push(0);
    }
    proof {
        lemma_first_row(first@, buckets, cap as nat);
    }
    let mut rows: Vec<Vec<u64>> = Vec::with_capacity(1);
    rows.push(first);
    let mut k: usize = 0;
    while k < scaled.len()
        invariant
            cap <= MAX_DP_CELLS,
            buckets.len() == scaled@.len(),
            forall|i: int| 0 <= i < buckets.len() ==> #[trigger] scaled@[i] == buckets[i],
            k <= scaled@.len(),
            rows@.len() == k + 1,
            forall|i: int|
                0 <= i < rows@.len() ==> is_row(
                    #[trigger] rows@[i]@,
                    buckets,
                    i as nat,
                    cap as nat,
                ),
        decreases scaled@.len() - k,
    {
        let w: usize = scaled[k];
        let ghost done = rows@;
        let mut next: Vec<u64> = rows[k].clone();
        assert(next@ =~= rows@[k as int]@);
        assert(is_row(rows@[k as int]@, buckets, k as nat, cap as nat));
        if w <= cap {
            or_shifted(&mut next, &rows[k], w);
        }
        proof {
            let prev = rows@[k as int]@;
            assert forall|j: int| 0 <= j <= cap implies #[trigger] bit_at(next@, j) == reachable(
                buckets,
                (k + 1) as nat,
                j,
            ) by {
                assert(buckets[k as int] == w);
                assert(bit_at(prev, j) == reachable(buckets, k as nat, j));
                if j >= w {
                    assert(bit_at(prev, j - w) == reachable(buckets, k as nat, j - w));
                }
            }
        }
        rows.push(next);
        k = k + 1;
        assert forall|i: int| 0 <= i < rows@.len() implies is_row(
            #[trigger] rows@[i]@,
            buckets,
            i as nat,
            cap as nat,
        ) by {
            if i < k {
                assert(rows@[i] == done[i]);
            }
        }
    }
    rows
}

/// The largest total in the last row, up to `cap`.
fn top_total(row: &Vec<u64>, cap: usize, Ghost(buckets): Ghost<Seq<nat>>) -> (r: usize)
    requires
        is_row(row@, buckets, buckets.len(), cap as nat),
    ensures
        r == best_total(buckets, cap as nat),
        r <= cap,
{
    let mut j: usize = cap;
    while j > 0 && !bit(row, j)
        invariant
            j <= cap,
            is_row(row@, buckets, buckets.len(), cap as nat),
            best_total(buckets, cap as nat) == best_total(buckets, j as nat),
        decreases j,
    {
        assert(bit_at(row@, j as int) == reachable(buckets, buckets.len(), j as int));
        j = j - 1;
    }
    assert(j > 0 ==> bit_at(row@, j as int) == reachable(buckets, buckets.len(), j as int));
    j
}

/// Marks the items that the rows trace back from the total `top`.
fn trace_back(
    rows: &Vec<Vec<u64>>,
    scaled: &Vec<usize>,
    cap: usize,
    top: usize,
    Ghost(buckets): Ghost<Seq<nat>>,
) -> (mask: Vec<bool>)
    requires
        top <= cap,
        buckets.len() == scaled@.len(),
        forall|i: int| 0 <= i < buckets.len() ==> #[trigger] scaled@[i] == buckets[i],
        rows@.len() == scaled@.len() + 1,
        forall|k: int|
            0 <= k < rows@.len() ==> is_row(#[trigger] rows@[k]@, buckets, k as nat, cap as nat),
        reachable(buckets, buckets.len(), top as int),
    ensures
        mask@ == traced(buckets, buckets.len(), top as int),
{
    let n: usize = scaled.len();
    let mut mask: Vec<bool> = Vec::new();
    while mask.len() < n
        invariant
            mask@.len() <= n,
            forall|i: int| 0 <= i < mask@.len() ==> !#[trigger] mask@[i],
        decreases n - mask@.len(),
    {
        mask.push(false);
    }
    let mut j: usize = top;
    let mut k: usize = n;
    while k > 0
        invariant
            k <= n,
            n == scaled@.len(),
            mask@.len() == n,
            j <= cap,
            buckets.len() == scaled@.len(),
            forall|i: int| 0 <= i < buckets.len() ==> #[trigger] scaled@[i] == buckets[i],
            rows@.len() == scaled@.len() + 1,
            forall|k: int|
                0 <= k < rows@.len() ==> is_row(
                    #[trigger] rows@[k]@,
                    buckets,
                    k as nat,
                    cap as nat,
                ),
            reachable(buckets, k as nat, j as int),
            forall|i: int| 0 <= i < k ==> !#[trigger] mask@[i],
            traced(buckets, buckets.len(), top as int) == traced(buckets, k as nat, j as int)
                + mask@.skip(k as int),
        decreases k,
    {
        let ghost whole = traced(buckets, k as nat, j as int);
        let ghost tail = mask@.skip(k as int);
        k = k - 1;
        assert(is_row(rows@[k as int]@, buckets, k as nat, cap as nat));
        assert(bit_at(rows@[k as int]@, j as int) == reachable(buckets, k as nat, j as int));
        assert(scaled@[k as int] == buckets[k as int]);
        if !bit(&rows[k], j) {
            mask[k] = true;
            j = j - scaled[k];
        }
        proof {
            let part = traced(buckets, k as nat, j as int);
            assert(whole == part.push(mask@[k as int]));
            assert(mask@.skip(k as int) =~= seq![mask@[k as int]] + tail);
            assert(whole + tail =~= part + mask@.skip(k as int));
        }
    }
    assert(mask@.skip(0) =~= mask@);
    assert(traced(buckets, 0, j as int) + mask@ =~= mask@);
    mask
}

/// The choice of the dynamic program.
fn dp_fit(weights: &Vec<u64>, capacity: u64) -> (mask: Vec<bool>)
    requires
        forall|i: int| 0 <= i < weights@.len() ==> #[trigger] weights@[i] <= capacity,
    ensures
        mask@ == dp_choice(weights@, capacity),
{
    if weights.len() == 0 {
        return Vec::new();
    }
    let unit: u64 = unit_for(weights.len(), capacity);
    proof {
        lemma_bucket_cap(weights@.len(), capacity);
        lemma_div_bounds(capacity as nat, unit as nat);
    }
    let cap: usize = (capacity / unit) as usize;
    let ghost buckets = in_buckets(weights@, unit as nat);
    let mut scaled: Vec<usize> = Vec::new();
    let mut i: usize = 0;
    while i < weights.len()
        invariant
            i <= weights@.len(),
            unit >= 1,
            cap == capacity as nat / unit as nat,
            cap <= MAX_DP_CELLS,
            capacity < (cap + 1) * unit,
            buckets == in_buckets(weights@, unit as nat),
            scaled@.len() == i,
            forall|k: int| 0 <= k < weights@.len() ==> #[trigger] weights@[k] <= capacity,
            forall|k: int| 0 <= k < i ==> #[trigger] scaled@[k] == buckets[k],
        decreases weights@.len() - i,
    {
        let s: u64 = div_ceil(weights[i], unit);
        proof {
            lemma_ceil_div(weights@[i as int] as nat, unit as nat);
            assert(weights@[i as int] <= capacity);
            assert(s <= cap + 2) by (nonlinear_arith)
                requires
                    s * unit < weights@[i as int] + unit,
                    weights@[i as int] <= capacity,
                    capacity < (cap + 1) * unit,
                    unit >= 1,
            ;
        }
        scaled.push(s as usize);
        i = i + 1;
    }
    let rows = reach_rows(&scaled, cap, Ghost(buckets));
    assert(is_row(rows@[scaled@.len() as int]@, buckets, buckets.len(), cap as nat));
    let top: usize = top_total(&rows[scaled.len()], cap, Ghost(buckets));
    proof {
        lemma_best_total(buckets, cap as nat);
    }
    trace_back(&rows, &scaled, cap, top, Ghost(buckets))
}

/// The choice of taking the heaviest item that fits, again and again.
fn greedy_fit(weights: &Vec<u64>, capacity: u64) -> (mask: Vec<bool>)
    ensures
        mask@ == greedy_choice(weights@, capacity),
{
    let n: usize = weights.len();
    let ghost le = |i: int, j: int| weights@[i] >= weights@[j];
    let heavier = |i: usize, j: usize| -> (b: bool)
        requires
            i < n,
            j < n,
            n == weights@.len(),
        ensures
            b == (weights@[i as int] >= weights@[j as int]),
        { weights[i] >= weights[j] };
    let order: Vec<usize> = sorting::sort_positions(n, heavier, Ghost(le));
    let ghost ord = sorting::positions(order@);
    proof {
        lemma_heaviest_first(weights@);
    }
    let mut mask: Vec<bool> = Vec::new();
    while mask.len() < n
        invariant
            mask@.len() <= n,
            forall|i: int| 0 <= i < mask@.len() ==> !#[trigger] mask@[i],
        decreases n - mask@.len(),
    {
        mask.push(false);
    }
    let mut left: u64 = capacity;
    let mut k: usize = 0;
    assert(mask@ =~= Seq::new(weights@.len(), |i: int| false));
    while k < n
        invariant
            k <= n,
            n == weights@.len(),
            order@.len() == n,
            ord == sorting::positions(order@),
            ord == heaviest_first(weights@),
            forall|a: int| 0 <= a < n ==> 0 <= #[trigger] ord[a] < n,
            mask@.len() == n,
            (mask@, left as int) == taken_in_order(weights@, ord, capacity, k as nat),
        decreases n - k,
    {
        let i: usize = order[k];
        assert(ord[k as int] == i);
        if weights[i] <= left {
            mask[i] = true;
            left = left - weights[i];
        }
        k = k + 1;
    }
    mask
}

/// The total weight of the marked items, which stays within the capacity.
fn load_of(weights: &Vec<u64>, mask: &Vec<bool>, capacity: u64) -> (r: u64)
    requires
        mask@.len() == weights@.len(),
        load(weights@, mask@) <= capacity,
    ensures
        r == load(weights@, mask@),
{
    let mut sum: u64 = 0;
    let mut i: usize = 0;
    while i < mask.len()
        invariant
            i <= mask@.len(),
            mask@.len() == weights@.len(),
            load(weights@, mask@) <= capacity,
            sum == load(weights@, mask@.take(i as int)),
        decreases mask@.len() - i,
    {
        proof {
            lemma_load_take(weights@, mask@, i + 1);
            assert(mask@.take(i + 1).drop_last() =~= mask@.take(i as int));
        }
        if mask[i] {
            sum = sum + weights[i];
        }
        i = i + 1;
    }
    assert(mask@.take(mask@.len() as int) =~= mask@);
    sum
}

proof fn lemma_load_take(weights: Seq<u64>, mask: Seq<bool>, k: int)
    requires
        0 <= k <= mask.len(),
    ensures
        load(weights, mask.take(k)) <= load(weights, mask),
    decreases mask.len() - k,
{
    if k < mask.len() {
        lemma_load_take(weights, mask, k + 1);
        assert(mask.take(k + 1).drop_last() =~= mask.take(k));
    } else {
        assert(mask.take(k) =~= mask);
    }
}

/// Whether all items fit together.
fn all_fit(weights: &Vec<u64>, capacity: u64) -> (r: bool)
    ensures
        r == (load(weights@, Seq::new(weights@.len(), |i: int| true)) <= capacity),
{
    let mut sum: u128 = 0;
    let mut i: usize = 0;
    while i < weights.len()
        invariant
            i <= weights@.len(),
            sum == load(weights@, Seq::new(i as nat, |i: int| true)),
            sum <= i * u64::MAX,
        decreases weights@.len() - i,
    {
        assert(Seq::new((i + 1) as nat, |i: int| true).drop_last() =~= Seq::new(
            i as nat,
            |i: int| true,
        ));
        sum = sum + weights[i] as u128;
        i = i + 1;
    }
    sum <= capacity as u128
}

/// Picks the subset of `weights` whose total is as large as possible without
/// exceeding `capacity`. Returns positions in `weights`, ascending.
///
/// Solved exactly by dynamic programming over capacity *buckets*: each weight
/// is rounded **up** to whole buckets, so whatever the program picks is
/// guaranteed to fit for real, at the cost of a small amount of slack per
/// chosen item. A largest-first greedy pass is computed too and the better of
/// the two (by exact bytes) wins, covering the cases where rounding makes the
/// program too conservative.
pub fn choose_best_fit(weights: &[u64], capacity: u64) -> (r: Vec<usize>)
    ensures
        sorting::positions(r@) == best_fit(weights@, capacity),
        forall|a: int| 0 <= a < r@.len() ==> #[trigger] r@[a] < weights@.len(),
        forall|a: int, b: int| 0 <= a < b < r@.len() ==> #[trigger] r@[a] < #[trigger] r@[b],
        total(weights@, sorting::positions(r@)) <= capacity,
{
    let ghost keep = fitting_mask(weights@, capacity);
    let ghost c = candidates(weights@, capacity);
    let mut fits: Vec<usize> = Vec::new();
    let mut own: Vec<u64> = Vec::new();
    let mut i: usize = 0;
    while i < weights.len()
        invariant
            i <= weights@.len(),
            keep == fitting_mask(weights@, capacity),
            sorting::positions(fits@) =~= marked(keep.take(i as int)),
            own@ =~= sorting::pick(weights@, marked(keep.take(i as int))),
            forall|k: int| 0 <= k < own@.len() ==> #[trigger] own@[k] <= capacity,
        decreases weights@.len() - i,
    {
        assert(keep.take(i + 1).drop_last() =~= keep.take(i as int));
        if weights[i] <= capacity {
            fits.push(i);
            own.push(weights[i]);
        }
        i = i + 1;
    }
    assert(keep.take(weights@.len() as int) =~= keep);
    proof {
        law_choice_fits(weights@, capacity);
        lemma_best_choice_fits(own@, capacity);
    }
    if all_fit(&own, capacity) {
        proof {
            lemma_marked_all(own@.len());
            assert(sorting::pick(c, Seq::new(own@.len(), |i: int| i)) =~= c);
            assert(sorting::positions(fits@) == best_fit(weights@, capacity));
            lemma_positions(fits@);
        }
        return fits;
    }
    proof {
        if own@.len() == 0 {
            assert(load(own@, Seq::new(own@.len(), |i: int| true)) == 0);
        }
        lemma_dp_fits(own@, capacity);
        lemma_greedy_fits(own@, capacity);
    }
    let dp = dp_fit(&own, capacity);
    let greedy = greedy_fit(&own, capacity);
    let mask: Vec<bool> = if load_of(&own, &greedy, capacity) > load_of(&own, &dp, capacity) {
        greedy
    } else {
        dp
    };
    assert(mask@ == best_choice(own@, capacity));
    let mut chosen: Vec<usize> = Vec::new();
    let mut k: usize = 0;
    while k < mask.len()
        invariant
            k <= mask@.len(),
            mask@.len() == fits@.len(),
            sorting::positions(fits@) == c,
            sorting::positions(chosen@) =~= sorting::pick(c, marked(mask@.take(k as int))),
        decreases mask@.len() - k,
    {
        assert(mask@.take(k + 1).drop_last() =~= mask@.take(k as int));
        let ghost part = marked(mask@.take(k as int));
        if mask[k] {
            assert(c[k as int] == fits@[k as int]);
            assert(sorting::pick(c, part.push(k as int)) =~= sorting::pick(c, part).push(
                c[k as int],
            ));
            chosen.push(fits[k]);
        }
        k = k + 1;
    }
    assert(mask@.take(mask@.len() as int) =~= mask@);
    proof {
        lemma_positions(chosen@);
    }
    chosen
}

proof fn lemma_positions(v: Seq<usize>)
    ensures
        forall|a: int| 0 <= a < v.len() ==> sorting::positions(v)[a] == #[trigger] v[a],
{
}

} // verus!
