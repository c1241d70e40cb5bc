//! Minimum-cost code lengths under a length limit.
//!
//! The counts are taken in ascending order, `a[0] <= a[1] <= ...`. A code
//! is built level by level from the root: at depth `d` there are `m` free
//! nodes and the `n` smallest counts still lack a codeword. Either the
//! largest of them takes one of the free nodes (a codeword of length `d`),
//! or every free node splits into two at depth `d + 1`. The cost of a code
//! is `sum_j a[j] * length[j]`; going one level deeper costs the sum of the
//! counts still waiting, which is how `min_cost` charges it.

use vstd::prelude::*;
use vstd::arithmetic::power::*;
use crate::kraft::{kraft_weight, lemma_kraft_weight_nonneg, lemma_pow_nonneg};

verus! {

/// Sum of the first `n` counts.
pub open spec fn prefix_sum(a: Seq<nat>, n: nat) -> nat
    decreases n,
{
    if n == 0 {
        0
    } else {
        prefix_sum(a, (n - 1) as nat) + a[n - 1]
    }
}

/// `sum_j a[j] * x[j]`: the cost of lengths `x` for counts `a`.
pub open spec fn weighted(a: Seq<nat>, x: Seq<usize>) -> int
    decreases x.len(),
{
    if x.len() == 0 {
        0
    } else {
        weighted(a.drop_last(), x.drop_last()) + a.last() * x.last()
    }
}

/// The free nodes one level down, of which no more than `n` can be used.
pub open spec fn deeper_nodes(m: nat, n: nat) -> nat {
    if 2 * m < n { 2 * m } else { n }
}

/// Placing a codeword now is at least as cheap as going deeper.
pub open spec fn prefer_place(p: Option<nat>, q: Option<nat>) -> bool {
    match p {
        Some(x) => match q {
            Some(y) => x <= y,
            None => true,
        },
        None => false,
    }
}

/// The least extra cost, over the cost of stopping every waiting codeword
/// at the current depth, of giving codewords to the `n` smallest counts
/// from `m` free nodes with at most `k` more levels; `None` when they do
/// not fit.
pub open spec fn min_cost(a: Seq<nat>, k: nat, n: nat, m: nat) -> Option<nat>
    decreases k, n,
{
    if m >= n {
        Some(0)
    } else if k == 0 {
        None
    } else {
        let p = if m >= 1 { min_cost(a, k, (n - 1) as nat, (m - 1) as nat) } else { None };
        let q = match min_cost(a, (k - 1) as nat, n, deeper_nodes(m, n)) {
            Some(c) => Some(c + prefix_sum(a, n)),
            None => None,
        };
        if prefer_place(p, q) { p } else { q }
    }
}

/// The cost when the largest waiting count takes a free node now.
pub open spec fn place_cost(a: Seq<nat>, k: nat, n: nat, m: nat) -> Option<nat> {
    if m >= 1 && n >= 1 { min_cost(a, k, (n - 1) as nat, (m - 1) as nat) } else { None }
}

/// The cost when every free node splits.
pub open spec fn deeper_cost(a: Seq<nat>, k: nat, n: nat, m: nat) -> Option<nat> {
    match min_cost(a, (k - 1) as nat, n, deeper_nodes(m, n)) {
        Some(c) => Some(c + prefix_sum(a, n)),
        None => None,
    }
}

/// Whether the cheapest way on places the largest waiting count now.
pub open spec fn places(a: Seq<nat>, k: nat, n: nat, m: nat) -> bool {
    &&& m < n
    &&& k > 0
    &&& prefer_place(place_cost(a, k, n, m), deeper_cost(a, k, n, m))
}

/// The lengths that `min_cost` chooses for the `n` smallest counts,
/// starting at depth `d`.
pub open spec fn plan(a: Seq<nat>, k: nat, n: nat, m: nat, d: nat) -> Seq<usize>
    decreases k, n,
{
    if m >= n || k == 0 {
        Seq::new(n, |j: int| d as usize)
    } else if places(a, k, n, m) {
        plan(a, k, (n - 1) as nat, (m - 1) as nat, d).push(d as usize)
    } else {
        plan(a, (k - 1) as nat, n, deeper_nodes(m, n), d + 1)
    }
}

/// Below the limit, `min_cost` takes the cheaper of its two moves.
pub(crate) proof fn lemma_min_cost_unfold(a: Seq<nat>, k: nat, n: nat, m: nat)
    requires
        m < n,
        k > 0,
    ensures
        min_cost(a, k, n, m) == if places(a, k, n, m) {
            place_cost(a, k, n, m)
        } else {
            deeper_cost(a, k, n, m)
        },
{
}

/// `2^e` is positive.
proof fn lemma_pow2_pos(e: nat)
    ensures
        pow(2, e) >= 1,
{
    lemma_pow_positive(2, e);
}

/// `2^(e - d) == 2 * 2^(e - d - 1)` for `d < e`.
pub(crate) proof fn lemma_pow2_split(e: nat, d: nat)
    requires
        d < e,
    ensures
        pow(2, (e - d) as nat) == 2 * pow(2, (e - d - 1) as nat),
{
    lemma_pow_adds(2, 1, (e - d - 1) as nat);
    lemma_pow1(2);
    assert((1 + (e - d - 1)) as nat == (e - d) as nat);
}

/// Codewords of lengths between `lo` and `hi`, at most `e`, weigh between
/// `2^(e - hi)` and `2^(e - lo)` each.
pub(crate) proof fn lemma_kraft_weight_bounds(x: Seq<usize>, e: nat, lo: nat, hi: nat)
    requires
        lo <= hi <= e,
        forall|j: int| 0 <= j < x.len() ==> lo <= #[trigger] x[j] <= hi,
    ensures
        x.len() * pow(2, (e - hi) as nat) <= kraft_weight(x, 2, e),
        kraft_weight(x, 2, e) <= x.len() * pow(2, (e - lo) as nat),
    decreases x.len(),
{
    if x.len() > 0 {
        let t = x.drop_last();
        assert forall|j: int| 0 <= j < t.len() implies lo <= #[trigger] t[j] <= hi by {
            assert(t[j] == x[j]);
        }
        lemma_kraft_weight_bounds(t, e, lo, hi);
        assert(x[x.len() - 1] == x.last());
        let l = x.last() as nat;
        lemma_pow_increases(2, (e - hi) as nat, (e - l) as nat);
        lemma_pow_increases(2, (e - l) as nat, (e - lo) as nat);
        let ph = pow(2, (e - hi) as nat);
        let pl = pow(2, (e - lo) as nat);
        let n: int = t.len() as int;
        assert((n + 1) * ph == n * ph + ph) by (nonlinear_arith);
        assert((n + 1) * pl == n * pl + pl) by (nonlinear_arith);
        assert(kraft_weight(x, 2, e) == kraft_weight(t, 2, e) + pow(2, (e - l) as nat));
        assert(x.len() == n + 1);
    } else {
        assert(x.len() * pow(2, (e - hi) as nat) == 0) by (nonlinear_arith)
            requires
                x.len() == 0,
        ;
        assert(x.len() * pow(2, (e - lo) as nat) == 0) by (nonlinear_arith)
            requires
                x.len() == 0,
        ;
    }
}

/// Codewords all of length `d` weigh `n * 2^(e - d)`, and cost `d` per count.
pub(crate) proof fn lemma_constant_lengths(a: Seq<nat>, n: nat, d: nat, e: nat)
    requires
        n <= a.len(),
        d <= e,
        d <= usize::MAX,
    ensures
        kraft_weight(Seq::new(n, |j: int| d as usize), 2, e) == n * pow(2, (e - d) as nat),
        weighted(a.take(n as int), Seq::new(n, |j: int| d as usize)) == d * prefix_sum(a, n),
    decreases n,
{
    let x = Seq::new(n, |j: int| d as usize);
    if n > 0 {
        lemma_constant_lengths(a, (n - 1) as nat, d, e);
        assert(x.drop_last() =~= Seq::new((n - 1) as nat, |j: int| d as usize));
        assert(a.take(n as int).drop_last() =~= a.take(n - 1));
        assert(a.take(n as int).last() == a[n - 1]);
        assert(x.last() == d as usize);
        assert(weighted(a.take(n as int), x) == weighted(a.take(n - 1), x.drop_last()) + a[n - 1] * d);
        let p = pow(2, (e - d) as nat);
        assert((n - 1) * p + p == n * p) by (nonlinear_arith);
        assert(d * prefix_sum(a, (n - 1) as nat) + a[n - 1] * d == d * prefix_sum(a, n)) by (nonlinear_arith)
            requires
                prefix_sum(a, n) == prefix_sum(a, (n - 1) as nat) + a[n - 1],
        ;
    } else {
        assert(x.len() == 0);
        assert(n * pow(2, (e - d) as nat) == 0) by (nonlinear_arith)
            requires
                n == 0,
        ;
        assert(d * prefix_sum(a, n) == 0) by (nonlinear_arith)
            requires
                prefix_sum(a, n) == 0,
        ;
    }
}

/// Lengths of at least `d` cost at least `d` per count.
proof fn lemma_weighted_at_least(a: Seq<nat>, y: Seq<usize>, d: nat)
    requires
        y.len() <= a.len(),
        forall|j: int| 0 <= j < y.len() ==> d <= #[trigger] y[j],
    ensures
        weighted(a.take(y.len() as int), y) >= d * prefix_sum(a, y.len()),
    decreases y.len(),
{
    let n = y.len();
    if n > 0 {
        let t = y.drop_last();
        assert forall|j: int| 0 <= j < t.len() implies d <= #[trigger] t[j] by {
            assert(t[j] == y[j]);
        }
        lemma_weighted_at_least(a, t, d);
        assert(a.take(n as int).drop_last() =~= a.take(n - 1));
        assert(y[n - 1] == y.last());
        assert(a.take(n as int).last() == a[n - 1]);
        let w = weighted(a.take(n - 1), t);
        assert(weighted(a.take(n as int), y) == w + a[n - 1] * y.last());
        let yl = y.last() as int;
        let al = a[n - 1] as int;
        assert(w + al * yl >= d * (prefix_sum(a, (n - 1) as nat) + al)) by (nonlinear_arith)
            requires
                w >= d * prefix_sum(a, (n - 1) as nat),
                yl >= d,
                al >= 0,
        ;
    } else {
        assert(d * prefix_sum(a, y.len()) == 0) by (nonlinear_arith)
            requires
                prefix_sum(a, y.len()) == 0,
        ;
    }
}

/// The chosen lengths are one per count.
pub(crate) proof fn lemma_plan_len(a: Seq<nat>, k: nat, n: nat, m: nat, d: nat)
    ensures
        plan(a, k, n, m, d).len() == n,
    decreases k, n,
{
    if !(m >= n || k == 0) {
        if places(a, k, n, m) {
            lemma_plan_len(a, k, (n - 1) as nat, (m - 1) as nat, d);
        } else {
            lemma_plan_len(a, (k - 1) as nat, n, deeper_nodes(m, n), d + 1);
        }
    }
}

/// What `min_cost` finds is at most `k` times the waiting counts.
pub(crate) proof fn lemma_min_cost_bound(a: Seq<nat>, k: nat, n: nat, m: nat)
    requires
        min_cost(a, k, n, m) is Some,
    ensures
        min_cost(a, k, n, m).unwrap() <= k * prefix_sum(a, n),
    decreases k, n,
{
    if m < n && k > 0 {
        lemma_min_cost_unfold(a, k, n, m);
        if places(a, k, n, m) {
            lemma_min_cost_bound(a, k, (n - 1) as nat, (m - 1) as nat);
            assert(k * prefix_sum(a, (n - 1) as nat) <= k * prefix_sum(a, n)) by (nonlinear_arith)
                requires
                    prefix_sum(a, (n - 1) as nat) <= prefix_sum(a, n),
            ;
        } else {
            lemma_min_cost_bound(a, (k - 1) as nat, n, deeper_nodes(m, n));
            assert((k - 1) * prefix_sum(a, n) + prefix_sum(a, n) == k * prefix_sum(a, n)) by (nonlinear_arith);
        }
    } else if m >= n {
        assert(k * prefix_sum(a, n) >= 0) by (nonlinear_arith);
    }
}

/// The chosen lengths: one per count, between `d` and `d + k`, longest
/// first, fitting in the `m` free nodes, at the cost that `min_cost` names.
pub proof fn lemma_plan(a: Seq<nat>, k: nat, n: nat, m: nat, d: nat, e: nat)
    requires
        min_cost(a, k, n, m) is Some,
        n <= a.len(),
        d + k <= e,
        e <= usize::MAX,
    ensures
        plan(a, k, n, m, d).len() == n,
        forall|j: int| 0 <= j < n ==> d <= #[trigger] plan(a, k, n, m, d)[j] <= d + k,
        forall|i: int, j: int| 0 <= i <= j < n ==> plan(a, k, n, m, d)[i] >= plan(a, k, n, m, d)[j],
        weighted(a.take(n as int), plan(a, k, n, m, d)) == min_cost(a, k, n, m).unwrap() + d * prefix_sum(a, n),
        kraft_weight(plan(a, k, n, m, d), 2, e) <= m * pow(2, (e - d) as nat),
    decreases k, n,
{
    let x = plan(a, k, n, m, d);
    if m >= n || k == 0 {
        lemma_constant_lengths(a, n, d, e);
        let p = pow(2, (e - d) as nat);
        lemma_pow2_pos((e - d) as nat);
        assert(n * p <= m * p) by (nonlinear_arith)
            requires
                n <= m,
                p >= 1,
        ;
    } else if places(a, k, n, m) {
        lemma_min_cost_unfold(a, k, n, m);
        lemma_plan(a, k, (n - 1) as nat, (m - 1) as nat, d, e);
        let t = plan(a, k, (n - 1) as nat, (m - 1) as nat, d);
        assert(x == t.push(d as usize));
        assert(x.drop_last() =~= t);
        assert(a.take(n as int).drop_last() =~= a.take(n - 1));
        assert(a.take(n as int).last() == a[n - 1]);
        assert forall|j: int| 0 <= j < n implies d <= #[trigger] x[j] <= d + k by {
            if j < n - 1 {
                assert(x[j] == t[j]);
            }
        }
        assert forall|i: int, j: int| 0 <= i <= j < n implies x[i] >= x[j] by {
            if j < n - 1 {
                assert(x[i] == t[i] && x[j] == t[j]);
            } else if i < n - 1 {
                assert(x[i] == t[i]);
            }
        }
        let p = pow(2, (e - d) as nat);
        assert((m - 1) * p + p == m * p) by (nonlinear_arith)
            requires
                m >= 1,
        ;
        assert(d * prefix_sum(a, (n - 1) as nat) + a[n - 1] * d == d * prefix_sum(a, n)) by (nonlinear_arith)
            requires
                prefix_sum(a, n) == prefix_sum(a, (n - 1) as nat) + a[n - 1],
        ;
    } else {
        lemma_min_cost_unfold(a, k, n, m);
        let m2 = deeper_nodes(m, n);
        lemma_plan(a, (k - 1) as nat, n, m2, d + 1, e);
        let c = min_cost(a, (k - 1) as nat, n, m2).unwrap();
        assert(d * prefix_sum(a, n) + prefix_sum(a, n) == (d + 1) * prefix_sum(a, n)) by (nonlinear_arith);
        lemma_pow2_split(e, d);
        let p1 = pow(2, (e - d - 1) as nat);
        lemma_pow2_pos((e - d - 1) as nat);
        assert(m2 * p1 <= m * (2 * p1)) by (nonlinear_arith)
            requires
                m2 <= 2 * m,
                p1 >= 1,
        ;
        assert((e - (d + 1)) as nat == (e - d - 1) as nat);
    }
}

/// Any lengths for the `n` smallest counts, longest first, between `d` and
/// `e`, that fit in `m` free nodes at depth `d`, cost at least what
/// `min_cost` finds, given enough levels: either `k` levels reach depth `e`,
/// or `k` is at least the shortfall `n - m`.
pub proof fn lemma_min_cost_lower(a: Seq<nat>, k: nat, n: nat, m: nat, d: nat, e: nat, y: Seq<usize>)
    requires
        n <= a.len(),
        y.len() == n,
        forall|i: int, j: int| 0 <= i <= j < n ==> y[i] >= y[j],
        forall|j: int| 0 <= j < n ==> d <= #[trigger] y[j] <= e,
        kraft_weight(y, 2, e) <= m * pow(2, (e - d) as nat),
        k + m >= n || e <= d + k,
    ensures
        min_cost(a, k, n, m) is Some,
        min_cost(a, k, n, m).unwrap() + d * prefix_sum(a, n) <= weighted(a.take(n as int), y),
    decreases k, n,
{
    lemma_weighted_at_least(a, y, d);
    if m < n {
        assert(y[n - 1] <= e);
        lemma_kraft_weight_bounds(y, e, d, e);
        lemma_pow0(2);
        assert((e - e) as nat == 0);
        assert(n * pow(2, 0) == n);
        if k == 0 {
            assert forall|j: int| 0 <= j < n implies #[trigger] y[j] == d by {}
            assert((e - d) as nat == 0);
            assert(m * pow(2, 0) == m);
        }
        assert(k > 0);
        lemma_min_cost_unfold(a, k, n, m);
        let t = y.drop_last();
        let yl = y[n - 1];
        assert(y.last() == yl);
        assert(a.take(n as int).drop_last() =~= a.take(n - 1));
        assert(a.take(n as int).last() == a[n - 1]);
        let p = pow(2, (e - d) as nat);
        lemma_pow2_pos((e - d) as nat);
        if yl == d {
            lemma_kraft_weight_nonneg(t, 2, e);
            assert(kraft_weight(y, 2, e) == kraft_weight(t, 2, e) + p);
            assert(m >= 1) by (nonlinear_arith)
                requires
                    p <= m * p,
                    p >= 1,
            ;
            assert(kraft_weight(t, 2, e) <= (m - 1) * p) by (nonlinear_arith)
                requires
                    kraft_weight(t, 2, e) + p <= m * p,
                    m >= 1,
            ;
            assert forall|i: int, j: int| 0 <= i <= j < n - 1 implies t[i] >= t[j] by {
                assert(t[i] == y[i] && t[j] == y[j]);
            }
            assert forall|j: int| 0 <= j < n - 1 implies d <= #[trigger] t[j] <= e by {
                assert(t[j] == y[j]);
            }
            lemma_min_cost_lower(a, k, (n - 1) as nat, (m - 1) as nat, d, e, t);
            assert(weighted(a.take(n as int), y) == weighted(a.take(n - 1), t) + a[n - 1] * d);
            assert(d * prefix_sum(a, (n - 1) as nat) + a[n - 1] * d == d * prefix_sum(a, n)) by (nonlinear_arith)
                requires
                    prefix_sum(a, n) == prefix_sum(a, (n - 1) as nat) + a[n - 1],
            ;
        } else {
            assert forall|j: int| 0 <= j < n implies d + 1 <= #[trigger] y[j] <= e by {
                assert(y[j] >= y[n - 1]);
            }
            lemma_kraft_weight_bounds(y, e, d + 1, e);
            lemma_pow2_split(e, d);
            let p1 = pow(2, (e - d - 1) as nat);
            assert((e - (d + 1)) as nat == (e - d - 1) as nat);
            let m2 = deeper_nodes(m, n);
            if m == 0 {
                assert(m * p == 0) by (nonlinear_arith)
                    requires
                        m == 0,
                ;
            }
            assert(kraft_weight(y, 2, e) <= m2 * p1) by (nonlinear_arith)
                requires
                    kraft_weight(y, 2, e) <= m * (2 * p1),
                    kraft_weight(y, 2, e) <= n * p1,
                    m2 == 2 * m || m2 == n,
            ;
            lemma_min_cost_lower(a, (k - 1) as nat, n, m2, d + 1, e, y);
            assert(d * prefix_sum(a, n) + prefix_sum(a, n) == (d + 1) * prefix_sum(a, n)) by (nonlinear_arith);
        }
    }
}

/// `weighted` loses one term when a position is removed from both sides.
proof fn lemma_weighted_remove(c: Seq<nat>, x: Seq<usize>, p: int)
    requires
        c.len() == x.len(),
        0 <= p < x.len(),
    ensures
        weighted(c, x) == weighted(c.remove(p), x.remove(p)) + c[p] * x[p],
    decreases x.len(),
{
    if p < x.len() - 1 {
        lemma_weighted_remove(c.drop_last(), x.drop_last(), p);
        assert(c.remove(p).drop_last() =~= c.drop_last().remove(p));
        assert(x.remove(p).drop_last() =~= x.drop_last().remove(p));
        assert(c.remove(p).last() == c.last());
        assert(x.remove(p).last() == x.last());
    } else {
        assert(c.remove(p) =~= c.drop_last());
        assert(x.remove(p) =~= x.drop_last());
    }
}

/// Changing one length changes one term of `weighted`.
proof fn lemma_weighted_update(c: Seq<nat>, x: Seq<usize>, p: int, v: usize)
    requires
        c.len() == x.len(),
        0 <= p < x.len(),
    ensures
        weighted(c, x.update(p, v)) == weighted(c, x) - c[p] * x[p] + c[p] * v,
{
    lemma_weighted_remove(c, x, p);
    lemma_weighted_remove(c, x.update(p, v), p);
    assert(x.update(p, v).remove(p) =~= x.remove(p));
}

/// A position of a shortest length.
proof fn lemma_min_index(x: Seq<usize>) -> (q: int)
    requires
        x.len() > 0,
    ensures
        0 <= q < x.len(),
        forall|r: int| 0 <= r < x.len() ==> x[q] <= #[trigger] x[r],
    decreases x.len(),
{
    if x.len() == 1 {
        0
    } else {
        let t = x.drop_last();
        let q0 = lemma_min_index(t);
        assert(x[q0] == t[q0]);
        if x.last() < x[q0] {
            assert forall|r: int| 0 <= r < x.len() implies x[x.len() - 1] <= #[trigger] x[r] by {
                if r < x.len() - 1 {
                    assert(x[r] == t[r]);
                }
            }
            x.len() - 1
        } else {
            assert forall|r: int| 0 <= r < x.len() implies x[q0] <= #[trigger] x[r] by {
                if r < x.len() - 1 {
                    assert(x[r] == t[r]);
                }
            }
            q0
        }
    }
}

/// Giving the shorter lengths to the larger counts never costs more: for
/// counts `c` whose ascending order is `a`, the lengths `x` rearranged
/// longest first cost no more against `a` than `x` against `c`.
pub proof fn lemma_exchange(c: Seq<nat>, x: Seq<usize>, a: Seq<nat>) -> (y: Seq<usize>)
    requires
        c.len() == x.len(),
        a.len() == x.len(),
        a.to_multiset() == c.to_multiset(),
        forall|i: int, j: int| 0 <= i <= j < a.len() ==> a[i] <= a[j],
    ensures
        y.len() == x.len(),
        y.to_multiset() == x.to_multiset(),
        forall|i: int, j: int| 0 <= i <= j < y.len() ==> y[i] >= y[j],
        weighted(a, y) <= weighted(c, x),
    decreases x.len(),
{
    broadcast use vstd::seq_lib::group_to_multiset_ensures;
    broadcast use vstd::multiset::group_multiset_axioms;
    let n = x.len();
    if n == 0 {
        x
    } else {
        let top = a[n - 1];
        assert(a.to_multiset().count(top) > 0);
        assert(c.to_multiset().count(top) > 0);
        let p = choose|p: int| 0 <= p < c.len() && c[p] == top;
        assert forall|r: int| 0 <= r < n implies #[trigger] c[r] <= top by {
            assert(c.to_multiset().count(c[r]) > 0);
            assert(a.to_multiset().count(c[r]) > 0);
            let i = choose|i: int| 0 <= i < a.len() && a[i] == c[r];
        }
        let q = lemma_min_index(x);
        let lo = x[q];
        let xp = x[p];
        let x0 = x.update(q, xp);
        let x1 = x0.update(p, lo);
        assert(x0[p] == xp);
        assert(x1[p] == lo);
        lemma_weighted_update(c, x, q, xp);
        lemma_weighted_update(c, x0, p, lo);
        let cp = c[p] as int;
        let cq = c[q] as int;
        assert(cp * lo + cq * xp <= cp * xp + cq * lo) by (nonlinear_arith)
            requires
                cq <= cp,
                lo <= xp,
        ;
        assert(weighted(c, x1) <= weighted(c, x));
        assert(x1.to_multiset() =~= x.to_multiset());
        let c2 = c.remove(p);
        let x2 = x1.remove(p);
        let a2 = a.drop_last();
        lemma_weighted_remove(c, x1, p);
        assert(a2.to_multiset() =~= a.to_multiset().remove(top)) by {
            assert(a2.push(top) =~= a);
        }
        assert(c2.to_multiset() =~= c.to_multiset().remove(top));
        let y2 = lemma_exchange(c2, x2, a2);
        let y = y2.push(lo);
        assert(y.drop_last() =~= y2);
        assert(weighted(a, y) == weighted(a2, y2) + top * lo);
        assert(x2.to_multiset() =~= x1.to_multiset().remove(lo));
        assert(y.to_multiset() =~= y2.to_multiset().insert(lo));
        assert(y.to_multiset() =~= x.to_multiset());
        assert forall|i: int, j: int| 0 <= i <= j < y.len() implies y[i] >= y[j] by {
            if j < n - 1 {
                assert(y[i] == y2[i] && y[j] == y2[j]);
            } else {
                assert(y.to_multiset().count(y[i]) > 0);
                assert(x.to_multiset().count(y[i]) > 0);
                let r = choose|r: int| 0 <= r < x.len() && x[r] == y[i];
            }
        }
        y
    }
}

/// The counts as natural numbers.
pub open spec fn nat_counts(s: Seq<usize>) -> Seq<nat> {
    s.map_values(|x: usize| x as nat)
}

/// The free nodes at depth one, of which no more than `n` can be used.
pub open spec fn initial_nodes(n: nat) -> nat {
    if n < 2 { n } else { 2 }
}

/// A stored cost as a natural number.
pub open spec fn lift(o: Option<u128>) -> Option<nat> {
    match o {
        Some(v) => Some(v as nat),
        None => None,
    }
}

/// `s[j]` is the sum of the first `j` counts.
fn prefix_sums(counts: &Vec<usize>) -> (s: Vec<u128>)
    requires
        counts@.len() <= 256,
    ensures
        s@.len() == counts@.len() + 1,
        forall|j: int| 0 <= j <= counts@.len() ==> #[trigger] s@[j] == prefix_sum(nat_counts(counts@), j as nat),
        forall|j: nat| j <= counts@.len() ==> #[trigger] prefix_sum(nat_counts(counts@), j) <= j * usize::MAX,
{
    let ghost a = nat_counts(counts@);
    let mut s: Vec<u128> = Vec::new();
    s.push(0);
    let mut acc: u128 = 0;
    let mut j: usize = 0;
    while j < counts.len()
        invariant
            j <= counts@.len() <= 256,
            a == nat_counts(counts@),
            s@.len() == j + 1,
            acc == prefix_sum(a, j as nat),
            forall|i: int| 0 <= i <= j ==> #[trigger] s@[i] == prefix_sum(a, i as nat),
            forall|i: nat| i <= j ==> #[trigger] prefix_sum(a, i) <= i * usize::MAX,
        decreases counts@.len() - j,
    {
        assert(a[j as int] == counts@[j as int]);
        assert(prefix_sum(a, j as nat + 1) == acc + counts@[j as int]);
        assert(acc + counts@[j as int] <= (j + 1) * usize::MAX) by (nonlinear_arith)
            requires
                acc <= j * usize::MAX,
                counts@[j as int] <= usize::MAX,
        ;
        assert((j + 1) * usize::MAX <= 256 * usize::MAX) by (nonlinear_arith)
            requires
                j + 1 <= 256,
        ;
        acc = acc + counts[j] as u128;
        s.push(acc);
        j = j + 1;
    }
    s
}

/// The lengths that `min_cost` chooses for all counts, in ascending order
/// of count, with at most `kx` levels below depth one.
pub(crate) fn min_cost_plan(counts: &Vec<usize>, kx: usize) -> (ps: Vec<usize>)
    requires
        counts@.len() <= 256,
        kx <= 256,
    ensures
        ps@ == plan(nat_counts(counts@), kx as nat, counts@.len() as nat, initial_nodes(counts@.len() as nat), 1),
        ps@.len() == counts@.len(),
{
    let ghost a = nat_counts(counts@);
    let n = counts.len();
    let sums = prefix_sums(counts);
    let mut dec: Vec<Vec<Vec<bool>>> = Vec::new();
    let mut prev: Vec<Vec<Option<u128>>> = Vec::new();
    let mut k: usize = 0;
    while k <= kx
        invariant
            k <= kx + 1,
            n == counts@.len(),
            n <= 256,
            kx <= 256,
            a == nat_counts(counts@),
            sums@.len() == n + 1,
            forall|j: int| 0 <= j <= n ==> #[trigger] sums@[j] == prefix_sum(a, j as nat),
            forall|j: nat| j <= n ==> #[trigger] prefix_sum(a, j) <= j * usize::MAX,
            dec@.len() == k,
            forall|kk: int| 0 <= kk < k ==> (#[trigger] dec@[kk])@.len() == n + 1,
            forall|kk: int, nn: int| 0 <= kk < k && 0 <= nn <= n ==> (#[trigger] dec@[kk]@[nn])@.len() == n + 1,
            forall|kk: int, nn: int, mm: int|
                0 <= kk < k && 0 <= nn <= n && 0 <= mm <= n ==> #[trigger] dec@[kk]@[nn]@[mm] == places(
                    a,
                    kk as nat,
                    nn as nat,
                    mm as nat,
                ),
            k > 0 ==> prev@.len() == n + 1,
            k > 0 ==> forall|nn: int| 0 <= nn <= n ==> (#[trigger] prev@[nn])@.len() == n + 1,
            k > 0 ==> forall|nn: int, mm: int|
                0 <= nn <= n && 0 <= mm <= n ==> lift(#[trigger] prev@[nn]@[mm]) == min_cost(
                    a,
                    (k - 1) as nat,
                    nn as nat,
                    mm as nat,
                ),
        decreases kx + 1 - k,
    {
        let mut cur: Vec<Vec<Option<u128>>> = Vec::new();
        let mut dk: Vec<Vec<bool>> = Vec::new();
        let mut nn: usize = 0;
        while nn <= n
            invariant
                nn <= n + 1,
                k <= kx,
                n == counts@.len(),
                n <= 256,
                kx <= 256,
                a == nat_counts(counts@),
                sums@.len() == n + 1,
                forall|j: int| 0 <= j <= n ==> #[trigger] sums@[j] == prefix_sum(a, j as nat),
                forall|j: nat| j <= n ==> #[trigger] prefix_sum(a, j) <= j * usize::MAX,
                k > 0 ==> prev@.len() == n + 1,
                k > 0 ==> forall|i: int| 0 <= i <= n ==> (#[trigger] prev@[i])@.len() == n + 1,
                k > 0 ==> forall|i: int, j: int|
                    0 <= i <= n && 0 <= j <= n ==> lift(#[trigger] prev@[i]@[j]) == min_cost(
                        a,
                        (k - 1) as nat,
                        i as nat,
                        j as nat,
                    ),
                cur@.len() == nn,
                dk@.len() == nn,
                forall|i: int| 0 <= i < nn ==> (#[trigger] cur@[i])@.len() == n + 1,
                forall|i: int| 0 <= i < nn ==> (#[trigger] dk@[i])@.len() == n + 1,
                forall|i: int, j: int|
                    0 <= i < nn && 0 <= j <= n ==> lift(#[trigger] cur@[i]@[j]) == min_cost(
                        a,
                        k as nat,
                        i as nat,
                        j as nat,
                    ),
                forall|i: int, j: int|
                    0 <= i < nn && 0 <= j <= n ==> #[trigger] dk@[i]@[j] == places(a, k as nat, i as nat, j as nat),
            decreases n + 1 - nn,
        {
            let mut row: Vec<Option<u128>> = Vec::new();
            let mut drow: Vec<bool> = Vec::new();
            let mut mm: usize = 0;
            while mm <= n
                invariant
                    mm <= n + 1,
                    nn <= n,
                    k <= kx,
                    n == counts@.len(),
                    n <= 256,
                    kx <= 256,
                    a == nat_counts(counts@),
                    sums@.len() == n + 1,
                    forall|j: int| 0 <= j <= n ==> #[trigger] sums@[j] == prefix_sum(a, j as nat),
                    forall|j: nat| j <= n ==> #[trigger] prefix_sum(a, j) <= j * usize::MAX,
                    k > 0 ==> prev@.len() == n + 1,
                    k > 0 ==> forall|i: int| 0 <= i <= n ==> (#[trigger] prev@[i])@.len() == n + 1,
                    k > 0 ==> forall|i: int, j: int|
                        0 <= i <= n && 0 <= j <= n ==> lift(#[trigger] prev@[i]@[j]) == min_cost(
                            a,
                            (k - 1) as nat,
                            i as nat,
                            j as nat,
                        ),
                    cur@.len() == nn,
                    forall|i: int| 0 <= i < nn ==> (#[trigger] cur@[i])@.len() == n + 1,
                    forall|i: int, j: int|
                        0 <= i < nn && 0 <= j <= n ==> lift(#[trigger] cur@[i]@[j]) == min_cost(
                            a,
                            k as nat,
                            i as nat,
                            j as nat,
                        ),
                    row@.len() == mm,
                    drow@.len() == mm,
                    forall|j: int| 0 <= j < mm ==> lift(#[trigger] row@[j]) == min_cost(a, k as nat, nn as nat, j as nat),
                    forall|j: int| 0 <= j < mm ==> #[trigger] drow@[j] == places(a, k as nat, nn as nat, j as nat),
                decreases n + 1 - mm,
            {
                let val: Option<u128>;
                let pl: bool;
                if mm >= nn {
                    val = Some(0u128);
                    pl = false;
                } else if k == 0 {
                    val = None;
                    pl = false;
                } else {
                    let p: Option<u128> = if mm >= 1 { cur[nn - 1][mm - 1] } else { None };
                    let m2: usize = if 2 * mm < nn { 2 * mm } else { nn };
                    let q: Option<u128> = match prev[nn][m2] {
                        Some(c) => {
                            proof {
                                lemma_min_cost_bound(a, (k - 1) as nat, nn as nat, m2 as nat);
                                let s = prefix_sum(a, nn as nat);
                                assert((k - 1) * s + s <= 257 * (256 * usize::MAX)) by (nonlinear_arith)
                                    requires
                                        k <= 256,
                                        s <= 256 * usize::MAX,
                                        s <= nn * usize::MAX,
                                        nn <= 256,
                                ;
                                assert(c + s <= u128::MAX);
                            }
                            Some(c + sums[nn])
                        },
                        None => None,
                    };
                    pl = match p {
                        Some(x) => match q {
                            Some(y) => x <= y,
                            None => true,
                        },
                        None => false,
                    };
                    proof {
                        lemma_min_cost_unfold(a, k as nat, nn as nat, mm as nat);
                        assert(lift(p) == place_cost(a, k as nat, nn as nat, mm as nat));
                        assert(lift(q) == deeper_cost(a, k as nat, nn as nat, mm as nat));
                        assert(pl == places(a, k as nat, nn as nat, mm as nat));
                    }
                    val = if pl { p } else { q };
                }
                row.push(val);
                drow.push(pl);
                mm = mm + 1;
            }
            cur.push(row);
            dk.push(drow);
            nn = nn + 1;
        }
        dec.push(dk);
        prev = cur;
        k = k + 1;
    }

    // Follow the decisions from the root.
    let m0: usize = if n < 2 { n } else { 2 };
    let mut ps: Vec<usize> = Vec::new();
    let mut j: usize = 0;
    while j < n
        invariant
            j <= n,
            ps@.len() == j,
        decreases n - j,
    {
        ps.push(0);
        j = j + 1;
    }
    let ghost full = plan(a, kx as nat, n as nat, m0 as nat, 1);
    let mut kk: usize = kx;
    let mut nn: usize = n;
    let mut mm: usize = m0;
    let mut d: usize = 1;
    assert(ps@.subrange(n as int, n as int) =~= Seq::<usize>::empty());
    assert(full + Seq::<usize>::empty() =~= full);
    while mm < nn && kk > 0
        invariant
            kk <= kx,
            nn <= n,
            mm <= n,
            d + kk == 1 + kx,
            n == counts@.len(),
            n <= 256,
            kx <= 256,
            a == nat_counts(counts@),
            ps@.len() == n,
            dec@.len() == kx + 1,
            forall|i: int| 0 <= i <= kx ==> (#[trigger] dec@[i])@.len() == n + 1,
            forall|i: int, j: int| 0 <= i <= kx && 0 <= j <= n ==> (#[trigger] dec@[i]@[j])@.len() == n + 1,
            forall|i: int, j: int, l: int|
                0 <= i <= kx && 0 <= j <= n && 0 <= l <= n ==> #[trigger] dec@[i]@[j]@[l] == places(
                    a,
                    i as nat,
                    j as nat,
                    l as nat,
                ),
            full == plan(a, kk as nat, nn as nat, mm as nat, d as nat) + ps@.subrange(nn as int, n as int),
        decreases kk, nn,
    {
        let ghost before = ps@;
        if dec[kk][nn][mm] {
            let ghost rest = plan(a, kk as nat, (nn - 1) as nat, (mm - 1) as nat, d as nat);
            assert(plan(a, kk as nat, nn as nat, mm as nat, d as nat) == rest.push(d as usize));
            nn = nn - 1;
            mm = mm - 1;
            ps.set(nn, d);
            assert(ps@.subrange(nn as int, n as int) =~= seq![d].add(before.subrange(nn + 1, n as int)));
            assert(rest.push(d as usize) + before.subrange(nn + 1, n as int) =~= rest + ps@.subrange(
                nn as int,
                n as int,
            ));
        } else {
            mm = if 2 * mm < nn { 2 * mm } else { nn };
            kk = kk - 1;
            d = d + 1;
        }
    }
    let ghost tail = ps@.subrange(nn as int, n as int);
    let mut j: usize = 0;
    while j < nn
        invariant
            j <= nn <= n,
            ps@.len() == n,
            ps@.subrange(nn as int, n as int) == tail,
            forall|i: int| 0 <= i < j ==> #[trigger] ps@[i] == d,
        decreases nn - j,
    {
        ps.set(j, d);
        j = j + 1;
        assert(ps@.subrange(nn as int, n as int) =~= tail);
    }
    assert(plan(a, kk as nat, nn as nat, mm as nat, d as nat) =~= Seq::new(nn as nat, |i: int| d as usize));
    assert(ps@ =~= Seq::new(nn as nat, |i: int| d as usize) + tail);
    proof {
        lemma_plan_len(a, kx as nat, n as nat, m0 as nat, 1);
    }
    ps
}

} // verus!
