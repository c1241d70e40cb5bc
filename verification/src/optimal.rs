//! Optimal code length computation.

use vstd::prelude::*;
use vstd::arithmetic::power::*;
use vstd::relations::{sorted_by, total_ordering};
use crate::kraft::{
    entry_le, entry_lengths, kraft_holds, kraft_weight, lemma_kraft_holds_permutation,
    lemma_kraft_weight_scale, lemma_map_values_permutation, lemma_max_length, max_length, sort_entries,
    sorted_by_length,
};
use crate::length_limit::{
    initial_nodes, lemma_constant_lengths, lemma_exchange, lemma_kraft_weight_bounds, lemma_min_cost_lower,
    lemma_plan, lemma_pow2_split, min_cost, min_cost_plan, nat_counts, plan, prefix_sum, weighted,
};
use crate::probability::FrequencyDistribution;

verus! {

/// The number of doublings that take `count` to at least `total`: the
/// smallest `l` with `count * 2^l >= total`, i.e. `ceil(-log2(count / total))`.
pub open spec fn shannon_length(count: nat, total: nat) -> nat
    decreases total - count,
{
    if count == 0 || count >= total {
        0
    } else if 2 * count >= total {
        1
    } else {
        1 + shannon_length(2 * count, total)
    }
}

/// The code length of a symbol seen `count` times out of `total`:
/// `ceil(-log2(count / total))`, but at least one bit.
pub open spec fn code_length(count: nat, total: nat) -> nat {
    let l = shannon_length(count, total);
    if l < 1 { 1 } else { l }
}

/// The optimal code: every occurring symbol, in ascending order, with its
/// code length.
pub open spec fn optimal_lengths(freq: FrequencyDistribution) -> Seq<(u8, usize)> {
    freq.symbols().map_values(|s: u8| (s, code_length(freq.count_of(s), freq.total_of()) as usize))
}

/// `shannon_length` is the least `l` with `count * 2^l >= total`.
pub proof fn lemma_shannon_length(count: nat, total: nat)
    requires
        count >= 1,
    ensures
        count * pow(2, shannon_length(count, total)) >= total,
        shannon_length(count, total) > 0 ==> count * pow(2, (shannon_length(count, total) - 1) as nat) < total,
    decreases total - count,
{
    lemma_pow0(2);
    lemma_pow1(2);
    if count < total && 2 * count >= total {
        assert(count * pow(2, 1) == 2 * count);
        assert(count * pow(2, 0) == count);
    } else if count < total {
        lemma_shannon_length(2 * count, total);
        let l = shannon_length(2 * count, total);
        lemma_pow_adds(2, 1, l);
        lemma_pow1(2);
        assert(count * pow(2, l + 1) == (2 * count) * pow(2, l)) by (nonlinear_arith)
            requires
                pow(2, l + 1) == 2 * pow(2, l),
        ;
        if l > 0 {
            lemma_pow_adds(2, 1, (l - 1) as nat);
            assert(count * pow(2, l) == (2 * count) * pow(2, (l - 1) as nat)) by (nonlinear_arith)
                requires
                    pow(2, l) == 2 * pow(2, (l - 1) as nat),
            ;
        }
    }
}

/// Code lengths of counts out of a total below `2^64` are at most 64 bits.
proof fn lemma_code_length_bound(count: nat, total: nat)
    requires
        count >= 1,
        total <= u64::MAX,
    ensures
        1 <= code_length(count, total) <= 64,
{
    lemma_shannon_length(count, total);
    let l = shannon_length(count, total);
    if l > 64 {
        lemma_pow_increases(2, 64, (l - 1) as nat);
        vstd::arithmetic::power2::lemma2_to64_rest();
        vstd::arithmetic::power2::lemma_pow2(64);
        assert(count * pow(2, (l - 1) as nat) >= pow(2, (l - 1) as nat)) by (nonlinear_arith)
            requires
                count >= 1,
                pow(2, (l - 1) as nat) >= 0,
        ;
    }
}

/// `ceil(-log2(count / total))`, at least one.
fn shannon_code_length(count: usize, total: usize) -> (l: usize)
    requires
        count >= 1,
    ensures
        l == code_length(count as nat, total as nat),
{
    proof {
        lemma_code_length_bound(count as nat, total as nat);
    }
    let mut v: u128 = count as u128;
    let mut k: usize = 0;
    while v < total as u128
        invariant
            v >= 1,
            k <= 64,
            shannon_length(count as nat, total as nat) == k + shannon_length(v as nat, total as nat),
            shannon_length(count as nat, total as nat) <= 64,
            total <= u64::MAX,
        decreases 64 - k,
    {
        v = v * 2;
        k = k + 1;
    }
    if k < 1 { 1 } else { k }
}

/// Every length of the optimal code is the Shannon length of its symbol:
/// the least `l >= 1` with `count * 2^l >= total`.
pub proof fn lemma_optimal_lengths_shannon(freq: FrequencyDistribution)
    requires
        forall|s: u8| #[trigger] freq.count_of(s) <= freq.total_of(),
        freq.total_of() <= usize::MAX,
    ensures
        optimal_lengths(freq).map_values(|e: (u8, usize)| e.0) == freq.symbols(),
        forall|i: int|
            0 <= i < optimal_lengths(freq).len() ==> {
                let l = (#[trigger] optimal_lengths(freq)[i]).1 as nat;
                let c = freq.count_of(optimal_lengths(freq)[i].0);
                &&& l >= 1
                &&& c * pow(2, l) >= freq.total_of()
                &&& (l == 1 || c * pow(2, (l - 1) as nat) < freq.total_of())
            },
{
    let ol = optimal_lengths(freq);
    let t = freq.total_of();
    assert(ol.map_values(|e: (u8, usize)| e.0) =~= freq.symbols());
    crate::probability::lemma_symbols_occur(&freq, 256);
    assert forall|i: int| 0 <= i < ol.len() implies {
        let l = (#[trigger] ol[i]).1 as nat;
        let c = freq.count_of(ol[i].0);
        &&& l >= 1
        &&& c * pow(2, l) >= t
        &&& (l == 1 || c * pow(2, (l - 1) as nat) < t)
    } by {
        let s = freq.symbols()[i];
        let c = freq.count_of(s);
        assert(c > 0);
        lemma_code_length_bound(c, t);
        lemma_shannon_length(c, t);
        let sl = shannon_length(c, t);
        assert(ol[i] == (s, code_length(c, t) as usize));
        if sl == 0 {
            lemma_pow0(2);
            lemma_pow1(2);
            assert(c * pow(2, 1) >= c * pow(2, 0)) by (nonlinear_arith)
                requires
                    pow(2, 1) == 2,
                    pow(2, 0) == 1,
                    c >= 0,
            ;
        }
    }
}

/// Compute optimal code lengths (in bits) for each symbol based on frequency.
/// Uses the formula: l_i = ceil(-log2(p_i)), with a minimum of one bit.
/// Symbols with zero probability are excluded. The lengths satisfy Kraft's
/// inequality.
pub fn optimal_code_lengths(freq: &FrequencyDistribution) -> (lengths: Vec<(u8, usize)>)
    ensures
        lengths@ == optimal_lengths(*freq),
        forall|i: int| 0 <= i < lengths@.len() ==> 1 <= #[trigger] lengths@[i].1 <= 64,
        kraft_holds(entry_lengths(lengths@), 2),
        lengths@.map_values(|e: (u8, usize)| e.0) == freq.symbols(),
        forall|i: int|
            0 <= i < lengths@.len() ==> {
                let l = (#[trigger] lengths@[i]).1 as nat;
                let c = freq.count_of(lengths@[i].0);
                &&& c * pow(2, l) >= freq.total_of()
                &&& (l == 1 || c * pow(2, (l - 1) as nat) < freq.total_of())
            },
{
    let total = freq.total();
    let mut lengths: Vec<(u8, usize)> = Vec::new();
    let mut k: usize = 0;
    while k < 256
        invariant
            k <= 256,
            total == freq.total_of(),
            forall|s: u8| #[trigger] freq.count_of(s) <= freq.total_of(),
            lengths@ == freq.symbols_below(k as nat).map_values(
                |s: u8| (s, code_length(freq.count_of(s), freq.total_of()) as usize),
            ),
            forall|i: int| 0 <= i < lengths@.len() ==> 1 <= #[trigger] lengths@[i].1 <= 64,
        decreases 256 - k,
    {
        let s = k as u8;
        let c = freq.count(s);
        if c > 0 {
            proof {
                lemma_code_length_bound(c as nat, total as nat);
            }
            let l = shannon_code_length(c, total);
            lengths.push((s, l));
        }
        k = k + 1;
        proof {
            assert(((k - 1) as u8) == s);
            assert(lengths@ =~= freq.symbols_below(k as nat).map_values(
                |s: u8| (s, code_length(freq.count_of(s), freq.total_of()) as usize),
            ));
        }
    }
    proof {
        lemma_shannon_kraft(freq, lengths@);
        crate::probability::lemma_total_bound(freq);
        lemma_optimal_lengths_shannon(*freq);
    }
    lengths
}

/// `total * sum_s 2^(depth - l_s) <= 2^depth * sum_s count_s` over the
/// symbols below `k`, when every length is at least its Shannon length.
proof fn lemma_shannon_kraft_partial(freq: &FrequencyDistribution, depth: nat, k: nat)
    requires
        k <= 256,
        freq.total_of() > 0,
        forall|s: u8| #[trigger] freq.count_of(s) <= freq.total_of(),
        forall|s: u8| freq.count_of(s) > 0 ==> #[trigger] code_length(freq.count_of(s), freq.total_of()) <= depth,
    ensures
        ({
            let ls = entry_lengths(freq.symbols_below(k).map_values(
                |s: u8| (s, code_length(freq.count_of(s), freq.total_of()) as usize),
            ));
            freq.total_of() * kraft_weight(ls, 2, depth) <= pow(2, depth) * freq.count_sum(k)
        }),
    decreases k,
{
    let f = |s: u8| (s, code_length(freq.count_of(s), freq.total_of()) as usize);
    let t = freq.total_of() as int;
    crate::probability::lemma_total_bound(freq);
    lemma_pow_positive(2, depth);
    if k > 0 {
        lemma_shannon_kraft_partial(freq, depth, (k - 1) as nat);
        let s = (k - 1) as u8;
        let c = freq.count_of(s);
        let prev = entry_lengths(freq.symbols_below((k - 1) as nat).map_values(f));
        let cur = entry_lengths(freq.symbols_below(k).map_values(f));
        crate::probability::lemma_count_sum_step(freq, k);
        if c > 0 {
            let l = code_length(c, freq.total_of());
            lemma_code_length_bound(c, freq.total_of());
            assert(cur =~= prev.push(l as usize));
            assert(cur.drop_last() =~= prev);
            lemma_shannon_length(c, freq.total_of());
            // c * 2^l >= t, so t * 2^(depth - l) <= c * 2^depth.
            lemma_pow_increases(2, shannon_length(c, freq.total_of()), l);
            lemma_pow_adds(2, (depth - l) as nat, l);
            let a = pow(2, (depth - l) as nat);
            let b = pow(2, l);
            lemma_pow_positive(2, (depth - l) as nat);
            let b0 = pow(2, shannon_length(c, freq.total_of()));
            assert(c * b >= t) by (nonlinear_arith)
                requires
                    c * b0 >= t,
                    b0 <= b,
                    c >= 0,
            ;
            assert(t * a <= c * (a * b)) by (nonlinear_arith)
                requires
                    c * b >= t,
                    a > 0,
            ;
            assert(((depth - l) as nat + l) as nat == depth);
            let p = pow(2, depth);
            assert(a * b == p);
            let wp = kraft_weight(prev, 2, depth);
            assert(kraft_weight(cur, 2, depth) == wp + a);
            let sp = freq.count_sum((k - 1) as nat);
            assert(t * (wp + a) <= p * (sp + c)) by (nonlinear_arith)
                requires
                    t * wp <= p * sp,
                    t * a <= c * p,
            ;
        } else {
            assert(cur =~= prev);
        }
    } else {
        assert(entry_lengths(freq.symbols_below(0).map_values(f)) =~= Seq::<usize>::empty());
    }
}

/// Shannon code lengths satisfy Kraft's inequality.
proof fn lemma_shannon_kraft(freq: &FrequencyDistribution, lengths: Seq<(u8, usize)>)
    requires
        lengths == freq.symbols().map_values(
            |s: u8| (s, code_length(freq.count_of(s), freq.total_of()) as usize),
        ),
        forall|s: u8| #[trigger] freq.count_of(s) <= freq.total_of(),
        freq.total_of() == freq.count_sum(256),
    ensures
        kraft_holds(entry_lengths(lengths), 2),
{
    let ls = entry_lengths(lengths);
    let d = max_length(ls);
    lemma_max_length(ls);
    crate::probability::lemma_total_bound(freq);
    if freq.total_of() == 0 {
        crate::probability::lemma_no_symbols(freq, 256);
        assert(ls =~= Seq::<usize>::empty());
        lemma_pow0(2);
    } else {
        assert forall|s: u8| freq.count_of(s) > 0 implies #[trigger] code_length(freq.count_of(s), freq.total_of()) <= d by {
            crate::probability::lemma_symbols_contains(freq, s, 256);
            let i = choose|i: int| 0 <= i < freq.symbols().len() && freq.symbols()[i] == s;
            lemma_code_length_bound(freq.count_of(s), freq.total_of());
            assert(ls[i] == code_length(freq.count_of(s), freq.total_of()));
        }
        lemma_shannon_kraft_partial(freq, d, 256);
        lemma_pow_positive(2, d);
        let t = freq.total_of() as int;
        let w = kraft_weight(ls, 2, d);
        assert(w <= pow(2, d)) by (nonlinear_arith)
            requires
                t * w <= pow(2, d) * t,
                t > 0,
        ;
    }
}

/// `2^e` as a `u128`.
fn pow2_u128(e: usize) -> (p: u128)
    requires
        e <= 127,
    ensures
        p == pow(2, e as nat),
{
    let mut p: u128 = 1;
    let mut i: usize = 0;
    proof {
        lemma_pow0(2);
    }
    while i < e
        invariant
            i <= e <= 127,
            p == pow(2, i as nat),
        decreases e - i,
    {
        proof {
            lemma_pow_adds(2, i as nat, 1);
            lemma_pow1(2);
            lemma_pow_increases(2, i as nat + 1, 127);
            vstd::arithmetic::power2::lemma_pow2(127);
            vstd::arithmetic::power2::lemma2_to64_rest();
            vstd::arithmetic::power2::lemma_pow2_adds(64, 63);
            vstd::arithmetic::power2::lemma2_to64();
            assert(vstd::arithmetic::power2::pow2(63) == 0x8000000000000000);
        }
        p = p * 2;
        i = i + 1;
    }
    p
}

/// Kraft's inequality can be checked at any depth at least the longest length.
proof fn lemma_kraft_at_depth(ls: Seq<usize>, e: nat)
    requires
        forall|j: int| 0 <= j < ls.len() ==> #[trigger] ls[j] <= e,
    ensures
        kraft_holds(ls, 2) <==> kraft_weight(ls, 2, e) <= pow(2, e),
{
    lemma_max_length(ls);
    let d = max_length(ls);
    assert(d <= e) by {
        if ls.len() > 0 {
            let k = choose|k: int| 0 <= k < ls.len() && ls[k] == d as usize;
        }
    }
    lemma_kraft_weight_scale(ls, 2, d, (e - d) as nat);
    lemma_pow_adds(2, (e - d) as nat, d);
    lemma_pow_positive(2, (e - d) as nat);
    assert((d + (e - d)) as nat == e);
    let q = pow(2, (e - d) as nat);
    let w = kraft_weight(ls, 2, d);
    assert((w <= pow(2, d)) <==> (q * w <= q * pow(2, d))) by (nonlinear_arith)
        requires
            q > 0,
    ;
}

/// The least `c` with `2^c >= n`.
pub open spec fn ceil_log2(n: nat) -> nat
    decreases n,
{
    if n <= 1 {
        0
    } else {
        1 + ceil_log2(((n + 1) / 2) as nat)
    }
}

/// `n` codewords fit in `ceil_log2(n)` bits, and for two or more, not in
/// one bit fewer.
pub proof fn lemma_ceil_log2(n: nat)
    ensures
        pow(2, ceil_log2(n)) >= n,
        n >= 2 ==> pow(2, (ceil_log2(n) - 1) as nat) < n,
        ceil_log2(n) <= n,
    decreases n,
{
    lemma_pow0(2);
    if n > 1 {
        let h = ((n + 1) / 2) as nat;
        lemma_ceil_log2(h);
        lemma_pow_adds(2, 1, ceil_log2(h));
        lemma_pow1(2);
        assert(2 * h >= n);
        assert(2 * h <= n + 1);
        assert((ceil_log2(n) - 1) as nat == ceil_log2(h));
        if h >= 2 {
            let c = ceil_log2(h);
            assert(c >= 1);
            lemma_pow_adds(2, 1, (c - 1) as nat);
            assert((1 + (c - 1)) as nat == c);
        }
    }
}

/// The longest code length allowed for `n` symbols under `max_len`:
/// `max_len` itself where `n` codewords fit in `max_len` bits, and
/// otherwise the fewest bits in which they fit.
pub open spec fn length_bound(n: nat, max_len: nat) -> nat {
    if pow(2, max_len) >= n { max_len } else { ceil_log2(n) }
}

/// A code length within `bound`: at least one bit, unless the bound is
/// zero (a lone symbol limited to no bits at all).
pub open spec fn fits_bound(l: usize, bound: nat) -> bool {
    &&& l <= bound
    &&& (bound == 0 || l >= 1)
}

/// The symbols paired with the lengths.
pub open spec fn with_lengths(symbols: Seq<u8>, ls: Seq<usize>) -> Seq<(u8, usize)> {
    Seq::new(ls.len(), |j: int| (symbols[j], ls[j]))
}

/// The number of bits that a code spends on the counted data:
/// `sum_j count(code[j].0) * code[j].1`.
pub open spec fn code_cost(freq: FrequencyDistribution, code: Seq<(u8, usize)>) -> int
    decreases code.len(),
{
    if code.len() == 0 {
        0
    } else {
        code_cost(freq, code.drop_last()) + freq.count_of(code.last().0) * code.last().1
    }
}

/// Ordering by count, then by symbol.
pub open spec fn count_order() -> spec_fn((u8, usize), (u8, usize)) -> bool {
    |x: (u8, usize), y: (u8, usize)| entry_le(x, y)
}

/// The occurring symbols with their counts, ordered by count and then by
/// symbol.
pub open spec fn by_count(freq: FrequencyDistribution) -> Seq<(u8, usize)> {
    freq.symbols().map_values(|s: u8| (s, freq.count_of(s) as usize)).sort_by(count_order())
}

/// The levels below depth one that the search may use: up to the bound,
/// and never more than the number of symbols.
pub open spec fn limit_levels(n: nat, max_len: nat) -> nat {
    let b = length_bound(n, max_len);
    if b - 1 > n { n } else { (b - 1) as nat }
}

/// The lengths that the search chooses, each paired with its symbol, in
/// the order of `by_count`.
pub open spec fn limited_code(freq: FrequencyDistribution, max_len: nat) -> Seq<(u8, usize)> {
    let srt = by_count(freq);
    let n = srt.len();
    if length_bound(n, max_len) == 0 {
        Seq::new(n, |k: int| (srt[k].0, 0usize))
    } else {
        let ps = plan(
            nat_counts(srt.map_values(|e: (u8, usize)| e.1)),
            limit_levels(n, max_len),
            n,
            initial_nodes(n),
            1,
        );
        Seq::new(n, |k: int| (srt[k].0, ps[k]))
    }
}

/// Symbols in ascending order.
pub open spec fn by_symbol(s: Seq<(u8, usize)>) -> bool {
    forall|i: int, j: int| 0 <= i <= j < s.len() ==> s[i].0 <= s[j].0
}

/// The cost of a code is the weighted sum of its lengths by their counts.
proof fn lemma_code_cost_weighted(freq: FrequencyDistribution, code: Seq<(u8, usize)>)
    ensures
        code_cost(freq, code) == weighted(
            code.map_values(|e: (u8, usize)| freq.count_of(e.0)),
            entry_lengths(code),
        ),
    decreases code.len(),
{
    if code.len() > 0 {
        let t = code.drop_last();
        lemma_code_cost_weighted(freq, t);
        assert(code.map_values(|e: (u8, usize)| freq.count_of(e.0)).drop_last() =~= t.map_values(
            |e: (u8, usize)| freq.count_of(e.0),
        ));
        assert(entry_lengths(code).drop_last() =~= entry_lengths(t));
        assert(code[code.len() - 1] == code.last());
    }
}

/// Removing one codeword removes its cost.
proof fn lemma_code_cost_remove(freq: FrequencyDistribution, s: Seq<(u8, usize)>, k: int)
    requires
        0 <= k < s.len(),
    ensures
        code_cost(freq, s) == code_cost(freq, s.remove(k)) + freq.count_of(s[k].0) * s[k].1,
    decreases s.len(),
{
    if k < s.len() - 1 {
        lemma_code_cost_remove(freq, s.drop_last(), k);
        assert(s.remove(k).drop_last() =~= s.drop_last().remove(k));
        assert(s.remove(k).last() == s.last());
    } else {
        assert(s.remove(k) =~= s.drop_last());
    }
}

/// The cost of a code does not depend on the order of its codewords.
proof fn lemma_code_cost_permutation(freq: FrequencyDistribution, s: Seq<(u8, usize)>, t: Seq<(u8, usize)>)
    requires
        s.to_multiset() == t.to_multiset(),
    ensures
        code_cost(freq, s) == code_cost(freq, t),
    decreases s.len(),
{
    broadcast use vstd::seq_lib::group_to_multiset_ensures;
    if s.len() == 0 {
        s.to_multiset_ensures();
        t.to_multiset_ensures();
        assert(t.len() == 0);
    } else {
        let x = s.last();
        assert(s.drop_last().push(x) =~= s);
        assert(t.to_multiset().count(x) > 0);
        let k = choose|k: int| 0 <= k < t.len() && t[k] == x;
        let t2 = t.remove(k);
        assert(t2.to_multiset() =~= t.to_multiset().remove(x));
        assert(s.drop_last().to_multiset() =~= s.to_multiset().remove(x)) by {
            assert(s.drop_last().push(x).to_multiset() =~= s.drop_last().to_multiset().insert(x));
        }
        lemma_code_cost_permutation(freq, s.drop_last(), t2);
        lemma_code_cost_remove(freq, t, k);
    }
}

/// The entries ordered by symbol.
fn sort_by_symbol(entries: &Vec<(u8, usize)>) -> (v: Vec<(u8, usize)>)
    ensures
        by_symbol(v@),
        v@.to_multiset() == entries@.to_multiset(),
{
    let mut v: Vec<(u8, usize)> = Vec::new();
    let mut i: usize = 0;
    assert(v@ =~= entries@.take(0));
    while i < entries.len()
        invariant
            i <= entries@.len(),
            by_symbol(v@),
            v@.to_multiset() == entries@.take(i as int).to_multiset(),
        decreases entries@.len() - i,
    {
        let x = entries[i];
        let mut j: usize = 0;
        while j < v.len() && v[j].0 <= x.0
            invariant
                j <= v@.len(),
                forall|k: int| 0 <= k < j ==> (#[trigger] v@[k]).0 <= x.0,
            decreases v@.len() - j,
        {
            j = j + 1;
        }
        let ghost old_v = v@;
        v.insert(j, x);
        proof {
            vstd::seq_lib::to_multiset_insert(old_v, j as int, x);
            entries@.take(i as int).to_multiset_ensures();
            assert(entries@.take(i as int + 1) =~= entries@.take(i as int).push(x));
            assert forall|a: int, b: int| 0 <= a <= b < v@.len() implies v@[a].0 <= v@[b].0 by {
                if a < j && b < j {
                    assert(v@[a] == old_v[a] && v@[b] == old_v[b]);
                } else if a < j && b == j {
                    assert(v@[a] == old_v[a]);
                } else if a < j {
                    assert(v@[a] == old_v[a] && v@[b] == old_v[b - 1]);
                    assert(old_v[a].0 <= old_v[j as int].0);
                } else if a == j && b > j {
                    assert(v@[b] == old_v[b - 1]);
                    assert(old_v[j as int].0 <= old_v[b - 1].0);
                } else if a > j {
                    assert(v@[a] == old_v[a - 1] && v@[b] == old_v[b - 1]);
                }
            }
        }
        i = i + 1;
    }
    assert(entries@.take(entries@.len() as int) =~= entries@);
    v
}

/// `ceil_log2(n)`.
fn ceil_log2_of(n: usize) -> (c: usize)
    ensures
        c == ceil_log2(n as nat),
{
    let mut v: usize = n;
    let mut c: usize = 0;
    while v > 1
        invariant
            v <= n,
            c + v <= n + 1,
            ceil_log2(n as nat) == c + ceil_log2(v as nat),
        decreases v,
    {
        v = v / 2 + v % 2;
        c = c + 1;
    }
    c
}

/// What `length_limited_lengths` computes meets its contract.
proof fn lemma_limited_result(
    freq: &FrequencyDistribution,
    max_len: nat,
    entries: Seq<(u8, usize)>,
    sorted: Seq<(u8, usize)>,
    counts: Seq<usize>,
    ps: Seq<usize>,
    q: Seq<(u8, usize)>,
    r: Seq<(u8, usize)>,
    bound: nat,
    kx: nat,
)
    requires
        max_len <= usize::MAX,
        entries == freq.symbols().map_values(|s: u8| (s, freq.count_of(s) as usize)),
        forall|s: u8| #[trigger] freq.count_of(s) <= usize::MAX,
        entries.len() <= 256,
        sorted_by_length(sorted),
        sorted.to_multiset() == entries.to_multiset(),
        counts == sorted.map_values(|e: (u8, usize)| e.1),
        bound == length_bound(entries.len(), max_len),
        bound >= 1,
        kx == if bound - 1 > entries.len() { entries.len() } else { (bound - 1) as nat },
        ps == plan(nat_counts(counts), kx, entries.len(), initial_nodes(entries.len()), 1),
        q == Seq::new(entries.len(), |j: int| (sorted[j].0, ps[j])),
        by_symbol(r),
        r.to_multiset() == q.to_multiset(),
    ensures
        r.to_multiset() == limited_code(*freq, max_len).to_multiset(),
        r.map_values(|e: (u8, usize)| e.0) == freq.symbols(),
        forall|j: int| 0 <= j < r.len() ==> fits_bound((#[trigger] r[j]).1, bound),
        kraft_holds(entry_lengths(r), 2),
        forall|o: Seq<usize>|
            o.len() == r.len() && (forall|j: int| 0 <= j < o.len() ==> fits_bound(#[trigger] o[j], bound))
                && #[trigger] kraft_holds(o, 2) ==> code_cost(*freq, r) <= code_cost(
                *freq,
                with_lengths(freq.symbols(), o),
            ),
{
    broadcast use vstd::seq_lib::group_to_multiset_ensures;
    let n = entries.len();
    let a = nat_counts(counts);
    let m0 = initial_nodes(n);
    let syms = freq.symbols();
    assert(syms.len() == n);
    sorted.to_multiset_ensures();
    entries.to_multiset_ensures();
    q.to_multiset_ensures();
    r.to_multiset_ensures();
    assert(sorted.len() == n);
    assert(q.len() == n);
    assert(r.len() == n);
    assert forall|k: int| 0 <= k < n implies a[k] == freq.count_of((#[trigger] sorted[k]).0) by {
        assert(entries.to_multiset().count(sorted[k]) > 0);
        let j = choose|j: int| 0 <= j < n && entries[j] == sorted[k];
    }
    assert forall|i: int, j: int| 0 <= i <= j < n implies a[i] <= a[j] by {
        assert(entry_le(sorted[i], sorted[j]));
    }
    // The order by count is the one that `by_count` names.
    let ord = count_order();
    assert(total_ordering(ord)) by {
        assert forall|x: (u8, usize), y: (u8, usize)| #[trigger] ord(x, y) && #[trigger] ord(y, x) implies x == y by {
            assert(x.0 == y.0 && x.1 == y.1);
        }
    }
    entries.lemma_sort_by_ensures(ord);
    assert(sorted_by(sorted, ord)) by {
        assert forall|i: int, j: int| 0 <= i < j < sorted.len() implies #[trigger] ord(sorted[i], sorted[j]) by {
            assert(entry_le(sorted[i], sorted[j]));
        }
    }
    vstd::seq_lib::lemma_sorted_unique(sorted, entries.sort_by(ord), ord);
    assert(sorted == by_count(*freq));
    assert(q =~= limited_code(*freq, max_len));
    // n codewords fit in `bound` bits.
    lemma_ceil_log2(n);
    lemma_pow0(2);
    lemma_pow1(2);
    if bound != max_len {
        lemma_pow_increases(2, ceil_log2(n), bound);
    }
    assert(pow(2, bound) >= n);
    assert(bound >= 1);
    lemma_pow2_split(bound, 0);
    let p1 = pow(2, (bound - 1) as nat);
    assert((bound - 0 - 1) as nat == (bound - 1) as nat);
    assert(pow(2, bound) == 2 * p1);
    assert(kx + m0 >= n || bound <= 1 + kx);
    // A code of equal lengths `bound` exists, so `min_cost` finds one.
    let yc = Seq::new(n, |j: int| bound as usize);
    lemma_constant_lengths(a, n, bound, bound);
    assert((bound - bound) as nat == 0);
    assert(n * pow(2, 0) == n);
    lemma_pow_positive(2, (bound - 1) as nat);
    assert(n <= m0 * p1) by (nonlinear_arith)
        requires
            m0 == if n < 2 { n } else { 2 },
            n <= 2 * p1,
            p1 >= 1,
    ;
    assert(a.len() == n);
    lemma_min_cost_lower(a, kx, n, m0, 1, bound, yc);
    let cm = min_cost(a, kx, n, m0).unwrap();
    // The chosen lengths.
    lemma_plan(a, kx, n, m0, 1, 1 + kx);
    assert((1 + kx - 1) as nat == kx);
    lemma_pow_adds(2, 1, kx);
    lemma_pow_positive(2, kx);
    assert(m0 * pow(2, kx) <= pow(2, 1 + kx)) by (nonlinear_arith)
        requires
            m0 <= 2,
            pow(2, 1 + kx) == 2 * pow(2, kx),
            pow(2, kx) >= 1,
    ;
    assert forall|j: int| 0 <= j < ps.len() implies #[trigger] ps[j] <= 1 + kx by {}
    lemma_kraft_at_depth(ps, 1 + kx);
    assert(entry_lengths(q) =~= ps);
    lemma_map_values_permutation(r, q, |e: (u8, usize)| e.1);
    lemma_kraft_holds_permutation(entry_lengths(r), ps, 2);
    // The symbols, in ascending order.
    lemma_map_values_permutation(r, q, |e: (u8, usize)| e.0);
    lemma_map_values_permutation(sorted, entries, |e: (u8, usize)| e.0);
    assert(q.map_values(|e: (u8, usize)| e.0) =~= sorted.map_values(|e: (u8, usize)| e.0));
    assert(entries.map_values(|e: (u8, usize)| e.0) =~= syms);
    crate::probability::lemma_symbols_ascending(freq, 256);
    let leq = |x: u8, y: u8| x <= y;
    let rs = r.map_values(|e: (u8, usize)| e.0);
    assert(sorted_by(rs, leq)) by {
        assert forall|i: int, j: int| 0 <= i < j < rs.len() implies #[trigger] leq(rs[i], rs[j]) by {
            assert(r[i].0 <= r[j].0);
        }
    }
    assert(sorted_by(syms, leq)) by {
        assert forall|i: int, j: int| 0 <= i < j < syms.len() implies #[trigger] leq(syms[i], syms[j]) by {
            assert(syms[i] < syms[j]);
        }
    }
    assert(total_ordering(leq));
    vstd::seq_lib::lemma_sorted_unique(rs, syms, leq);
    // Every length lies between one and the bound.
    assert forall|j: int| 0 <= j < r.len() implies fits_bound((#[trigger] r[j]).1, bound) by {
        assert(q.to_multiset().count(r[j]) > 0);
        let k = choose|k: int| 0 <= k < q.len() && q[k] == r[j];
    }
    // The cost of the result.
    lemma_code_cost_permutation(*freq, r, q);
    lemma_code_cost_weighted(*freq, q);
    assert(q.map_values(|e: (u8, usize)| freq.count_of(e.0)) =~= a);
    assert(a.take(n as int) =~= a);
    assert(code_cost(*freq, r) == cm + prefix_sum(a, n));
    // No other lengths within the bound cost less.
    assert forall|o: Seq<usize>|
        o.len() == r.len() && (forall|j: int| 0 <= j < o.len() ==> fits_bound(#[trigger] o[j], bound))
            && #[trigger] kraft_holds(o, 2) implies code_cost(*freq, r) <= code_cost(
            *freq,
            with_lengths(syms, o),
        ) by {
        let w = with_lengths(syms, o);
        let cs = syms.map_values(|s: u8| freq.count_of(s));
        lemma_code_cost_weighted(*freq, w);
        assert(w.map_values(|e: (u8, usize)| freq.count_of(e.0)) =~= cs);
        assert(entry_lengths(w) =~= o);
        lemma_map_values_permutation(sorted, entries, |e: (u8, usize)| e.1 as nat);
        assert(sorted.map_values(|e: (u8, usize)| e.1 as nat) =~= a);
        assert(entries.map_values(|e: (u8, usize)| e.1 as nat) =~= cs);
        let y = lemma_exchange(cs, o, a);
        assert forall|j: int| 0 <= j < n implies 1 <= #[trigger] y[j] <= bound by {
            assert(y.to_multiset().count(y[j]) > 0);
            assert(o.to_multiset().count(y[j]) > 0);
            let i = choose|i: int| 0 <= i < o.len() && o[i] == y[j];
        }
        lemma_kraft_holds_permutation(y, o, 2);
        lemma_kraft_at_depth(y, bound);
        lemma_kraft_weight_bounds(y, bound, 1, bound);
        assert(kraft_weight(y, 2, bound) <= m0 * p1) by (nonlinear_arith)
            requires
                m0 == if n < 2 { n } else { 2 },
                kraft_weight(y, 2, bound) <= 2 * p1,
                kraft_weight(y, 2, bound) <= n * p1,
        ;
        lemma_min_cost_lower(a, kx, n, m0, 1, bound, y);
    }
}

/// With no bits to spend, the code of at most one symbol is its empty
/// codeword.
proof fn lemma_zero_bound(freq: &FrequencyDistribution, max_len: nat, entries: Seq<(u8, usize)>, r: Seq<(u8, usize)>)
    requires
        entries == freq.symbols().map_values(|s: u8| (s, freq.count_of(s) as usize)),
        length_bound(entries.len(), max_len) == 0,
        entries.len() <= 1 ==> r == if entries.len() == 1 {
            seq![(entries[0].0, 0usize)]
        } else {
            Seq::<(u8, usize)>::empty()
        },
    ensures
        r.to_multiset() == limited_code(*freq, max_len).to_multiset(),
        r.map_values(|e: (u8, usize)| e.0) == freq.symbols(),
        forall|j: int| 0 <= j < r.len() ==> fits_bound((#[trigger] r[j]).1, 0),
        kraft_holds(entry_lengths(r), 2),
        forall|o: Seq<usize>|
            o.len() == r.len() && (forall|j: int| 0 <= j < o.len() ==> fits_bound(#[trigger] o[j], 0))
                && #[trigger] kraft_holds(o, 2) ==> code_cost(*freq, r) <= code_cost(
                *freq,
                with_lengths(freq.symbols(), o),
            ),
{
    broadcast use vstd::seq_lib::group_to_multiset_ensures;
    let n = entries.len();
    let syms = freq.symbols();
    lemma_ceil_log2(n);
    lemma_pow0(2);
    lemma_pow_positive(2, max_len);
    if pow(2, max_len) < n {
        assert(n >= 2);
        assert(ceil_log2(n) >= 1);
    }
    assert(max_len == 0);
    assert(n <= 1);
    let ord = count_order();
    assert(total_ordering(ord)) by {
        assert forall|x: (u8, usize), y: (u8, usize)| #[trigger] ord(x, y) && #[trigger] ord(y, x) implies x == y by {
            assert(x.0 == y.0 && x.1 == y.1);
        }
    }
    entries.lemma_sort_by_ensures(ord);
    let srt = by_count(*freq);
    srt.to_multiset_ensures();
    entries.to_multiset_ensures();
    assert(srt.len() == n);
    if n == 1 {
        assert(srt.to_multiset().count(srt[0]) > 0);
        assert(entries.to_multiset().count(srt[0]) > 0);
        assert(srt[0] == entries[0]);
        assert(limited_code(*freq, max_len) =~= r);
        assert(r.map_values(|e: (u8, usize)| e.0) =~= syms);
        assert(entry_lengths(r) =~= seq![0usize]);
        lemma_max_length(entry_lengths(r));
        assert(max_length(entry_lengths(r)) == 0);
        let el = entry_lengths(r);
        assert(el.drop_last() =~= Seq::<usize>::empty());
        assert(el.last() == 0usize);
        assert(kraft_weight(el.drop_last(), 2, 0) == 0);
        assert(kraft_weight(el, 2, 0) == kraft_weight(el.drop_last(), 2, 0) + pow(2, (0 - el.last()) as nat));
        assert((0 - el.last()) as nat == 0);
        assert(kraft_weight(el, 2, 0) == 1);
        assert forall|o: Seq<usize>|
            o.len() == r.len() && (forall|j: int| 0 <= j < o.len() ==> fits_bound(#[trigger] o[j], 0))
                && #[trigger] kraft_holds(o, 2) implies code_cost(*freq, r) <= code_cost(
                *freq,
                with_lengths(syms, o),
            ) by {
            assert(fits_bound(o[0], 0));
            let w = with_lengths(syms, o);
            assert(w.drop_last() =~= Seq::<(u8, usize)>::empty());
            assert(r.drop_last() =~= Seq::<(u8, usize)>::empty());
        }
    } else {
        assert(limited_code(*freq, max_len) =~= r);
        assert(r.map_values(|e: (u8, usize)| e.0) =~= syms);
        assert(entry_lengths(r) =~= Seq::<usize>::empty());
        assert(kraft_holds(entry_lengths(r), 2));
        assert forall|o: Seq<usize>|
            o.len() == r.len() && (forall|j: int| 0 <= j < o.len() ==> fits_bound(#[trigger] o[j], 0))
                && #[trigger] kraft_holds(o, 2) implies code_cost(*freq, r) <= code_cost(
                *freq,
                with_lengths(syms, o),
            ) by {
            assert(with_lengths(syms, o).len() == 0);
        }
    }
}

/// The bound on length-limited codes is `max_len` itself wherever `n`
/// codewords fit in `max_len` bits, and otherwise the least number of bits
/// in which they fit.
pub proof fn lemma_length_bound(n: nat, max_len: nat)
    ensures
        pow(2, max_len) >= n ==> length_bound(n, max_len) == max_len,
        pow(2, max_len) < n ==> {
            let b = length_bound(n, max_len);
            &&& b >= 1
            &&& pow(2, b) >= n
            &&& pow(2, (b - 1) as nat) < n
            &&& forall|c: nat| #[trigger] pow(2, c) >= n ==> b <= c
        },
{
    lemma_ceil_log2(n);
    lemma_pow0(2);
    if pow(2, max_len) < n {
        let b = ceil_log2(n);
        lemma_pow_positive(2, max_len);
        assert(n >= 2);
        assert(b >= 1) by {
            if b == 0 {
                assert(pow(2, 0) == 1);
            }
        }
        assert forall|c: nat| #[trigger] pow(2, c) >= n implies b <= c by {
            if c < b {
                lemma_pow_increases(2, c, (b - 1) as nat);
            }
        }
    }
}

/// What `length_limited_lengths` promises, stated over `max_len` and the
/// number of symbols alone.
proof fn lemma_limit_laws(freq: &FrequencyDistribution, max_len: nat, r: Seq<(u8, usize)>)
    requires
        forall|j: int|
            0 <= j < r.len() ==> fits_bound((#[trigger] r[j]).1, length_bound(freq.symbols().len(), max_len)),
        forall|o: Seq<usize>|
            o.len() == r.len() && (forall|j: int|
                0 <= j < o.len() ==> fits_bound(#[trigger] o[j], length_bound(freq.symbols().len(), max_len)))
                && #[trigger] kraft_holds(o, 2) ==> code_cost(*freq, r) <= code_cost(*freq, with_lengths(freq.symbols(), o)),
    ensures
        pow(2, max_len) >= freq.symbols().len() ==> forall|j: int|
            0 <= j < r.len() ==> (#[trigger] r[j]).1 <= max_len && (max_len >= 1 ==> r[j].1 >= 1),
        pow(2, max_len) >= freq.symbols().len() && max_len >= 1 ==> forall|o: Seq<usize>|
            o.len() == r.len() && (forall|j: int| 0 <= j < o.len() ==> 1 <= #[trigger] o[j] <= max_len)
                && #[trigger] kraft_holds(o, 2) ==> code_cost(*freq, r) <= code_cost(*freq, with_lengths(freq.symbols(), o)),
        pow(2, max_len) < freq.symbols().len() ==> forall|c: nat, j: int|
            #[trigger] pow(2, c) >= freq.symbols().len() && 0 <= j < r.len() ==> 1 <= (#[trigger] r[j]).1 <= c,
        pow(2, max_len) < freq.symbols().len() ==> forall|c: nat, o: Seq<usize>|
            #[trigger] pow(2, c) >= freq.symbols().len() && pow(2, (c - 1) as nat) < freq.symbols().len()
                && o.len() == r.len() && (forall|j: int| 0 <= j < o.len() ==> 1 <= #[trigger] o[j] <= c)
                && #[trigger] kraft_holds(o, 2) ==> code_cost(*freq, r) <= code_cost(*freq, with_lengths(freq.symbols(), o)),
{
    let n = freq.symbols().len();
    let b = length_bound(n, max_len);
    lemma_length_bound(n, max_len);
    if pow(2, max_len) < n {
        assert forall|c: nat, o: Seq<usize>|
            #[trigger] pow(2, c) >= n && pow(2, (c - 1) as nat) < n && o.len() == r.len() && (forall|j: int|
                0 <= j < o.len() ==> 1 <= #[trigger] o[j] <= c) && #[trigger] kraft_holds(o, 2) implies code_cost(
            *freq,
            r,
        ) <= code_cost(*freq, with_lengths(freq.symbols(), o)) by {
            assert(b <= c);
            if c > b {
                lemma_pow_increases(2, b, (c - 1) as nat);
            }
            assert(c == b);
            assert forall|j: int| 0 <= j < o.len() implies fits_bound(#[trigger] o[j], b) by {}
        }
    } else if max_len >= 1 {
        assert forall|o: Seq<usize>|
            o.len() == r.len() && (forall|j: int| 0 <= j < o.len() ==> 1 <= #[trigger] o[j] <= max_len)
                && #[trigger] kraft_holds(o, 2) implies code_cost(*freq, r) <= code_cost(
            *freq,
            with_lengths(freq.symbols(), o),
        ) by {
            assert forall|j: int| 0 <= j < o.len() implies fits_bound(#[trigger] o[j], b) by {}
        }
    }
}

/// Generate optimal integer code lengths for length-limited codes
/// (limited to `max_len` bits): every occurring symbol, in ascending
/// order, gets a length of at most `max_len` bits (where the symbols fit
/// in `max_len` bits; otherwise at most the fewest bits in which they fit)
/// and of at least one bit (but for a lone symbol limited to no bits), the
/// lengths satisfy Kraft's inequality, and no other such lengths spend
/// fewer bits on the counted data.
pub fn length_limited_lengths(freq: &FrequencyDistribution, max_len: usize) -> (lengths: Vec<(u8, usize)>)
    ensures
        lengths@.to_multiset() == limited_code(*freq, max_len as nat).to_multiset(),
        lengths@.map_values(|e: (u8, usize)| e.0) == freq.symbols(),
        forall|j: int|
            0 <= j < lengths@.len() ==> fits_bound(
                (#[trigger] lengths@[j]).1,
                length_bound(freq.symbols().len(), max_len as nat),
            ),
        kraft_holds(entry_lengths(lengths@), 2),
        forall|o: Seq<usize>|
            o.len() == lengths@.len() && (forall|j: int|
                0 <= j < o.len() ==> fits_bound(#[trigger] o[j], length_bound(freq.symbols().len(), max_len as nat)))
                && #[trigger] kraft_holds(o, 2) ==> code_cost(*freq, lengths@) <= code_cost(
                *freq,
                with_lengths(freq.symbols(), o),
            ),
        pow(2, max_len as nat) >= freq.symbols().len() ==> forall|j: int|
            0 <= j < lengths@.len() ==> (#[trigger] lengths@[j]).1 <= max_len && (max_len >= 1 ==> lengths@[j].1 >= 1),
        pow(2, max_len as nat) >= freq.symbols().len() && max_len >= 1 ==> forall|o: Seq<usize>|
            o.len() == lengths@.len() && (forall|j: int| 0 <= j < o.len() ==> 1 <= #[trigger] o[j] <= max_len)
                && #[trigger] kraft_holds(o, 2) ==> code_cost(*freq, lengths@) <= code_cost(
                *freq,
                with_lengths(freq.symbols(), o),
            ),
        pow(2, max_len as nat) < freq.symbols().len() ==> forall|c: nat, j: int|
            #[trigger] pow(2, c) >= freq.symbols().len() && 0 <= j < lengths@.len() ==> 1 <= (
            #[trigger] lengths@[j]).1 <= c,
        pow(2, max_len as nat) < freq.symbols().len() ==> forall|c: nat, o: Seq<usize>|
            #[trigger] pow(2, c) >= freq.symbols().len() && pow(2, (c - 1) as nat) < freq.symbols().len()
                && o.len() == lengths@.len() && (forall|j: int| 0 <= j < o.len() ==> 1 <= #[trigger] o[j] <= c)
                && #[trigger] kraft_holds(o, 2) ==> code_cost(*freq, lengths@) <= code_cost(
                *freq,
                with_lengths(freq.symbols(), o),
            ),
{
    let entries = freq.iter();
    let n = entries.len();
    let _total = freq.total();
    proof {
        crate::probability::lemma_symbols_len(freq, 256);
    }
    let sorted = sort_entries(entries.as_slice());
    proof {
        sorted@.to_multiset_ensures();
        entries@.to_multiset_ensures();
    }
    let mut counts: Vec<usize> = Vec::new();
    let mut k: usize = 0;
    while k < n
        invariant
            k <= n,
            n == sorted@.len(),
            counts@ == sorted@.take(k as int).map_values(|e: (u8, usize)| e.1),
        decreases n - k,
    {
        counts.push(sorted[k].1);
        k = k + 1;
        proof {
            assert(counts@ =~= sorted@.take(k as int).map_values(|e: (u8, usize)| e.1));
        }
    }
    let c = ceil_log2_of(n);
    let fits: bool = max_len >= 9 || pow2_u128(max_len) >= n as u128;
    let bound: usize = if fits { max_len } else { c };
    proof {
        if max_len >= 9 {
            lemma_pow_increases(2, 9, max_len as nat);
            vstd::arithmetic::power2::lemma2_to64();
            vstd::arithmetic::power2::lemma_pow2(9);
        }
        assert(fits == (pow(2, max_len as nat) >= n));
        lemma_ceil_log2(n as nat);
    }
    if bound == 0 {
        // At most one symbol, limited to no bits.
        let mut r: Vec<(u8, usize)> = Vec::new();
        if n == 1 {
            r.push((entries[0].0, 0));
        }
        proof {
            lemma_zero_bound(freq, max_len as nat, entries@, r@);
            lemma_limit_laws(freq, max_len as nat, r@);
        }
        return r;
    }
    let kx: usize = if bound - 1 > n { n } else { bound - 1 };
    let ps = min_cost_plan(&counts, kx);
    let mut q: Vec<(u8, usize)> = Vec::new();
    let mut k: usize = 0;
    while k < n
        invariant
            k <= n,
            n == sorted@.len(),
            ps@.len() == n,
            q@ == Seq::new(k as nat, |j: int| (sorted@[j].0, ps@[j])),
        decreases n - k,
    {
        q.push((sorted[k].0, ps[k]));
        k = k + 1;
        proof {
            assert(q@ =~= Seq::new(k as nat, |j: int| (sorted@[j].0, ps@[j])));
        }
    }
    let r = sort_by_symbol(&q);
    proof {
        assert(counts@ =~= sorted@.map_values(|e: (u8, usize)| e.1)) by {
            assert(sorted@.take(n as int) =~= sorted@);
        }
        lemma_limited_result(freq, max_len as nat, entries@, sorted@, counts@, ps@, q@, r@, bound as nat, kx as nat);
        lemma_limit_laws(freq, max_len as nat, r@);
    }
    r
}


} // verus!
