//! Kraft inequality verification for prefix-free codes.

use vstd::prelude::*;
use vstd::arithmetic::power::*;
use vstd::arithmetic::power2::*;
use crate::bits::{
    bits_value, is_binary, lemma_bits_value_bound, lemma_bits_value_concat, lemma_bits_value_ones,
    lemma_bits_value_prefix, lemma_bits_value_zeros,
};

verus! {

/// The largest code length, or 0 when there are no codes.
pub open spec fn max_length(lengths: Seq<usize>) -> nat
    decreases lengths.len(),
{
    if lengths.len() == 0 {
        0
    } else {
        let m = max_length(lengths.drop_last());
        if lengths.last() as nat > m { lengths.last() as nat } else { m }
    }
}

/// `sum_i d^(depth - lengths[i])`: for codeword lengths up to `depth`, this
/// is `d^depth` times the Kraft sum `sum_i d^(-lengths[i])`, i.e. the number
/// of depth-`depth` nodes of the complete `d`-ary tree below the codewords.
pub open spec fn kraft_weight(lengths: Seq<usize>, d: nat, depth: nat) -> int
    decreases lengths.len(),
{
    if lengths.len() == 0 {
        0
    } else {
        kraft_weight(lengths.drop_last(), d, depth) + pow(d as int, (depth - lengths.last()) as nat)
    }
}

/// Kraft's inequality for a `d`-ary code: `sum_i d^(-lengths[i]) <= 1`.
pub open spec fn kraft_holds(lengths: Seq<usize>, d: nat) -> bool {
    kraft_weight(lengths, d, max_length(lengths)) <= pow(d as int, max_length(lengths))
}

/// The binary Kraft sum is exactly one: a complete code.
pub open spec fn kraft_is_complete(lengths: Seq<usize>) -> bool {
    kraft_weight(lengths, 2, max_length(lengths)) == pow(2, max_length(lengths))
}

/// Ascending order.
pub open spec fn is_ascending(s: Seq<usize>) -> bool {
    forall|i: int, j: int| 0 <= i <= j < s.len() ==> s[i] <= s[j]
}

pub(crate) proof fn lemma_pow_nonneg(d: nat, e: nat)
    ensures
        pow(d as int, e) >= 0,
    decreases e,
{
    reveal(pow);
    if e > 0 {
        lemma_pow_nonneg(d, (e - 1) as nat);
        vstd::arithmetic::mul::lemma_mul_nonnegative(d as int, pow(d as int, (e - 1) as nat));
    }
}

/// The maximum is an element that bounds all others.
pub(crate) proof fn lemma_max_length(s: Seq<usize>)
    ensures
        forall|i: int| 0 <= i < s.len() ==> s[i] <= max_length(s),
        s.len() > 0 ==> s.contains(max_length(s) as usize),
        s.len() == 0 ==> max_length(s) == 0,
        max_length(s) <= usize::MAX,
    decreases s.len(),
{
    if s.len() > 0 {
        let t = s.drop_last();
        lemma_max_length(t);
        assert forall|i: int| 0 <= i < s.len() implies s[i] <= max_length(s) by {
            if i < t.len() {
                assert(s[i] == t[i]);
            }
        }
        if s.last() as nat > max_length(t) {
            assert(s[s.len() - 1] == s.last());
        } else if t.len() == 0 {
            assert(s[0] == s.last());
        } else {
            let k = choose|k: int| 0 <= k < t.len() && t[k] == max_length(t) as usize;
            assert(s[k] == t[k]);
        }
    }
}

/// The maximum depends only on which lengths occur.
pub(crate) proof fn lemma_max_length_same_elements(s: Seq<usize>, t: Seq<usize>)
    requires
        s.to_multiset() == t.to_multiset(),
    ensures
        max_length(s) == max_length(t),
{
    broadcast use vstd::seq_lib::group_to_multiset_ensures;
    lemma_max_length(s);
    lemma_max_length(t);
    if s.len() > 0 {
        assert(t.to_multiset().count(max_length(s) as usize) > 0);
        assert(s.to_multiset().count(max_length(t) as usize) > 0);
        let i = choose|i: int| 0 <= i < t.len() && t[i] == max_length(s) as usize;
        let j = choose|j: int| 0 <= j < s.len() && s[j] == max_length(t) as usize;
    } else {
        s.to_multiset_ensures();
        t.to_multiset_ensures();
        assert(t.len() == 0);
    }
}

/// Removing one codeword removes its weight.
pub(crate) proof fn lemma_kraft_weight_remove(s: Seq<usize>, d: nat, depth: nat, k: int)
    requires
        0 <= k < s.len(),
    ensures
        kraft_weight(s, d, depth) == kraft_weight(s.remove(k), d, depth) + pow(d as int, (depth - s[k]) as nat),
    decreases s.len(),
{
    if k < s.len() - 1 {
        let t = s.drop_last();
        lemma_kraft_weight_remove(t, d, depth, k);
        assert(s.remove(k).drop_last() =~= t.remove(k));
        assert(s.remove(k).last() == s.last());
    } else {
        assert(s.remove(k) =~= s.drop_last());
    }
}

/// The weight depends only on which lengths occur, not on their order.
pub(crate) proof fn lemma_kraft_weight_permutation(s: Seq<usize>, t: Seq<usize>, d: nat, depth: nat)
    requires
        s.to_multiset() == t.to_multiset(),
    ensures
        kraft_weight(s, d, depth) == kraft_weight(t, d, depth),
    decreases s.len(),
{
    broadcast use vstd::seq_lib::group_to_multiset_ensures;
    if s.len() == 0 {
        s.to_multiset_ensures();
        t.to_multiset_ensures();
        assert(t.len() == 0);
    } else {
        let x = s.last();
        assert(s.drop_last().push(x) =~= s);
        assert(t.to_multiset().count(x) > 0);
        let k = choose|k: int| 0 <= k < t.len() && t[k] == x;
        let t2 = t.remove(k);
        assert(t2.to_multiset() =~= t.to_multiset().remove(x));
        assert(s.drop_last().to_multiset() =~= s.to_multiset().remove(x)) by {
            assert(s.drop_last().push(x).to_multiset() =~= s.drop_last().to_multiset().insert(x));
        }
        lemma_kraft_weight_permutation(s.drop_last(), t2, d, depth);
        lemma_kraft_weight_remove(t, d, depth, k);
    }
}

/// Whether Kraft's inequality holds depends only on which lengths occur.
pub(crate) proof fn lemma_kraft_holds_permutation(s: Seq<usize>, t: Seq<usize>, d: nat)
    requires
        s.to_multiset() == t.to_multiset(),
    ensures
        kraft_holds(s, d) == kraft_holds(t, d),
{
    lemma_max_length_same_elements(s, t);
    lemma_kraft_weight_permutation(s, t, d, max_length(s));
}

/// Weights over a prefix grow by one term per codeword.
pub(crate) proof fn lemma_kraft_weight_take(s: Seq<usize>, d: nat, depth: nat, i: int)
    requires
        0 <= i < s.len(),
    ensures
        kraft_weight(s.take(i + 1), d, depth) == kraft_weight(s.take(i), d, depth) + pow(d as int, (depth - s[i]) as nat),
{
    assert(s.take(i + 1).drop_last() =~= s.take(i));
}

/// Going `e` levels deeper multiplies the weight by `d^e`.
pub(crate) proof fn lemma_kraft_weight_scale(s: Seq<usize>, d: nat, depth: nat, e: nat)
    requires
        forall|i: int| 0 <= i < s.len() ==> s[i] <= depth,
    ensures
        kraft_weight(s, d, depth + e) == pow(d as int, e) * kraft_weight(s, d, depth),
    decreases s.len(),
{
    if s.len() > 0 {
        let t = s.drop_last();
        lemma_kraft_weight_scale(t, d, depth, e);
        let l = s.last() as nat;
        assert(s[s.len() - 1] == s.last());
        lemma_pow_adds(d as int, e, (depth - l) as nat);
        assert((depth + e - l) as nat == e + (depth - l) as nat);
        vstd::arithmetic::mul::lemma_mul_is_distributive_add(pow(d as int, e), kraft_weight(t, d, depth),
            pow(d as int, (depth - l) as nat));
    }
}

/// Weights are never negative.
pub(crate) proof fn lemma_kraft_weight_nonneg(s: Seq<usize>, d: nat, depth: nat)
    ensures
        kraft_weight(s, d, depth) >= 0,
    decreases s.len(),
{
    if s.len() > 0 {
        lemma_kraft_weight_nonneg(s.drop_last(), d, depth);
        lemma_pow_nonneg(d, (depth - s.last()) as nat);
    }
}

/// The codewords after position `i`, all of length at least `e`, add at
/// most `d^(depth - e)` each.
proof fn lemma_kraft_weight_tail(s: Seq<usize>, d: nat, depth: nat, i: int, j: int, e: nat)
    requires
        d >= 1,
        0 <= i <= j <= s.len(),
        forall|k: int| i <= k < s.len() ==> e <= #[trigger] s[k] <= depth,
    ensures
        kraft_weight(s.take(i), d, depth) <= kraft_weight(s.take(j), d, depth),
        kraft_weight(s.take(j), d, depth) <= kraft_weight(s.take(i), d, depth) + (j - i) * pow(d as int, (depth - e) as nat),
    decreases j - i,
{
    if j > i {
        lemma_kraft_weight_tail(s, d, depth, i, j - 1, e);
        lemma_kraft_weight_take(s, d, depth, j - 1);
        lemma_pow_increases(d, (depth - s[j - 1]) as nat, (depth - e) as nat);
        lemma_pow_nonneg(d, (depth - s[j - 1]) as nat);
        let p = pow(d as int, (depth - e) as nat);
        let a = kraft_weight(s.take(i), d, depth);
        let b = kraft_weight(s.take(j - 1), d, depth);
        let c = kraft_weight(s.take(j), d, depth);
        assert(c <= a + (j - i) * p) by (nonlinear_arith)
            requires
                b <= a + (j - 1 - i) * p,
                c <= b + p,
        ;
    } else {
        let p = pow(d as int, (depth - e) as nat);
        assert((j - i) * p == 0) by (nonlinear_arith)
            requires
                j == i,
        ;
    }
}

/// The lengths in ascending order.
fn sort_lengths(lengths: &[usize]) -> (v: Vec<usize>)
    ensures
        is_ascending(v@),
        v@.to_multiset() == lengths@.to_multiset(),
{
    let mut v: Vec<usize> = Vec::new();
    let mut i: usize = 0;
    assert(v@ =~= lengths@.take(0));
    while i < lengths.len()
        invariant
            i <= lengths@.len(),
            is_ascending(v@),
            v@.to_multiset() == lengths@.take(i as int).to_multiset(),
        decreases lengths@.len() - i,
    {
        let x = lengths[i];
        let mut j: usize = 0;
        while j < v.len() && v[j] <= x
            invariant
                j <= v@.len(),
                forall|k: int| 0 <= k < j ==> #[trigger] v@[k] <= x,
            decreases v@.len() - j,
        {
            j = j + 1;
        }
        let ghost old_v = v@;
        v.insert(j, x);
        proof {
            vstd::seq_lib::to_multiset_insert(old_v, j as int, x);
            lengths@.take(i as int).to_multiset_ensures();
            assert(lengths@.take(i as int + 1) =~= lengths@.take(i as int).push(x));
            assert forall|a: int, b: int| 0 <= a <= b < v@.len() implies v@[a] <= v@[b] by {
                if a < j && b < j {
                    assert(v@[a] == old_v[a] && v@[b] == old_v[b]);
                } else if a < j && b == j {
                    assert(v@[a] == old_v[a]);
                } else if a < j {
                    assert(v@[a] == old_v[a] && v@[b] == old_v[b - 1]);
                } else if a == j && b > j {
                    assert(v@[b] == old_v[b - 1]);
                    assert(old_v[j as int] > x);
                } else if a > j {
                    assert(v@[a] == old_v[a - 1] && v@[b] == old_v[b - 1]);
                }
            }
        }
        i = i + 1;
    }
    assert(lengths@.take(lengths@.len() as int) =~= lengths@);
    v
}

/// How the Kraft sum compares with one.
enum KraftSum {
    Below,
    Exact,
    Above,
}

/// For an ascending sequence the maximum is the last length.
proof fn lemma_ascending_max(s: Seq<usize>)
    requires
        is_ascending(s),
        s.len() > 0,
    ensures
        max_length(s) == s.last(),
{
    lemma_max_length(s);
    let k = choose|k: int| 0 <= k < s.len() && s[k] == max_length(s) as usize;
    assert(s[k] <= s[s.len() - 1]);
}

/// Compare the `d`-ary Kraft sum of `lengths` with one, exactly.
fn kraft_compare(lengths: &[usize], d: usize) -> (r: KraftSum)
    ensures
        (r is Below) <==> kraft_weight(lengths@, d as nat, max_length(lengths@)) < pow(d as int, max_length(lengths@)),
        (r is Exact) <==> kraft_weight(lengths@, d as nat, max_length(lengths@)) == pow(d as int, max_length(lengths@)),
        (r is Above) <==> kraft_weight(lengths@, d as nat, max_length(lengths@)) > pow(d as int, max_length(lengths@)),
{
    let s = sort_lengths(lengths);
    let n = s.len();
    let ghost ls = lengths@;
    let ghost dm = max_length(ls);
    proof {
        lemma_max_length_same_elements(s@, ls);
        lemma_kraft_weight_permutation(s@, ls, d as nat, dm);
        lemma_max_length(s@);
    }
    if d <= 1 {
        return kraft_compare_degenerate(&s, d);
    }
    let mut free: u128 = 1;
    let mut depth: usize = 0;
    let mut i: usize = 0;
    proof {
        lemma_pow0(d as int);
        assert(s@.take(0) =~= Seq::<usize>::empty());
    }
    while i < n
        invariant
            n == s@.len(),
            i <= n,
            2 <= d,
            is_ascending(s@),
            depth == if i == 0 { 0 } else { s@[i - 1] as int },
            free as int == pow(d as int, depth as nat) - kraft_weight(s@.take(i as int), d as nat, depth as nat),
            free <= n + 1,
            ls == lengths@,
            dm == max_length(ls),
            max_length(s@) == dm,
            kraft_weight(s@, d as nat, dm) == kraft_weight(ls, d as nat, dm),
            forall|k: int| 0 <= k < s@.len() ==> s@[k] <= dm,
        decreases n - i,
    {
        let l = s[i];
        let ghost t = s@.take(i as int);
        proof {
            assert forall|k: int| 0 <= k < t.len() implies t[k] <= depth by {
                assert(s@[k] <= s@[i - 1]);
            }
            assert(depth <= l) by {
                if i > 0 {
                    assert(s@[i - 1] <= s@[i as int]);
                }
            }
        }
        let mut g: usize = l - depth;
        assert(free <= (n as int + 1) * (d as int)) by (nonlinear_arith)
            requires
                free <= n + 1,
                d >= 2,
        ;
        while g > 0 && free > 0 && free <= n as u128
            invariant
                2 <= d,
                depth <= l,
                g <= l - depth,
                forall|k: int| 0 <= k < t.len() ==> t[k] <= depth,
                free as int == pow(d as int, (l - g) as nat) - kraft_weight(t, d as nat, (l - g) as nat),
                free <= (n as int + 1) * (d as int),
                n <= usize::MAX,
            decreases g,
        {
            proof {
                let e = (l - g) as nat;
                lemma_kraft_weight_scale(t, d as nat, depth as nat, (e - depth) as nat);
                lemma_kraft_weight_scale(t, d as nat, depth as nat, (e + 1 - depth) as nat);
                lemma_pow_adds(d as int, 1, e);
                lemma_pow_adds(d as int, 1, (e - depth) as nat);
                lemma_pow1(d as int);
                assert(free * d <= (n as int + 1) * (d as int)) by (nonlinear_arith)
                    requires
                        free <= n,
                        d >= 0,
                ;
                assert(free * d <= u64::MAX * u64::MAX) by (nonlinear_arith)
                    requires
                        free <= n,
                        n <= u64::MAX,
                        d <= u64::MAX,
                        d >= 0,
                ;
                assert((free as int) * (d as int) == pow(d as int, e + 1) - kraft_weight(t, d as nat, e + 1))
                    by (nonlinear_arith)
                    requires
                        free as int == pow(d as int, e) - kraft_weight(t, d as nat, e),
                        pow(d as int, e + 1) == d * pow(d as int, e),
                        kraft_weight(t, d as nat, e) == pow(d as int, (e - depth) as nat) * kraft_weight(t, d as nat, depth as nat),
                        kraft_weight(t, d as nat, e + 1) == pow(d as int, (e + 1 - depth) as nat) * kraft_weight(t, d as nat, depth as nat),
                        pow(d as int, (e + 1 - depth) as nat) == d * pow(d as int, (e - depth) as nat),
                ;
            }
            free = free * (d as u128);
            g = g - 1;
        }
        proof {
            let e = (l - g) as nat;
            lemma_kraft_weight_scale(t, d as nat, e, g as nat);
            lemma_kraft_weight_scale(t, d as nat, depth as nat, (e - depth) as nat);
            lemma_pow_adds(d as int, g as nat, e);
            lemma_pow_positive(d as int, g as nat);
            lemma_kraft_weight_take(s@, d as nat, l as nat, i as int);
            lemma_kraft_weight_nonneg(t, d as nat, depth as nat);
        }
        if free > n as u128 {
            proof {
                // Every remaining codeword fits: the sum stays below one.
                let e = (l - g) as nat;
                lemma_kraft_weight_scale(t, d as nat, e, (dm - e) as nat);
                lemma_kraft_weight_tail(s@, d as nat, dm, i as int, n as int, e);
                assert(s@.take(n as int) =~= s@);
                lemma_pow_adds(d as int, (dm - e) as nat, e);
                lemma_pow_positive(d as int, (dm - e) as nat);
                let q = pow(d as int, (dm - e) as nat);
                let ws = kraft_weight(s@, d as nat, dm);
                let wt = kraft_weight(t, d as nat, dm);
                let we = kraft_weight(t, d as nat, e);
                assert(dm >= e) by {
                    assert(s@[i as int] <= dm);
                }
                assert(ws < pow(d as int, dm)) by (nonlinear_arith)
                    requires
                        free as int == pow(d as int, e) - we,
                        free > n,
                        wt == q * we,
                        ws <= wt + (n - i) * q,
                        pow(d as int, dm) == q * pow(d as int, e),
                        q > 0,
                        i <= n,
                ;
            }
            return KraftSum::Below;
        }
        if free == 0 {
            proof {
                // No room is left at depth `l` for codeword `i`.
                let e = (l - g) as nat;
                let q = pow(d as int, g as nat);
                assert(kraft_weight(t, d as nat, l as nat) == pow(d as int, l as nat)) by (nonlinear_arith)
                    requires
                        0 == pow(d as int, e) - kraft_weight(t, d as nat, e),
                        kraft_weight(t, d as nat, l as nat) == q * kraft_weight(t, d as nat, e),
                        pow(d as int, l as nat) == q * pow(d as int, e),
                ;
                let t1 = s@.take(i as int + 1);
                lemma_pow_positive(d as int, 0);
                lemma_pow0(d as int);
                assert(kraft_weight(t1, d as nat, l as nat) > pow(d as int, l as nat));
                assert forall|k: int| 0 <= k < t1.len() implies t1[k] <= l by {
                    assert(s@[k] <= s@[i as int]);
                }
                assert(dm >= l) by {
                    assert(s@[i as int] <= dm);
                }
                lemma_kraft_weight_scale(t1, d as nat, l as nat, (dm - l) as nat);
                lemma_pow_adds(d as int, (dm - l) as nat, l as nat);
                lemma_pow_positive(d as int, (dm - l) as nat);
                lemma_kraft_weight_tail(s@, d as nat, dm, i as int + 1, n as int, l as nat);
                assert(s@.take(n as int) =~= s@);
                let r = pow(d as int, (dm - l) as nat);
                assert(r * kraft_weight(t1, d as nat, l as nat) > r * pow(d as int, l as nat)) by (nonlinear_arith)
                    requires
                        kraft_weight(t1, d as nat, l as nat) > pow(d as int, l as nat),
                        r > 0,
                ;
            }
            return KraftSum::Above;
        }
        proof {
            assert(g == 0);
            lemma_pow0(d as int);
        }
        free = free - 1;
        depth = l;
        i = i + 1;
    }
    proof {
        assert(s@.take(n as int) =~= s@);
        if n > 0 {
            lemma_ascending_max(s@);
        }
    }
    if free == 0 {
        KraftSum::Exact
    } else {
        KraftSum::Below
    }
}

/// With `d == 1` every codeword weighs one.
proof fn lemma_kraft_weight_unary(s: Seq<usize>, depth: nat)
    ensures
        kraft_weight(s, 1, depth) == s.len(),
    decreases s.len(),
{
    if s.len() > 0 {
        lemma_kraft_weight_unary(s.drop_last(), depth);
        lemma1_pow((depth - s.last()) as nat);
    }
}

/// A codeword of length `depth` weighs one at that depth.
proof fn lemma_kraft_weight_contains(s: Seq<usize>, d: nat, depth: nat, k: int)
    requires
        0 <= k < s.len(),
        s[k] == depth,
    ensures
        kraft_weight(s, d, depth) >= 1,
{
    lemma_kraft_weight_remove(s, d, depth, k);
    lemma_kraft_weight_nonneg(s.remove(k), d, depth);
    lemma_pow0(d as int);
}

/// At depth 0, each codeword of length 0 weighs one.
proof fn lemma_kraft_weight_all_zero(s: Seq<usize>, d: nat)
    requires
        forall|k: int| 0 <= k < s.len() ==> s[k] == 0,
    ensures
        kraft_weight(s, d, 0) == s.len(),
    decreases s.len(),
{
    if s.len() > 0 {
        lemma_kraft_weight_all_zero(s.drop_last(), d);
        lemma_pow0(d as int);
        assert(s[s.len() - 1] == s.last());
    }
}

/// The comparison for the degenerate alphabets of size 0 and 1.
fn kraft_compare_degenerate(s: &Vec<usize>, d: usize) -> (r: KraftSum)
    requires
        d <= 1,
        is_ascending(s@),
    ensures
        (r is Below) <==> kraft_weight(s@, d as nat, max_length(s@)) < pow(d as int, max_length(s@)),
        (r is Exact) <==> kraft_weight(s@, d as nat, max_length(s@)) == pow(d as int, max_length(s@)),
        (r is Above) <==> kraft_weight(s@, d as nat, max_length(s@)) > pow(d as int, max_length(s@)),
{
    let n = s.len();
    if n == 0 {
        proof {
            lemma_pow0(d as int);
        }
        return KraftSum::Below;
    }
    proof {
        lemma_ascending_max(s@);
        lemma_max_length(s@);
    }
    let m = s[n - 1];
    if d == 1 {
        proof {
            lemma_kraft_weight_unary(s@, m as nat);
            lemma1_pow(m as nat);
        }
        if n == 1 {
            KraftSum::Exact
        } else {
            KraftSum::Above
        }
    } else if m > 0 {
        proof {
            lemma_kraft_weight_contains(s@, 0, m as nat, n - 1);
            lemma0_pow(m as nat);
        }
        KraftSum::Above
    } else {
        proof {
            assert forall|k: int| 0 <= k < s@.len() implies s@[k] == 0 by {
                assert(s@[k] <= s@[n - 1]);
            }
            lemma_kraft_weight_all_zero(s@, 0);
            lemma_pow0(0);
        }
        if n == 1 {
            KraftSum::Exact
        } else {
            KraftSum::Above
        }
    }
}

/// Verify Kraft's inequality `sum_i 2^(-l_i) <= 1` for binary codes.
pub fn verify(code_lengths: &[usize]) -> (ok: bool)
    ensures
        ok == kraft_holds(code_lengths@, 2),
{
    match kraft_compare(code_lengths, 2) {
        KraftSum::Above => false,
        _ => true,
    }
}

/// Verify Kraft's inequality `sum_i d^(-l_i) <= 1` for a D-ary alphabet.
pub fn verify_dary(code_lengths: &[usize], d: usize) -> (ok: bool)
    ensures
        ok == kraft_holds(code_lengths@, d as nat),
{
    match kraft_compare(code_lengths, d) {
        KraftSum::Above => false,
        _ => true,
    }
}

/// Given code lengths, determine if they represent a complete code
/// (Kraft sum == 1, meaning no unused code space).
pub fn is_complete(code_lengths: &[usize]) -> (complete: bool)
    ensures
        complete == kraft_is_complete(code_lengths@),
{
    match kraft_compare(code_lengths, 2) {
        KraftSum::Exact => true,
        _ => false,
    }
}

/// Given a number of symbols, compute the code lengths for a complete
/// binary code (all lengths equal, rounded up).
pub fn equal_length_codes(num_symbols: usize) -> (lengths: Vec<usize>)
    ensures
        lengths@.len() == num_symbols,
        num_symbols > 0 ==> ({
            let k = lengths@[0];
            &&& pow2(k as nat) >= num_symbols
            &&& (k == 0 || pow2((k - 1) as nat) < num_symbols)
            &&& forall|i: int| 0 <= i < num_symbols ==> #[trigger] lengths@[i] == k
        }),
{
    let mut lengths: Vec<usize> = Vec::new();
    if num_symbols == 0 {
        return lengths;
    }
    // Smallest k with 2^k >= num_symbols.
    let mut k: usize = 0;
    let mut p: u128 = 1;
    proof {
        lemma2_to64();
    }
    while p < num_symbols as u128
        invariant
            p == pow2(k as nat),
            k <= 64,
            k == 0 || pow2((k - 1) as nat) < num_symbols,
            num_symbols <= u64::MAX,
        decreases 64 - k,
    {
        proof {
            lemma_pow2_unfold(k as nat + 1);
            lemma2_to64_rest();
            if k >= 64 {
                if k > 64 {
                    lemma_pow2_strictly_increases(64, k as nat);
                }
            }
        }
        p = p * 2;
        k = k + 1;
    }
    let mut i: usize = 0;
    while i < num_symbols
        invariant
            i <= num_symbols,
            lengths@.len() == i,
            forall|j: int| 0 <= j < i ==> #[trigger] lengths@[j] == k,
        decreases num_symbols - i,
    {
        lengths.push(k);
        i = i + 1;
    }
    lengths
}

/// Equal lengths `k` for `n` symbols with `2^k >= n` satisfy Kraft's
/// inequality, and make a complete code exactly when `n` is `2^k`.
pub proof fn lemma_equal_lengths_kraft(lengths: Seq<usize>, k: usize)
    requires
        lengths.len() > 0,
        pow2(k as nat) >= lengths.len(),
        forall|i: int| 0 <= i < lengths.len() ==> #[trigger] lengths[i] == k,
    ensures
        kraft_holds(lengths, 2),
        kraft_is_complete(lengths) <==> lengths.len() == pow2(k as nat),
{
    lemma_max_length(lengths);
    assert(max_length(lengths) == k) by {
        let j = choose|j: int| 0 <= j < lengths.len() && lengths[j] == max_length(lengths) as usize;
    }
    lemma_kraft_weight_equal(lengths, k);
    lemma_pow2(k as nat);
}

proof fn lemma_kraft_weight_equal(lengths: Seq<usize>, k: usize)
    requires
        forall|i: int| 0 <= i < lengths.len() ==> #[trigger] lengths[i] == k,
    ensures
        kraft_weight(lengths, 2, k as nat) == lengths.len(),
    decreases lengths.len(),
{
    if lengths.len() > 0 {
        let t = lengths.drop_last();
        assert forall|i: int| 0 <= i < t.len() implies #[trigger] t[i] == k by {
            assert(t[i] == lengths[i]);
        }
        lemma_kraft_weight_equal(t, k);
        assert(lengths[lengths.len() - 1] == lengths.last());
        lemma_pow0(2);
    }
}

/// `a` comes no later than `b` when ordered by length, then by symbol.
pub open spec fn entry_le(a: (u8, usize), b: (u8, usize)) -> bool {
    a.1 < b.1 || (a.1 == b.1 && a.0 <= b.0)
}

/// Entries ordered by length, then by symbol.
pub open spec fn sorted_by_length(s: Seq<(u8, usize)>) -> bool {
    forall|i: int, j: int| 0 <= i <= j < s.len() ==> entry_le(s[i], s[j])
}

/// The lengths of a sequence of `(symbol, length)` entries.
pub open spec fn entry_lengths(s: Seq<(u8, usize)>) -> Seq<usize> {
    s.map_values(|e: (u8, usize)| e.1)
}

/// The value of the canonical codeword at position `i` of ascending
/// lengths: the number of nodes at depth `lengths[i]` that the earlier
/// codewords already cover.
pub open spec fn canonical_value(lengths: Seq<usize>, i: int) -> int {
    kraft_weight(lengths.take(i), 2, lengths[i] as nat)
}

/// `(symbol, length)` of each codeword.
pub open spec fn code_entries(codes: Seq<(u8, Seq<u8>)>) -> Seq<(u8, usize)> {
    codes.map_values(|c: (u8, Seq<u8>)| (c.0, c.1.len() as usize))
}

/// A canonical prefix code: codewords ordered by length then symbol, each
/// the binary representation, in exactly its length, of its canonical value.
pub open spec fn is_canonical_code(codes: Seq<(u8, Seq<u8>)>) -> bool {
    &&& forall|i: int| 0 <= i < codes.len() ==> (#[trigger] codes[i].1).len() <= usize::MAX
    &&& sorted_by_length(code_entries(codes))
    &&& forall|i: int| 0 <= i < codes.len() ==> is_binary(#[trigger] codes[i].1)
    &&& forall|i: int| 0 <= i < codes.len() ==> bits_value(#[trigger] codes[i].1) == canonical_value(
        entry_lengths(code_entries(codes)),
        i,
    )
}

/// Multiset equality is kept by mapping every element.
pub(crate) proof fn lemma_map_values_permutation<A, B>(s: Seq<A>, t: Seq<A>, f: spec_fn(A) -> B)
    requires
        s.to_multiset() == t.to_multiset(),
    ensures
        s.map_values(f).to_multiset() == t.map_values(f).to_multiset(),
    decreases s.len(),
{
    broadcast use vstd::seq_lib::group_to_multiset_ensures;
    if s.len() == 0 {
        s.to_multiset_ensures();
        t.to_multiset_ensures();
        assert(t.len() == 0);
        assert(s.map_values(f) =~= t.map_values(f));
    } else {
        let x = s.last();
        let s1 = s.drop_last();
        assert(s1.push(x) =~= s);
        assert(t.to_multiset().count(x) > 0);
        let k = choose|k: int| 0 <= k < t.len() && t[k] == x;
        let t1 = t.remove(k);
        assert(t1.to_multiset() =~= t.to_multiset().remove(x));
        assert(s1.to_multiset() =~= s.to_multiset().remove(x)) by {
            assert(s1.push(x).to_multiset() =~= s1.to_multiset().insert(x));
        }
        lemma_map_values_permutation(s1, t1, f);
        assert(s.map_values(f) =~= s1.map_values(f).push(f(x)));
        assert(t1.map_values(f) =~= t.map_values(f).remove(k));
        assert(s1.map_values(f).push(f(x)).to_multiset() =~= s1.map_values(f).to_multiset().insert(f(x)));
        assert(t.map_values(f).remove(k).to_multiset() =~= t.map_values(f).to_multiset().remove(f(x)));
        assert(t.map_values(f).to_multiset().count(f(x)) > 0) by {
            assert(t.map_values(f)[k] == f(x));
        }
    }
}

/// The entries ordered by length, then by symbol.
pub(crate) fn sort_entries(entries: &[(u8, usize)]) -> (v: Vec<(u8, usize)>)
    ensures
        sorted_by_length(v@),
        v@.to_multiset() == entries@.to_multiset(),
{
    let mut v: Vec<(u8, usize)> = Vec::new();
    let mut i: usize = 0;
    assert(v@ =~= entries@.take(0));
    while i < entries.len()
        invariant
            i <= entries@.len(),
            sorted_by_length(v@),
            v@.to_multiset() == entries@.take(i as int).to_multiset(),
        decreases entries@.len() - i,
    {
        let x = entries[i];
        let mut j: usize = 0;
        while j < v.len() && (v[j].1 < x.1 || (v[j].1 == x.1 && v[j].0 <= x.0))
            invariant
                j <= v@.len(),
                forall|k: int| 0 <= k < j ==> entry_le(#[trigger] v@[k], x),
            decreases v@.len() - j,
        {
            j = j + 1;
        }
        let ghost old_v = v@;
        v.insert(j, x);
        proof {
            vstd::seq_lib::to_multiset_insert(old_v, j as int, x);
            entries@.take(i as int).to_multiset_ensures();
            assert(entries@.take(i as int + 1) =~= entries@.take(i as int).push(x));
            assert forall|a: int, b: int| 0 <= a <= b < v@.len() implies entry_le(v@[a], v@[b]) by {
                if a < j && b < j {
                    assert(v@[a] == old_v[a] && v@[b] == old_v[b]);
                } else if a < j && b == j {
                    assert(v@[a] == old_v[a]);
                } else if a < j {
                    assert(v@[a] == old_v[a] && v@[b] == old_v[b - 1]);
                    assert(entry_le(old_v[a], old_v[j as int]));
                } else if a == j && b > j {
                    assert(v@[b] == old_v[b - 1]);
                    assert(!entry_le(old_v[j as int], x));
                    assert(entry_le(old_v[j as int], old_v[b - 1]));
                } else if a > j {
                    assert(v@[a] == old_v[a - 1] && v@[b] == old_v[b - 1]);
                }
            }
        }
        i = i + 1;
    }
    assert(entries@.take(entries@.len() as int) =~= entries@);
    v
}

/// In a Kraft-satisfying ascending list every prefix fits at its own depth.
proof fn lemma_kraft_prefix(lengths: Seq<usize>, i: int)
    requires
        is_ascending(lengths),
        kraft_holds(lengths, 2),
        0 <= i < lengths.len(),
    ensures
        kraft_weight(lengths.take(i + 1), 2, lengths[i] as nat) <= pow(2, lengths[i] as nat),
{
    let n = lengths.len();
    let l = lengths[i] as nat;
    lemma_ascending_max(lengths);
    let dm = max_length(lengths);
    assert(lengths[n - 1] == lengths.last());
    let t = lengths.take(i + 1);
    assert forall|k: int| 0 <= k < t.len() implies t[k] <= l by {
        assert(lengths[k] <= lengths[i]);
    }
    lemma_kraft_weight_scale(t, 2, l, (dm - l) as nat);
    assert forall|k: int| i + 1 <= k < n implies l <= #[trigger] lengths[k] <= dm by {
        assert(lengths[i] <= lengths[k]);
        assert(lengths[k] <= lengths[n - 1]);
    }
    lemma_kraft_weight_tail(lengths, 2, dm, i + 1, n as int, l);
    assert(lengths.take(n as int) =~= lengths);
    lemma_pow_adds(2, (dm - l) as nat, l);
    lemma_pow_positive(2, (dm - l) as nat);
    let q = pow(2, (dm - l) as nat);
    assert(kraft_weight(t, 2, l) <= pow(2, l)) by (nonlinear_arith)
        requires
            q * kraft_weight(t, 2, l) <= q * pow(2, l),
            q > 0,
    ;
}

/// Add one to a binary string that is not all ones.
fn increment(code: &mut Vec<u8>)
    requires
        is_binary(old(code)@),
        bits_value(old(code)@) + 1 < pow2(old(code)@.len()),
    ensures
        is_binary(final(code)@),
        final(code)@.len() == old(code)@.len(),
        bits_value(final(code)@) == bits_value(old(code)@) + 1,
{
    let n = code.len();
    let mut j: usize = n;
    while j > 0 && code[j - 1] == 1
        invariant
            j <= n,
            n == code@.len(),
            code@ == old(code)@,
            forall|k: int| j <= k < n ==> #[trigger] code@[k] == 1,
        decreases j,
    {
        j = j - 1;
    }
    let ghost t = (n - j) as nat;
    let ghost ones = Seq::new(t, |_i: int| 1u8);
    let ghost prefix = code@.take(j as int);
    proof {
        assert(code@.subrange(j as int, n as int) =~= ones);
        assert(prefix + ones =~= code@);
        lemma_bits_value_concat(prefix, ones);
        lemma_bits_value_ones(t);
        if j == 0 {
            assert(prefix.len() == 0);
            assert(bits_value(prefix) == 0);
        }
    }
    assert(j > 0);
    let ghost head = code@.take(j as int - 1);
    proof {
        assert(code@[j - 1] <= 1);
        assert(prefix =~= head.push(0u8));
    }
    code.set(j - 1, 1);
    let mut k: usize = j;
    while k < n
        invariant
            j <= k <= n,
            n == code@.len(),
            j >= 1,
            head.len() == j - 1,
            forall|m: int| 0 <= m < j - 1 ==> #[trigger] code@[m] == head[m],
            code@[j - 1] == 1,
            forall|m: int| j <= m < k ==> #[trigger] code@[m] == 0,
        decreases n - k,
    {
        code.set(k, 0);
        k = k + 1;
    }
    proof {
        let zeros = Seq::new(t, |_i: int| 0u8);
        assert(code@ =~= head.push(1u8) + zeros);
        lemma_bits_value_concat(head.push(1u8), zeros);
        lemma_bits_value_zeros(t);
        crate::bits::lemma_bits_value_push(head, 1u8);
        crate::bits::lemma_bits_value_push(head, 0u8);
        let h = bits_value(head) as int;
        let p = pow2(t) as int;
        assert((2 * h + 1) * p == (2 * h) * p + (p - 1) + 1) by (nonlinear_arith);
        assert forall|m: int| 0 <= m < code@.len() implies #[trigger] code@[m] <= 1 by {
            if m < j - 1 {
                assert(code@[m] == head[m]);
                assert(head[m] == old(code)@[m]);
            }
        }
    }
}

/// Given code lengths, construct a canonical prefix-free code
/// (if the lengths satisfy Kraft's inequality).
/// Returns None if Kraft's inequality is violated.
pub fn construct_canonical(code_lengths: &[(u8, usize)]) -> (r: Option<Vec<(u8, Vec<u8>)>>)
    ensures
        (r is None) <==> !kraft_holds(entry_lengths(code_lengths@), 2),
        r matches Some(codes) ==> ({
            let c = codes@.map_values(|e: (u8, Vec<u8>)| (e.0, e.1@));
            &&& is_canonical_code(c)
            &&& code_entries(c).to_multiset() == code_lengths@.to_multiset()
        }),
{
    let mut lens: Vec<usize> = Vec::new();
    let mut i: usize = 0;
    while i < code_lengths.len()
        invariant
            i <= code_lengths@.len(),
            lens@ == entry_lengths(code_lengths@.take(i as int)),
        decreases code_lengths@.len() - i,
    {
        lens.push(code_lengths[i].1);
        i = i + 1;
        assert(lens@ =~= entry_lengths(code_lengths@.take(i as int)));
    }
    assert(code_lengths@.take(code_lengths@.len() as int) =~= code_lengths@);
    match kraft_compare(&lens, 2) {
        KraftSum::Above => {
            return None;
        },
        _ => {},
    }

    // Sort by length, then by symbol
    let sorted = sort_entries(code_lengths);
    let ghost ls = entry_lengths(sorted@);
    proof {
        lemma_map_values_permutation(sorted@, code_lengths@, |e: (u8, usize)| e.1);
        lemma_max_length_same_elements(ls, entry_lengths(code_lengths@));
        lemma_kraft_weight_permutation(ls, entry_lengths(code_lengths@), 2, max_length(ls));
        assert forall|a: int, b: int| 0 <= a <= b < ls.len() implies ls[a] <= ls[b] by {
            assert(entry_le(sorted@[a], sorted@[b]));
        }
    }

    let n = sorted.len();
    let mut codes: Vec<(u8, Vec<u8>)> = Vec::new();
    let mut code: Vec<u8> = Vec::new();
    let mut prev_len: usize = 0;
    let mut i: usize = 0;
    while i < n
        invariant
            n == sorted@.len(),
            ls == entry_lengths(sorted@),
            is_ascending(ls),
            kraft_holds(ls, 2),
            sorted_by_length(sorted@),
            i <= n,
            codes@.len() == i,
            is_binary(code@),
            code@.len() == prev_len,
            i > 0 ==> prev_len == ls[i - 1] && bits_value(code@) == canonical_value(ls, i - 1),
            i == 0 ==> prev_len == 0 && code@.len() == 0,
            forall|k: int| 0 <= k < i ==> (#[trigger] codes@[k]).0 == sorted@[k].0 && codes@[k].1@.len() == ls[k]
                && is_binary(codes@[k].1@) && bits_value(codes@[k].1@) == canonical_value(ls, k),
        decreases n - i,
    {
        let sym = sorted[i].0;
        let len = sorted[i].1;
        proof {
            lemma_kraft_prefix(ls, i as int);
            lemma_kraft_weight_take(ls, 2, len as nat, i as int);
            if i > 0 {
                assert(ls[i - 1] <= ls[i as int]);
            }
        }
        if i > 0 {
            proof {
                // The next codeword still fits, so the current one is not all ones.
                let l0 = prev_len as nat;
                let t = ls.take(i as int);
                assert forall|k: int| 0 <= k < t.len() implies t[k] <= l0 by {
                    assert(ls[k] <= ls[i - 1]);
                }
                lemma_kraft_weight_scale(t, 2, l0, (len - l0) as nat);
                lemma_kraft_weight_take(ls, 2, l0, i as int - 1);
                assert(ls.take(i as int - 1 + 1) =~= t);
                lemma_pow0(2);
                lemma_pow_adds(2, (len - l0) as nat, l0);
                lemma_pow_positive(2, (len - l0) as nat);
                lemma_pow2(l0);
                let q = pow(2, (len - l0) as nat);
                let v = bits_value(code@) as int;
                assert(v + 1 < pow(2, l0)) by (nonlinear_arith)
                    requires
                        q * (v + 1) + 1 <= q * pow(2, l0),
                        q > 0,
                ;
            }
            increment(&mut code);
        }
        let ghost before = code@;
        let mut z: usize = prev_len;
        while z < len
            invariant
                prev_len <= z <= len,
                code@ == before + Seq::new((z - prev_len) as nat, |_i: int| 0u8),
            decreases len - z,
        {
            code.push(0);
            z = z + 1;
            assert(code@ =~= before + Seq::new((z - prev_len) as nat, |_i: int| 0u8));
        }
        proof {
            let g = (len - prev_len) as nat;
            lemma_bits_value_concat(before, Seq::new(g, |_i: int| 0u8));
            lemma_bits_value_zeros(g);
            lemma_pow2(g);
            assert(is_binary(code@)) by {
                assert forall|m: int| 0 <= m < code@.len() implies #[trigger] code@[m] <= 1 by {
                    if m < before.len() {
                        assert(code@[m] == before[m]);
                    }
                }
            }
            if i == 0 {
                assert(ls.take(0) =~= Seq::<usize>::empty());
                assert(bits_value(before) == 0);
            } else {
                let l0 = prev_len as nat;
                let t = ls.take(i as int);
                assert forall|k: int| 0 <= k < t.len() implies t[k] <= l0 by {
                    assert(ls[k] <= ls[i - 1]);
                }
                lemma_kraft_weight_scale(t, 2, l0, g);
                lemma_kraft_weight_take(ls, 2, l0, i as int - 1);
                assert(ls.take(i as int - 1 + 1) =~= t);
                lemma_pow0(2);
                let q = pow(2, g);
                let v = canonical_value(ls, i as int - 1);
                assert(bits_value(code@) == (v + 1) * q);
                assert(canonical_value(ls, i as int) == q * (v + 1));
                vstd::arithmetic::mul::lemma_mul_is_commutative(q, v + 1);
            }
        }
        codes.push((sym, code.clone()));
        prev_len = len;
        i = i + 1;
    }
    proof {
        let c = codes@.map_values(|e: (u8, Vec<u8>)| (e.0, e.1@));
        assert(code_entries(c) =~= sorted@);
        assert(entry_lengths(code_entries(c)) =~= ls);
    }
    Some(codes)
}

/// Two codewords of a canonical code: the later one lies at or beyond the
/// end of the earlier one's subtree.
proof fn lemma_canonical_order(ls: Seq<usize>, i: int, j: int)
    requires
        is_ascending(ls),
        0 <= i < j < ls.len(),
    ensures
        canonical_value(ls, j) >= (canonical_value(ls, i) + 1) * pow(2, (ls[j] - ls[i]) as nat),
{
    let li = ls[i] as nat;
    let lj = ls[j] as nat;
    assert(li <= lj);
    let t = ls.take(i + 1);
    assert forall|k: int| 0 <= k < t.len() implies t[k] <= li by {
        assert(ls[k] <= ls[i]);
    }
    lemma_kraft_weight_scale(t, 2, li, (lj - li) as nat);
    lemma_kraft_weight_take(ls, 2, li, i);
    lemma_pow0(2);
    let u = ls.take(j);
    assert forall|k: int| i + 1 <= k < u.len() implies li <= #[trigger] u[k] <= lj by {
        assert(u[k] == ls[k]);
        assert(ls[i] <= ls[k]);
        assert(ls[k] <= ls[j]);
    }
    assert(u.take(i + 1) =~= t);
    assert(u.take(j) =~= u);
    lemma_kraft_weight_tail(u, 2, lj, i + 1, j, li);
    assert((li + (lj - li)) as nat == lj);
    let q = pow(2, (lj - li) as nat);
    vstd::arithmetic::mul::lemma_mul_is_commutative(q, canonical_value(ls, i) + 1);
}

/// A canonical code is prefix-free: no codeword is a prefix of another.
pub proof fn lemma_canonical_prefix_free(codes: Seq<(u8, Seq<u8>)>, i: int, j: int)
    requires
        is_canonical_code(codes),
        0 <= i < codes.len(),
        0 <= j < codes.len(),
        i != j,
    ensures
        !codes[i].1.is_prefix_of(codes[j].1),
{
    let e = code_entries(codes);
    let ls = entry_lengths(e);
    assert(is_ascending(ls)) by {
        assert forall|a: int, b: int| 0 <= a <= b < ls.len() implies ls[a] <= ls[b] by {
            assert(entry_le(e[a], e[b]));
        }
    }
    let ci = codes[i].1;
    let cj = codes[j].1;
    assert(e[i].1 == ci.len() as usize && e[j].1 == cj.len() as usize);
    assert(ls[i] == ci.len() && ls[j] == cj.len());
    let vi = canonical_value(ls, i);
    let vj = canonical_value(ls, j);
    assert(bits_value(ci) == vi && bits_value(cj) == vj);
    if ci.is_prefix_of(cj) {
        lemma_bits_value_prefix(ci, cj);
        let g = (cj.len() - ci.len()) as nat;
        lemma_pow2(g);
        lemma_pow2_pos(g);
        let p = pow2(g) as int;
        if i < j {
            lemma_canonical_order(ls, i, j);
            assert(vj >= (vi + 1) * p);
            vstd::arithmetic::div_mod::lemma_div_is_ordered((vi + 1) * p, vj, p);
            vstd::arithmetic::div_mod::lemma_div_multiples_vanish(vi + 1, p);
            vstd::arithmetic::mul::lemma_mul_is_commutative(vi + 1, p);
            assert(vi == vj / p);
            assert(false);
        } else {
            assert(ls[j] <= ls[i]) by {
                assert(entry_le(e[j], e[i]));
            }
            assert(g == 0);
            lemma_canonical_order(ls, j, i);
            lemma_pow0(2);
            assert(pow2(0) == 1) by {
                lemma2_to64();
            }
            assert(vi == vj);
            assert(false);
        }
    }
}

} // verus!
