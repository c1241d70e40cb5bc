//! Bit strings: sequences of 0/1 bytes read as big-endian binary numbers.

use vstd::prelude::*;
use vstd::arithmetic::power2::*;

verus! {

/// Every element of `bits` is 0 or 1.
pub open spec fn is_binary(bits: Seq<u8>) -> bool {
    forall|i: int| 0 <= i < bits.len() ==> #[trigger] bits[i] <= 1
}

/// The number whose big-endian binary digits are `bits`.
pub open spec fn bits_value(bits: Seq<u8>) -> nat
    decreases bits.len(),
{
    if bits.len() == 0 {
        0
    } else {
        2 * bits_value(bits.drop_last()) + bits.last() as nat
    }
}

/// Appending a digit doubles the value and adds the digit.
pub proof fn lemma_bits_value_push(bits: Seq<u8>, b: u8)
    ensures
        bits_value(bits.push(b)) == 2 * bits_value(bits) + b,
{
    assert(bits.push(b).drop_last() =~= bits);
}

/// The value of a concatenation.
pub proof fn lemma_bits_value_concat(a: Seq<u8>, b: Seq<u8>)
    ensures
        bits_value(a + b) == bits_value(a) * pow2(b.len()) + bits_value(b),
    decreases b.len(),
{
    lemma2_to64();
    if b.len() == 0 {
        assert(a + b =~= a);
    } else {
        let c = b.drop_last();
        lemma_bits_value_concat(a, c);
        assert((a + b) =~= (a + c).push(b.last()));
        assert(b =~= c.push(b.last()));
        lemma_bits_value_push(a + c, b.last());
        lemma_bits_value_push(c, b.last());
        lemma_pow2_unfold(b.len());
        let x = bits_value(a);
        let p = pow2(c.len());
        assert(2 * (x * p + bits_value(c)) + b.last() == x * (2 * p) + (2 * bits_value(c) + b.last()))
            by (nonlinear_arith);
    }
}

/// A binary string of length `n` has a value below `2^n`.
pub proof fn lemma_bits_value_bound(bits: Seq<u8>)
    requires
        is_binary(bits),
    ensures
        bits_value(bits) < pow2(bits.len()),
    decreases bits.len(),
{
    lemma2_to64();
    if bits.len() > 0 {
        let c = bits.drop_last();
        assert(is_binary(c)) by {
            assert forall|i: int| 0 <= i < c.len() implies #[trigger] c[i] <= 1 by {
                assert(c[i] == bits[i]);
            }
        }
        lemma_bits_value_bound(c);
        lemma_pow2_unfold(bits.len());
        assert(bits[bits.len() - 1] <= 1);
    }
}

/// `n` ones are worth `2^n - 1`.
pub proof fn lemma_bits_value_ones(n: nat)
    ensures
        bits_value(Seq::new(n, |_i: int| 1u8)) == pow2(n) - 1,
    decreases n,
{
    lemma2_to64();
    if n > 0 {
        lemma_bits_value_ones((n - 1) as nat);
        assert(Seq::new(n, |_i: int| 1u8) =~= Seq::new((n - 1) as nat, |_i: int| 1u8).push(1u8));
        lemma_bits_value_push(Seq::new((n - 1) as nat, |_i: int| 1u8), 1u8);
        lemma_pow2_unfold(n);
    }
}

/// `n` zeros are worth nothing.
pub proof fn lemma_bits_value_zeros(n: nat)
    ensures
        bits_value(Seq::new(n, |_i: int| 0u8)) == 0,
    decreases n,
{
    if n > 0 {
        lemma_bits_value_zeros((n - 1) as nat);
        assert(Seq::new(n, |_i: int| 0u8) =~= Seq::new((n - 1) as nat, |_i: int| 0u8).push(0u8));
        lemma_bits_value_push(Seq::new((n - 1) as nat, |_i: int| 0u8), 0u8);
    }
}

/// A prefix is worth the value of the whole string with its tail cut off.
pub proof fn lemma_bits_value_prefix(a: Seq<u8>, b: Seq<u8>)
    requires
        a.is_prefix_of(b),
        is_binary(b),
    ensures
        bits_value(a) == bits_value(b) / pow2((b.len() - a.len()) as nat),
{
    let rest = b.subrange(a.len() as int, b.len() as int);
    assert(a + rest =~= b);
    lemma_bits_value_concat(a, rest);
    assert(is_binary(rest)) by {
        assert forall|i: int| 0 <= i < rest.len() implies #[trigger] rest[i] <= 1 by {
            assert(rest[i] == b[i + a.len()]);
        }
    }
    lemma_bits_value_bound(rest);
    lemma_pow2_pos(rest.len());
    let p = pow2(rest.len()) as int;
    vstd::arithmetic::div_mod::lemma_fundamental_div_mod(bits_value(b) as int, p);
    vstd::arithmetic::div_mod::lemma_div_multiples_vanish_fancy(bits_value(a) as int, bits_value(rest) as int, p);
    vstd::arithmetic::mul::lemma_mul_is_commutative(bits_value(a) as int, p);
}

} // verus!
