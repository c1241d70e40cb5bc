//! What the arithmetic coder guarantees: rescaling keeps the coded
//! interval, encoding a symbol narrows it, the finishing bits fall inside
//! it, and a decoder fed the same symbols follows the same intervals.

use vstd::prelude::*;
use vstd::arithmetic::power2::*;
use crate::bits::{
    bits_value, is_binary, lemma_bits_value_bound, lemma_bits_value_concat, lemma_bits_value_prefix,
    lemma_bits_value_push, lemma_bits_value_zeros,
};
use crate::arithmetic::{
    cumulative, emit, encode_bytes, initial_code, lemma_cumulative_monotone, lemma_floor_gap,
    lemma_initial_code_bound, lemma_normalized_range, lemma_shift_in_binary, next_bit,
    lemma_smoothed_total, simple_encode_bits, smoothed_total, DecoderModel, EncoderModel, HALF,
    QUARTER, WHOLE,
};

verus! {

/// Numerator of the lower end of the interval an encoder state stands
/// for, as a fraction of `2^scale`: the emitted bits, the deferred middle
/// rescalings, and the low end in 32-bit coordinates.
pub open spec fn interval_low(m: EncoderModel) -> int {
    bits_value(m.bits) * pow2(m.pending + 32) + (pow2(m.pending) - 1) * HALF + m.low
}

/// Numerator of the (exclusive) upper end of the coded interval.
pub open spec fn interval_end(m: EncoderModel) -> int {
    bits_value(m.bits) * pow2(m.pending + 32) + (pow2(m.pending) - 1) * HALF + m.high + 1
}

/// Binary exponent of the denominator of the coded interval.
pub open spec fn scale(m: EncoderModel) -> nat {
    m.bits.len() + m.pending + 32
}

/// Value of `bits` followed by `bit` and `pending` opposite bits.
proof fn lemma_emit_value(bits: Seq<u8>, bit: u8, pending: nat)
    requires
        bit <= 1,
    ensures
        bits_value(emit(bits, bit, pending)) == bits_value(bits) * pow2(pending + 1) + bit * pow2(pending)
            + (1 - bit) * (pow2(pending) - 1),
        emit(bits, bit, pending).len() == bits.len() + 1 + pending,
    decreases pending,
{
    lemma2_to64();
    assert((bit ^ 1u8) == 1 - bit) by (bit_vector)
        requires
            bit <= 1u8,
    ;
    if pending == 0 {
        assert(emit(bits, bit, 0) =~= bits.push(bit));
        lemma_bits_value_push(bits, bit);
        assert(pow2(1) == 2 && pow2(0) == 1);
        let v = bits_value(bits);
        assert(v * pow2(1) == 2 * v) by (nonlinear_arith)
            requires
                pow2(1) == 2,
        ;
        assert(bits_value(emit(bits, bit, pending)) == bits_value(bits) * pow2(pending + 1) + bit * pow2(pending)
            + (1 - bit) * (pow2(pending) - 1));
    } else {
        let p = (pending - 1) as nat;
        lemma_emit_value(bits, bit, p);
        assert(emit(bits, bit, pending) =~= emit(bits, bit, p).push(bit ^ 1u8));
        lemma_bits_value_push(emit(bits, bit, p), bit ^ 1u8);
        lemma_pow2_unfold(pending);
        lemma_pow2_unfold(pending + 1);
        let v = bits_value(bits) as int;
        let q = pow2(p) as int;
        let b = bit as int;
        let a = bits_value(emit(bits, bit, p)) as int;
        assert(pow2(p + 1) == 2 * q);
        assert(pow2(pending) == 2 * q);
        assert(pow2(pending + 1) == 4 * q);
        assert(a == v * (2 * q) + b * q + (1 - b) * (q - 1));
        assert(bits_value(emit(bits, bit, pending)) == 2 * a + (1 - b));
        assert(2 * (v * (2 * q) + b * q + (1 - b) * (q - 1)) + (1 - b)
            == v * (4 * q) + b * (2 * q) + (1 - b) * (2 * q - 1)) by (nonlinear_arith);
        assert(bits_value(emit(bits, bit, pending)) == v * (4 * q) + b * (2 * q) + (1 - b) * (2 * q - 1));
        assert(bits_value(emit(bits, bit, pending)) == bits_value(bits) * pow2(pending + 1) + bit * pow2(pending)
            + (1 - bit) * (pow2(pending) - 1));
    }
}

/// Emitting keeps the bits binary.
proof fn lemma_emit_binary(bits: Seq<u8>, bit: u8, pending: nat)
    requires
        is_binary(bits),
        bit <= 1,
    ensures
        is_binary(emit(bits, bit, pending)),
        bits.is_prefix_of(emit(bits, bit, pending)),
{
    assert((bit ^ 1u8) <= 1) by (bit_vector)
        requires
            bit <= 1u8,
    ;
    let e = emit(bits, bit, pending);
    assert forall|i: int| 0 <= i < e.len() implies #[trigger] e[i] <= 1 by {
        if i < bits.len() {
            assert(e[i] == bits[i]);
        }
    }
    assert forall|i: int| 0 <= i < bits.len() implies #[trigger] e[i] == bits[i] by {}
}

/// Rescaling doubles both ends of the coded interval and adds one to the scale.
proof fn lemma_rescale_step(m: EncoderModel, n: EncoderModel)
    requires
        m.valid(),
        is_binary(m.bits),
        (m.high < HALF && n == EncoderModel {
            low: 2 * m.low,
            high: 2 * m.high + 1,
            pending: 0,
            bits: emit(m.bits, 0u8, m.pending),
        }) || (m.high >= HALF && m.low >= HALF && n == EncoderModel {
            low: 2 * (m.low - HALF) as nat,
            high: 2 * (m.high - HALF) as nat + 1,
            pending: 0,
            bits: emit(m.bits, 1u8, m.pending),
        }) || (m.high >= HALF && m.low < HALF && m.low >= QUARTER && m.high < 3 * QUARTER
            && n == EncoderModel {
            low: 2 * (m.low - QUARTER) as nat,
            high: 2 * (m.high - QUARTER) as nat + 1,
            pending: m.pending + 1,
            bits: m.bits,
        }),
    ensures
        n.valid(),
        is_binary(n.bits),
        m.bits.is_prefix_of(n.bits),
        scale(n) == scale(m) + 1,
        interval_low(n) == 2 * interval_low(m),
        interval_end(n) == 2 * interval_end(m),
{
    lemma2_to64();
    let p = m.pending;
    let v = bits_value(m.bits);
    let q = pow2(p);
    lemma_pow2_adds(p, 32);
    lemma_pow2_adds(p + 1, 32);
    lemma_pow2_adds(1, 32);
    lemma_pow2_unfold(p + 1);
    if m.high < HALF {
        lemma_emit_value(m.bits, 0u8, p);
        lemma_emit_binary(m.bits, 0u8, p);
        assert(bits_value(n.bits) * pow2(32) + m.low * 2 == 2 * (v * (q * pow2(32)) + (q - 1) * HALF
            + m.low)) by (nonlinear_arith)
            requires
                bits_value(n.bits) == v * (2 * q) + (q - 1),
                pow2(32) == 2 * HALF,
        ;
        assert(bits_value(n.bits) * pow2(32) + m.high * 2 + 2 == 2 * (v * (q * pow2(32)) + (q - 1)
            * HALF + m.high + 1)) by (nonlinear_arith)
            requires
                bits_value(n.bits) == v * (2 * q) + (q - 1),
                pow2(32) == 2 * HALF,
        ;
    } else if m.low >= HALF {
        lemma_emit_value(m.bits, 1u8, p);
        lemma_emit_binary(m.bits, 1u8, p);
        assert(bits_value(n.bits) * pow2(32) + (m.low - HALF) * 2 == 2 * (v * (q * pow2(32)) + (q
            - 1) * HALF + m.low)) by (nonlinear_arith)
            requires
                bits_value(n.bits) == v * (2 * q) + q,
                pow2(32) == 2 * HALF,
        ;
        assert(bits_value(n.bits) * pow2(32) + (m.high - HALF) * 2 + 2 == 2 * (v * (q * pow2(32))
            + (q - 1) * HALF + m.high + 1)) by (nonlinear_arith)
            requires
                bits_value(n.bits) == v * (2 * q) + q,
                pow2(32) == 2 * HALF,
        ;
    } else {
        assert(m.bits.is_prefix_of(n.bits));
        assert(v * ((2 * q) * pow2(32)) + (2 * q - 1) * HALF + (m.low - QUARTER) * 2 == 2 * (v * (q
            * pow2(32)) + (q - 1) * HALF + m.low)) by (nonlinear_arith)
            requires
                pow2(32) == 2 * HALF,
                HALF == 2 * QUARTER,
        ;
        assert(v * ((2 * q) * pow2(32)) + (2 * q - 1) * HALF + (m.high - QUARTER) * 2 + 2 == 2 * (v
            * (q * pow2(32)) + (q - 1) * HALF + m.high + 1)) by (nonlinear_arith)
            requires
                pow2(32) == 2 * HALF,
                HALF == 2 * QUARTER,
        ;
    }
}

/// Rescaling changes only how the coded interval is written down: both
/// of its ends are multiplied by the same power of two by which the scale
/// grows, and the bits already emitted stay in place.
pub proof fn lemma_renormalize_keeps_interval(m: EncoderModel)
    requires
        m.valid(),
        is_binary(m.bits),
    ensures
        ({
            let n = m.renormalize();
            &&& n.normalized()
            &&& is_binary(n.bits)
            &&& m.bits.is_prefix_of(n.bits)
            &&& scale(n) >= scale(m)
            &&& interval_low(n) == interval_low(m) * pow2((scale(n) - scale(m)) as nat)
            &&& interval_end(n) == interval_end(m) * pow2((scale(n) - scale(m)) as nat)
        }),
    decreases WHOLE + m.low - m.high,
{
    lemma2_to64();
    let n = m.renormalize();
    let step = if m.high < HALF {
        EncoderModel {
            low: 2 * m.low,
            high: 2 * m.high + 1,
            pending: 0,
            bits: emit(m.bits, 0u8, m.pending),
        }
    } else if m.low >= HALF {
        EncoderModel {
            low: 2 * (m.low - HALF) as nat,
            high: 2 * (m.high - HALF) as nat + 1,
            pending: 0,
            bits: emit(m.bits, 1u8, m.pending),
        }
    } else {
        EncoderModel {
            low: 2 * (m.low - QUARTER) as nat,
            high: 2 * (m.high - QUARTER) as nat + 1,
            pending: m.pending + 1,
            bits: m.bits,
        }
    };
    if m.high < HALF || m.low >= HALF || (m.low >= QUARTER && m.high < 3 * QUARTER) {
        lemma_rescale_step(m, step);
        assert(n == step.renormalize());
        lemma_renormalize_keeps_interval(step);
        let k = (scale(n) - scale(step)) as nat;
        assert((scale(n) - scale(m)) as nat == k + 1);
        lemma_pow2_unfold(k + 1);
        assert(interval_low(n) == interval_low(m) * pow2(k + 1)) by (nonlinear_arith)
            requires
                interval_low(n) == interval_low(step) * pow2(k),
                interval_low(step) == 2 * interval_low(m),
                pow2(k + 1) == 2 * pow2(k),
        ;
        assert(interval_end(n) == interval_end(m) * pow2(k + 1)) by (nonlinear_arith)
            requires
                interval_end(n) == interval_end(step) * pow2(k),
                interval_end(step) == 2 * interval_end(m),
                pow2(k + 1) == 2 * pow2(k),
        ;
        assert(m.bits.is_prefix_of(n.bits)) by {
            assert forall|i: int| 0 <= i < m.bits.len() implies #[trigger] n.bits[i] == m.bits[i] by {
                assert(step.bits[i] == m.bits[i]);
            }
        }
        assert(interval_low(n) == interval_low(m) * pow2((scale(n) - scale(m)) as nat));
    } else {
        assert(n == m);
        assert(m.bits.is_prefix_of(m.bits));
        assert(pow2((scale(n) - scale(m)) as nat) == 1);
        assert(interval_low(n) == interval_low(m) * pow2((scale(n) - scale(m)) as nat));
    }
}

/// `a <= x / d` exactly when `a * d <= x`, for a positive divisor.
proof fn lemma_le_div_iff(a: int, x: int, d: int)
    requires
        d > 0,
        x >= 0,
    ensures
        (a <= x / d) <==> (a * d <= x),
{
    vstd::arithmetic::div_mod::lemma_fundamental_div_mod(x, d);
    vstd::arithmetic::div_mod::lemma_mod_pos_bound(x, d);
    let q = x / d;
    let r = x % d;
    assert((a <= q) <==> (a * d <= x)) by (nonlinear_arith)
        requires
            x == d * q + r,
            0 <= r < d,
            d > 0,
    ;
}

/// A symbol's share never reaches past the end of the interval.
proof fn lemma_share_within(range: int, c: int, total: int)
    requires
        range >= 0,
        0 <= c <= total,
        total > 0,
    ensures
        0 <= range * c / total <= range,
{
    assert(0 <= range * c <= range * total) by (nonlinear_arith)
        requires
            range >= 0,
            0 <= c <= total,
    ;
    vstd::arithmetic::div_mod::lemma_div_is_ordered(range * c, range * total, total);
    vstd::arithmetic::div_mod::lemma_div_is_ordered(0, range * c, total);
    vstd::arithmetic::div_mod::lemma_div_by_multiple(range, total);
    vstd::arithmetic::mul::lemma_mul_is_commutative(range, total);
}

/// Encoding a symbol narrows the coded interval to the symbol's share
/// `[range * cum_low / total, range * cum_high / total)` of it, written at a
/// finer scale; the new interval lies within the old one and the bits
/// already emitted stay in place.
pub proof fn lemma_encode_narrows(m: EncoderModel, cum_low: nat, cum_high: nat, total: nat)
    requires
        m.valid(),
        is_binary(m.bits),
        m.can_encode(cum_low, cum_high, total),
    ensures
        ({
            let n = m.encode(cum_low, cum_high, total);
            let k = (scale(n) - scale(m)) as nat;
            &&& n.normalized()
            &&& is_binary(n.bits)
            &&& m.bits.is_prefix_of(n.bits)
            &&& scale(n) >= scale(m)
            &&& interval_low(n) == (interval_low(m) + m.range() * cum_low / (total as int)) * pow2(k)
            &&& interval_end(n) == (interval_low(m) + m.range() * cum_high / (total as int)) * pow2(k)
            &&& interval_low(m) * pow2(k) <= interval_low(n)
            &&& interval_end(n) <= interval_end(m) * pow2(k)
        }),
{
    let t = total as int;
    lemma_share_within(m.range(), cum_low as int, t);
    lemma_share_within(m.range(), cum_high as int, t);
    let a = m.narrow(cum_low, cum_high, total);
    assert(a.valid());
    assert(interval_low(a) == interval_low(m) + m.range() * cum_low / t);
    assert(interval_end(a) == interval_low(m) + m.range() * cum_high / t);
    lemma_renormalize_keeps_interval(a);
    let n = m.encode(cum_low, cum_high, total);
    let k = (scale(n) - scale(m)) as nat;
    assert(scale(a) == scale(m));
    vstd::arithmetic::power2::lemma_pow2_pos(k);
    let p = pow2(k) as int;
    assert(interval_low(m) * p <= interval_low(n)) by (nonlinear_arith)
        requires
            interval_low(n) == (interval_low(m) + m.range() * cum_low / t) * p,
            m.range() * cum_low / t >= 0,
            p > 0,
    ;
    assert(interval_end(n) <= interval_end(m) * p) by (nonlinear_arith)
        requires
            interval_end(n) == (interval_low(m) + m.range() * cum_high / t) * p,
            interval_end(m) == interval_low(m) + m.range(),
            m.range() * cum_high / t <= m.range(),
            p > 0,
    ;
}

/// The bits that finish encoding, read as a binary fraction, fall inside
/// the coded interval: `interval_low <= value < interval_end` at the
/// coder's scale, which is 30 bits finer than the output.
pub proof fn lemma_finish_inside(m: EncoderModel)
    requires
        m.normalized(),
        is_binary(m.bits),
    ensures
        m.finish_bits().len() + 30 == scale(m),
        is_binary(m.finish_bits()),
        m.bits.is_prefix_of(m.finish_bits()),
        interval_low(m) <= bits_value(m.finish_bits()) * pow2(30),
        bits_value(m.finish_bits()) * pow2(30) < interval_end(m),
{
    lemma2_to64();
    let p = m.pending;
    let b: u8 = if m.low < QUARTER { 0u8 } else { 1u8 };
    lemma_emit_value(m.bits, b, p + 1);
    lemma_emit_binary(m.bits, b, p + 1);
    lemma_pow2_unfold(p + 1);
    lemma_pow2_unfold(p + 2);
    lemma_pow2_adds(p, 32);
    let q = pow2(p) as int;
    let v = bits_value(m.bits) as int;
    let w = bits_value(m.finish_bits()) as int;
    assert(pow2(p + 32) == q * pow2(32));
    if b == 0 {
        assert(w == v * (4 * q) + (2 * q - 1));
        assert(v * (q * (4 * QUARTER)) + (q - 1) * (2 * QUARTER) + m.low <= w * QUARTER) by (nonlinear_arith)
            requires
                w == v * (4 * q) + (2 * q - 1),
                m.low < QUARTER,
        ;
        assert(w * QUARTER < v * (q * (4 * QUARTER)) + (q - 1) * (2 * QUARTER) + m.high + 1) by (nonlinear_arith)
            requires
                w == v * (4 * q) + (2 * q - 1),
                m.high >= 2 * QUARTER,
        ;
    } else {
        assert(w == v * (4 * q) + 2 * q);
        assert(v * (q * (4 * QUARTER)) + (q - 1) * (2 * QUARTER) + m.low <= w * QUARTER) by (nonlinear_arith)
            requires
                w == v * (4 * q) + 2 * q,
                m.low < 2 * QUARTER,
        ;
        assert(w * QUARTER < v * (q * (4 * QUARTER)) + (q - 1) * (2 * QUARTER) + m.high + 1) by (nonlinear_arith)
            requires
                w == v * (4 * q) + 2 * q,
                m.high >= 2 * QUARTER,
        ;
    }
}

/// Rescaling moves a decoder's interval exactly as it moves an encoder's.
proof fn lemma_renormalize_lockstep(e: EncoderModel, d: DecoderModel, bits: Seq<u8>)
    requires
        e.low == d.low,
        e.high == d.high,
    ensures
        e.renormalize().low == d.renormalize(bits).low,
        e.renormalize().high == d.renormalize(bits).high,
    decreases WHOLE + e.low - e.high,
{
    if e.valid() {
        if e.high < HALF {
            lemma_renormalize_lockstep(
                EncoderModel { low: 2 * e.low, high: 2 * e.high + 1, pending: 0, bits: emit(e.bits, 0u8, e.pending) },
                DecoderModel { low: 2 * d.low, high: 2 * d.high + 1, code: shift_in_next(d, bits), bit_index: d.bit_index + 1 },
                bits,
            );
        } else if e.low >= HALF {
            lemma_renormalize_lockstep(
                EncoderModel {
                    low: 2 * (e.low - HALF) as nat,
                    high: 2 * (e.high - HALF) as nat + 1,
                    pending: 0,
                    bits: emit(e.bits, 1u8, e.pending),
                },
                DecoderModel {
                    low: 2 * (d.low - HALF) as nat,
                    high: 2 * (d.high - HALF) as nat + 1,
                    code: crate::arithmetic::shift_in((d.code - HALF) as u64, crate::arithmetic::next_bit(bits, d.bit_index)),
                    bit_index: d.bit_index + 1,
                },
                bits,
            );
        } else if e.low >= QUARTER && e.high < 3 * QUARTER {
            lemma_renormalize_lockstep(
                EncoderModel {
                    low: 2 * (e.low - QUARTER) as nat,
                    high: 2 * (e.high - QUARTER) as nat + 1,
                    pending: e.pending + 1,
                    bits: e.bits,
                },
                DecoderModel {
                    low: 2 * (d.low - QUARTER) as nat,
                    high: 2 * (d.high - QUARTER) as nat + 1,
                    code: crate::arithmetic::shift_in((d.code - QUARTER) as u64, crate::arithmetic::next_bit(bits, d.bit_index)),
                    bit_index: d.bit_index + 1,
                },
                bits,
            );
        }
    }
}

spec fn shift_in_next(d: DecoderModel, bits: Seq<u8>) -> u64 {
    crate::arithmetic::shift_in(d.code, crate::arithmetic::next_bit(bits, d.bit_index))
}

/// A decoder that starts on the same interval as an encoder and is given
/// the same symbol ends on the same interval.
pub proof fn lemma_decoder_follows_encoder(
    e: EncoderModel,
    d: DecoderModel,
    cum_low: nat,
    cum_high: nat,
    total: nat,
    bits: Seq<u8>,
)
    requires
        e.low == d.low,
        e.high == d.high,
    ensures
        e.encode(cum_low, cum_high, total).low == d.decode(cum_low, cum_high, total, bits).low,
        e.encode(cum_low, cum_high, total).high == d.decode(cum_low, cum_high, total, bits).high,
{
    lemma_renormalize_lockstep(
        e.narrow(cum_low, cum_high, total),
        d.narrow(cum_low, cum_high, total),
        bits,
    );
}

/// The scaled value falls in a symbol's cumulative range `[cum_low, cum_high)`
/// exactly when the code register falls in the part of the interval that
/// encoding that symbol keeps; so the symbol that the scaled value picks is
/// the one `decode_symbol` accepts.
pub proof fn lemma_scaled_value_selects_symbol(d: DecoderModel, cum_low: nat, cum_high: nat, total: nat)
    requires
        d.valid(),
        cum_low < cum_high <= total,
    ensures
        (cum_low <= d.scaled_value(total) < cum_high) <==> (
            d.low + d.range() * cum_low / (total as int) <= d.code
            && d.code < d.low + d.range() * cum_high / (total as int)),
{
    let c = d.code - d.low;
    let r = d.range();
    let t = total as int;
    let y = (c + 1) * t - 1;
    assert(y >= 0) by (nonlinear_arith)
        requires
            c >= 0,
            t >= 1,
            y == (c + 1) * t - 1,
    ;
    assert(cum_low * r >= 0 && cum_high * r >= 0) by (nonlinear_arith)
        requires
            r >= 1,
    ;
    lemma_le_div_iff(cum_low as int, y, r);
    lemma_le_div_iff(cum_high as int, y, r);
    lemma_le_div_iff(c + 1, r * cum_low, t);
    lemma_le_div_iff(c + 1, r * cum_high, t);
    assert((cum_low * r <= y) <==> !((c + 1) * t <= r * cum_low)) by (nonlinear_arith)
        requires
            y == (c + 1) * t - 1,
    ;
    assert((cum_high * r <= y) <==> !((c + 1) * t <= r * cum_high)) by (nonlinear_arith)
        requires
            y == (c + 1) * t - 1,
    ;
}

/// Cumulative ranges of symbols to code, out of `total`: every range is
/// non-empty and within `total`, and `total` is at most a quarter of the
/// coder's interval.
pub open spec fn valid_table(syms: Seq<(nat, nat)>, total: nat) -> bool {
    &&& 0 < total <= QUARTER
    &&& forall|i: int| 0 <= i < syms.len() ==> (#[trigger] syms[i]).0 < syms[i].1 <= total
}

/// The encoder state after encoding the first `n` symbols of `syms`.
pub open spec fn encode_seq(syms: Seq<(nat, nat)>, total: nat, n: nat) -> EncoderModel
    decreases n,
{
    if n == 0 {
        EncoderModel::initial()
    } else {
        encode_seq(syms, total, (n - 1) as nat).encode(syms[n - 1].0, syms[n - 1].1, total)
    }
}

/// The finished output of encoding all of `syms`.
pub open spec fn encoded_bits(syms: Seq<(nat, nat)>, total: nat) -> Seq<u8> {
    encode_seq(syms, total, syms.len()).finish_bits()
}

/// The decoder state after decoding the first `n` symbols of `syms` from
/// the bits `out`.
pub open spec fn decode_seq(out: Seq<u8>, syms: Seq<(nat, nat)>, total: nat, n: nat) -> DecoderModel
    decreases n,
{
    if n == 0 {
        DecoderModel { low: 0, high: (WHOLE - 1) as nat, code: initial_code(out, 32), bit_index: 32 }
    } else {
        decode_seq(out, syms, total, (n - 1) as nat).decode(syms[n - 1].0, syms[n - 1].1, total, out)
    }
}

/// Every state that the encoder passes through, from a fresh encoder, is
/// normalized with binary output, and the next symbol can be encoded from
/// it.
pub proof fn lemma_encode_seq_states(syms: Seq<(nat, nat)>, total: nat, n: nat)
    requires
        valid_table(syms, total),
        n <= syms.len(),
    ensures
        encode_seq(syms, total, n).normalized(),
        is_binary(encode_seq(syms, total, n).bits),
        n < syms.len() ==> encode_seq(syms, total, n).can_encode(syms[n as int].0, syms[n as int].1, total),
    decreases n,
{
    lemma2_to64();
    if n > 0 {
        lemma_encode_seq_states(syms, total, (n - 1) as nat);
        lemma_encode_narrows(encode_seq(syms, total, (n - 1) as nat), syms[n - 1].0, syms[n - 1].1, total);
    } else {
        assert(encode_seq(syms, total, 0).bits.len() == 0);
    }
    if n < syms.len() {
        let m = encode_seq(syms, total, n);
        let cl = syms[n as int].0;
        let ch = syms[n as int].1;
        lemma_normalized_range(m);
        lemma_floor_gap(m.range(), cl as int, ch as int, total as int);
        assert(m.range() * ch <= WHOLE * QUARTER) by (nonlinear_arith)
            requires
                0 <= m.range() <= WHOLE,
                ch <= QUARTER,
        ;
    }
}

/// The coded intervals of successive encoder states are nested.
proof fn lemma_encode_seq_nested(syms: Seq<(nat, nat)>, total: nat, n: nat, k: nat)
    requires
        valid_table(syms, total),
        n <= k <= syms.len(),
    ensures
        scale(encode_seq(syms, total, n)) <= scale(encode_seq(syms, total, k)),
        interval_low(encode_seq(syms, total, n)) * pow2((scale(encode_seq(syms, total, k)) - scale(
            encode_seq(syms, total, n),
        )) as nat) <= interval_low(encode_seq(syms, total, k)),
        interval_end(encode_seq(syms, total, k)) <= interval_end(encode_seq(syms, total, n)) * pow2((scale(
            encode_seq(syms, total, k),
        ) - scale(encode_seq(syms, total, n))) as nat),
    decreases k - n,
{
    lemma2_to64();
    let a = encode_seq(syms, total, n);
    let z = encode_seq(syms, total, k);
    if n == k {
        assert(pow2(0) == 1);
        assert(interval_low(a) * pow2(0) == interval_low(a)) by (nonlinear_arith)
            requires pow2(0) == 1;
        assert(interval_end(a) * pow2(0) == interval_end(a)) by (nonlinear_arith)
            requires pow2(0) == 1;
    } else {
        lemma_encode_seq_nested(syms, total, n, (k - 1) as nat);
        lemma_encode_seq_states(syms, total, (k - 1) as nat);
        let y = encode_seq(syms, total, (k - 1) as nat);
        lemma_encode_narrows(y, syms[k - 1].0, syms[k - 1].1, total);
        let i = (scale(y) - scale(a)) as nat;
        let j = (scale(z) - scale(y)) as nat;
        lemma_pow2_adds(i, j);
        assert((scale(z) - scale(a)) as nat == i + j);
        lemma_pow2_pos(i);
        lemma_pow2_pos(j);
        let pi = pow2(i) as int;
        let pj = pow2(j) as int;
        assert(interval_low(a) * (pi * pj) <= interval_low(z)) by (nonlinear_arith)
            requires
                interval_low(a) * pi <= interval_low(y),
                interval_low(y) * pj <= interval_low(z),
                pj > 0,
        ;
        assert(interval_end(z) <= interval_end(a) * (pi * pj)) by (nonlinear_arith)
            requires
                interval_end(y) <= interval_end(a) * pi,
                interval_end(z) <= interval_end(y) * pj,
                pj > 0,
        ;
    }
}

/// The finished output consists of 0/1 bits and, read as a binary
/// fraction, lies in the coded interval of every intermediate state:
/// after the first `n` symbols, inside the sub-interval they select.
pub proof fn lemma_encoded_inside(syms: Seq<(nat, nat)>, total: nat, n: nat)
    requires
        valid_table(syms, total),
        n <= syms.len(),
    ensures
        is_binary(encoded_bits(syms, total)),
        ({
            let st = encode_seq(syms, total, n);
            let out = encoded_bits(syms, total);
            let k = (out.len() + 30 - scale(st)) as nat;
            &&& scale(st) <= out.len() + 30
            &&& interval_low(st) * pow2(k) <= bits_value(out) * pow2(30)
            &&& bits_value(out) * pow2(30) < interval_end(st) * pow2(k)
        }),
{
    let fin = encode_seq(syms, total, syms.len());
    lemma_encode_seq_states(syms, total, syms.len());
    lemma_finish_inside(fin);
    lemma_encode_seq_nested(syms, total, n, syms.len());
}

/// The cumulative ranges of the bytes of `data` under its smoothed counts.
pub open spec fn byte_table(data: Seq<u8>) -> Seq<(nat, nat)> {
    Seq::new(data.len(), |i: int| (cumulative(data, data[i] as nat), cumulative(data, data[i] as nat + 1)))
}

/// `simple_encode` codes the bytes by their smoothed cumulative ranges.
proof fn lemma_byte_table(data: Seq<u8>, n: nat)
    requires
        data.len() + 256 <= QUARTER,
        n <= data.len(),
    ensures
        valid_table(byte_table(data), smoothed_total(data)),
        encode_bytes(data, n) == encode_seq(byte_table(data), smoothed_total(data), n),
        forall|out: Seq<u8>| #[trigger] decode_bytes(out, data, n) == decode_seq(out, byte_table(data), smoothed_total(data), n),
    decreases n,
{
    lemma_smoothed_total(data);
    let t = byte_table(data);
    assert forall|i: int| 0 <= i < t.len() implies (#[trigger] t[i]).0 < t[i].1 <= smoothed_total(data) by {
        let b = data[i] as nat;
        lemma_cumulative_monotone(data, b, b + 1);
        lemma_cumulative_monotone(data, b + 1, 256);
    }
    if n > 0 {
        lemma_byte_table(data, (n - 1) as nat);
        assert(t[n - 1] == (cumulative(data, data[n - 1] as nat), cumulative(data, data[n - 1] as nat + 1)));
        assert forall|out: Seq<u8>| #[trigger] decode_bytes(out, data, n) == decode_seq(
            out,
            byte_table(data),
            smoothed_total(data),
            n,
        ) by {
            assert(decode_bytes(out, data, (n - 1) as nat) == decode_seq(
                out,
                byte_table(data),
                smoothed_total(data),
                (n - 1) as nat,
            ));
        }
    }
}

/// `simple_encode` encodes each byte by its smoothed cumulative range.
pub proof fn lemma_simple_encode_table(data: Seq<u8>)
    requires
        0 < data.len(),
        data.len() + 256 <= QUARTER,
    ensures
        valid_table(byte_table(data), smoothed_total(data)),
        simple_encode_bits(data) == encoded_bits(byte_table(data), smoothed_total(data)),
{
    lemma_byte_table(data, data.len());
    assert(byte_table(data).len() == data.len());
}

/// The output of `simple_encode` consists of 0/1 bits, and is non-empty
/// exactly when the input is.
pub proof fn lemma_simple_encode_binary(data: Seq<u8>)
    requires
        data.len() + 256 <= QUARTER,
    ensures
        is_binary(simple_encode_bits(data)),
        (simple_encode_bits(data).len() == 0) <==> (data.len() == 0),
{
    if data.len() > 0 {
        lemma_byte_table(data, data.len());
        lemma_encode_seq_states(byte_table(data), smoothed_total(data), data.len());
        lemma_finish_inside(encode_bytes(data, data.len()));
    }
}

/// The output of `simple_encode`, read as a binary fraction, lies in the
/// coded interval of every intermediate state: after the first `n` bytes,
/// inside the sub-interval that those bytes select.
pub proof fn lemma_simple_encode_inside(data: Seq<u8>, n: nat)
    requires
        0 < data.len(),
        n <= data.len(),
        data.len() + 256 <= QUARTER,
    ensures
        ({
            let st = encode_bytes(data, n);
            let out = simple_encode_bits(data);
            let k = (out.len() + 30 - scale(st)) as nat;
            &&& scale(st) <= out.len() + 30
            &&& interval_low(st) * pow2(k) <= bits_value(out) * pow2(30)
            &&& bits_value(out) * pow2(30) < interval_end(st) * pow2(k)
        }),
{
    lemma_byte_table(data, n);
    lemma_byte_table(data, data.len());
    assert(byte_table(data).len() == data.len());
    lemma_encoded_inside(byte_table(data), smoothed_total(data), n);
}

/// The first `n` bits of `out`, padded with zeros past its end: the bits
/// a decoder has read once its bit index is `n`.
pub open spec fn padded(out: Seq<u8>, n: nat) -> Seq<u8> {
    Seq::new(n, |i: int| if i < out.len() { out[i] } else { 0u8 })
}

/// The decoder state after decoding the first `n` bytes of `data` from the
/// bits `out`, with the smoothed frequencies of `data`.
pub open spec fn decode_bytes(out: Seq<u8>, data: Seq<u8>, n: nat) -> DecoderModel
    decreases n,
{
    if n == 0 {
        DecoderModel { low: 0, high: (WHOLE - 1) as nat, code: initial_code(out, 32), bit_index: 32 }
    } else {
        let b = data[n - 1];
        decode_bytes(out, data, (n - 1) as nat).decode(
            cumulative(data, b as nat),
            cumulative(data, b as nat + 1),
            smoothed_total(data),
            out,
        )
    }
}

/// A decoder tracks an encoder: same interval, it has read exactly the bits
/// of the encoder's scale, its code register is the read value in the
/// encoder's coordinates, and that value lies in the coded interval.
pub open spec fn tracks(d: DecoderModel, e: EncoderModel, out: Seq<u8>) -> bool {
    &&& d.low == e.low
    &&& d.high == e.high
    &&& d.bit_index == scale(e)
    &&& d.code + interval_low(e) - e.low == bits_value(padded(out, scale(e)))
    &&& interval_low(e) <= bits_value(padded(out, scale(e))) < interval_end(e)
}

proof fn lemma_padded_binary(out: Seq<u8>, n: nat)
    requires
        is_binary(out),
    ensures
        is_binary(padded(out, n)),
{
    assert forall|i: int| 0 <= i < padded(out, n).len() implies #[trigger] padded(out, n)[i] <= 1 by {
        if i < out.len() {
            assert(out[i] <= 1);
        }
    }
}

/// Reading one more bit doubles the read value and adds the bit.
proof fn lemma_padded_step(out: Seq<u8>, n: nat)
    requires
        is_binary(out),
    ensures
        bits_value(padded(out, n + 1)) == 2 * bits_value(padded(out, n)) + next_bit(out, n),
        next_bit(out, n) <= 1,
{
    let b: u8 = if n < out.len() { out[n as int] } else { 0u8 };
    assert(padded(out, n + 1) =~= padded(out, n).push(b));
    lemma_bits_value_push(padded(out, n), b);
    if n < out.len() {
        assert(out[n as int] <= 1);
    }
}

/// The code register read from the first `n <= 32` bits is their value.
proof fn lemma_initial_code_value(out: Seq<u8>, n: nat)
    requires
        is_binary(out),
        n <= 32,
    ensures
        initial_code(out, n) == bits_value(padded(out, n)),
    decreases n,
{
    if n > 0 {
        lemma_initial_code_value(out, (n - 1) as nat);
        lemma_initial_code_bound(out, (n - 1) as nat);
        lemma2_to64();
        if n - 1 < 32 {
            lemma_pow2_strictly_increases((n - 1) as nat, 32);
        }
        lemma_padded_step(out, (n - 1) as nat);
        lemma_shift_in_binary(initial_code(out, (n - 1) as nat), next_bit(out, (n - 1) as nat));
    }
}

/// The value read after `n` bits is the whole output, scaled to `30` more
/// bits, with the last `len + 30 - n` bits cut off.
proof fn lemma_padded_value(out: Seq<u8>, n: nat)
    requires
        is_binary(out),
        n <= out.len() + 30,
    ensures
        bits_value(padded(out, n)) == (bits_value(out) * pow2(30)) / pow2((out.len() + 30 - n) as nat),
{
    let f = (out.len() + 30) as nat;
    let zeros = Seq::new(30, |_i: int| 0u8);
    assert(padded(out, f) =~= out + zeros);
    lemma_bits_value_concat(out, zeros);
    lemma_bits_value_zeros(30);
    lemma_padded_binary(out, f);
    assert(padded(out, n).is_prefix_of(padded(out, f)));
    lemma_bits_value_prefix(padded(out, n), padded(out, f));
}

/// Rescaling a decoder that tracks an encoder keeps it tracking.
proof fn lemma_decoder_renormalize_tracks(e: EncoderModel, d: DecoderModel, out: Seq<u8>)
    requires
        e.valid(),
        is_binary(e.bits),
        is_binary(out),
        tracks(d, e, out),
    ensures
        tracks(d.renormalize(out), e.renormalize(), out),
        d.renormalize(out).valid(),
    decreases WHOLE + e.low - e.high,
{
    lemma2_to64();
    let sc = scale(e);
    let v = bits_value(padded(out, sc));
    assert(d.low <= d.code <= d.high);
    if e.high < HALF || e.low >= HALF || (e.low >= QUARTER && e.high < 3 * QUARTER) {
        let sub: nat = if e.high < HALF { 0 } else if e.low >= HALF { HALF as nat } else { QUARTER as nat };
        let e1 = if e.high < HALF {
            EncoderModel {
                low: 2 * e.low,
                high: 2 * e.high + 1,
                pending: 0,
                bits: emit(e.bits, 0u8, e.pending),
            }
        } else if e.low >= HALF {
            EncoderModel {
                low: 2 * (e.low - HALF) as nat,
                high: 2 * (e.high - HALF) as nat + 1,
                pending: 0,
                bits: emit(e.bits, 1u8, e.pending),
            }
        } else {
            EncoderModel {
                low: 2 * (e.low - QUARTER) as nat,
                high: 2 * (e.high - QUARTER) as nat + 1,
                pending: e.pending + 1,
                bits: e.bits,
            }
        };
        lemma_rescale_step(e, e1);
        assert(e.renormalize() == e1.renormalize());
        let bit = next_bit(out, d.bit_index);
        lemma_padded_step(out, sc);
        let c = (d.code - sub) as u64;
        lemma_shift_in_binary(c, bit);
        let d1 = DecoderModel {
            low: e1.low,
            high: e1.high,
            code: crate::arithmetic::shift_in(c, bit),
            bit_index: d.bit_index + 1,
        };
        assert(d.renormalize(out) == d1.renormalize(out));
        assert(tracks(d1, e1, out));
        lemma_decoder_renormalize_tracks(e1, d1, out);
    } else {
        assert(d.renormalize(out) == d);
        assert(e.renormalize() == e);
    }
}

/// Decoding the symbol whose share holds the read value keeps a decoder
/// tracking the encoder that encoded it.
proof fn lemma_decoder_step_tracks(
    e: EncoderModel,
    d: DecoderModel,
    out: Seq<u8>,
    cum_low: nat,
    cum_high: nat,
    total: nat,
)
    requires
        e.valid(),
        is_binary(e.bits),
        is_binary(out),
        tracks(d, e, out),
        e.can_encode(cum_low, cum_high, total),
        interval_low(e) + e.range() * cum_low / (total as int) <= bits_value(padded(out, scale(e))),
        bits_value(padded(out, scale(e))) < interval_low(e) + e.range() * cum_high / (total as int),
    ensures
        tracks(d.decode(cum_low, cum_high, total, out), e.encode(cum_low, cum_high, total), out),
        d.can_decode(cum_low, cum_high, total),
{
    let t = total as int;
    lemma_share_within(e.range(), cum_low as int, t);
    lemma_share_within(e.range(), cum_high as int, t);
    let e1 = e.narrow(cum_low, cum_high, total);
    let d1 = d.narrow(cum_low, cum_high, total);
    assert(e1.valid());
    assert(tracks(d1, e1, out));
    lemma_decoder_renormalize_tracks(e1, d1, out);
}

/// Decoding the encoder's output, given the symbols decoded so far, keeps
/// the decoder tracking the encoder.
proof fn lemma_decode_seq_tracks(syms: Seq<(nat, nat)>, total: nat, i: nat)
    requires
        valid_table(syms, total),
        i <= syms.len(),
    ensures
        tracks(
            decode_seq(encoded_bits(syms, total), syms, total, i),
            encode_seq(syms, total, i),
            encoded_bits(syms, total),
        ),
    decreases i,
{
    let out = encoded_bits(syms, total);
    lemma_encoded_inside(syms, total, 0);
    lemma2_to64();
    if i == 0 {
        let e = encode_seq(syms, total, 0);
        assert(e == EncoderModel::initial());
        assert(e.pending == 0 && e.low == 0);
        assert(bits_value(e.bits) == 0);
        let bv = bits_value(e.bits);
        let pw = pow2(e.pending + 32);
        assert(bv * pw == 0) by (nonlinear_arith)
            requires
                bv == 0,
        ;
        assert(pow2(e.pending) == 1);
        lemma_initial_code_value(out, 32);
        lemma_padded_binary(out, 32);
        lemma_bits_value_bound(padded(out, 32));
        assert(interval_low(e) == 0);
    } else {
        let p = (i - 1) as nat;
        lemma_decode_seq_tracks(syms, total, p);
        lemma_encode_seq_states(syms, total, p);
        let e = encode_seq(syms, total, p);
        lemma_value_in_share(syms, total, p);
        lemma_decoder_step_tracks(e, decode_seq(out, syms, total, p), out, syms[p as int].0, syms[p as int].1, total);
    }
}

/// The value read at the scale of the state before symbol `i` lies in
/// that symbol's share of the coded interval.
proof fn lemma_value_in_share(syms: Seq<(nat, nat)>, total: nat, i: nat)
    requires
        valid_table(syms, total),
        i < syms.len(),
    ensures
        ({
            let out = encoded_bits(syms, total);
            let e = encode_seq(syms, total, i);
            let v = bits_value(padded(out, scale(e)));
            &&& interval_low(e) + e.range() * syms[i as int].0 / (total as int) <= v
            &&& v < interval_low(e) + e.range() * syms[i as int].1 / (total as int)
        }),
{
    let out = encoded_bits(syms, total);
    let e = encode_seq(syms, total, i);
    let n = encode_seq(syms, total, i + 1);
    let cl = syms[i as int].0;
    let ch = syms[i as int].1;
    let t = total as int;
    lemma_encode_seq_states(syms, total, i);
    lemma_encode_narrows(e, cl, ch, total);
    lemma_encoded_inside(syms, total, i + 1);
    let k = (scale(n) - scale(e)) as nat;
    let kk = (out.len() + 30 - scale(n)) as nat;
    lemma_pow2_adds(k, kk);
    assert((out.len() + 30 - scale(e)) as nat == k + kk);
    lemma_padded_value(out, scale(e));
    lemma_pow2_pos(k);
    lemma_pow2_pos(kk);
    let w = (bits_value(out) * pow2(30)) as int;
    let pk = pow2(k) as int;
    let pkk = pow2(kk) as int;
    let pp = pow2(k + kk) as int;
    let lo = interval_low(e) + e.range() * cl / t;
    let hi = interval_low(e) + e.range() * ch / t;
    assert(lo * pp <= w && w < hi * pp) by (nonlinear_arith)
        requires
            interval_low(n) == lo * pk,
            interval_end(n) == hi * pk,
            interval_low(n) * pkk <= w,
            w < interval_end(n) * pkk,
            pp == pk * pkk,
    ;
    assert(lo >= 0) by {
        lemma_share_within(e.range(), cl as int, t);
        lemma_pow2_pos(e.pending);
        let q = pow2(e.pending) as int;
        assert(interval_low(e) >= 0) by (nonlinear_arith)
            requires
                interval_low(e) == bits_value(e.bits) * pow2(e.pending + 32) + (q - 1) * HALF + e.low,
                q >= 1,
        ;
    }
    lemma_le_div_iff(lo, w, pp);
    lemma_le_div_iff(hi, w, pp);
}

/// The scaled value of a valid decoder lies in `[0, total)`.
pub proof fn lemma_scaled_value_below(d: DecoderModel, total: nat)
    requires
        d.valid(),
        total >= 1,
    ensures
        0 <= d.scaled_value(total) < total,
{
    let c = d.code - d.low + 1;
    let r = d.range();
    let t = total as int;
    assert(1 <= c <= r);
    assert(0 <= c * t - 1 < r * t) by (nonlinear_arith)
        requires
            1 <= c <= r,
            t >= 1,
    ;
    vstd::arithmetic::div_mod::lemma_div_pos_is_pos(c * t - 1, r);
    lemma_le_div_iff(t, c * t - 1, r);
    assert(t * r == r * t) by (nonlinear_arith);
}

/// Arithmetic decoding inverts arithmetic encoding: for any symbols with
/// valid cumulative ranges, a decoder started on the encoder's finished
/// output and given the symbols decoded so far finds the next symbol as
/// the one whose range holds its scaled value, and may then decode it.
pub proof fn lemma_roundtrip(syms: Seq<(nat, nat)>, total: nat, i: nat)
    requires
        valid_table(syms, total),
        i < syms.len(),
    ensures
        ({
            let d = decode_seq(encoded_bits(syms, total), syms, total, i);
            &&& d.valid()
            &&& d.can_decode(syms[i as int].0, syms[i as int].1, total)
            &&& syms[i as int].0 <= d.scaled_value(total)
            &&& d.scaled_value(total) < syms[i as int].1
        }),
{
    let out = encoded_bits(syms, total);
    let cl = syms[i as int].0;
    let ch = syms[i as int].1;
    lemma_decode_seq_tracks(syms, total, i);
    lemma_encode_seq_states(syms, total, i);
    lemma_value_in_share(syms, total, i);
    lemma_encoded_inside(syms, total, 0);
    let e = encode_seq(syms, total, i);
    let d = decode_seq(out, syms, total, i);
    lemma_decoder_step_tracks(e, d, out, cl, ch, total);
    lemma_scaled_value_selects_symbol(d, cl, ch, total);
}

/// Arithmetic decoding inverts `simple_encode`: a decoder started on the
/// output and given the bytes decoded so far finds the next input byte as
/// the one whose cumulative range holds its scaled value, and may then
/// decode that byte.
pub proof fn lemma_simple_encode_roundtrip(data: Seq<u8>, i: nat)
    requires
        0 < data.len(),
        data.len() + 256 <= QUARTER,
        i < data.len(),
    ensures
        ({
            let out = simple_encode_bits(data);
            let d = decode_bytes(out, data, i);
            let b = data[i as int] as nat;
            &&& d.valid()
            &&& d.can_decode(cumulative(data, b), cumulative(data, b + 1), smoothed_total(data))
            &&& cumulative(data, b) <= d.scaled_value(smoothed_total(data))
            &&& d.scaled_value(smoothed_total(data)) < cumulative(data, b + 1)
        }),
{
    lemma_byte_table(data, i);
    lemma_byte_table(data, data.len());
    let t = byte_table(data);
    assert(t.len() == data.len());
    assert(simple_encode_bits(data) == encoded_bits(t, smoothed_total(data)));
    lemma_roundtrip(t, smoothed_total(data), i);
}

} // verus!
