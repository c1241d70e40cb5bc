//! Basic binary arithmetic coding with 32-bit interval arithmetic.

use vstd::prelude::*;
use vstd::arithmetic::power2::*;
use vstd::multiset::Multiset;
use crate::bits::is_binary;

verus! {

/// Size of the full coding interval, `2^32`.
pub const WHOLE: u64 = 0x1_0000_0000u64;

/// Half of the coding interval, `2^31`.
pub const HALF: u64 = 0x8000_0000u64;

/// A quarter of the coding interval, `2^30`.
pub const QUARTER: u64 = 0x4000_0000u64;

/// `bits` followed by `bit` and then `pending` copies of the opposite bit.
pub open spec fn emit(bits: Seq<u8>, bit: u8, pending: nat) -> Seq<u8> {
    bits.push(bit) + Seq::new(pending, |_i: int| bit ^ 1u8)
}

/// The abstract state of an arithmetic encoder: the current interval
/// `[low, high]` in 32-bit coordinates, the number of deferred (pending)
/// opposite bits, and the bits emitted so far.
pub struct EncoderModel {
    pub low: nat,
    pub high: nat,
    pub pending: nat,
    pub bits: Seq<u8>,
}

impl EncoderModel {
    /// The state of a fresh encoder: the whole interval, nothing emitted.
    pub open spec fn initial() -> EncoderModel {
        EncoderModel { low: 0, high: (WHOLE - 1) as nat, pending: 0, bits: Seq::empty() }
    }

    /// Number of points in the current interval.
    pub open spec fn range(self) -> int {
        self.high - self.low + 1
    }

    /// The interval lies inside the 32-bit coordinate space and is not empty.
    pub open spec fn valid(self) -> bool {
        self.low <= self.high < WHOLE
    }

    /// No rescaling step applies any more: the interval straddles the
    /// midpoint and is not confined to the middle half.
    pub open spec fn normalized(self) -> bool {
        &&& self.valid()
        &&& self.low < HALF <= self.high
        &&& (self.low < QUARTER || self.high >= 3 * QUARTER)
    }

    /// Restrict the interval to the sub-interval `[cum_low, cum_high)` of
    /// `[0, total)`, rounding down in 32-bit coordinates.
    pub open spec fn narrow(self, cum_low: nat, cum_high: nat, total: nat) -> EncoderModel {
        EncoderModel {
            low: (self.low + self.range() * cum_low / (total as int)) as nat,
            high: (self.low + self.range() * cum_high / (total as int) - 1) as nat,
            ..self
        }
    }

    /// Rescale the interval while it lies in the lower half (emit 0), the
    /// upper half (emit 1), or the middle half (defer one opposite bit).
    pub open spec fn renormalize(self) -> EncoderModel
        decreases WHOLE + self.low - self.high,
    {
        if !self.valid() {
            self
        } else if self.high < HALF {
            EncoderModel {
                low: 2 * self.low,
                high: 2 * self.high + 1,
                pending: 0,
                bits: emit(self.bits, 0u8, self.pending),
            }.renormalize()
        } else if self.low >= HALF {
            EncoderModel {
                low: 2 * (self.low - HALF) as nat,
                high: 2 * (self.high - HALF) as nat + 1,
                pending: 0,
                bits: emit(self.bits, 1u8, self.pending),
            }.renormalize()
        } else if self.low >= QUARTER && self.high < 3 * QUARTER {
            EncoderModel {
                low: 2 * (self.low - QUARTER) as nat,
                high: 2 * (self.high - QUARTER) as nat + 1,
                pending: self.pending + 1,
                bits: self.bits,
            }.renormalize()
        } else {
            self
        }
    }

    /// The state after encoding one symbol with cumulative range
    /// `[cum_low, cum_high)` out of `total`.
    pub open spec fn encode(self, cum_low: nat, cum_high: nat, total: nat) -> EncoderModel {
        self.narrow(cum_low, cum_high, total).renormalize()
    }

    /// Whether encoding `[cum_low, cum_high)` out of `total` is well defined
    /// from this state: no 64-bit overflow and a non-empty result interval.
    pub open spec fn can_encode(self, cum_low: nat, cum_high: nat, total: nat) -> bool {
        &&& cum_low < cum_high <= total
        &&& self.range() * cum_high <= u64::MAX
        &&& self.range() * cum_low / (total as int) < self.range() * cum_high / (total as int)
    }

    /// The bits output when encoding stops in this state: one more
    /// deferred bit is added and the interval's quarter is fixed.
    pub open spec fn finish_bits(self) -> Seq<u8> {
        emit(self.bits, if self.low < QUARTER { 0u8 } else { 1u8 }, self.pending + 1)
    }
}

/// An arithmetic encoder over 32-bit intervals.
pub struct ArithmeticEncoder {
    /// Lower bound of the current interval
    low: u64,
    /// Upper bound of the current interval
    high: u64,
    /// Pending bits for output
    pending_bits: u64,
    /// Output bits
    bits: Vec<u8>,
}

impl View for ArithmeticEncoder {
    type V = EncoderModel;

    closed spec fn view(&self) -> EncoderModel {
        EncoderModel {
            low: self.low as nat,
            high: self.high as nat,
            pending: self.pending_bits as nat,
            bits: self.bits@,
        }
    }
}

impl Default for ArithmeticEncoder {
    fn default() -> (s: Self)
        ensures
            s@ == EncoderModel::initial(),
    {
        Self::new()
    }
}

impl ArithmeticEncoder {
    /// Create a new arithmetic encoder.
    pub fn new() -> (s: Self)
        ensures
            s@ == EncoderModel::initial(),
    {
        ArithmeticEncoder { low: 0, high: WHOLE - 1, pending_bits: 0, bits: Vec::new() }
    }

    /// Encode a symbol given its cumulative probability range [cum_low, cum_high)
    /// where cum_low and cum_high are in [0, total].
    pub fn encode_symbol(&mut self, cum_low: u64, cum_high: u64, total: u64)
        requires
            old(self)@.valid(),
            old(self)@.can_encode(cum_low as nat, cum_high as nat, total as nat),
            old(self)@.pending + 32 <= u64::MAX,
        ensures
            final(self)@ == old(self)@.encode(cum_low as nat, cum_high as nat, total as nat),
            final(self)@.normalized(),
            final(self)@.pending <= old(self)@.pending + 32,
    {
        let range = self.high - self.low + 1;
        proof {
            vstd::arithmetic::mul::lemma_mul_inequality(cum_high as int, total as int, range as int);
            vstd::arithmetic::mul::lemma_mul_inequality(cum_low as int, cum_high as int, range as int);
            vstd::arithmetic::mul::lemma_mul_is_commutative(range as int, cum_high as int);
            vstd::arithmetic::mul::lemma_mul_is_commutative(range as int, cum_low as int);
            vstd::arithmetic::mul::lemma_mul_is_commutative(range as int, total as int);
            vstd::arithmetic::div_mod::lemma_div_is_ordered(
                range * cum_high, range * total, total as int);
            vstd::arithmetic::div_mod::lemma_div_by_multiple(range as int, total as int);
        }
        self.high = self.low + (range * cum_high) / total - 1;
        self.low = self.low + (range * cum_low) / total;
        let ghost target = self@.renormalize();
        let ghost pending0 = self@.pending;
        let ghost mut steps: nat = 0;
        proof {
            lemma2_to64();
        }
        assert(self@ == old(self)@.narrow(cum_low as nat, cum_high as nat, total as nat));

        loop
            invariant
                self@.valid(),
                self@.renormalize() == target,
                self@.range() >= pow2(steps),
                self@.pending <= pending0 + steps,
                pending0 + 32 <= u64::MAX,
            ensures
                self@ == target,
                self@.normalized(),
                self@.pending <= pending0 + 32,
            decreases WHOLE + self.low - self.high,
        {
            proof {
                lemma2_to64();
                if steps > 32 {
                    lemma_pow2_strictly_increases(32, steps);
                }
            }
            if self.high < HALF {
                self.output_bit_plus_pending(0);
            } else if self.low >= HALF {
                self.output_bit_plus_pending(1);
                self.low = self.low - HALF;
                self.high = self.high - HALF;
            } else if self.low >= QUARTER && self.high < 3 * QUARTER {
                self.pending_bits = self.pending_bits + 1;
                self.low = self.low - QUARTER;
                self.high = self.high - QUARTER;
            } else {
                break;
            }
            self.low = self.low * 2;
            self.high = self.high * 2 + 1;
            proof {
                lemma_pow2_unfold(steps + 1);
                steps = steps + 1;
            }
        }
    }

    fn output_bit_plus_pending(&mut self, bit: u8)
        ensures
            final(self)@ == (EncoderModel {
                pending: 0,
                bits: emit(old(self)@.bits, bit, old(self)@.pending),
                ..old(self)@
            }),
    {
        self.bits.push(bit);
        let opposite = bit ^ 1;
        let ghost start = self.bits@;
        let n = self.pending_bits;
        let mut i: u64 = 0;
        while i < n
            invariant
                i <= n,
                n == old(self).pending_bits,
                self.bits@ == start + Seq::new(i as nat, |_j: int| bit ^ 1u8),
                start == old(self).bits@.push(bit),
                opposite == bit ^ 1u8,
                self.low == old(self).low,
                self.high == old(self).high,
                self.pending_bits == old(self).pending_bits,
            decreases n - i,
        {
            self.bits.push(opposite);
            i = i + 1;
            assert(self.bits@ =~= start + Seq::new(i as nat, |_j: int| bit ^ 1u8));
        }
        self.pending_bits = 0;
        assert(self.bits@ =~= emit(old(self)@.bits, bit, old(self)@.pending));
    }

    /// Finish encoding and return the output bits.
    pub fn finish(self) -> (out: Vec<u8>)
        requires
            self@.pending < u64::MAX,
        ensures
            out@ == self@.finish_bits(),
    {
        let mut encoder = self;
        encoder.pending_bits = encoder.pending_bits + 1;
        if encoder.low < QUARTER {
            encoder.output_bit_plus_pending(0);
        } else {
            encoder.output_bit_plus_pending(1);
        }
        encoder.bits
    }
}

/// The bit that the decoder shifts in at position `index`: the input bit,
/// or 0 once the input is exhausted.
pub open spec fn next_bit(bits: Seq<u8>, index: nat) -> u64 {
    if index < bits.len() { bits[index as int] as u64 } else { 0 }
}

/// Shift `bit` into the low end of `code`.
pub open spec fn shift_in(code: u64, bit: u64) -> u64 {
    (code << 1u64) | bit
}

/// The code register after shifting in the first `n` input bits, reading
/// 0 past the end of the input.
pub open spec fn initial_code(bits: Seq<u8>, n: nat) -> u64
    decreases n,
{
    if n == 0 {
        0
    } else {
        shift_in(initial_code(bits, (n - 1) as nat), next_bit(bits, (n - 1) as nat))
    }
}

/// The abstract state of an arithmetic decoder: the interval `[low, high]`,
/// the code register and the index of the next input bit.
pub struct DecoderModel {
    pub low: nat,
    pub high: nat,
    pub code: u64,
    pub bit_index: nat,
}

impl DecoderModel {
    /// Number of points in the current interval.
    pub open spec fn range(self) -> int {
        self.high - self.low + 1
    }

    /// The interval is a non-empty part of the 32-bit coordinate space and
    /// holds the code register.
    pub open spec fn valid(self) -> bool {
        self.low <= self.code <= self.high < WHOLE
    }

    /// No rescaling step applies any more.
    pub open spec fn normalized(self) -> bool {
        &&& self.valid()
        &&& self.low < HALF <= self.high
        &&& (self.low < QUARTER || self.high >= 3 * QUARTER)
    }

    /// Restrict the interval exactly as the encoder does.
    pub open spec fn narrow(self, cum_low: nat, cum_high: nat, total: nat) -> DecoderModel {
        DecoderModel {
            low: (self.low + self.range() * cum_low / (total as int)) as nat,
            high: (self.low + self.range() * cum_high / (total as int) - 1) as nat,
            ..self
        }
    }

    /// Whether `[cum_low, cum_high)` out of `total` is the symbol whose
    /// narrowed interval holds the code register, with no 64-bit overflow.
    pub open spec fn can_decode(self, cum_low: nat, cum_high: nat, total: nat) -> bool {
        &&& cum_low < cum_high <= total
        &&& self.range() * cum_high <= u64::MAX
        &&& self.low + self.range() * cum_low / (total as int) <= self.code
        &&& self.code < self.low + self.range() * cum_high / (total as int)
    }

    /// Rescale the interval as the encoder does, shifting input bits into
    /// the code register.
    pub open spec fn renormalize(self, bits: Seq<u8>) -> DecoderModel
        decreases WHOLE + self.low - self.high,
    {
        if !(self.low <= self.high < WHOLE) {
            self
        } else if self.high < HALF {
            DecoderModel {
                low: 2 * self.low,
                high: 2 * self.high + 1,
                code: shift_in(self.code, next_bit(bits, self.bit_index)),
                bit_index: self.bit_index + 1,
            }.renormalize(bits)
        } else if self.low >= HALF {
            DecoderModel {
                low: 2 * (self.low - HALF) as nat,
                high: 2 * (self.high - HALF) as nat + 1,
                code: shift_in((self.code - HALF) as u64, next_bit(bits, self.bit_index)),
                bit_index: self.bit_index + 1,
            }.renormalize(bits)
        } else if self.low >= QUARTER && self.high < 3 * QUARTER {
            DecoderModel {
                low: 2 * (self.low - QUARTER) as nat,
                high: 2 * (self.high - QUARTER) as nat + 1,
                code: shift_in((self.code - QUARTER) as u64, next_bit(bits, self.bit_index)),
                bit_index: self.bit_index + 1,
            }.renormalize(bits)
        } else {
            self
        }
    }

    /// The state after decoding the symbol `[cum_low, cum_high)` of `total`.
    pub open spec fn decode(self, cum_low: nat, cum_high: nat, total: nat, bits: Seq<u8>) -> DecoderModel {
        self.narrow(cum_low, cum_high, total).renormalize(bits)
    }

    /// The scaled position of the code register within the interval, in
    /// units of `total`.
    pub open spec fn scaled_value(self, total: nat) -> int {
        ((self.code - self.low + 1) * total - 1) / self.range()
    }
}

/// Shifting a 0/1 bit into a code register below `2^32` doubles it and adds the bit.
pub(crate) proof fn lemma_shift_in_binary(code: u64, bit: u64)
    requires
        code < WHOLE,
        bit <= 1,
    ensures
        shift_in(code, bit) == 2 * code + bit,
{
    assert((code << 1u64) | bit == 2 * code + bit) by (bit_vector)
        requires
            code < 0x1_0000_0000u64,
            bit <= 1u64,
    ;
}

/// The code register read from `n <= 32` binary input bits is below `2^n`.
pub(crate) proof fn lemma_initial_code_bound(bits: Seq<u8>, n: nat)
    requires
        n <= 32,
        is_binary(bits),
    ensures
        initial_code(bits, n) < pow2(n),
    decreases n,
{
    lemma2_to64();
    if n > 0 {
        lemma_initial_code_bound(bits, (n - 1) as nat);
        lemma_pow2_unfold(n);
        if n - 1 < 32 {
            lemma_pow2_strictly_increases((n - 1) as nat, 32);
        }
        if n - 1 < bits.len() {
            assert(bits[n - 1] <= 1);
        }
        lemma_shift_in_binary(initial_code(bits, (n - 1) as nat), next_bit(bits, (n - 1) as nat));
    }
}

/// An arithmetic decoder.
#[derive(Debug, Clone)]
pub struct ArithmeticDecoder {
    low: u64,
    high: u64,
    code: u64,
    bit_index: usize,
}

impl View for ArithmeticDecoder {
    type V = DecoderModel;

    closed spec fn view(&self) -> DecoderModel {
        DecoderModel {
            low: self.low as nat,
            high: self.high as nat,
            code: self.code,
            bit_index: self.bit_index as nat,
        }
    }
}

impl ArithmeticDecoder {
    /// Create a new decoder from encoded bits: the first 32 bits fill the
    /// code register, an input shorter than that read as if padded with 0
    /// bits, as `decode_symbol` reads bits past the end.
    pub fn new(bits: &[u8]) -> (d: Self)
        ensures
            d@ == (DecoderModel { low: 0, high: (WHOLE - 1) as nat, code: initial_code(bits@, 32), bit_index: 32 }),
            is_binary(bits@) ==> d@.valid() && d@.normalized(),
    {
        let mut code: u64 = 0;
        let mut i: usize = 0;
        while i < 32
            invariant
                i <= 32,
                code == initial_code(bits@, i as nat),
            decreases 32 - i,
        {
            let bit: u64 = if i < bits.len() { bits[i] as u64 } else { 0 };
            code = (code << 1) | bit;
            i = i + 1;
        }
        proof {
            if is_binary(bits@) {
                lemma_initial_code_bound(bits@, 32);
                lemma2_to64();
            }
        }
        ArithmeticDecoder { low: 0, high: WHOLE - 1, code, bit_index: 32 }
    }

    /// Get the current scaled value for symbol lookup.
    pub fn get_scaled_value(&self, total: u64) -> (v: u64)
        requires
            self@.low <= self@.code,
            self@.low <= self@.high < WHOLE,
            total >= 1,
            (self@.code - self@.low + 1) * total <= u64::MAX,
        ensures
            v == self@.scaled_value(total as nat),
    {
        let range = self.high - self.low + 1;
        let offset = self.code - self.low;
        proof {
            let c: int = offset + 1;
            assert(c <= c * total) by (nonlinear_arith)
                requires
                    c >= 1,
                    total >= 1,
            ;
        }
        let numerator = (offset + 1) * total - 1;
        numerator / range
    }

    /// Decode a symbol given its cumulative probability range.
    pub fn decode_symbol(&mut self, cum_low: u64, cum_high: u64, total: u64, bits: &[u8])
        requires
            old(self)@.valid(),
            old(self)@.can_decode(cum_low as nat, cum_high as nat, total as nat),
            is_binary(bits@),
            old(self)@.bit_index + 32 <= usize::MAX,
        ensures
            final(self)@ == old(self)@.decode(cum_low as nat, cum_high as nat, total as nat, bits@),
            final(self)@.normalized(),
    {
        let range = self.high - self.low + 1;
        proof {
            vstd::arithmetic::mul::lemma_mul_inequality(cum_high as int, total as int, range as int);
            vstd::arithmetic::mul::lemma_mul_inequality(cum_low as int, cum_high as int, range as int);
            vstd::arithmetic::mul::lemma_mul_is_commutative(range as int, cum_high as int);
            vstd::arithmetic::mul::lemma_mul_is_commutative(range as int, cum_low as int);
            vstd::arithmetic::mul::lemma_mul_is_commutative(range as int, total as int);
            vstd::arithmetic::div_mod::lemma_div_is_ordered(
                range * cum_high, range * total, total as int);
            vstd::arithmetic::div_mod::lemma_div_by_multiple(range as int, total as int);
        }
        self.high = self.low + (range * cum_high) / total - 1;
        self.low = self.low + (range * cum_low) / total;
        let ghost target = self@.renormalize(bits@);
        let ghost index0 = self@.bit_index;
        let ghost mut steps: nat = 0;
        proof {
            lemma2_to64();
        }
        assert(self@ == old(self)@.narrow(cum_low as nat, cum_high as nat, total as nat));

        loop
            invariant
                self@.valid(),
                self@.renormalize(bits@) == target,
                self@.range() >= pow2(steps),
                self@.bit_index == index0 + steps,
                index0 + 32 <= usize::MAX,
                is_binary(bits@),
            ensures
                self@ == target,
                self@.normalized(),
            decreases WHOLE + self.low - self.high,
        {
            proof {
                lemma2_to64();
                if steps > 32 {
                    lemma_pow2_strictly_increases(32, steps);
                }
            }
            if self.high < HALF {
                // the interval already lies in the lower half
            } else if self.low >= HALF {
                self.low = self.low - HALF;
                self.high = self.high - HALF;
                self.code = self.code - HALF;
            } else if self.low >= QUARTER && self.high < 3 * QUARTER {
                self.low = self.low - QUARTER;
                self.high = self.high - QUARTER;
                self.code = self.code - QUARTER;
            } else {
                break;
            }
            self.low = self.low * 2;
            self.high = self.high * 2 + 1;
            let next: u64 = if self.bit_index < bits.len() { bits[self.bit_index] as u64 } else { 0 };
            proof {
                lemma_shift_in_binary(self.code, next);
            }
            self.code = (self.code << 1) | next;
            self.bit_index = self.bit_index + 1;
            proof {
                lemma_pow2_unfold(steps + 1);
                steps = steps + 1;
            }
        }
    }
}

/// Cumulative smoothed frequency of the bytes below `s` in `data`: every
/// byte value counts once more than it occurs.
pub open spec fn cumulative(data: Seq<u8>, s: nat) -> nat
    decreases s,
{
    if s == 0 {
        0
    } else {
        cumulative(data, (s - 1) as nat) + 1 + data.to_multiset().count((s - 1) as u8)
    }
}

/// Total smoothed frequency of `data`: the cumulative count of all 256 byte values.
pub open spec fn smoothed_total(data: Seq<u8>) -> nat {
    cumulative(data, 256)
}

/// The encoder state after encoding the first `n` bytes of `data` with the
/// static smoothed frequencies of the whole of `data`.
pub open spec fn encode_bytes(data: Seq<u8>, n: nat) -> EncoderModel
    decreases n,
{
    if n == 0 {
        EncoderModel::initial()
    } else {
        let b = data[n - 1];
        encode_bytes(data, (n - 1) as nat).encode(
            cumulative(data, b as nat),
            cumulative(data, b as nat + 1),
            smoothed_total(data),
        )
    }
}

/// The bits `simple_encode` produces for `data`.
pub open spec fn simple_encode_bits(data: Seq<u8>) -> Seq<u8> {
    if data.len() == 0 {
        Seq::empty()
    } else {
        encode_bytes(data, data.len()).finish_bits()
    }
}

/// Appending a byte `x` adds one to the cumulative counts above `x`.
proof fn lemma_cumulative_push(data: Seq<u8>, x: u8, s: nat)
    requires
        s <= 256,
    ensures
        cumulative(data.push(x), s) == cumulative(data, s) + if (x as nat) < s { 1nat } else { 0nat },
    decreases s,
{
    broadcast use vstd::seq_lib::group_to_multiset_ensures;
    broadcast use vstd::multiset::group_multiset_axioms;
    if s > 0 {
        lemma_cumulative_push(data, x, (s - 1) as nat);
        assert(data.push(x).to_multiset() =~= data.to_multiset().insert(x));
    }
}

/// The smoothed cumulative count below the byte value `s`: one for each
/// byte value below `s`, plus one for each byte of `data` below `s`.
pub proof fn lemma_cumulative_counts(data: Seq<u8>, s: nat)
    requires
        s <= 256,
    ensures
        cumulative(data, s) == s + data.filter(|b: u8| (b as nat) < s).len(),
    decreases data.len(),
{
    reveal(Seq::filter);
    if data.len() == 0 {
        lemma_cumulative_empty(data, s);
    } else {
        let t = data.drop_last();
        let x = data.last();
        lemma_cumulative_counts(t, s);
        assert(t.push(x) =~= data);
        lemma_cumulative_push(t, x, s);
    }
}

/// Without data every byte value contributes its smoothing count of one.
proof fn lemma_cumulative_empty(data: Seq<u8>, s: nat)
    requires
        data.len() == 0,
    ensures
        cumulative(data, s) == s,
    decreases s,
{
    broadcast use vstd::seq_lib::group_to_multiset_ensures;
    broadcast use vstd::multiset::group_multiset_axioms;
    if s > 0 {
        lemma_cumulative_empty(data, (s - 1) as nat);
        assert(data.to_multiset() =~= Multiset::empty());
    }
}

/// The smoothed total is 256 more than the number of bytes.
pub proof fn lemma_smoothed_total(data: Seq<u8>)
    ensures
        smoothed_total(data) == 256 + data.len(),
    decreases data.len(),
{
    if data.len() == 0 {
        lemma_cumulative_empty(data, 256);
    } else {
        let d = data.drop_last();
        lemma_smoothed_total(d);
        lemma_cumulative_push(d, data.last(), 256);
        assert(d.push(data.last()) =~= data);
    }
}

/// Cumulative counts grow with the symbol and stay within the total.
pub(crate) proof fn lemma_cumulative_monotone(data: Seq<u8>, s: nat, t: nat)
    requires
        s <= t <= 256,
    ensures
        cumulative(data, s) <= cumulative(data, t),
        s < t ==> cumulative(data, s) < cumulative(data, t),
    decreases t - s,
{
    if s < t {
        lemma_cumulative_monotone(data, s, (t - 1) as nat);
    }
}

/// With at least `total` points in the interval, distinct cumulative bounds
/// give distinct rounded positions.
pub(crate) proof fn lemma_floor_gap(r: int, cl: int, ch: int, t: int)
    requires
        t > 0,
        r >= t,
        0 <= cl < ch,
    ensures
        r * cl / t < r * ch / t,
{
    assert(r * ch >= r * cl + t) by (nonlinear_arith)
        requires
            r >= t,
            ch >= cl + 1,
            r >= 0,
    ;
    vstd::arithmetic::div_mod::lemma_div_is_ordered(r * cl + t, r * ch, t);
    vstd::arithmetic::div_mod::lemma_div_plus_one(r * cl, t);
}

/// A normalized interval holds more than a quarter of the coordinate space.
pub(crate) proof fn lemma_normalized_range(m: EncoderModel)
    requires
        m.normalized(),
    ensures
        m.range() > QUARTER,
{
}

/// Simple arithmetic coding: encode and decode byte sequences.
/// Uses static frequency counts.
pub fn simple_encode(data: &[u8]) -> (out: Vec<u8>)
    requires
        data@.len() + 256 <= QUARTER,
    ensures
        out@ == simple_encode_bits(data@),
{
    broadcast use vstd::seq_lib::group_to_multiset_ensures;
    broadcast use vstd::multiset::group_multiset_axioms;
    if data.len() == 0 {
        return Vec::new();
    }
    let ghost d = data@;

    // Build frequency table
    let mut counts: Vec<usize> = Vec::new();
    let mut s: usize = 0;
    while s < 256
        invariant
            s <= 256,
            counts@.len() == s,
            forall|t: int| 0 <= t < s ==> #[trigger] counts@[t] == 1,
        decreases 256 - s,
    {
        counts.push(1);
        s = s + 1;
    }
    let mut i: usize = 0;
    while i < data.len()
        invariant
            i <= data@.len(),
            d == data@,
            data@.len() + 256 <= QUARTER,
            counts@.len() == 256,
            forall|t: int|
                0 <= t < 256 ==> #[trigger] counts@[t] == 1 + d.take(i as int).to_multiset().count(
                    t as u8,
                ),
            forall|t: int| 0 <= t < 256 ==> #[trigger] counts@[t] <= 1 + i,
        decreases data@.len() - i,
    {
        let b = data[i] as usize;
        let ghost prev = d.take(i as int);
        let ghost next = d.take(i as int + 1);
        proof {
            assert(next =~= prev.push(d[i as int]));
            prev.to_multiset_ensures();
            assert(prev.push(d[i as int]).to_multiset() =~= prev.to_multiset().insert(d[i as int]));
            assert(next.to_multiset() =~= prev.to_multiset().insert(d[i as int]));
        }
        let c = counts[b];
        counts.set(b, c + 1);
        i = i + 1;
        proof {
            assert forall|t: int| 0 <= t < 256 implies #[trigger] counts@[t] == 1 + next.to_multiset().count(t as u8) by {
                assert((t as u8) as int == t);
                assert((b as u8) as int == b as int);
            }
        }
    }
    assert(d.take(d.len() as int) =~= d);

    // Build cumulative frequency table
    let mut cum_freq: Vec<u64> = Vec::new();
    cum_freq.push(0);
    let mut s: usize = 0;
    proof {
        lemma_smoothed_total(d);
    }
    while s < 256
        invariant
            s <= 256,
            d == data@,
            counts@.len() == 256,
            forall|t: int| 0 <= t < 256 ==> #[trigger] counts@[t] == 1 + d.to_multiset().count(t as u8),
            cum_freq@.len() == s + 1,
            forall|t: int| 0 <= t <= s ==> #[trigger] cum_freq@[t] == cumulative(d, t as nat),
            smoothed_total(d) == 256 + d.len(),
            d.len() + 256 <= QUARTER,
        decreases 256 - s,
    {
        proof {
            lemma_cumulative_monotone(d, s as nat + 1, 256);
            assert(((s as int) as u8) as int == s as int);
        }
        let next = cum_freq[s] + counts[s] as u64;
        cum_freq.push(next);
        s = s + 1;
    }
    let total = cum_freq[256];

    let mut encoder = ArithmeticEncoder::new();
    let mut i: usize = 0;
    proof {
        lemma2_to64();
    }
    while i < data.len()
        invariant
            i <= data@.len(),
            d == data@,
            cum_freq@.len() == 257,
            forall|t: int| 0 <= t <= 256 ==> #[trigger] cum_freq@[t] == cumulative(d, t as nat),
            total == smoothed_total(d),
            smoothed_total(d) == 256 + d.len(),
            d.len() + 256 <= QUARTER,
            encoder@ == encode_bytes(d, i as nat),
            encoder@.normalized(),
            encoder@.pending <= 32 * i,
        decreases data@.len() - i,
    {
        let sym = data[i] as usize;
        proof {
            lemma_cumulative_monotone(d, sym as nat, sym as nat + 1);
            lemma_cumulative_monotone(d, sym as nat + 1, 256);
            lemma_normalized_range(encoder@);
            lemma_floor_gap(encoder@.range(), cum_freq@[sym as int] as int,
                cum_freq@[sym as int + 1] as int, total as int);
            assert(encoder@.range() * cum_freq@[sym as int + 1] <= WHOLE * QUARTER) by (nonlinear_arith)
                requires
                    encoder@.range() <= WHOLE,
                    cum_freq@[sym as int + 1] <= QUARTER,
                    encoder@.range() >= 0,
            ;
        }
        encoder.encode_symbol(cum_freq[sym], cum_freq[sym + 1], total);
        i = i + 1;
    }
    encoder.finish()
}

} // verus!
