//! The adaptive delta encoder.

use vstd::arithmetic::power2::{lemma2_to64, lemma_pow2_unfold, pow2};
use vstd::prelude::*;

verus! {

/// Fixed-point shift that controls how fast the filter responds.
pub const RESP_PREC: i32 = 10;

/// Largest value the response term can reach: `(1 << RESP_PREC) - 1`.
pub const RESP_MAX: i32 = 1023;

/// Smallest value the response term takes after an update:
/// `1 + (1 << (RESP_PREC - 8))`.
pub const RESP_FLOOR: i32 = 5;

/// The mathematical state of an encoder.
pub struct EncoderState {
    pub response: int,
    pub level: int,
    pub last_bit: bool,
}

/// The state of an encoder that has not seen any sample.
pub open spec fn fresh_state() -> EncoderState {
    EncoderState { response: 0, level: 0, last_bit: false }
}

/// Ranges that every reachable state stays within.
pub open spec fn state_wf(s: EncoderState) -> bool {
    &&& 0 <= s.response <= RESP_MAX
    &&& -128 <= s.level <= 127
}

/// The bit emitted for `sample` when the encoder tracks `level`: set when the
/// sample is at or above the level, except that the minimum sample value
/// always gives a cleared bit.
pub open spec fn quantize(sample: i8, level: int) -> bool {
    !(sample < level || sample == -128)
}

/// `(x + 2^(p-1)) >> p` for `p == RESP_PREC`, as an arithmetic shift, that is
/// rounding towards negative infinity after the bias is added.
pub open spec fn round_shift(x: int) -> int {
    (x + 512) / 1024
}

/// The value the level moves towards for a given bit.
pub open spec fn bit_target(bit: bool) -> int {
    if bit { 127 } else { -128 }
}

/// The level after emitting `bit`.
pub open spec fn next_level(s: EncoderState, bit: bool) -> int {
    let target = bit_target(bit);
    let stepped = s.level + round_shift(s.response * (target - s.level));
    if stepped == s.level && s.level != target {
        if bit { s.level + 1 } else { s.level - 1 }
    } else {
        stepped
    }
}

/// The response after emitting `bit`: one step towards `RESP_MAX` while bits
/// repeat, one step towards zero when they alternate, never below `RESP_FLOOR`.
pub open spec fn next_response(s: EncoderState, bit: bool) -> int {
    let run = bit == s.last_bit;
    let run_target = if run { RESP_MAX as int } else { 0 };
    let stepped = if s.response != run_target {
        if run { s.response + 1 } else { s.response - 1 }
    } else {
        s.response
    };
    if stepped < RESP_FLOOR { RESP_FLOOR as int } else { stepped }
}

/// One update of the encoder for an emitted bit.
pub open spec fn step(s: EncoderState, bit: bool) -> EncoderState {
    EncoderState { response: next_response(s, bit), level: next_level(s, bit), last_bit: bit }
}

/// The state after the encoder has consumed `samples` in order, starting in `s`.
pub open spec fn state_after(s: EncoderState, samples: Seq<i8>) -> EncoderState
    decreases samples.len(),
{
    if samples.len() == 0 {
        s
    } else {
        let prev = state_after(s, samples.drop_last());
        step(prev, quantize(samples.last(), prev.level))
    }
}

/// The bit emitted for the sample at position `k` of `samples`.
pub open spec fn bit_at(s: EncoderState, samples: Seq<i8>, k: int) -> bool {
    quantize(samples[k], state_after(s, samples.take(k)).level)
}

/// Number of output bytes for `n` samples: `ceil(n / 8)`.
pub open spec fn encoded_len(n: nat) -> nat {
    (n + 7) / 8
}

/// The input bytes read as signed samples, followed by zero samples up to the
/// next multiple of eight.
pub open spec fn padded_samples(src: Seq<u8>) -> Seq<i8> {
    Seq::new(
        8 * encoded_len(src.len()),
        |k: int|
            if k < src.len() {
                src[k] as i8
            } else {
                0i8
            },
    )
}

/// A bit as a number.
pub open spec fn bit_value(b: bool) -> nat {
    if b { 1 } else { 0 }
}

/// The number whose binary digits are `bits`, least significant first.
pub open spec fn pack_lsb_first(bits: Seq<bool>) -> nat
    decreases bits.len(),
{
    if bits.len() == 0 {
        0
    } else {
        bit_value(bits[0]) + 2 * pack_lsb_first(bits.drop_first())
    }
}

/// The eight bits that make up output byte `i`.
pub open spec fn byte_bits(s: EncoderState, samples: Seq<i8>, i: int) -> Seq<bool> {
    Seq::new(8, |j: int| bit_at(s, samples, 8 * i + j))
}

/// The bytes produced for `src` by an encoder that starts in `s`.
pub open spec fn encode(s: EncoderState, src: Seq<u8>) -> Seq<u8> {
    let samples = padded_samples(src);
    Seq::new(encoded_len(src.len()), |i: int| pack_lsb_first(byte_bits(s, samples, i)) as u8)
}

/// Appending a bit adds its weight at the next position.
proof fn lemma_pack_push(bits: Seq<bool>, b: bool)
    ensures
        pack_lsb_first(bits.push(b)) == pack_lsb_first(bits) + bit_value(b) * pow2(bits.len()),
        pack_lsb_first(bits) < pow2(bits.len()),
    decreases bits.len(),
{
    lemma2_to64();
    if bits.len() == 0 {
        assert(bits.push(b).drop_first() =~= bits);
    } else {
        let rest = bits.drop_first();
        assert(bits.push(b).drop_first() =~= rest.push(b));
        lemma_pack_push(rest, b);
        lemma_pow2_unfold(bits.len());
        assert(2 * (bit_value(b) * pow2(rest.len())) == bit_value(b) * pow2(bits.len()))
            by (nonlinear_arith)
            requires
                pow2(bits.len()) == 2 * pow2(rest.len()),
        ;
    }
}

/// Shifting one more bit in from the top of a partly filled byte.
proof fn lemma_shift_in(d: u8, bits: Seq<bool>, b: bool)
    requires
        bits.len() < 8,
        d as nat == pack_lsb_first(bits) * pow2((8 - bits.len()) as nat),
    ensures
        (d >> 1u8) as nat + 128 * bit_value(b) < 256,
        (d >> 1u8) as nat + 128 * bit_value(b) == pack_lsb_first(bits.push(b)) * pow2(
            (8 - bits.len() - 1) as nat,
        ),
{
    lemma2_to64();
    lemma_pack_push(bits, b);
    assert((d >> 1u8) == d / 2) by (bit_vector);
    let p = pack_lsb_first(bits);
    let n = bits.len();
    let q = pow2((7 - n) as nat);
    lemma_pow2_unfold((8 - n) as nat);
    vstd::arithmetic::power2::lemma_pow2_adds(n, (7 - n) as nat);
    let w = pow2(n);
    let v = bit_value(b);
    assert(d / 2 == p * q && (d / 2) + 128 * v == (p + v * w) * q) by (nonlinear_arith)
        requires
            d == p * (2 * q),
            w * q == 128,
    ;
}

/// The output has exactly one byte per started group of eight samples.
pub proof fn lemma_output_length(s: EncoderState, src: Seq<u8>)
    ensures
        encode(s, src).len() == encoded_len(src.len()),
        8 * encoded_len(src.len()) >= src.len(),
        8 * encoded_len(src.len()) < src.len() + 8,
{
}

/// Encoding is a function of the input alone: two freshly made encoders turn
/// the same samples into the same bytes and end in the same state.
pub proof fn lemma_deterministic(a: EncoderState, b: EncoderState, src: Seq<u8>)
    requires
        a == fresh_state(),
        b == fresh_state(),
    ensures
        encode(a, src) == encode(b, src),
        state_after(a, padded_samples(src)) == state_after(b, padded_samples(src)),
{
}

/// The minimum sample value gives a cleared bit whatever the level.
pub proof fn lemma_min_sample_clears_bit(level: int)
    ensures
        !quantize(-128i8, level),
{
}

/// After one or more updates the response is at least `RESP_FLOOR`, and the
/// state stays in range throughout.
pub proof fn lemma_response_floor(s: EncoderState, samples: Seq<i8>)
    requires
        state_wf(s),
    ensures
        state_wf(state_after(s, samples)),
        samples.len() > 0 ==> state_after(s, samples).response >= RESP_FLOOR,
    decreases samples.len(),
{
    if samples.len() > 0 {
        let rest = samples.drop_last();
        lemma_response_floor(s, rest);
        let prev = state_after(s, rest);
        lemma_step_wf(prev, quantize(samples.last(), prev.level));
    }
}

/// Adaptive delta encoder state: one instance encodes one stream.
pub struct DFPWM {
    response: i32,
    level: i32,
    last_bit: bool,
}

impl View for DFPWM {
    type V = EncoderState;

    closed spec fn view(&self) -> EncoderState {
        EncoderState {
            response: self.response as int,
            level: self.level as int,
            last_bit: self.last_bit,
        }
    }
}

/// An arithmetic shift right by ten is division by 1024, rounded down.
proof fn lemma_shift_is_floor_div(x: i32)
    ensures
        (x >> 10i32) as int == (x as int) / 1024,
{
    let q = x >> 10i32;
    assert(-2097152 <= q < 2097152) by (bit_vector)
        requires q == x >> 10i32;
    assert(q as i64 * 1024 <= x as i64 && (x as i64) < q as i64 * 1024 + 1024) by (bit_vector)
        requires q == x >> 10i32;
}

/// The level moves towards the bit's target without passing it, so it stays
/// within the sample range.
proof fn lemma_next_level_bounds(s: EncoderState, bit: bool)
    requires
        state_wf(s),
    ensures
        bit ==> s.level <= next_level(s, bit) <= 127,
        !bit ==> -128 <= next_level(s, bit) <= s.level,
{
    let d = bit_target(bit) - s.level;
    let r = s.response;
    if d >= 0 {
        assert(0 <= r * d <= 1023 * d) by (nonlinear_arith)
            requires
                0 <= r <= 1023,
                d >= 0,
        ;
    } else {
        assert(1023 * d <= r * d <= 0) by (nonlinear_arith)
            requires
                0 <= r <= 1023,
                d < 0,
        ;
    }
}

/// Every update keeps the state in range and lifts the response to the floor.
pub proof fn lemma_step_wf(s: EncoderState, bit: bool)
    requires
        state_wf(s),
    ensures
        state_wf(step(s, bit)),
        step(s, bit).response >= RESP_FLOOR,
{
    lemma_next_level_bounds(s, bit);
}

impl DFPWM {
    /// Whether the encoder's state lies in the reachable ranges.
    pub open spec fn wf(&self) -> bool {
        state_wf(self@)
    }

    /// An encoder with zero response and level whose last bit was cleared.
    pub fn new() -> (r: DFPWM)
        ensures
            r@ == fresh_state(),
            r.wf(),
    {
        DFPWM { response: 0, level: 0, last_bit: false }
    }

    /// The current response (filter gain) term.
    pub fn response(&self) -> (r: i32)
        ensures
            r as int == self@.response,
    {
        self.response
    }

    /// The current level, the encoder's estimate of the signal.
    pub fn level(&self) -> (r: i32)
        ensures
            r as int == self@.level,
    {
        self.level
    }

    /// The most recently emitted bit.
    pub fn last_bit(&self) -> (r: bool)
        ensures
            r == self@.last_bit,
    {
        self.last_bit
    }

    /// Updates the filter after `cur_bit` was emitted.
    pub fn ctx_update(&mut self, cur_bit: bool)
        requires
            old(self).wf(),
        ensures
            final(self)@ == step(old(self)@, cur_bit),
            final(self).wf(),
            final(self)@.response >= RESP_FLOOR,
    {
        proof {
            lemma_step_wf(self@, cur_bit);
            lemma_next_level_bounds(self@, cur_bit);
        }
        assert(1i32 << (RESP_PREC - 1) == 512 && 1i32 << RESP_PREC == 1024) by (bit_vector);
        let target: i32 = if cur_bit { 127 } else { -128 };
        let diff: i32 = target - self.level;
        assert(-1023 * 255 <= self.response * diff <= 1023 * 255) by (nonlinear_arith)
            requires
                0 <= self.response <= 1023,
                -255 <= diff <= 255,
        ;
        let biased: i32 = self.response * diff + (1i32 << (RESP_PREC - 1));
        proof {
            lemma_shift_is_floor_div(biased);
        }
        let mut nlevel: i32 = self.level + (biased >> RESP_PREC);
        if nlevel == self.level && self.level != target {
            nlevel += if cur_bit { 1 } else { -1 };
        }
        let rtarget: i32 = if cur_bit == self.last_bit {
            (1i32 << RESP_PREC) - 1
        } else {
            0
        };
        let mut nresponse: i32 = self.response;
        if self.response != rtarget {
            nresponse += if cur_bit == self.last_bit { 1 } else { -1 };
        }
        if nresponse < RESP_FLOOR {
            nresponse = RESP_FLOOR;
        }
        self.response = nresponse;
        self.last_bit = cur_bit;
        self.level = nlevel;
    }

    /// Encodes `src`, read as signed 8-bit samples, and appends one byte per
    /// eight samples to `dest`. A final partial group is filled up with zero
    /// samples, which advance the encoder like any other.
    pub fn compress(&mut self, src: &Vec<u8>, dest: &mut Vec<u8>)
        requires
            old(self).wf(),
        ensures
            final(dest)@ == old(dest)@ + encode(old(self)@, src@),
            final(dest)@.len() == old(dest)@.len() + encoded_len(src@.len()),
            final(self)@ == state_after(old(self)@, padded_samples(src@)),
            final(self).wf(),
    {
        let ghost s0 = self@;
        let ghost samples = padded_samples(src@);
        let ghost out = encode(s0, src@);
        let ghost dest0 = dest@;
        let len = src.len();
        let n_bytes: usize = len / 8 + if len % 8 != 0 { 1 } else { 0 };
        assert(n_bytes == encoded_len(len as nat));
        dest.reserve(n_bytes);
        for i in 0..n_bytes
            invariant
                len == src@.len(),
                n_bytes == encoded_len(len as nat),
                samples == padded_samples(src@),
                out == encode(s0, src@),
                self.wf(),
                self@ == state_after(s0, samples.take(8 * i)),
                dest@ == dest0 + out.take(i as int),
        {
            let ghost bits = byte_bits(s0, samples, i as int);
            let mut d: u8 = 0;
            proof {
                lemma2_to64();
                assert(bits.take(0) =~= Seq::<bool>::empty());
            }
            for j in 0..8usize
                invariant
                    i < n_bytes,
                    len == src@.len(),
                    n_bytes == encoded_len(len as nat),
                    samples == padded_samples(src@),
                    bits == byte_bits(s0, samples, i as int),
                    self.wf(),
                    self@ == state_after(s0, samples.take(8 * i + j)),
                    d as nat == pack_lsb_first(bits.take(j as int)) * pow2((8 - j) as nat),
            {
                let index = i * 8 + j;
                let in_level: i8 = if index < len {
                    #[verifier::truncate]
                    (src[index] as i8)
                } else {
                    0i8
                };
                assert(in_level == samples[index as int]);
                let cur_bit = !((in_level as i32) < self.level || (in_level as i32) == -128);
                assert(cur_bit == bits[j as int]);
                proof {
                    lemma_shift_in(d, bits.take(j as int), cur_bit);
                    assert(bits.take(j as int).push(cur_bit) =~= bits.take(j + 1));
                    assert(samples.take(index + 1).drop_last() =~= samples.take(index as int));
                }
                d >>= 1;
                d += if cur_bit { 128 } else { 0 };
                self.ctx_update(cur_bit);
            }
            proof {
                lemma2_to64();
                assert(bits.take(8) =~= bits);
                assert(d == out[i as int]);
            }
            dest.push(d);
            assert(dest@ =~= dest0 + out.take(i + 1));
        }
        assert(samples.take(8 * n_bytes) =~= samples);
        assert(out.take(n_bytes as int) =~= out);
    }
}

} // verus!
