//! Why decoding undoes encoding: a code stands for a number, each step of an
//! encoder narrows the set of numbers that its code may still become, and a
//! decoder finds out into which share of that set its number falls.
use vstd::arithmetic::div_mod::lemma_fundamental_div_mod;
use vstd::arithmetic::power2::{
    lemma2_to64, lemma2_to64_rest, lemma_pow2_strictly_increases, lemma_pow2_unfold, pow2,
};
use vstd::prelude::*;

use crate::bits::{
    bit_value, bits_value, lemma_bits_value_append, lemma_bits_value_bound,
    lemma_bits_value_repeated, repeated,
};
use crate::coder::{
    doubling_offset, share, splittable, DecoderState, EncoderState, ARITHMETIC_HALF,
    ARITHMETIC_QUARTER, ARITHMETIC_RANGE,
};
use crate::model::COUNT_LIMIT;

verus! {

/// The number at which the coding range begins, in units that make the range
/// `2^32` numbers long.
pub open spec fn origin(state: EncoderState) -> int {
    bits_value(state.bits) * pow2(state.pending) * ARITHMETIC_RANGE + (pow2(state.pending) - 1)
        * ARITHMETIC_HALF
}

/// How many bits of a code the coding range can tell apart.
pub open spec fn precision(state: EncoderState) -> nat {
    32 + state.doublings()
}

/// The number that `code` stands for lies in the interval of `state`.
pub open spec fn contains(state: EncoderState, code: Seq<bool>) -> bool {
    &&& code.len() >= precision(state)
    &&& origin(state) + state.low <= bits_value(code.take(precision(state) as int)) <= origin(state)
        + state.high
}

/// A decoder of `code` has the interval of `state` and points to the number
/// that `code` stands for.
pub open spec fn follows(decoder: DecoderState, state: EncoderState, code: Seq<bool>) -> bool {
    &&& decoder.low == state.low
    &&& decoder.high == state.high
    &&& decoder.code == code
    &&& decoder.consumed == precision(state)
    &&& decoder.value == bits_value(code.take(precision(state) as int)) - origin(state)
}

/// A decoder that has read nothing but the first bits of its code follows an
/// encoder that has coded nothing.
pub proof fn lemma_initially_followed(code: Seq<bool>)
    requires
        code.len() >= 32,
    ensures
        follows(DecoderState::initial(code), EncoderState::initial(), code),
{
    lemma2_to64();
    assert(bits_value(Seq::<bool>::empty()) == 0);
    assert(origin(EncoderState::initial()) == 0) by {
        assert(0 * pow2(0) * ARITHMETIC_RANGE == 0) by (nonlinear_arith);
    }
}

/// Settling a bit, and those that wait for it, appends them to the number.
proof fn lemma_emitted_value(bits: Seq<bool>, bit: bool, count: nat)
    ensures
        bits_value(bits.push(bit) + repeated(!bit, count)) == 2 * (bits_value(bits) * pow2(count))
            + (if bit {
            pow2(count) as int
        } else {
            pow2(count) - 1
        }),
{
    lemma_bits_value_append(bits.push(bit), repeated(!bit, count));
    lemma_bits_value_repeated(!bit, count);
    assert(bits.push(bit).drop_last() =~= bits);
    let value = bits_value(bits);
    let power = pow2(count);
    assert((2 * value + 1) * power == 2 * (value * power) + power) by (nonlinear_arith);
    assert((2 * value) * power == 2 * (value * power)) by (nonlinear_arith);
}

/// Doubling moves the origin by the offset and doubles the unit.
pub proof fn lemma_doubled_origin(state: EncoderState)
    requires
        state.valid(),
        doubling_offset(state.low, state.high) is Some,
    ensures
        origin(state.doubled()) == 2 * origin(state) + 2 * doubling_offset(
            state.low,
            state.high,
        )->Some_0,
        precision(state.doubled()) == precision(state) + 1,
        state.doubled().valid(),
{
    let value = bits_value(state.bits);
    let power = pow2(state.pending);
    lemma2_to64();
    lemma_emitted_value(state.bits, false, state.pending);
    lemma_emitted_value(state.bits, true, state.pending);
    lemma_pow2_unfold(state.pending + 1);
    assert(value * (2 * power) == 2 * (value * power)) by (nonlinear_arith);
    let settled = bits_value(state.doubled().bits);
    assert(pow2(0) == 1);
    assert(settled * 1 == settled) by (nonlinear_arith);
}

/// Renormalizing a valid interval makes it wide, and never undoes a doubling.
pub proof fn lemma_renormalized(state: EncoderState)
    requires
        state.valid(),
    ensures
        state.renormalized().normalized(),
        precision(state.renormalized()) >= precision(state),
    decreases ARITHMETIC_RANGE - (state.high - state.low),
{
    if !state.normalized() {
        lemma_doubled_origin(state);
        lemma_renormalized(state.doubled());
    }
}

/// An interval at least `2^rounds` numbers long is doubled at most
/// `32 - rounds` times.
pub proof fn lemma_doublings_bounded(state: EncoderState, rounds: nat)
    requires
        state.valid(),
        pow2(rounds) <= state.high - state.low + 1,
    ensures
        rounds <= 32,
        state.renormalized().doublings() + rounds <= state.doublings() + 32,
    decreases ARITHMETIC_RANGE - (state.high - state.low),
{
    lemma2_to64();
    lemma2_to64_rest();
    if rounds > 32 {
        lemma_pow2_strictly_increases(32, rounds);
    }
    if !state.normalized() {
        lemma_doubled_origin(state);
        lemma_pow2_unfold(rounds + 1);
        lemma_doublings_bounded(state.doubled(), rounds + 1);
    }
}

/// One more bit of a code appends to the number read before.
pub proof fn lemma_next_bit(code: Seq<bool>, n: nat)
    requires
        n < code.len(),
    ensures
        bits_value(code.take((n + 1) as int)) == 2 * bits_value(code.take(n as int)) + bit_value(
            code[n as int],
        ),
{
    assert(code.take((n + 1) as int).drop_last() =~= code.take(n as int));
}

/// A code in the interval after renormalizing was in the interval before.
proof fn lemma_contained_before(state: EncoderState, code: Seq<bool>)
    requires
        state.valid(),
        contains(state.renormalized(), code),
    ensures
        contains(state, code),
    decreases ARITHMETIC_RANGE - (state.high - state.low),
{
    if !state.normalized() {
        lemma_doubled_origin(state);
        lemma_contained_before(state.doubled(), code);
        lemma_next_bit(code, precision(state));
    }
}

/// A decoder follows an encoder through renormalizing.
proof fn lemma_followed_after(decoder: DecoderState, state: EncoderState, code: Seq<bool>)
    requires
        state.valid(),
        contains(state.renormalized(), code),
        follows(decoder, state, code),
    ensures
        decoder.renormalized().1,
        follows(decoder.renormalized().0, state.renormalized(), code),
    decreases ARITHMETIC_RANGE - (state.high - state.low),
{
    lemma_contained_before(state, code);
    if !state.normalized() {
        let offset = doubling_offset(state.low, state.high)->Some_0;
        lemma_doubled_origin(state);
        lemma_renormalized(state.doubled());
        lemma_next_bit(code, precision(state));
        lemma_followed_after(decoder.doubled(offset).0, state.doubled(), code);
    }
}

/// A decoder whose code lies in the interval after a bit was coded finds that
/// bit, and follows the encoder.
pub proof fn lemma_decoded_bit(
    decoder: DecoderState,
    state: EncoderState,
    code: Seq<bool>,
    bit: bool,
    zeros: u32,
    ones: u32,
)
    requires
        state.valid(),
        state.codable(bit, zeros, ones),
        contains(state.encoded(bit, zeros, ones), code),
        follows(decoder, state, code),
    ensures
        decoder.next_bit(zeros, ones) == bit,
        decoder.decoded(zeros, ones).1,
        follows(decoder.decoded(zeros, ones).0, state.encoded(bit, zeros, ones), code),
{
    let narrowed = state.narrowed(bit, zeros, ones);
    lemma_contained_before(narrowed, code);
    assert(origin(narrowed) == origin(state));
    assert(precision(narrowed) == precision(state));
    assert(follows(decoder.narrowed(zeros, ones), narrowed, code));
    lemma_followed_after(decoder.narrowed(zeros, ones), narrowed, code);
}

/// Coding a bit only narrows the set of codes.
pub proof fn lemma_encoding_narrows(
    state: EncoderState,
    code: Seq<bool>,
    bit: bool,
    zeros: u32,
    ones: u32,
)
    requires
        state.valid(),
        state.codable(bit, zeros, ones),
        contains(state.encoded(bit, zeros, ones), code),
        0 <= share(state.low, state.high, zeros, ones) <= state.high - state.low + 1,
    ensures
        contains(state, code),
{
    let narrowed = state.narrowed(bit, zeros, ones);
    lemma_contained_before(narrowed, code);
    assert(origin(narrowed) == origin(state));
    assert(precision(narrowed) == precision(state));
}

/// The code that an encoder ends with lies in its interval, whatever comes
/// after it.
pub proof fn lemma_flushed_contained(state: EncoderState, rest: Seq<bool>)
    requires
        state.normalized(),
        rest.len() >= 30,
    ensures
        contains(state, state.flushed() + rest),
{
    let code = state.flushed() + rest;
    let upper = state.low >= ARITHMETIC_QUARTER;
    let tail = rest.take(30);
    let value = bits_value(state.bits);
    let power = pow2(state.pending);
    lemma2_to64();
    lemma2_to64_rest();
    lemma_emitted_value(state.bits, upper, state.pending + 1);
    lemma_pow2_unfold(state.pending + 1);
    assert(code.take(precision(state) as int) =~= state.flushed() + tail);
    lemma_bits_value_append(state.flushed(), tail);
    lemma_bits_value_bound(tail);
    assert(value * (2 * power) == 2 * (value * power)) by (nonlinear_arith);
}

/// In a wide interval both bit values have a share, for all counts that a
/// valid model can have.
pub proof fn lemma_counts_codable(state: EncoderState, zeros: u32, ones: u32)
    requires
        state.normalized(),
        zeros >= 1,
        ones >= 1,
        zeros + ones <= COUNT_LIMIT,
    ensures
        1 <= share(state.low, state.high, zeros, ones) <= state.high - state.low,
        splittable(state.low, state.high, zeros, ones),
        state.codable(false, zeros, ones),
        state.codable(true, zeros, ones),
{
    let width = state.high - state.low + 1;
    let total = zeros + ones;
    let part = share(state.low, state.high, zeros, ones);
    assert(width > COUNT_LIMIT);
    lemma_fundamental_div_mod(width * zeros, total);
    let rest = (width * zeros) % total;
    assert(1 <= part <= width - 1) by (nonlinear_arith)
        requires
            width * zeros == total * part + rest,
            0 <= rest < total,
            total < width,
            1 <= zeros,
            zeros + 1 <= total,
    ;
}

/// The encoder after `bits`, each coded by its own counts.
pub open spec fn encoder_over(bits: Seq<bool>, counts: Seq<(u32, u32)>) -> EncoderState
    decreases bits.len(),
{
    if bits.len() == 0 {
        EncoderState::initial()
    } else {
        let (zeros, ones) = counts[bits.len() - 1];
        encoder_over(bits.drop_last(), counts).encoded(bits.last(), zeros, ones)
    }
}

/// Every bit has a share of the interval when its turn comes.
pub open spec fn all_codable(bits: Seq<bool>, counts: Seq<(u32, u32)>) -> bool {
    &&& bits.len() <= counts.len()
    &&& forall|n: int|
        #![trigger counts[n]]
        0 <= n < bits.len() ==> encoder_over(bits.take(n), counts).codable(
            bits[n],
            counts[n].0,
            counts[n].1,
        )
}

/// The decoder after one bit for each of the first `count` counts, and the
/// bits that it found; nothing if the code ended before that.
pub open spec fn decoder_over(code: Seq<bool>, counts: Seq<(u32, u32)>, count: nat) -> Option<
    (DecoderState, Seq<bool>),
>
    decreases count,
{
    if count == 0 {
        if code.len() < 32 {
            None
        } else {
            Some((DecoderState::initial(code), Seq::empty()))
        }
    } else {
        match decoder_over(code, counts, (count - 1) as nat) {
            None => None,
            Some((decoder, found)) => {
                let (zeros, ones) = counts[count - 1];
                let (next, read) = decoder.decoded(zeros, ones);
                if read {
                    Some((next, found.push(decoder.next_bit(zeros, ones))))
                } else {
                    None
                }
            },
        }
    }
}

/// A share is never larger than the interval.
proof fn lemma_share_bounded(low: int, high: int, zeros: u32, ones: u32)
    requires
        low <= high,
        zeros + ones >= 1,
    ensures
        0 <= share(low, high, zeros, ones) <= high - low + 1,
{
    let width = high - low + 1;
    let total = zeros + ones;
    let part = share(low, high, zeros, ones);
    lemma_fundamental_div_mod(width * zeros, total);
    let rest = (width * zeros) % total;
    assert(0 <= part <= width) by (nonlinear_arith)
        requires
            width * zeros == total * part + rest,
            0 <= rest < total,
            1 <= width,
            0 <= zeros <= total,
    ;
}

/// While every bit has its share the interval stays wide.
proof fn lemma_encoder_over_normalized(bits: Seq<bool>, counts: Seq<(u32, u32)>)
    requires
        all_codable(bits, counts),
    ensures
        encoder_over(bits, counts).normalized(),
    decreases bits.len(),
{
    if bits.len() > 0 {
        let before = bits.drop_last();
        let (zeros, ones) = counts[bits.len() - 1];
        assert(bits.take(bits.len() - 1) =~= before);
        assert forall|n: int|
            #![trigger counts[n]]
            0 <= n < before.len() implies encoder_over(before.take(n), counts).codable(
            before[n],
            counts[n].0,
            counts[n].1,
        ) by {
            assert(before.take(n) =~= bits.take(n));
        }
        lemma_encoder_over_normalized(before, counts);
        lemma_renormalized(
            encoder_over(before, counts).narrowed(bits.last(), zeros, ones),
        );
    }
}

/// A decoder of a code in the interval after `bits` finds these bits.
proof fn lemma_bits_found(bits: Seq<bool>, counts: Seq<(u32, u32)>, code: Seq<bool>)
    requires
        all_codable(bits, counts),
        contains(encoder_over(bits, counts), code),
    ensures
        decoder_over(code, counts, bits.len()) matches Some((decoder, found)) && found == bits
            && follows(decoder, encoder_over(bits, counts), code),
    decreases bits.len(),
{
    if bits.len() == 0 {
        assert(bits =~= Seq::<bool>::empty());
        lemma_initially_followed(code);
    } else {
        let before = bits.drop_last();
        let state = encoder_over(before, counts);
        let (zeros, ones) = counts[bits.len() - 1];
        assert(bits.take(bits.len() - 1) =~= before);
        assert(all_codable(before, counts)) by {
            assert forall|n: int|
                #![trigger counts[n]]
                0 <= n < before.len() implies encoder_over(before.take(n), counts).codable(
                before[n],
                counts[n].0,
                counts[n].1,
            ) by {
                assert(before.take(n) =~= bits.take(n));
            }
        }
        lemma_encoder_over_normalized(before, counts);
        lemma_share_bounded(state.low, state.high, zeros, ones);
        lemma_encoding_narrows(state, code, bits.last(), zeros, ones);
        lemma_bits_found(before, counts, code);
        let (decoder, found) = decoder_over(code, counts, before.len())->Some_0;
        lemma_decoded_bit(decoder, state, code, bits.last(), zeros, ones);
        assert(before.push(bits.last()) =~= bits);
    }
}

/// Whatever counts two sides share: a decoder finds the bits that an encoder
/// coded, from the code it ended with and at least 30 more bits of any value.
pub proof fn arithmetic_coding_is_lossless(
    bits: Seq<bool>,
    counts: Seq<(u32, u32)>,
    rest: Seq<bool>,
)
    requires
        all_codable(bits, counts),
        rest.len() >= 30,
    ensures
        decoder_over(encoder_over(bits, counts).flushed() + rest, counts, bits.len()) matches Some(
            (decoder, found),
        ) && found == bits,
{
    lemma_encoder_over_normalized(bits, counts);
    lemma_flushed_contained(encoder_over(bits, counts), rest);
    lemma_bits_found(bits, counts, encoder_over(bits, counts).flushed() + rest);
}

} // verus!
