//! Laws of the arithmetic coder.
use vstd::arithmetic::div_mod::lemma_fundamental_div_mod;
use vstd::arithmetic::power2::{lemma2_to64, lemma_pow2_unfold, pow2};
use vstd::prelude::*;

use crate::bits::{bits_value, lemma_bits_value_append};
use crate::coder::{
    doubling_offset, share, splittable, DecoderState, EncoderState, ARITHMETIC_RANGE,
};
use crate::interval::{lemma_doubled_origin, origin};

verus! {

/// A clear bit takes the part of the interval that its count is of the total,
/// rounded down.
pub proof fn share_is_proportional(low: int, high: int, zeros: u32, ones: u32)
    requires
        low <= high,
        zeros + ones >= 1,
    ensures
        (zeros + ones) * share(low, high, zeros, ones) <= (high - low + 1) * zeros,
        (high - low + 1) * zeros < (zeros + ones) * (share(low, high, zeros, ones) + 1),
{
    let total = zeros + ones;
    let part = share(low, high, zeros, ones);
    let whole = (high - low + 1) * zeros;
    lemma_fundamental_div_mod(whole, total);
    assert(total * (part + 1) == total * part + total) by (nonlinear_arith);
}

/// Both bit values share the interval out between them: a clear bit keeps its
/// beginning and a set bit its end, with nothing left between them.
pub proof fn bits_share_the_interval(state: EncoderState, zeros: u32, ones: u32)
    ensures
        ({
            let clear = state.narrowed(false, zeros, ones);
            let set = state.narrowed(true, zeros, ones);
            &&& clear.low == state.low
            &&& clear.high - clear.low + 1 == share(state.low, state.high, zeros, ones)
            &&& set.low == clear.high + 1
            &&& set.high == state.high
            &&& clear.bits == state.bits && set.bits == state.bits
            &&& clear.pending == state.pending && set.pending == state.pending
        }),
{
}

/// Counts can be coded with where they fit in 32 bits, their total too, and
/// the first number of a set bit's share is above 0 and fits in 32 bits.
pub proof fn what_can_be_coded(state: EncoderState, bit: bool, zeros: u32, ones: u32)
    requires
        0 <= state.low <= state.high < 0x1_0000_0000,
    ensures
        ({
            let first = state.low + share(state.low, state.high, zeros, ones);
            &&& splittable(state.low, state.high, zeros, ones) <==> 1 <= zeros + ones < 0x1_0000_0000
                && 1 <= first < 0x1_0000_0000
            &&& state.codable(bit, zeros, ones) <==> splittable(
                state.low,
                state.high,
                zeros,
                ones,
            ) && (if bit {
                first <= state.high
            } else {
                state.low < first && first <= 0x1_0000_0000
            })
        }),
{
}

/// A settled bit comes after those settled before, and the bits that waited
/// for it follow as its opposites.
pub proof fn settled_bits_come_in_order(state: EncoderState, bit: bool, i: int)
    ensures
        ({
            let after = state.emitted(bit);
            let count = state.bits.len();
            &&& after.low == state.low
            &&& after.high == state.high
            &&& after.pending == 0
            &&& after.bits.len() == count + 1 + state.pending
            &&& 0 <= i < count ==> after.bits[i] == state.bits[i]
            &&& after.bits[count as int] == bit
            &&& count < i <= count + state.pending ==> after.bits[i] != bit
        }),
{
}

/// An interval in the lower half settles a clear bit, one in the upper half a
/// set bit, and one in the middle half leaves a bit waiting. What is doubled
/// is the interval as seen from the beginning of that half.
pub proof fn halves_are_doubled(state: EncoderState)
    requires
        0 <= state.low <= state.high < 0x1_0000_0000,
    ensures
        ({
            let after = state.doubled();
            let lower = state.high < 0x8000_0000;
            let upper = state.low >= 0x8000_0000;
            let middle = !lower && !upper && state.low >= 0x4000_0000 && state.high < 0xC000_0000;
            &&& lower ==> after.low == 2 * state.low && after.high == 2 * state.high + 1
                && after.bits == state.emitted(false).bits && after.pending == 0
            &&& upper ==> after.low == 2 * state.low - 0x1_0000_0000 && after.high == 2 * state.high
                - 0xFFFF_FFFF && after.bits == state.emitted(true).bits && after.pending == 0
            &&& middle ==> after.low == 2 * state.low - 0x8000_0000 && after.high == 2 * state.high
                - 0x7FFF_FFFF && after.bits == state.bits && after.pending == state.pending + 1
            &&& !lower && !upper && !middle <==> state.normalized()
            &&& state.normalized() ==> after == state && state.renormalized() == state
            &&& !state.normalized() ==> state.renormalized() == after.renormalized()
        }),
{
}

/// An encoder begins with all numbers of 32 bits and nothing settled.
pub proof fn encoders_begin_with_everything()
    ensures
        EncoderState::initial().low == 0,
        EncoderState::initial().high == 0xFFFF_FFFF,
        EncoderState::initial().pending == 0,
        EncoderState::initial().bits.len() == 0,
{
}

/// Doubling loses nothing: after `k` doublings the numbers that the code may
/// still become are those of before, in units `2^k` times finer, and the
/// interval cannot be doubled again.
pub proof fn doubling_keeps_the_numbers(state: EncoderState)
    requires
        0 <= state.low <= state.high < 0x1_0000_0000,
    ensures
        ({
            let after = state.renormalized();
            let rounds = after.doublings() - state.doublings();
            &&& 0 <= after.low < 0x8000_0000 <= after.high < 0x1_0000_0000
            &&& after.low < 0x4000_0000 || after.high >= 0xC000_0000
            &&& rounds >= 0
            &&& origin(after) + after.low == pow2(rounds as nat) * (origin(state) + state.low)
            &&& origin(after) + after.high + 1 == pow2(rounds as nat) * (origin(state) + state.high
                + 1)
        }),
    decreases ARITHMETIC_RANGE - (state.high - state.low),
{
    lemma2_to64();
    if state.normalized() {
        let first = origin(state) + state.low;
        let end = origin(state) + state.high + 1;
        assert(pow2(0) * first == first && pow2(0) * end == end);
    } else {
        let next = state.doubled();
        let after = state.renormalized();
        lemma_doubled_origin(state);
        doubling_keeps_the_numbers(next);
        let rounds = (after.doublings() - next.doublings()) as nat;
        lemma_pow2_unfold(rounds + 1);
        let first = origin(state) + state.low;
        let end = origin(state) + state.high + 1;
        assert(origin(next) + next.low == 2 * first);
        assert(origin(next) + next.high + 1 == 2 * end);
        assert(pow2(rounds) * (2 * first) == (2 * pow2(rounds)) * first) by (nonlinear_arith);
        assert(pow2(rounds) * (2 * end) == (2 * pow2(rounds)) * end) by (nonlinear_arith);
    }
}

/// A code ends with the bit that tells the lower quarters from the upper ones,
/// and one opposite more than were waiting.
pub proof fn end_of_a_code(state: EncoderState, i: int)
    ensures
        ({
            let code = state.flushed();
            let count = state.bits.len();
            &&& code.len() == count + state.pending + 2
            &&& 0 <= i < count ==> code[i] == state.bits[i]
            &&& code[count as int] == (state.low >= 0x4000_0000)
            &&& count < i < code.len() ==> code[i] == (state.low < 0x4000_0000)
        }),
{
}

/// Coding a bit is narrowing the interval and doubling what is left.
pub proof fn coding_is_narrowing_and_doubling(
    state: EncoderState,
    bit: bool,
    zeros: u32,
    ones: u32,
)
    ensures
        state.encoded(bit, zeros, ones) == state.narrowed(bit, zeros, ones).renormalized(),
{
}

/// A decoder begins with all numbers of 32 bits and points where the first 32
/// bits of its code say.
pub proof fn decoders_begin_with_everything(code: Seq<bool>)
    ensures
        ({
            let decoder = DecoderState::initial(code);
            &&& decoder.low == 0
            &&& decoder.high == 0xFFFF_FFFF
            &&& decoder.value == bits_value(code.take(32))
            &&& decoder.code == code
            &&& decoder.consumed == 32
        }),
{
}

/// A decoder finds a set bit exactly where it points beyond the part of the
/// interval that the count of clear bits is of the total.
pub proof fn bits_are_found_by_their_share(decoder: DecoderState, zeros: u32, ones: u32)
    requires
        decoder.low <= decoder.high,
        zeros + ones >= 1,
    ensures
        decoder.next_bit(zeros, ones) <==> (decoder.value - decoder.low + 1) * (zeros + ones) > (
        decoder.high - decoder.low + 1) * zeros,
{
    let total = zeros + ones;
    let part = share(decoder.low, decoder.high, zeros, ones);
    let at = decoder.value - decoder.low;
    let whole = (decoder.high - decoder.low + 1) * zeros;
    share_is_proportional(decoder.low, decoder.high, zeros, ones);
    if at >= part {
        assert((at + 1) * total > whole) by (nonlinear_arith)
            requires
                at >= part,
                total >= 1,
                whole < total * (part + 1),
        ;
    } else {
        assert((at + 1) * total <= whole) by (nonlinear_arith)
            requires
                at + 1 <= part,
                total >= 1,
                total * part <= whole,
        ;
    }
}

/// A decoder keeps the part of the interval that an encoder keeps for the bit
/// that was found.
pub proof fn both_sides_narrow_alike(
    decoder: DecoderState,
    state: EncoderState,
    zeros: u32,
    ones: u32,
)
    requires
        decoder.low == state.low,
        decoder.high == state.high,
    ensures
        ({
            let bit = decoder.next_bit(zeros, ones);
            let found = decoder.narrowed(zeros, ones);
            &&& found.low == state.narrowed(bit, zeros, ones).low
            &&& found.high == state.narrowed(bit, zeros, ones).high
            &&& found.value == decoder.value
            &&& found.code == decoder.code
            &&& found.consumed == decoder.consumed
            &&& decoder.decoded(zeros, ones) == found.renormalized()
        }),
{
}

/// A decoder doubles its interval as an encoder does, reads one bit of its
/// code for each time, and points as many times as far into the interval, by
/// the bits that it read. It fails only where the code ends before that.
pub proof fn both_sides_double_alike(decoder: DecoderState, state: EncoderState)
    requires
        0 <= decoder.low <= decoder.value <= decoder.high < 0x1_0000_0000,
        decoder.consumed <= decoder.code.len(),
        decoder.low == state.low,
        decoder.high == state.high,
    ensures
        ({
            let (after, read) = decoder.renormalized();
            let wide = state.renormalized();
            let rounds = wide.doublings() - state.doublings();
            &&& rounds >= 0
            &&& read <==> decoder.consumed + rounds <= decoder.code.len()
            &&& read ==> after.low == wide.low && after.high == wide.high && after.code
                == decoder.code && after.consumed == decoder.consumed + rounds
            &&& read ==> after.value - after.low == pow2(rounds as nat) * (decoder.value
                - decoder.low) + bits_value(
                decoder.code.subrange(decoder.consumed as int, decoder.consumed + rounds),
            )
        }),
    decreases ARITHMETIC_RANGE - (decoder.high - decoder.low),
{
    lemma2_to64();
    if state.normalized() {
        assert(decoder.code.subrange(decoder.consumed as int, decoder.consumed as int) =~= Seq::<
            bool,
        >::empty());
        let ahead = decoder.value - decoder.low;
        assert(pow2(0) * ahead == ahead);
    } else {
        let offset = doubling_offset(state.low, state.high)->Some_0;
        let (next, read) = decoder.doubled(offset);
        let wide = state.renormalized();
        lemma_doubled_origin(state);
        crate::interval::lemma_renormalized(state.doubled());
        if read {
            both_sides_double_alike(next, state.doubled());
            let rounds = (wide.doublings() - state.doubled().doublings()) as nat;
            let ahead = decoder.value - decoder.low;
            lemma_pow2_unfold(rounds + 1);
            if next.renormalized().1 {
                let start = decoder.consumed as int;
                let first = decoder.code.subrange(start, start + 1);
                let rest = decoder.code.subrange(start + 1, start + 1 + rounds);
                let bit = bits_value(first);
                assert(first.drop_last() =~= Seq::<bool>::empty());
                assert(bits_value(Seq::<bool>::empty()) == 0);
                assert(first + rest =~= decoder.code.subrange(start, start + 1 + rounds));
                lemma_bits_value_append(first, rest);
                assert(next.value - next.low == 2 * ahead + bit);
                assert(pow2(rounds) * (2 * ahead + bit) == (2 * pow2(rounds)) * ahead + bit * pow2(
                    rounds,
                )) by (nonlinear_arith);
            }
        }
    }
}

} // verus!
