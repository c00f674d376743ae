//! Laws of the range-coded container.
use vstd::arithmetic::div_mod::lemma_fundamental_div_mod_converse;
use vstd::arithmetic::power2::{lemma2_to64, lemma2_to64_rest, pow2};
use vstd::prelude::*;

use crate::bits::{
    bit_of, bits_of, bits_survive_packing, bits_value, bytes_survive_unpacking,
    lemma_bits_value_append, lemma_bits_value_bound, lemma_byte_of_its_bits, packed, padded,
};
use crate::bytes::{little_endian, little_endian_value};
use crate::coder::{doubling_offset, DecoderState, EncoderState, ARITHMETIC_RANGE};
use crate::error::Error;
use crate::interval::{
    contains, follows, lemma_counts_codable, lemma_doubled_origin, lemma_initially_followed,
    lemma_next_bit, origin, precision,
};
use crate::laws::archive::magic_is_the_first_four_bytes;
use crate::laws::bits::{bytes_read_least_first, eight_bytes_least_first};
use crate::model::{slot, SLOTS};
use crate::range::{
    context_of, counts_after, decoder_after, encoder_after, lemma_byte_done, lemma_decoded_at,
    lemma_encoder_normalized, lemma_statistics_valid, lemma_within_byte, prefix_of, range_decoded,
    range_encoded, statistics_after,
};

verus! {

/// The byte before that of bit `n`, or 0.
spec fn byte_before(bytes: Seq<u8>, n: int) -> u8 {
    if n < 8 {
        0
    } else {
        bytes[n / 8 - 1]
    }
}

/// The bits of its byte before bit `n`, as a number.
spec fn bits_before(bytes: Seq<u8>, n: int) -> nat {
    bytes[n / 8] as nat / pow2((8 - n % 8) as nat)
}

/// Bit `n` is coded under the byte before its own and the bits before it in
/// its byte.
proof fn lemma_place_of_a_bit(bytes: Seq<u8>, n: int)
    requires
        0 <= n < 8 * bytes.len(),
    ensures
        context_of(bits_of(bytes).take(n)) == byte_before(bytes, n),
        prefix_of(bits_of(bytes).take(n)) == bits_before(bytes, n),
{
    let bits = bits_of(bytes);
    let start = 8 * (n / 8);
    let known = n % 8;
    let history = bits.take(n);
    lemma_within_byte(history, start as nat);
    assert(history.take(start) =~= bits.take(start));
    if n >= 8 {
        lemma_byte_done(bytes, n / 8 - 1);
        assert(8 * (n / 8 - 1) + 8 == start);
    } else {
        assert(start == 0);
    }
    let byte = bytes[n / 8];
    let all = bits.subrange(start, start + 8);
    let seen = bits.subrange(start, n);
    let rest = bits.subrange(n, start + 8);
    assert forall|j: int| 0 <= j < 8 implies all[j] == bit_of(byte, j) by {
        assert((start + j) / 8 == n / 8 && (start + j) % 8 == j);
    }
    lemma_byte_of_its_bits(byte, all);
    assert(seen + rest =~= all);
    lemma_bits_value_append(seen, rest);
    lemma_bits_value_bound(rest);
    assert(history.skip(start) =~= seen);
    lemma_fundamental_div_mod_converse(
        byte as int,
        pow2((8 - known) as nat) as int,
        bits_value(seen) as int,
        bits_value(rest) as int,
    );
}

/// One more bit changes the counts of its own slot alone.
proof fn lemma_one_more_bit(bytes: Seq<u8>, n: int)
    requires
        0 <= n < 8 * bytes.len(),
    ensures
        statistics_after(bits_of(bytes).take(n + 1)) == statistics_after(
            bits_of(bytes).take(n),
        ).updated(
            context_of(bits_of(bytes).take(n)),
            prefix_of(bits_of(bytes).take(n)),
            bits_of(bytes)[n],
        ),
        encoder_after(bits_of(bytes).take(n + 1)) == encoder_after(bits_of(bytes).take(n)).encoded(
            bits_of(bytes)[n],
            counts_after(bits_of(bytes).take(n)).0,
            counts_after(bits_of(bytes).take(n)).1,
        ),
{
    let after = bits_of(bytes).take(n + 1);
    assert(after.drop_last() =~= bits_of(bytes).take(n));
}

/// Bits under other bytes or prefixes leave counts as they are.
proof fn lemma_counts_kept(bytes: Seq<u8>, context: u8, prefix: u8, from: int, to: int)
    requires
        0 <= from <= to <= 8 * bytes.len(),
        forall|p: int|
            from <= p < to ==> !(#[trigger] byte_before(bytes, p) == context && bits_before(
                bytes,
                p,
            ) == prefix),
    ensures
        statistics_after(bits_of(bytes).take(to)).counts(context, prefix) == statistics_after(
            bits_of(bytes).take(from),
        ).counts(context, prefix),
    decreases to - from,
{
    if from < to {
        let p = to - 1;
        let bits = bits_of(bytes);
        lemma_counts_kept(bytes, context, prefix, from, p);
        lemma_place_of_a_bit(bytes, p);
        lemma_one_more_bit(bytes, p);
        lemma_statistics_valid(bits.take(p));
        assert(byte_before(bytes, p) != context || bits_before(bytes, p) != prefix);
        assert(slot(context_of(bits.take(p)), prefix_of(bits.take(p))) != slot(context, prefix));
        assert(0 <= slot(context, prefix) < SLOTS);
    }
}

/// The first bit after some byte and some prefix is coded by the counts 1 and
/// 1: nothing seen elsewhere matters.
pub proof fn new_places_begin_with_one_each(bytes: Seq<u8>, n: int)
    requires
        0 <= n < 8 * bytes.len(),
        ({
            let before = |p: int|
                if p < 8 {
                    0u8
                } else {
                    bytes[p / 8 - 1]
                };
            let prefix = |p: int| bytes[p / 8] as nat / pow2((8 - p % 8) as nat);
            forall|p: int|
                0 <= p < n ==> !(#[trigger] before(p) == before(n) && prefix(p) == prefix(n))
        }),
    ensures
        counts_after(bits_of(bytes).take(n)) == (1u32, 1u32),
{
    let before = |p: int|
        if p < 8 {
            0u8
        } else {
            bytes[p / 8 - 1]
        };
    let prefix = |p: int| bytes[p / 8] as nat / pow2((8 - p % 8) as nat);
    let bits = bits_of(bytes);
    lemma_place_of_a_bit(bytes, n);
    assert forall|p: int| 0 <= p < n implies !(#[trigger] byte_before(bytes, p) == context_of(
        bits.take(n),
    ) && bits_before(bytes, p) == prefix_of(bits.take(n))) by {
        assert(!(before(p) == before(n) && prefix(p) == prefix(n)));
    }
    lemma_counts_kept(bytes, context_of(bits.take(n)), prefix_of(bits.take(n)), 0, n);
    assert(bits.take(0) =~= Seq::<bool>::empty());
    assert(0 <= slot(context_of(bits.take(n)), prefix_of(bits.take(n))) < SLOTS);
}

/// The counts of a bit come from the last bit after the same byte and the same
/// prefix: the counts of that one, halved but not below 1 if they had reached
/// 65535 together, and then that one counted.
pub proof fn counts_come_from_the_last_such_bit(bytes: Seq<u8>, last: int, n: int)
    requires
        0 <= last < n < 8 * bytes.len(),
        ({
            let before = |p: int|
                if p < 8 {
                    0u8
                } else {
                    bytes[p / 8 - 1]
                };
            let prefix = |p: int| bytes[p / 8] as nat / pow2((8 - p % 8) as nat);
            &&& before(last) == before(n) && prefix(last) == prefix(n)
            &&& forall|p: int|
                last < p < n ==> !(#[trigger] before(p) == before(n) && prefix(p) == prefix(n))
        }),
    ensures
        ({
            let (zeros, ones) = counts_after(bits_of(bytes).take(last));
            let (zeros_now, ones_now) = counts_after(bits_of(bytes).take(n));
            let set = bits_of(bytes)[last];
            let full = zeros + ones >= 65535;
            &&& !full && set ==> zeros_now == zeros && ones_now == ones + 1
            &&& !full && !set ==> zeros_now == zeros + 1 && ones_now == ones
            &&& full && set ==> ones_now == vstd::math::max(ones as int / 2, 1) + 1 && zeros_now
                == vstd::math::max(zeros as int / 2, 1)
            &&& full && !set ==> zeros_now == vstd::math::max(zeros as int / 2, 1) + 1 && ones_now
                == vstd::math::max(ones as int / 2, 1)
        }),
{
    let before = |p: int|
        if p < 8 {
            0u8
        } else {
            bytes[p / 8 - 1]
        };
    let prefix = |p: int| bytes[p / 8] as nat / pow2((8 - p % 8) as nat);
    let bits = bits_of(bytes);
    lemma_place_of_a_bit(bytes, n);
    lemma_place_of_a_bit(bytes, last);
    lemma_one_more_bit(bytes, last);
    assert(before(last) == byte_before(bytes, last) && prefix(last) == bits_before(bytes, last));
    assert forall|p: int| last + 1 <= p < n implies !(#[trigger] byte_before(bytes, p)
        == context_of(bits.take(n)) && bits_before(bytes, p) == prefix_of(bits.take(n))) by {
        assert(!(before(p) == before(n) && prefix(p) == prefix(n)));
    }
    lemma_counts_kept(bytes, context_of(bits.take(n)), prefix_of(bits.take(n)), last + 1, n);
    lemma_statistics_valid(bits.take(last));
    assert(0 <= slot(context_of(bits.take(n)), prefix_of(bits.take(n))) < SLOTS);
}

/// Counting a bit more or not.
proof fn lemma_filter_one_more(n: nat, chosen: spec_fn(int) -> bool)
    ensures
        Seq::new(n + 1, |p: int| p).filter(chosen).len() == Seq::new(n, |p: int| p).filter(
            chosen,
        ).len() + (if chosen(n as int) {
            1int
        } else {
            0
        }),
{
    reveal(Seq::filter);
    assert(Seq::new(n + 1, |p: int| p).drop_last() =~= Seq::new(n, |p: int| p));
}

/// The counts of a slot are one more than the bits seen there, until a
/// halving.
proof fn lemma_counts_are_tallies(bytes: Seq<u8>, context: u8, prefix: u8, n: int)
    requires
        0 <= n <= 8 * bytes.len(),
    ensures
        ({
            let clear = Seq::new(n as nat, |p: int| p).filter(
                |p: int|
                    byte_before(bytes, p) == context && bits_before(bytes, p) == prefix && !bits_of(
                        bytes,
                    )[p],
            ).len();
            let set = Seq::new(n as nat, |p: int| p).filter(
                |p: int|
                    byte_before(bytes, p) == context && bits_before(bytes, p) == prefix && bits_of(
                        bytes,
                    )[p],
            ).len();
            clear + set + 2 <= 65535 ==> statistics_after(bits_of(bytes).take(n)).counts(
                context,
                prefix,
            ) == ((1 + clear) as u32, (1 + set) as u32)
        }),
    decreases n,
{
    let is_clear = |p: int|
        byte_before(bytes, p) == context && bits_before(bytes, p) == prefix && !bits_of(bytes)[p];
    let is_set = |p: int|
        byte_before(bytes, p) == context && bits_before(bytes, p) == prefix && bits_of(bytes)[p];
    let bits = bits_of(bytes);
    let clear = Seq::new(n as nat, |p: int| p).filter(is_clear).len();
    let set = Seq::new(n as nat, |p: int| p).filter(is_set).len();
    assert(0 <= slot(context, prefix) < SLOTS);
    if n == 0 {
        reveal(Seq::filter);
        assert(bits.take(0) =~= Seq::<bool>::empty());
    } else {
        let p = n - 1;
        lemma_counts_are_tallies(bytes, context, prefix, p);
        lemma_filter_one_more(p as nat, is_clear);
        lemma_filter_one_more(p as nat, is_set);
        lemma_place_of_a_bit(bytes, p);
        lemma_one_more_bit(bytes, p);
        lemma_statistics_valid(bits.take(p));
        if byte_before(bytes, p) != context || bits_before(bytes, p) != prefix {
            assert(slot(context_of(bits.take(p)), prefix_of(bits.take(p))) != slot(
                context,
                prefix,
            ));
        }
    }
}

/// Until a halving the counts by which a bit is coded are one more than the
/// clear and the set bits before it that came after the same byte and the same
/// bits of their own byte.
pub proof fn counts_are_tallies(bytes: Seq<u8>, n: int)
    requires
        0 <= n < 8 * bytes.len(),
    ensures
        ({
            let before = |p: int|
                if p < 8 {
                    0u8
                } else {
                    bytes[p / 8 - 1]
                };
            let prefix = |p: int| bytes[p / 8] as nat / pow2((8 - p % 8) as nat);
            let clear = Seq::new(n as nat, |p: int| p).filter(
                |p: int| before(p) == before(n) && prefix(p) == prefix(n) && !bits_of(bytes)[p],
            ).len();
            let set = Seq::new(n as nat, |p: int| p).filter(
                |p: int| before(p) == before(n) && prefix(p) == prefix(n) && bits_of(bytes)[p],
            ).len();
            clear + set + 2 <= 65535 ==> {
                &&& counts_after(bits_of(bytes).take(n)) == ((1 + clear) as u32, (1 + set) as u32)
                &&& encoder_after(bits_of(bytes).take(n + 1)) == encoder_after(
                    bits_of(bytes).take(n),
                ).encoded(bits_of(bytes)[n], (1 + clear) as u32, (1 + set) as u32)
            }
        }),
{
    let before = |p: int|
        if p < 8 {
            0u8
        } else {
            bytes[p / 8 - 1]
        };
    let prefix = |p: int| bytes[p / 8] as nat / pow2((8 - p % 8) as nat);
    let bits = bits_of(bytes);
    let context_now = context_of(bits.take(n));
    let prefix_now = prefix_of(bits.take(n));
    lemma_place_of_a_bit(bytes, n);
    lemma_one_more_bit(bytes, n);
    lemma_counts_are_tallies(bytes, context_now, prefix_now, n);
    assert((|p: int| before(p) == before(n) && prefix(p) == prefix(n) && !bits_of(bytes)[p])
        =~= (|p: int|
        byte_before(bytes, p) == context_now && bits_before(bytes, p) == prefix_now && !bits_of(
            bytes,
        )[p]));
    assert((|p: int| before(p) == before(n) && prefix(p) == prefix(n) && bits_of(bytes)[p])
        =~= (|p: int|
        byte_before(bytes, p) == context_now && bits_before(bytes, p) == prefix_now && bits_of(
            bytes,
        )[p]));
}

/// A payload is coded bit by bit, each by the counts after those before it.
pub proof fn payloads_are_coded_bit_by_bit(bytes: Seq<u8>, n: int)
    requires
        0 <= n < 8 * bytes.len(),
    ensures
        encoder_after(Seq::empty()) == EncoderState::initial(),
        encoder_after(bits_of(bytes).take(n + 1)) == encoder_after(bits_of(bytes).take(n)).encoded(
            bits_of(bytes)[n],
            counts_after(bits_of(bytes).take(n)).0,
            counts_after(bits_of(bytes).take(n)).1,
        ),
{
    lemma_one_more_bit(bytes, n);
}

/// A range-coded container is `GS8R`, the version 1, the length of the payload
/// with its least byte first, the code in as few bytes as hold it, with its
/// last byte filled up by clear bits, and four bytes 0.
#[verifier::rlimit(30)]
pub proof fn bytes_of_a_container(payload: Seq<u8>, i: int)
    requires
        payload.len() < 0x1_0000_0000_0000_0000,
    ensures
        ({
            let bytes = range_encoded(payload);
            let code = encoder_after(bits_of(payload)).flushed();
            let size = (code.len() + 7) as int / 8;
            &&& bytes.len() == 13 + size + 4
            &&& bytes[0] == 0x47
            &&& bytes[1] == 0x53
            &&& bytes[2] == 0x38
            &&& bytes[3] == 0x52
            &&& bytes[4] == 1
            &&& payload.len() == bytes[5] + 0x100 * bytes[6] + 0x1_0000 * bytes[7] + 0x100_0000
                * bytes[8] + 0x1_0000_0000 * bytes[9] + 0x100_0000_0000 * bytes[10]
                + 0x1_0000_0000_0000 * bytes[11] + 0x100_0000_0000_0000 * bytes[12]
            &&& 0 <= i < 8 * size ==> bits_of(bytes.subrange(13, 13 + size))[i] == (i < code.len()
                && code[i])
            &&& 13 + size <= i < 17 + size ==> bytes[i] == 0
        }),
{
    let bytes = range_encoded(payload);
    let code = encoder_after(bits_of(payload)).flushed();
    let length = little_endian(payload.len(), 8);
    let coded = packed(code);
    eight_bytes_least_first(payload.len());
    bits_survive_packing(code);
    assert(coded.len() == (code.len() + 7) / 8);
    assert(bytes[5] == length[0] && bytes[6] == length[1] && bytes[7] == length[2] && bytes[8]
        == length[3] && bytes[9] == length[4] && bytes[10] == length[5] && bytes[11] == length[6]
        && bytes[12] == length[7]);
    assert(bytes.subrange(13, 13 + coded.len() as int) =~= coded);
}

/// Following an encoder through doublings that the code is long enough for.
proof fn lemma_followed_while_read(decoder: DecoderState, state: EncoderState, code: Seq<bool>)
    requires
        state.valid(),
        contains(state, code),
        follows(decoder, state, code),
        decoder.renormalized().1,
    ensures
        contains(state.renormalized(), code),
        follows(decoder.renormalized().0, state.renormalized(), code),
    decreases ARITHMETIC_RANGE - (state.high - state.low),
{
    if !state.normalized() {
        let offset = doubling_offset(state.low, state.high)->Some_0;
        lemma_doubled_origin(state);
        assert(decoder.valid());
        lemma_next_bit(code, precision(state));
        lemma_followed_while_read(decoder.doubled(offset).0, state.doubled(), code);
    }
}

/// What a decoder finds would be coded into an interval that holds its code.
proof fn lemma_found_bits_hold_the_code(code: Seq<bool>, count: nat)
    requires
        decoder_after(code, count) is Some,
    ensures
        decoder_after(code, count)->Some_0.1.len() == count,
        contains(encoder_after(decoder_after(code, count)->Some_0.1), code),
        follows(
            decoder_after(code, count)->Some_0.0,
            encoder_after(decoder_after(code, count)->Some_0.1),
            code,
        ),
    decreases count,
{
    lemma2_to64();
    lemma2_to64_rest();
    if count == 0 {
        lemma_initially_followed(code);
        lemma_bits_value_bound(code.take(32));
    } else {
        lemma_found_bits_hold_the_code(code, (count - 1) as nat);
        let (decoder, history) = decoder_after(code, (count - 1) as nat)->Some_0;
        let (zeros, ones) = counts_after(history);
        let state = encoder_after(history);
        let bit = decoder.next_bit(zeros, ones);
        lemma_encoder_normalized(history);
        lemma_statistics_valid(history);
        lemma_counts_codable(state, zeros, ones);
        let narrowed = state.narrowed(bit, zeros, ones);
        assert(origin(narrowed) == origin(state));
        assert(precision(narrowed) == precision(state));
        assert(contains(narrowed, code));
        assert(follows(decoder.narrowed(zeros, ones), narrowed, code));
        lemma_followed_while_read(decoder.narrowed(zeros, ones), narrowed, code);
        assert(history.push(bit).drop_last() =~= history);
    }
}

/// A container is read as a payload exactly where its header is right, it
/// declares the length of that payload, and its code lies in the interval that
/// coding that payload ends with. All its bits are needed for that.
pub proof fn containers_hold_what_would_be_coded(container: Seq<u8>, payload: Seq<u8>)
    requires
        container.len() >= 14,
    ensures
        ({
            let length = container[5] + 0x100 * container[6] + 0x1_0000 * container[7] + 0x100_0000
                * container[8] + 0x1_0000_0000 * container[9] + 0x100_0000_0000 * container[10]
                + 0x1_0000_0000_0000 * container[11] + 0x100_0000_0000_0000 * container[12];
            range_decoded(container) == Ok::<Seq<u8>, Error>(payload) <==> {
                &&& container[0] == 0x47 && container[1] == 0x53 && container[2] == 0x38
                    && container[3] == 0x52
                &&& container[4] == 1
                &&& length <= usize::MAX
                &&& payload.len() == length
                &&& contains(encoder_after(bits_of(payload)), bits_of(container.skip(13)))
            }
        }),
{
    let code = bits_of(container.skip(13));
    let length = little_endian_value(container.subrange(5, 13));
    magic_is_the_first_four_bytes(container, crate::range::RANGE_MAGIC_HEADER@);
    bytes_read_least_first(container.subrange(5, 13));
    if range_decoded(container) == Ok::<Seq<u8>, Error>(payload) {
        let history = decoder_after(code, 8 * length)->Some_0.1;
        lemma_found_bits_hold_the_code(code, 8 * length);
        bits_survive_packing(history);
        assert(padded(history) =~= history);
    }
    if payload.len() == length && contains(encoder_after(bits_of(payload)), code) {
        lemma_decoded_at(bits_of(payload), code, bits_of(payload).len());
        assert(bits_of(payload).take(bits_of(payload).len() as int) =~= bits_of(payload));
        bytes_survive_unpacking(payload);
    }
}

/// Containers are refused by their first bytes, or else for a code that is too
/// short.
pub proof fn refused_containers_by_their_bytes(container: Seq<u8>)
    ensures
        ({
            let found = range_decoded(container);
            let length = container[5] + 0x100 * container[6] + 0x1_0000 * container[7] + 0x100_0000
                * container[8] + 0x1_0000_0000 * container[9] + 0x100_0000_0000 * container[10]
                + 0x1_0000_0000_0000 * container[11] + 0x100_0000_0000_0000 * container[12];
            let known = container.len() >= 14 && container[0] == 0x47 && container[1] == 0x53
                && container[2] == 0x38 && container[3] == 0x52;
            &&& !known <==> found == Err::<Seq<u8>, Error>(Error::InvalidRangeHeader)
            &&& known && container[4] != 1 <==> found == Err::<Seq<u8>, Error>(
                Error::UnsupportedRangeVersion,
            )
            &&& known && container[4] == 1 && length > usize::MAX <==> found == Err::<
                Seq<u8>,
                Error,
            >(Error::PayloadTooLarge)
            &&& known && container[4] == 1 && length <= usize::MAX <==> found is Ok || found
                == Err::<Seq<u8>, Error>(Error::TruncatedRangePayload)
            &&& known && container[4] == 1 && length <= usize::MAX && container.len() < 17
                ==> found == Err::<Seq<u8>, Error>(Error::TruncatedRangePayload)
        }),
{
    magic_is_the_first_four_bytes(container, crate::range::RANGE_MAGIC_HEADER@);
    if container.len() >= 14 {
        bytes_read_least_first(container.subrange(5, 13));
        let code = bits_of(container.skip(13));
        let length = little_endian_value(container.subrange(5, 13));
        if container.len() < 17 && decoder_after(code, 8 * length) is Some {
            lemma_found_bits_hold_the_code(code, 8 * length);
        }
    }
}

} // verus!
