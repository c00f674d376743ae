//! The range-coded container: a header and an arithmetic code of the payload.
use vstd::arithmetic::power2::{lemma2_to64, lemma2_to64_rest, lemma_pow2_strictly_increases};
use vstd::prelude::*;

use crate::bits::{
    bit_of, bit_value, bits_of, bits_survive_packing, bits_value, bytes_survive_unpacking,
    lemma_bits_value_bound, lemma_byte_of_its_bits, packed, padded, repeated,
};
use crate::bytes::{
    begins_with, contents, has_magic, lemma_little_endian_len, little_endian,
    little_endian_reads_back, little_endian_value, push_little_endian, read_little_endian,
};
use crate::coder::{
    doubling_offset, splittable, ArithmeticDecoder, ArithmeticEncoder, DecoderState, EncoderState,
    ARITHMETIC_RANGE,
};
use crate::error::Error;
use crate::interval::{
    contains, follows, lemma_counts_codable, lemma_decoded_bit, lemma_doublings_bounded,
    lemma_encoding_narrows, lemma_flushed_contained, lemma_initially_followed, lemma_renormalized,
};
use crate::model::{slot, update_keeps_statistics_valid, BitContextModel, Statistics, COUNT_LIMIT};

verus! {

/// The first bytes of a range-coded container: `GS8R`.
pub const RANGE_MAGIC_HEADER: [u8; 4] = [0x47, 0x53, 0x38, 0x52];

/// The version of the containers and payloads that this library writes.
pub const FORMAT_VERSION: u8 = 1;

/// The byte before the one that the next bit belongs to, or 0.
pub open spec fn context_of(history: Seq<bool>) -> u8 {
    let start = 8 * (history.len() as int / 8);
    if start == 0 {
        0
    } else {
        bits_value(history.subrange(start - 8, start)) as u8
    }
}

/// The number that the known bits of the current byte spell.
pub open spec fn prefix_of(history: Seq<bool>) -> u8 {
    bits_value(history.skip(8 * (history.len() as int / 8))) as u8
}

/// The statistics after the bits of `history`, each counted under its context
/// and prefix.
pub open spec fn statistics_after(history: Seq<bool>) -> Statistics
    decreases history.len(),
{
    if history.len() == 0 {
        Statistics::initial()
    } else {
        let before = history.drop_last();
        statistics_after(before).updated(context_of(before), prefix_of(before), history.last())
    }
}

/// The counts by which the bit after `history` is coded.
pub open spec fn counts_after(history: Seq<bool>) -> (u32, u32) {
    statistics_after(history).counts(context_of(history), prefix_of(history))
}

/// The encoder after the bits of `history`.
pub open spec fn encoder_after(history: Seq<bool>) -> EncoderState
    decreases history.len(),
{
    if history.len() == 0 {
        EncoderState::initial()
    } else {
        let before = history.drop_last();
        let (zeros, ones) = counts_after(before);
        encoder_after(before).encoded(history.last(), zeros, ones)
    }
}

/// The decoder after `count` bits, and the bits that it found; nothing if the
/// code ended before that.
pub open spec fn decoder_after(code: Seq<bool>, count: nat) -> Option<(DecoderState, Seq<bool>)>
    decreases count,
{
    if count == 0 {
        if code.len() < 32 {
            None
        } else {
            Some((DecoderState::initial(code), Seq::empty()))
        }
    } else {
        match decoder_after(code, (count - 1) as nat) {
            None => None,
            Some((decoder, history)) => {
                let (zeros, ones) = counts_after(history);
                let (next, read) = decoder.decoded(zeros, ones);
                if read {
                    Some((next, history.push(decoder.next_bit(zeros, ones))))
                } else {
                    None
                }
            },
        }
    }
}

/// The first `length` bytes that a decoder of `code` finds.
pub open spec fn decoded_bytes(code: Seq<bool>, length: nat) -> Result<Seq<u8>, Error> {
    match decoder_after(code, 8 * length) {
        None => Err(Error::TruncatedRangePayload),
        Some((decoder, history)) => Ok(packed(history)),
    }
}

/// The range-coded container of `payload`.
pub open spec fn range_encoded(payload: Seq<u8>) -> Seq<u8> {
    RANGE_MAGIC_HEADER@ + seq![FORMAT_VERSION] + little_endian(payload.len(), 8) + packed(
        encoder_after(bits_of(payload)).flushed(),
    ) + seq![0u8, 0u8, 0u8, 0u8]
}

/// The payload of a range-coded container.
pub open spec fn range_decoded(container: Seq<u8>) -> Result<Seq<u8>, Error> {
    if container.len() < 14 || !begins_with(container, RANGE_MAGIC_HEADER@) {
        Err(Error::InvalidRangeHeader)
    } else if container[4] != FORMAT_VERSION {
        Err(Error::UnsupportedRangeVersion)
    } else if little_endian_value(container.subrange(5, 13)) > usize::MAX {
        Err(Error::PayloadTooLarge)
    } else {
        decoded_bytes(
            bits_of(container.skip(13)),
            little_endian_value(container.subrange(5, 13)),
        )
    }
}

/// Every statistics that bits can lead to are valid.
pub proof fn lemma_statistics_valid(history: Seq<bool>)
    ensures
        statistics_after(history).valid(),
        counts_after(history).0 >= 1,
        counts_after(history).1 >= 1,
        counts_after(history).0 + counts_after(history).1 <= COUNT_LIMIT,
    decreases history.len(),
{
    if history.len() > 0 {
        let before = history.drop_last();
        lemma_statistics_valid(before);
        update_keeps_statistics_valid(
            statistics_after(before),
            context_of(before),
            prefix_of(before),
            history.last(),
        );
    }
    let at = slot(context_of(history), prefix_of(history));
    assert(statistics_after(history).zeros[at] >= 1);
}

/// After any bits the interval of an encoder is wide, and it was doubled at
/// most 32 times per bit.
pub proof fn lemma_encoder_normalized(history: Seq<bool>)
    ensures
        encoder_after(history).normalized(),
        encoder_after(history).doublings() <= 32 * history.len(),
    decreases history.len(),
{
    lemma2_to64();
    if history.len() > 0 {
        let before = history.drop_last();
        let state = encoder_after(before);
        let (zeros, ones) = counts_after(before);
        lemma_encoder_normalized(before);
        lemma_statistics_valid(before);
        lemma_counts_codable(state, zeros, ones);
        lemma_renormalized(state.narrowed(history.last(), zeros, ones));
        lemma_doublings_bounded(state.narrowed(history.last(), zeros, ones), 0);
    }
}

/// A code that an encoder may still end with could be that of its beginning.
proof fn lemma_contained_at(bits: Seq<bool>, code: Seq<bool>, count: nat)
    requires
        count <= bits.len(),
        contains(encoder_after(bits), code),
    ensures
        contains(encoder_after(bits.take(count as int)), code),
    decreases bits.len() - count,
{
    if count == bits.len() {
        assert(bits.take(count as int) =~= bits);
    } else {
        let before = bits.take(count as int);
        let after = bits.take((count + 1) as int);
        let state = encoder_after(before);
        let (zeros, ones) = counts_after(before);
        lemma_contained_at(bits, code, count + 1);
        assert(after.drop_last() =~= before);
        lemma_encoder_normalized(before);
        lemma_statistics_valid(before);
        lemma_counts_codable(state, zeros, ones);
        lemma_encoding_narrows(state, code, after.last(), zeros, ones);
    }
}

/// A decoder of such a code finds the bits of the encoder one by one.
pub proof fn lemma_decoded_at(bits: Seq<bool>, code: Seq<bool>, count: nat)
    requires
        count <= bits.len(),
        contains(encoder_after(bits), code),
    ensures
        decoder_after(code, count) matches Some((decoder, history)) && history == bits.take(
            count as int,
        ) && follows(decoder, encoder_after(history), code),
    decreases count,
{
    lemma2_to64();
    lemma_contained_at(bits, code, count);
    let after = bits.take(count as int);
    if count == 0 {
        assert(after =~= Seq::<bool>::empty());
        lemma_initially_followed(code);
    } else {
        lemma_decoded_at(bits, code, (count - 1) as nat);
        let before = bits.take(count - 1);
        let (decoder, history) = decoder_after(code, (count - 1) as nat)->Some_0;
        let state = encoder_after(before);
        let (zeros, ones) = counts_after(before);
        assert(after.drop_last() =~= before);
        lemma_encoder_normalized(before);
        lemma_statistics_valid(before);
        lemma_counts_codable(state, zeros, ones);
        lemma_decoded_bit(decoder, state, code, after.last(), zeros, ones);
        assert(before.push(after.last()) =~= after);
    }
}

/// The bits of joined byte strings are the joined bits.
proof fn lemma_bits_of_joined(a: Seq<u8>, b: Seq<u8>)
    ensures
        bits_of(a + b) == bits_of(a) + bits_of(b),
{
    assert forall|i: int| 0 <= i < 8 * (a.len() + b.len()) implies bits_of(a + b)[i] == (bits_of(a)
        + bits_of(b))[i] by {
        if i >= 8 * a.len() {
            assert((i - 8 * a.len()) / 8 == i / 8 - a.len());
            assert((i - 8 * a.len()) % 8 == i % 8);
        }
    }
    assert(bits_of(a + b) =~= bits_of(a) + bits_of(b));
}

/// The parts of a range-coded container are found where they were put.
proof fn lemma_container_layout(length: nat, coded: Seq<u8>)
    requires
        length <= usize::MAX,
        coded.len() >= 1,
    ensures
        ({
            let container = RANGE_MAGIC_HEADER@ + seq![FORMAT_VERSION] + little_endian(length, 8)
                + coded;
            &&& container.len() >= 14
            &&& begins_with(container, RANGE_MAGIC_HEADER@)
            &&& container[4] == FORMAT_VERSION
            &&& little_endian_value(container.subrange(5, 13)) == length
            &&& container.skip(13) == coded
        }),
{
    let container = RANGE_MAGIC_HEADER@ + seq![FORMAT_VERSION] + little_endian(length, 8) + coded;
    lemma2_to64();
    lemma2_to64_rest();
    lemma_little_endian_len(length, 8);
    little_endian_reads_back(length, 8);
    assert(container.take(4) =~= RANGE_MAGIC_HEADER@);
    assert(container.subrange(5, 13) =~= little_endian(length, 8));
    assert(container.skip(13) =~= coded);
}

/// The code of `bits`, with the clear bytes that follow it, lies in the
/// interval that its encoder ended with.
proof fn lemma_code_contained(bits: Seq<bool>)
    ensures
        contains(
            encoder_after(bits),
            bits_of(packed(encoder_after(bits).flushed()) + seq![0u8, 0u8, 0u8, 0u8]),
        ),
{
    let state = encoder_after(bits);
    let flushed = state.flushed();
    let tail = seq![0u8, 0u8, 0u8, 0u8];
    lemma_bits_of_joined(packed(flushed), tail);
    bits_survive_packing(flushed);
    let rest = repeated(false, ((8 - flushed.len() % 8) % 8) as nat) + bits_of(tail);
    assert(bits_of(packed(flushed) + tail) =~= flushed + rest);
    lemma_encoder_normalized(bits);
    lemma_flushed_contained(state, rest);
}

/// Every payload that memory can hold is read back from its range-coded
/// container.
pub proof fn range_coding_is_lossless(payload: Seq<u8>)
    requires
        payload.len() <= usize::MAX,
    ensures
        range_decoded(range_encoded(payload)) == Ok::<Seq<u8>, Error>(payload),
{
    let bits = bits_of(payload);
    let flushed = encoder_after(bits).flushed();
    let coded = packed(flushed) + seq![0u8, 0u8, 0u8, 0u8];
    lemma_container_layout(payload.len(), coded);
    assert(range_encoded(payload) =~= RANGE_MAGIC_HEADER@ + seq![FORMAT_VERSION] + little_endian(
        payload.len(),
        8,
    ) + coded);
    lemma_code_contained(bits);
    lemma_decoded_at(bits, bits_of(coded), bits.len());
    assert(bits.take(bits.len() as int) =~= bits);
    bytes_survive_unpacking(payload);
}

/// The same decoder with more bits after its code.
spec fn with_more(decoder: DecoderState, more: Seq<bool>) -> DecoderState {
    DecoderState { code: decoder.code + more, ..decoder }
}

/// Bits that are not read do not matter to renormalizing.
proof fn lemma_renormalized_with_more(decoder: DecoderState, more: Seq<bool>)
    requires
        decoder.valid(),
        decoder.renormalized().1,
    ensures
        with_more(decoder, more).renormalized() == (
            with_more(decoder.renormalized().0, more),
            true,
        ),
    decreases ARITHMETIC_RANGE - (decoder.high - decoder.low),
{
    if let Some(offset) = doubling_offset(decoder.low, decoder.high) {
        let next = decoder.doubled(offset).0;
        assert(with_more(decoder, more).doubled(offset).0 == with_more(next, more));
        lemma_renormalized_with_more(next, more);
    }
}

/// Bits that are not read do not matter to a decoder.
proof fn lemma_decoder_with_more(code: Seq<bool>, more: Seq<bool>, count: nat)
    requires
        decoder_after(code, count) is Some,
    ensures
        decoder_after(code + more, count) == Some(
            (
                with_more(decoder_after(code, count)->Some_0.0, more),
                decoder_after(code, count)->Some_0.1,
            ),
        ),
    decreases count,
{
    if count == 0 {
        assert((code + more).take(32) =~= code.take(32));
    } else {
        lemma_decoder_with_more(code, more, (count - 1) as nat);
        lemma_decoder_normalized(code, (count - 1) as nat);
        let (decoder, history) = decoder_after(code, (count - 1) as nat)->Some_0;
        let (zeros, ones) = counts_after(history);
        lemma_statistics_valid(history);
        lemma_decoder_splittable(decoder, zeros, ones);
        lemma_renormalized_with_more(decoder.narrowed(zeros, ones), more);
    }
}

/// Bytes after a range-coded container do not change its payload.
pub proof fn trailing_bytes_are_ignored(container: Seq<u8>, more: Seq<u8>)
    requires
        range_decoded(container) is Ok,
    ensures
        range_decoded(container + more) == range_decoded(container),
{
    let longer = container + more;
    let code = bits_of(container.skip(13));
    let length = little_endian_value(container.subrange(5, 13));
    assert(longer.take(4) =~= container.take(4));
    assert(longer.subrange(5, 13) =~= container.subrange(5, 13));
    assert(longer.skip(13) =~= container.skip(13) + more);
    lemma_bits_of_joined(container.skip(13), more);
    lemma_decoder_with_more(code, bits_of(more), 8 * length);
}

/// A number of seven bits takes one more bit without loss.
proof fn lemma_append_bit(value: u8, bit: u8)
    by (bit_vector)
    requires
        value < 0x80,
        bit <= 1,
    ensures
        ((value << 1) | bit) == 2 * value + bit,
{
}

/// Within the byte that begins at `start` the context stays, and the prefix
/// is what its known bits spell.
pub proof fn lemma_within_byte(history: Seq<bool>, start: nat)
    requires
        start % 8 == 0,
        start <= history.len() < start + 8,
    ensures
        context_of(history) == context_of(history.take(start as int)),
        prefix_of(history) == bits_value(history.skip(start as int)),
        bits_value(history.skip(start as int)) < 0x80,
{
    let known = history.skip(start as int);
    assert(8 * (history.len() as int / 8) == start);
    if start > 0 {
        assert(history.take(start as int).subrange(start - 8, start as int) =~= history.subrange(
            start - 8,
            start as int,
        ));
    }
    lemma_bits_value_bound(known);
    lemma2_to64();
    if known.len() < 7 {
        lemma_pow2_strictly_increases(known.len(), 7);
    }
}

/// What coding the bit at `start + known` takes and leads to, where `start` is
/// where its byte begins.
proof fn lemma_coding_step(bits: Seq<bool>, start: int, known: int)
    requires
        0 <= start,
        start % 8 == 0,
        0 <= known < 8,
        start + known < bits.len(),
    ensures
        ({
            let before = bits.take(start + known);
            let after = bits.take(start + known + 1);
            let bit = bits[start + known];
            let (zeros, ones) = counts_after(before);
            &&& context_of(before) == context_of(bits.take(start))
            &&& prefix_of(before) == bits_value(bits.subrange(start, start + known))
            &&& prefix_of(before) < 0x80
            &&& bits_value(bits.subrange(start, start + known + 1)) == 2 * prefix_of(before)
                + bit_value(bit)
            &&& statistics_after(after) == statistics_after(before).updated(
                context_of(before),
                prefix_of(before),
                bit,
            )
            &&& encoder_after(after) == encoder_after(before).encoded(bit, zeros, ones)
            &&& encoder_after(before).codable(bit, zeros, ones)
            &&& encoder_after(before).pending <= 32 * (start + known)
        }),
{
    let before = bits.take(start + known);
    let after = bits.take(start + known + 1);
    let (zeros, ones) = counts_after(before);
    assert(before.take(start) =~= bits.take(start));
    assert(before.skip(start) =~= bits.subrange(start, start + known));
    lemma_within_byte(before, start as nat);
    lemma_statistics_valid(before);
    lemma_encoder_normalized(before);
    lemma_counts_codable(encoder_after(before), zeros, ones);
    assert(after.drop_last() =~= before);
    assert(bits.subrange(start, start + known + 1).drop_last() =~= bits.subrange(
        start,
        start + known,
    ));
}

/// After the last bit of a byte that byte is the context.
pub proof fn lemma_byte_done(bytes: Seq<u8>, done: int)
    requires
        0 <= done < bytes.len(),
    ensures
        context_of(bits_of(bytes).take(8 * done + 8)) == bytes[done],
{
    let history = bits_of(bytes).take(8 * done + 8);
    let byte_bits = history.subrange(8 * done, 8 * done + 8);
    assert forall|j: int| 0 <= j < 8 implies byte_bits[j] == bit_of(bytes[done], j) by {
        assert((8 * done + j) / 8 == done && (8 * done + j) % 8 == j);
    }
    lemma_byte_of_its_bits(bytes[done], byte_bits);
    assert(8 * (history.len() as int / 8) == 8 * done + 8);
}

/// The bits of a byte are where the bits of its string are.
proof fn lemma_bit_in_place(bytes: Seq<u8>, done: int, known: u8)
    requires
        0 <= done < bytes.len(),
        known < 8,
    ensures
        bits_of(bytes)[8 * done + known] == ((bytes[done] >> ((7 - known) as u8)) & 1 == 1),
        (8 * done) % 8 == 0,
        8 * done + known < bits_of(bytes).len(),
{
    assert((8 * done + known) / 8 == done && (8 * done + known) % 8 == known as int);
}

/// Codes the bit at `start + known` in `bits`.
fn encode_bit(
    encoder: &mut ArithmeticEncoder,
    model: &mut BitContextModel,
    context: u8,
    prefix: u8,
    bit: bool,
    Ghost(bits): Ghost<Seq<bool>>,
    Ghost(start): Ghost<int>,
    Ghost(known): Ghost<int>,
) -> (longer: u8)
    requires
        0 <= start,
        start % 8 == 0,
        0 <= known < 8,
        start + known < bits.len() <= 8 * usize::MAX,
        bit == bits[start + known],
        context == context_of(bits.take(start)),
        prefix == bits_value(bits.subrange(start, start + known)),
        old(encoder).wf(),
        old(encoder)@ == encoder_after(bits.take(start + known)),
        old(model).wf(),
        old(model)@ == statistics_after(bits.take(start + known)),
    ensures
        final(encoder).wf(),
        final(encoder)@ == encoder_after(bits.take(start + known + 1)),
        final(model).wf(),
        final(model)@ == statistics_after(bits.take(start + known + 1)),
        longer == bits_value(bits.subrange(start, start + known + 1)),
{
    proof {
        lemma_coding_step(bits, start, known);
    }
    let (zeros, ones): (u32, u32) = model.counts(context, prefix);
    encoder.encode(bit, zeros, ones);
    model.update(context, prefix, bit);
    let low: u8 = if bit {
        1
    } else {
        0
    };
    proof {
        lemma_append_bit(prefix, low);
    }
    (prefix << 1) | low
}

/// Codes one byte, the one at `done` in `bytes`.
#[verifier::rlimit(40)]
fn encode_symbol(
    encoder: &mut ArithmeticEncoder,
    model: &mut BitContextModel,
    context: u8,
    symbol: u8,
    Ghost(bytes): Ghost<Seq<u8>>,
    Ghost(done): Ghost<int>,
)
    requires
        0 <= done < bytes.len() <= usize::MAX,
        symbol == bytes[done],
        old(encoder).wf(),
        old(encoder)@ == encoder_after(bits_of(bytes).take(8 * done)),
        old(model).wf(),
        old(model)@ == statistics_after(bits_of(bytes).take(8 * done)),
        context == context_of(bits_of(bytes).take(8 * done)),
    ensures
        final(encoder).wf(),
        final(encoder)@ == encoder_after(bits_of(bytes).take(8 * done + 8)),
        final(model).wf(),
        final(model)@ == statistics_after(bits_of(bytes).take(8 * done + 8)),
{
    let ghost bits = bits_of(bytes);
    let ghost start: int = 8 * done;
    let mut prefix: u8 = 0;
    let mut coded: u8 = 0;
    assert(bits.subrange(start, start) =~= Seq::<bool>::empty());
    while coded < 8
        invariant
            coded <= 8,
            0 <= done < bytes.len() <= usize::MAX,
            start == 8 * done,
            bits == bits_of(bytes),
            symbol == bytes[done],
            encoder.wf(),
            encoder@ == encoder_after(bits.take(start + coded)),
            model.wf(),
            model@ == statistics_after(bits.take(start + coded)),
            context == context_of(bits.take(start)),
            prefix == bits_value(bits.subrange(start, start + coded)),
        decreases 8 - coded,
    {
        let shift: u8 = 7 - coded;
        let bit: bool = (symbol >> shift) & 1 == 1;
        proof {
            lemma_bit_in_place(bytes, done, coded);
        }
        prefix = encode_bit(
            encoder,
            model,
            context,
            prefix,
            bit,
            Ghost(bits),
            Ghost(start),
            Ghost(coded as int),
        );
        coded = coded + 1;
    }
}

/// Codes `payload` into a range-coded container.
pub fn range_encode(payload: &[u8]) -> (container: Result<Vec<u8>, Error>)
    ensures
        contents(container) == Ok::<Seq<u8>, Error>(range_encoded(payload@)),
{
    let mut encoder = ArithmeticEncoder::new();
    let mut model = BitContextModel::new();
    let mut context: u8 = 0;
    let ghost bits = bits_of(payload@);
    let mut done: usize = 0;
    assert(bits.take(0) =~= Seq::<bool>::empty());
    while done < payload.len()
        invariant
            done <= payload.len(),
            bits == bits_of(payload@),
            encoder.wf(),
            encoder@ == encoder_after(bits.take(8 * done)),
            model.wf(),
            model@ == statistics_after(bits.take(8 * done)),
            context == context_of(bits.take(8 * done)),
        decreases payload.len() - done,
    {
        let symbol: u8 = payload[done];
        encode_symbol(
            &mut encoder,
            &mut model,
            context,
            symbol,
            Ghost(payload@),
            Ghost(done as int),
        );
        context = symbol;
        proof {
            lemma_byte_done(payload@, done as int);
        }
        done = done + 1;
    }
    proof {
        assert(bits.take(8 * done) =~= bits);
        lemma_encoder_normalized(bits);
    }
    let encoded = encoder.finish();
    let mut output: Vec<u8> = Vec::new();
    output.extend_from_slice(&RANGE_MAGIC_HEADER);
    output.push(FORMAT_VERSION);
    push_little_endian(&mut output, payload.len() as u64, 8);
    output.extend_from_slice(&encoded);
    output.extend_from_slice(&[0u8, 0u8, 0u8, 0u8]);
    assert(output@ =~= range_encoded(payload@));
    Ok(output)
}

/// The decoder finds one bit per step, and its code always points into a wide
/// interval.
proof fn lemma_decoder_normalized(code: Seq<bool>, count: nat)
    ensures
        decoder_after(code, count) matches Some((decoder, history)) ==> {
            &&& history.len() == count
            &&& decoder.valid()
            &&& doubling_offset(decoder.low, decoder.high) is None
        },
    decreases count,
{
    if count == 0 {
        lemma_bits_value_bound(code.take(32));
        lemma2_to64();
    } else if let Some((decoder, history)) = decoder_after(code, (count - 1) as nat) {
        lemma_decoder_normalized(code, (count - 1) as nat);
        lemma_statistics_valid(history);
        let (zeros, ones) = counts_after(history);
        lemma_decoder_splittable(decoder, zeros, ones);
        lemma_decoder_renormalized(decoder.narrowed(zeros, ones));
    }
}

/// A code that ended early stays ended.
proof fn lemma_decoder_stays_ended(code: Seq<bool>, count: nat, more: nat)
    requires
        count <= more,
        decoder_after(code, count) is None,
    ensures
        decoder_after(code, more) is None,
    decreases more,
{
    if count < more {
        lemma_decoder_stays_ended(code, count, (more - 1) as nat);
    }
}

/// Renormalizing keeps the code pointing into the interval.
proof fn lemma_decoder_renormalized(decoder: DecoderState)
    requires
        decoder.valid(),
    ensures
        decoder.renormalized().1 ==> {
            &&& decoder.renormalized().0.valid()
            &&& doubling_offset(
                decoder.renormalized().0.low,
                decoder.renormalized().0.high,
            ) is None
        },
    decreases ARITHMETIC_RANGE - (decoder.high - decoder.low),
{
    if let Some(offset) = doubling_offset(decoder.low, decoder.high) {
        if decoder.doubled(offset).1 {
            lemma_decoder_renormalized(decoder.doubled(offset).0);
        }
    }
}

/// In a wide interval the counts of a valid model can always be used.
proof fn lemma_decoder_splittable(decoder: DecoderState, zeros: u32, ones: u32)
    requires
        decoder.valid(),
        doubling_offset(decoder.low, decoder.high) is None,
        zeros >= 1,
        ones >= 1,
        zeros + ones <= COUNT_LIMIT,
    ensures
        splittable(decoder.low, decoder.high, zeros, ones),
        decoder.narrowed(zeros, ones).valid(),
{
    lemma_counts_codable(
        EncoderState { low: decoder.low, high: decoder.high, pending: 0, bits: Seq::empty() },
        zeros,
        ones,
    );
}

/// A byte more of bits is a byte more when packed.
proof fn lemma_packed_push(history: Seq<bool>, byte_bits: Seq<bool>)
    requires
        history.len() % 8 == 0,
        byte_bits.len() == 8,
    ensures
        packed(history + byte_bits) == packed(history).push(bits_value(byte_bits) as u8),
{
    let joined = history + byte_bits;
    assert(padded(history) =~= history);
    assert(padded(joined) =~= joined);
    assert forall|i: int| 0 <= i < packed(joined).len() implies packed(joined)[i] == packed(
        history,
    ).push(bits_value(byte_bits) as u8)[i] by {
        if i < packed(history).len() {
            assert(joined.subrange(8 * i, 8 * i + 8) =~= history.subrange(8 * i, 8 * i + 8));
        } else {
            assert(joined.subrange(8 * i, 8 * i + 8) =~= byte_bits);
        }
    }
    assert(packed(joined) =~= packed(history).push(bits_value(byte_bits) as u8));
}

/// What finding one more bit takes and leads to, where `start` is where its
/// byte begins.
proof fn lemma_decoding_step(
    code: Seq<bool>,
    decoder: DecoderState,
    history: Seq<bool>,
    start: int,
    bit: bool,
)
    requires
        0 <= start,
        start % 8 == 0,
        start <= history.len() < start + 8,
        decoder_after(code, history.len()) == Some((decoder, history)),
    ensures
        ({
            let after = history.push(bit);
            let (zeros, ones) = counts_after(history);
            &&& context_of(history) == context_of(history.take(start))
            &&& prefix_of(history) == bits_value(history.skip(start))
            &&& prefix_of(history) < 0x80
            &&& bits_value(after.skip(start)) == 2 * prefix_of(history) + bit_value(bit)
            &&& after.take(start) == history.take(start)
            &&& statistics_after(after) == statistics_after(history).updated(
                context_of(history),
                prefix_of(history),
                bit,
            )
            &&& splittable(decoder.low, decoder.high, zeros, ones)
            &&& decoder_after(code, (history.len() + 1) as nat) == (if decoder.decoded(
                zeros,
                ones,
            ).1 {
                Some(
                    (
                        decoder.decoded(zeros, ones).0,
                        history.push(decoder.next_bit(zeros, ones)),
                    ),
                )
            } else {
                None
            })
        }),
{
    let after = history.push(bit);
    let (zeros, ones) = counts_after(history);
    lemma_within_byte(history, start as nat);
    lemma_statistics_valid(history);
    lemma_decoder_normalized(code, history.len());
    lemma_decoder_splittable(decoder, zeros, ones);
    assert(after.drop_last() =~= history);
    assert(after.skip(start).drop_last() =~= history.skip(start));
    assert(after.take(start) =~= history.take(start));
}

/// After the last bit of a byte that byte is the context and is packed.
proof fn lemma_byte_found(history: Seq<bool>, start: int)
    requires
        0 <= start,
        start % 8 == 0,
        history.len() == start + 8,
    ensures
        context_of(history) == bits_value(history.skip(start)) as u8,
        packed(history) == packed(history.take(start)).push(
            bits_value(history.skip(start)) as u8,
        ),
{
    let byte_bits = history.skip(start);
    assert(history =~= history.take(start) + byte_bits);
    lemma_packed_push(history.take(start), byte_bits);
    assert(8 * (history.len() as int / 8) == start + 8);
    assert(history.subrange(start, start + 8) =~= byte_bits);
}

/// Finds one byte, after the bits of `history`.
#[verifier::rlimit(40)]
fn decode_symbol(
    decoder: &mut ArithmeticDecoder<'_>,
    model: &mut BitContextModel,
    context: u8,
    Ghost(code): Ghost<Seq<bool>>,
    Ghost(history): Ghost<Seq<bool>>,
) -> (symbol: Result<u8, Error>)
    requires
        history.len() % 8 == 0,
        old(decoder).wf(),
        decoder_after(code, history.len()) == Some((old(decoder)@, history)),
        old(model).wf(),
        old(model)@ == statistics_after(history),
        context == context_of(history),
    ensures
        match symbol {
            Ok(symbol) => {
                &&& decoder_after(code, history.len() + 8) matches Some((state, longer))
                &&& state == final(decoder)@
                &&& longer.len() == history.len() + 8
                &&& longer.take(history.len() as int) == history
                &&& bits_value(longer.skip(history.len() as int)) == symbol
                &&& final(decoder).wf()
                &&& final(model).wf()
                &&& final(model)@ == statistics_after(longer)
            },
            Err(error) => {
                &&& error == Error::TruncatedRangePayload
                &&& decoder_after(code, history.len() + 8) is None
            },
        },
{
    let ghost start: int = history.len() as int;
    let ghost mut longer: Seq<bool> = history;
    let mut symbol: u8 = 0;
    let mut found: u8 = 0;
    assert(longer.skip(start) =~= Seq::<bool>::empty());
    assert(longer.take(start) =~= history);
    while found < 8
        invariant
            found <= 8,
            start == history.len(),
            start % 8 == 0,
            decoder.wf(),
            decoder_after(code, (start + found) as nat) == Some((decoder@, longer)),
            longer.len() == start + found,
            longer.take(start) == history,
            model.wf(),
            model@ == statistics_after(longer),
            context == context_of(history),
            symbol == bits_value(longer.skip(start)),
        decreases 8 - found,
    {
        let ghost state = decoder@;
        proof {
            lemma_decoding_step(code, state, longer, start, true);
            lemma_decoding_step(code, state, longer, start, false);
        }
        let (zeros, ones): (u32, u32) = model.counts(context, symbol);
        let bit: bool = match decoder.decode(zeros, ones) {
            Ok(bit) => bit,
            Err(error) => {
                proof {
                    lemma_decoder_stays_ended(
                        code,
                        (start + found + 1) as nat,
                        (start + 8) as nat,
                    );
                }
                return Err(error);
            },
        };
        model.update(context, symbol, bit);
        let low: u8 = if bit {
            1
        } else {
            0
        };
        proof {
            lemma_append_bit(symbol, low);
            longer = longer.push(bit);
        }
        symbol = (symbol << 1) | low;
        found = found + 1;
    }
    Ok(symbol)
}

/// Finds the first `length` bytes that are coded in `coded`.
#[verifier::rlimit(40)]
fn decode_symbols(coded: &[u8], length: usize) -> (payload: Result<Vec<u8>, Error>)
    ensures
        contents(payload) == decoded_bytes(bits_of(coded@), length as nat),
{
    let ghost code = bits_of(coded@);
    let mut decoder = match ArithmeticDecoder::new(coded) {
        Ok(decoder) => decoder,
        Err(error) => {
            proof {
                lemma_decoder_stays_ended(code, 0, (8 * length) as nat);
            }
            return Err(error);
        },
    };
    let mut model = BitContextModel::new();
    let mut context: u8 = 0;
    let mut output: Vec<u8> = Vec::new();
    let ghost mut history: Seq<bool> = Seq::empty();
    assert(output@ =~= packed(history));
    let mut done: usize = 0;
    while done < length
        invariant
            done <= length,
            code == bits_of(coded@),
            decoder.wf(),
            decoder_after(code, (8 * done) as nat) == Some((decoder@, history)),
            history.len() == 8 * done,
            model.wf(),
            model@ == statistics_after(history),
            context == context_of(history),
            output@ == packed(history),
        decreases length - done,
    {
        let symbol: u8 = match decode_symbol(
            &mut decoder,
            &mut model,
            context,
            Ghost(code),
            Ghost(history),
        ) {
            Ok(symbol) => symbol,
            Err(error) => {
                proof {
                    lemma_decoder_stays_ended(code, (8 * done + 8) as nat, (8 * length) as nat);
                }
                return Err(error);
            },
        };
        proof {
            let longer = decoder_after(code, (8 * done + 8) as nat)->Some_0.1;
            lemma_byte_found(longer, 8 * done);
            history = longer;
        }
        context = symbol;
        output.push(symbol);
        done = done + 1;
    }
    Ok(output)
}

/// Decodes the payload of a range-coded container.
pub fn range_decode(container: &[u8]) -> (payload: Result<Vec<u8>, Error>)
    ensures
        contents(payload) == range_decoded(container@),
{
    if container.len() < 14 || !has_magic(container, RANGE_MAGIC_HEADER) {
        return Err(Error::InvalidRangeHeader);
    }
    if container[4] != FORMAT_VERSION {
        return Err(Error::UnsupportedRangeVersion);
    }
    let declared: u64 = read_little_endian(container, 5, 8);
    if declared > usize::MAX as u64 {
        return Err(Error::PayloadTooLarge);
    }
    let coded = vstd::slice::slice_subrange(container, 13, container.len());
    assert(coded@ =~= container@.skip(13));
    decode_symbols(coded, declared as usize)
}

} // verus!
