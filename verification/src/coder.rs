//! Binary arithmetic coding.
//!
//! The coder keeps an interval of 32-bit numbers. Every bit to code takes its
//! share of the interval, and whenever the interval lies in one half, or in
//! the two middle quarters, it is doubled and a bit of output is settled or
//! becomes pending.
use vstd::arithmetic::power2::{
    lemma2_to64, lemma2_to64_rest, lemma_pow2_strictly_increases, lemma_pow2_unfold, pow2,
};
use vstd::prelude::*;

use crate::bits::{
    bit_value, bits_of, bits_value, lemma_bits_value_bound, packed, repeated, BitReader, BitWriter,
};
use crate::error::Error;

verus! {

/// Half of the coding range.
pub const ARITHMETIC_HALF: u32 = 0x8000_0000;

/// A quarter of the coding range.
pub const ARITHMETIC_QUARTER: u32 = 0x4000_0000;

/// Three quarters of the coding range.
pub const ARITHMETIC_THREE_QUARTER: u32 = 0xC000_0000;

/// The size of the coding range.
pub const ARITHMETIC_RANGE: u64 = 0x1_0000_0000;

/// Where the part of the interval that is doubled next begins, if the
/// interval from `low` to `high` lies in one half or in the middle.
pub open spec fn doubling_offset(low: int, high: int) -> Option<int> {
    if high < ARITHMETIC_HALF {
        Some(0)
    } else if low >= ARITHMETIC_HALF {
        Some(ARITHMETIC_HALF as int)
    } else if low >= ARITHMETIC_QUARTER && high < ARITHMETIC_THREE_QUARTER {
        Some(ARITHMETIC_QUARTER as int)
    } else {
        None
    }
}

/// The part of the interval from `low` to `high` that a clear bit takes.
pub open spec fn share(low: int, high: int, zeros: u32, ones: u32) -> int {
    (high - low + 1) * zeros / (zeros + ones)
}

/// The counts split the interval without leaving the 32-bit numbers.
pub open spec fn splittable(low: int, high: int, zeros: u32, ones: u32) -> bool {
    &&& 1 <= zeros + ones <= u32::MAX
    &&& 1 <= low + share(low, high, zeros, ones) <= u32::MAX
}

/// What an encoder has settled and the interval it still has.
pub struct EncoderState {
    pub low: int,
    pub high: int,
    /// How many bits wait, all opposite to the next one that is settled.
    pub pending: nat,
    pub bits: Seq<bool>,
}

impl EncoderState {
    /// Nothing is settled and the interval is the whole range.
    pub open spec fn initial() -> EncoderState {
        EncoderState { low: 0, high: u32::MAX as int, pending: 0, bits: Seq::empty() }
    }

    /// The interval is not empty and lies in the range.
    pub open spec fn valid(self) -> bool {
        0 <= self.low <= self.high < ARITHMETIC_RANGE
    }

    /// The interval is wide enough to code with: it cannot be doubled.
    pub open spec fn normalized(self) -> bool {
        self.valid() && doubling_offset(self.low, self.high) is None
    }

    /// `bit` is settled, and so are the bits that wait for it.
    pub open spec fn emitted(self, bit: bool) -> EncoderState {
        EncoderState {
            bits: self.bits.push(bit) + repeated(!bit, self.pending),
            pending: 0,
            ..self
        }
    }

    /// The interval is doubled once, where it can be.
    pub open spec fn doubled(self) -> EncoderState {
        match doubling_offset(self.low, self.high) {
            None => self,
            Some(offset) => {
                let settled = if offset == 0 {
                    self.emitted(false)
                } else if offset == ARITHMETIC_HALF {
                    self.emitted(true)
                } else {
                    EncoderState { pending: self.pending + 1, ..self }
                };
                EncoderState {
                    low: 2 * (self.low - offset),
                    high: 2 * (self.high - offset) + 1,
                    ..settled
                }
            },
        }
    }

    /// The interval is doubled as often as it can be.
    pub open spec fn renormalized(self) -> EncoderState
        decreases ARITHMETIC_RANGE - (self.high - self.low),
    {
        if !self.valid() || self.normalized() {
            self
        } else {
            self.doubled().renormalized()
        }
    }

    /// The interval keeps the share of `bit` alone.
    pub open spec fn narrowed(self, bit: bool, zeros: u32, ones: u32) -> EncoderState {
        let middle = self.low + share(self.low, self.high, zeros, ones);
        if bit {
            EncoderState { low: middle, ..self }
        } else {
            EncoderState { high: middle - 1, ..self }
        }
    }

    /// `bit` has a share of the interval.
    pub open spec fn codable(self, bit: bool, zeros: u32, ones: u32) -> bool {
        &&& splittable(self.low, self.high, zeros, ones)
        &&& self.narrowed(bit, zeros, ones).valid()
    }

    /// One bit is coded.
    pub open spec fn encoded(self, bit: bool, zeros: u32, ones: u32) -> EncoderState {
        self.narrowed(bit, zeros, ones).renormalized()
    }

    /// The bits of the whole code: those settled, and two or more that name
    /// a quarter of the range inside the interval.
    pub open spec fn flushed(self) -> Seq<bool> {
        EncoderState { pending: self.pending + 1, ..self }.emitted(
            self.low >= ARITHMETIC_QUARTER,
        ).bits
    }

    /// How often the interval was doubled so far.
    pub open spec fn doublings(self) -> nat {
        self.bits.len() + self.pending
    }
}

/// What a decoder sees of its code and the interval it still has.
pub struct DecoderState {
    pub low: int,
    pub high: int,
    /// Where the code points in the interval.
    pub value: int,
    pub code: Seq<bool>,
    /// How many bits of the code were read.
    pub consumed: nat,
}

impl DecoderState {
    /// The interval is the whole range and the first 32 bits were read.
    pub open spec fn initial(code: Seq<bool>) -> DecoderState {
        DecoderState {
            low: 0,
            high: u32::MAX as int,
            value: bits_value(code.take(32)) as int,
            code,
            consumed: 32,
        }
    }

    /// The code points into the interval, which lies in the range.
    pub open spec fn valid(self) -> bool {
        &&& 0 <= self.low <= self.value <= self.high < ARITHMETIC_RANGE
        &&& self.consumed <= self.code.len()
    }

    /// The interval is doubled by `offset` and one more bit of the code is
    /// read. `false` if there is none.
    pub open spec fn doubled(self, offset: int) -> (DecoderState, bool) {
        let wider = DecoderState {
            low: 2 * (self.low - offset),
            high: 2 * (self.high - offset) + 1,
            value: self.value - offset,
            ..self
        };
        if self.consumed < self.code.len() {
            (
                DecoderState {
                    value: 2 * wider.value + bit_value(self.code[self.consumed as int]),
                    consumed: self.consumed + 1,
                    ..wider
                },
                true,
            )
        } else {
            (wider, false)
        }
    }

    /// The interval is doubled as often as it can be. `false` if the code
    /// ended before that.
    pub open spec fn renormalized(self) -> (DecoderState, bool)
        decreases ARITHMETIC_RANGE - (self.high - self.low),
    {
        match doubling_offset(self.low, self.high) {
            Some(offset) if self.valid() => {
                let (wider, read) = self.doubled(offset);
                if read {
                    wider.renormalized()
                } else {
                    (wider, false)
                }
            },
            _ => (self, true),
        }
    }

    /// The bit in whose share the code points.
    pub open spec fn next_bit(self, zeros: u32, ones: u32) -> bool {
        self.value >= self.low + share(self.low, self.high, zeros, ones)
    }

    /// The interval keeps the share of the next bit alone.
    pub open spec fn narrowed(self, zeros: u32, ones: u32) -> DecoderState {
        let middle = self.low + share(self.low, self.high, zeros, ones);
        if self.next_bit(zeros, ones) {
            DecoderState { low: middle, ..self }
        } else {
            DecoderState { high: middle - 1, ..self }
        }
    }

    /// One bit is decoded. `false` if the code ended before the interval
    /// could be doubled as often as needed.
    pub open spec fn decoded(self, zeros: u32, ones: u32) -> (DecoderState, bool) {
        self.narrowed(zeros, ones).renormalized()
    }
}

/// A number of 31 bits takes one more bit without loss.
proof fn lemma_append_bit(value: u32, bit: u32)
    by (bit_vector)
    requires
        value < 0x8000_0000,
        bit <= 1,
    ensures
        ((value << 1) | bit) == 2 * value + bit,
        (value << 1) == 2 * value,
{
}

/// Splits the interval from `low` to `high` and returns the last number in
/// the share of a clear bit.
fn split(low: u32, high: u32, zeros: u32, ones: u32) -> (last: u32)
    requires
        low <= high,
        splittable(low as int, high as int, zeros, ones),
    ensures
        last == low + share(low as int, high as int, zeros, ones) - 1,
{
    let total: u32 = zeros + ones;
    let interval: u64 = high as u64 - low as u64 + 1;
    assert(interval * zeros <= 0x1_0000_0000 * 0xFFFF_FFFF) by (nonlinear_arith)
        requires
            interval <= 0x1_0000_0000,
            zeros <= 0xFFFF_FFFF,
    ;
    let part: u64 = interval * zeros as u64 / total as u64;
    assert(part >= 0);
    low + part as u32 - 1
}

/// Codes bits into bytes.
pub struct ArithmeticEncoder {
    low: u32,
    high: u32,
    /// Wide enough to count the bits of every payload that memory can hold.
    pending: u128,
    writer: BitWriter,
}

impl View for ArithmeticEncoder {
    type V = EncoderState;

    closed spec fn view(&self) -> EncoderState {
        EncoderState {
            low: self.low as int,
            high: self.high as int,
            pending: self.pending as nat,
            bits: self.writer@,
        }
    }
}

impl ArithmeticEncoder {
    /// The interval is not empty.
    pub closed spec fn wf(self) -> bool {
        &&& self.writer.wf()
        &&& self.low <= self.high
    }

    /// Creates an encoder that has coded nothing.
    pub fn new() -> (encoder: Self)
        ensures
            encoder.wf(),
            encoder@ == EncoderState::initial(),
    {
        ArithmeticEncoder { low: 0, high: u32::MAX, pending: 0, writer: BitWriter::new() }
    }

    /// Writes `bit` and, after it, its opposite once for each pending bit.
    pub fn emit(&mut self, bit: bool)
        requires
            old(self).wf(),
        ensures
            final(self).wf(),
            final(self)@ == old(self)@.emitted(bit),
    {
        self.writer.write(bit);
        let mut left: u128 = self.pending;
        assert(self.writer@ =~= old(self).writer@.push(bit) + repeated(!bit, 0));
        while left > 0
            invariant
                left <= self.pending,
                self.writer.wf(),
                self.low == old(self).low,
                self.high == old(self).high,
                self.pending == old(self).pending,
                self.writer@ == old(self).writer@.push(bit) + repeated(
                    !bit,
                    (self.pending - left) as nat,
                ),
            decreases left,
        {
            let ghost before = self.writer@;
            self.writer.write(!bit);
            left = left - 1;
            assert(self.writer@ =~= old(self).writer@.push(bit) + repeated(
                !bit,
                (self.pending - left) as nat,
            ));
        }
        self.pending = 0;
    }

    /// Codes one bit by the counts of clear and of set bits before it.
    pub fn encode(&mut self, bit: bool, zeros: u32, ones: u32)
        requires
            old(self).wf(),
            old(self)@.codable(bit, zeros, ones),
            old(self)@.pending + 32 <= u128::MAX,
        ensures
            final(self).wf(),
            final(self)@ == old(self)@.encoded(bit, zeros, ones),
            final(self)@.normalized(),
    {
        let last: u32 = split(self.low, self.high, zeros, ones);
        if bit {
            self.low = last + 1;
        } else {
            self.high = last;
        }
        let ghost narrowed = old(self)@.narrowed(bit, zeros, ones);
        assert(self@ == narrowed);
        let ghost mut rounds: nat = 0;
        proof {
            lemma2_to64();
            lemma2_to64_rest();
        }
        loop
            invariant_except_break
                self.wf(),
                self@.renormalized() == narrowed.renormalized(),
                self@.pending <= old(self)@.pending + rounds,
                old(self)@.pending + 32 <= u128::MAX,
                pow2(rounds) <= self@.high - self@.low + 1,
                pow2(32) == 0x1_0000_0000,
            ensures
                self.wf(),
                self@.normalized(),
                self@ == narrowed.renormalized(),
            decreases ARITHMETIC_RANGE - (self@.high - self@.low),
        {
            let ghost before = self@;
            proof {
                if rounds >= 32 {
                    if rounds > 32 {
                        lemma_pow2_strictly_increases(32, rounds);
                    }
                    assert(doubling_offset(self@.low, self@.high) is None);
                }
            }
            if self.high < ARITHMETIC_HALF {
                self.emit(false);
            } else if self.low >= ARITHMETIC_HALF {
                self.emit(true);
                self.low = self.low - ARITHMETIC_HALF;
                self.high = self.high - ARITHMETIC_HALF;
            } else if self.low >= ARITHMETIC_QUARTER && self.high < ARITHMETIC_THREE_QUARTER {
                self.pending = self.pending + 1;
                self.low = self.low - ARITHMETIC_QUARTER;
                self.high = self.high - ARITHMETIC_QUARTER;
            } else {
                break;
            }
            proof {
                lemma_append_bit(self.low, 0);
                lemma_append_bit(self.high, 1);
                lemma_pow2_unfold(rounds + 1);
                rounds = rounds + 1;
            }
            self.low = self.low << 1;
            self.high = (self.high << 1) | 1;
            assert(self@ == before.doubled());
        }
    }

    /// Returns the bytes of the whole code.
    pub fn finish(self) -> (bytes: Vec<u8>)
        requires
            self.wf(),
            self@.pending < u128::MAX,
        ensures
            bytes@ == packed(self@.flushed()),
    {
        let mut encoder = self;
        encoder.pending = encoder.pending + 1;
        if encoder.low < ARITHMETIC_QUARTER {
            encoder.emit(false);
        } else {
            encoder.emit(true);
        }
        encoder.writer.finish()
    }
}

/// Decodes the bits that an `ArithmeticEncoder` coded.
pub struct ArithmeticDecoder<'a> {
    low: u32,
    high: u32,
    value: u32,
    reader: BitReader<'a>,
}

impl<'a> View for ArithmeticDecoder<'a> {
    type V = DecoderState;

    closed spec fn view(&self) -> DecoderState {
        DecoderState {
            low: self.low as int,
            high: self.high as int,
            value: self.value as int,
            code: self.reader.code(),
            consumed: self.reader.consumed(),
        }
    }
}

impl<'a> ArithmeticDecoder<'a> {
    /// The code points into the interval.
    pub closed spec fn wf(self) -> bool {
        &&& self.reader.wf()
        &&& self@.valid()
    }

    /// Creates a decoder for the code in `input`, of which it reads 32 bits.
    pub fn new(input: &'a [u8]) -> (decoder: Result<Self, Error>)
        ensures
            bits_of(input@).len() < 32 <==> decoder is Err,
            decoder matches Err(error) ==> error == Error::TruncatedRangePayload,
            decoder matches Ok(decoder) ==> decoder.wf() && decoder@ == DecoderState::initial(
                bits_of(input@),
            ),
    {
        let mut reader = BitReader::new(input);
        let mut value: u32 = 0;
        let mut read: u32 = 0;
        let ghost code = bits_of(input@);
        assert(code.take(0) =~= Seq::<bool>::empty());
        while read < 32
            invariant
                read <= 32,
                reader.wf(),
                reader.code() == code,
                code == bits_of(input@),
                reader.consumed() == read,
                read <= code.len(),
                value == bits_value(code.take(read as int)),
            decreases 32 - read,
        {
            let bit: bool = match reader.read() {
                Ok(bit) => bit,
                Err(error) => {
                    return Err(error);
                },
            };
            let low: u32 = if bit {
                1
            } else {
                0
            };
            proof {
                lemma_bits_value_bound(code.take(read as int));
                lemma2_to64();
                lemma2_to64_rest();
                if read < 31 {
                    lemma_pow2_strictly_increases(read as nat, 31);
                }
                lemma_append_bit(value, low);
                assert(code.take(read + 1).drop_last() =~= code.take(read as int));
            }
            value = (value << 1) | low;
            read = read + 1;
        }
        Ok(ArithmeticDecoder { low: 0, high: u32::MAX, value, reader })
    }

    /// Decodes one bit by the counts of clear and of set bits before it, or
    /// fails where the code ends too early.
    pub fn decode(&mut self, zeros: u32, ones: u32) -> (bit: Result<bool, Error>)
        requires
            old(self).wf(),
            splittable(old(self)@.low, old(self)@.high, zeros, ones),
        ensures
            final(self)@ == old(self)@.decoded(zeros, ones).0,
            if old(self)@.decoded(zeros, ones).1 {
                &&& bit == Ok::<bool, Error>(old(self)@.next_bit(zeros, ones))
                &&& final(self).wf()
                &&& doubling_offset(final(self)@.low, final(self)@.high) is None
            } else {
                bit == Err::<bool, Error>(Error::TruncatedRangePayload)
            },
    {
        let last: u32 = split(self.low, self.high, zeros, ones);
        let bit: bool = self.value > last;
        if bit {
            self.low = last + 1;
        } else {
            self.high = last;
        }
        let ghost narrowed = old(self)@.narrowed(zeros, ones);
        assert(self@ == narrowed);
        loop
            invariant_except_break
                self.wf(),
                self@.renormalized() == narrowed.renormalized(),
                narrowed.renormalized() == old(self)@.decoded(zeros, ones),
            ensures
                self.wf(),
                doubling_offset(self@.low, self@.high) is None,
                narrowed.renormalized() == (self@, true),
            decreases ARITHMETIC_RANGE - (self@.high - self@.low),
        {
            let ghost before = self@;
            if self.high < ARITHMETIC_HALF {
            } else if self.low >= ARITHMETIC_HALF {
                self.low = self.low - ARITHMETIC_HALF;
                self.high = self.high - ARITHMETIC_HALF;
                self.value = self.value - ARITHMETIC_HALF;
            } else if self.low >= ARITHMETIC_QUARTER && self.high < ARITHMETIC_THREE_QUARTER {
                self.low = self.low - ARITHMETIC_QUARTER;
                self.high = self.high - ARITHMETIC_QUARTER;
                self.value = self.value - ARITHMETIC_QUARTER;
            } else {
                break;
            }
            proof {
                lemma_append_bit(self.low, 0);
                lemma_append_bit(self.high, 1);
            }
            self.low = self.low << 1;
            self.high = (self.high << 1) | 1;
            let low: u32 = match self.reader.read() {
                Ok(true) => 1,
                Ok(false) => 0,
                Err(error) => {
                    return Err(error);
                },
            };
            proof {
                lemma_append_bit(self.value, low);
            }
            self.value = (self.value << 1) | low;
        }
        Ok(bit)
    }
}

} // verus!
