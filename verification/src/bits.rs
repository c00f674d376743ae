//! Sequences of bits, most significant bit of each byte first, and the
//! reader and writer that carry them.
use vstd::arithmetic::power2::pow2;
use vstd::prelude::*;

use crate::error::Error;

verus! {

/// Bit `j` of `byte`, counted from the most significant one.
pub open spec fn bit_of(byte: u8, j: int) -> bool {
    (byte >> ((7 - j) as u8)) & 1 == 1
}

/// The bits of `bytes`, in the order in which they are read.
pub open spec fn bits_of(bytes: Seq<u8>) -> Seq<bool> {
    Seq::new(8 * bytes.len(), |i: int| bit_of(bytes[i / 8], i % 8))
}

/// 1 for a set bit, 0 for a clear one.
pub open spec fn bit_value(bit: bool) -> nat {
    if bit {
        1
    } else {
        0
    }
}

/// The number that `bits` spells in binary.
pub open spec fn bits_value(bits: Seq<bool>) -> nat
    decreases bits.len(),
{
    if bits.len() == 0 {
        0
    } else {
        2 * bits_value(bits.drop_last()) + bit_value(bits.last())
    }
}

/// `count` copies of `bit`.
pub open spec fn repeated(bit: bool, count: nat) -> Seq<bool> {
    Seq::new(count, |i: int| bit)
}

/// `bits` followed by the clear bits that complete its last byte.
pub open spec fn padded(bits: Seq<bool>) -> Seq<bool> {
    bits + repeated(false, ((8 - bits.len() % 8) % 8) as nat)
}

/// The bytes that hold `bits`, the last one completed with clear bits.
pub open spec fn packed(bits: Seq<bool>) -> Seq<u8> {
    Seq::new(
        (padded(bits).len() / 8) as nat,
        |i: int| bits_value(padded(bits).subrange(8 * i, 8 * i + 8)) as u8,
    )
}

/// `n` bits spell a number below `2^n`.
pub proof fn lemma_bits_value_bound(bits: Seq<bool>)
    ensures
        bits_value(bits) < pow2(bits.len()),
    decreases bits.len(),
{
    vstd::arithmetic::power2::lemma2_to64();
    if bits.len() > 0 {
        lemma_bits_value_bound(bits.drop_last());
        vstd::arithmetic::power2::lemma_pow2_unfold(bits.len());
    }
}

/// Appending bits shifts the number spelled so far.
pub proof fn lemma_bits_value_append(a: Seq<bool>, b: Seq<bool>)
    ensures
        bits_value(a + b) == bits_value(a) * pow2(b.len()) + bits_value(b),
    decreases b.len(),
{
    vstd::arithmetic::power2::lemma2_to64();
    if b.len() == 0 {
        assert(a + b =~= a);
    } else {
        lemma_bits_value_append(a, b.drop_last());
        vstd::arithmetic::power2::lemma_pow2_unfold(b.len());
        assert((a + b).drop_last() =~= a + b.drop_last());
        let value = bits_value(a);
        let half = pow2((b.len() - 1) as nat);
        assert(value * (2 * half) == 2 * (value * half)) by (nonlinear_arith);
    }
}

/// A run of set bits spells `2^n - 1`, a run of clear bits spells 0.
pub proof fn lemma_bits_value_repeated(bit: bool, count: nat)
    ensures
        bits_value(repeated(bit, count)) == if bit {
            pow2(count) - 1
        } else {
            0
        },
    decreases count,
{
    vstd::arithmetic::power2::lemma2_to64();
    if count > 0 {
        lemma_bits_value_repeated(bit, (count - 1) as nat);
        vstd::arithmetic::power2::lemma_pow2_unfold(count);
        assert(repeated(bit, count).drop_last() =~= repeated(bit, (count - 1) as nat));
    }
}

/// Eight bits spelled out.
proof fn lemma_byte_value_unfolded(bits: Seq<bool>)
    requires
        bits.len() == 8,
    ensures
        bits_value(bits) == 128 * bit_value(bits[0]) + 64 * bit_value(bits[1]) + 32 * bit_value(
            bits[2],
        ) + 16 * bit_value(bits[3]) + 8 * bit_value(bits[4]) + 4 * bit_value(bits[5]) + 2
            * bit_value(bits[6]) + bit_value(bits[7]),
{
    reveal_with_fuel(bits_value, 9);
}

/// A byte whose bits are given is the number that they spell.
proof fn lemma_byte_from_bits(
    b0: u8,
    b1: u8,
    b2: u8,
    b3: u8,
    b4: u8,
    b5: u8,
    b6: u8,
    b7: u8,
    byte: u8,
)
    by (bit_vector)
    requires
        b0 <= 1,
        b1 <= 1,
        b2 <= 1,
        b3 <= 1,
        b4 <= 1,
        b5 <= 1,
        b6 <= 1,
        b7 <= 1,
        byte == 128 * b0 + 64 * b1 + 32 * b2 + 16 * b3 + 8 * b4 + 4 * b5 + 2 * b6 + b7,
    ensures
        (byte >> 7) & 1 == b0,
        (byte >> 6) & 1 == b1,
        (byte >> 5) & 1 == b2,
        (byte >> 4) & 1 == b3,
        (byte >> 3) & 1 == b4,
        (byte >> 2) & 1 == b5,
        (byte >> 1) & 1 == b6,
        (byte >> 0) & 1 == b7,
{
}

/// A byte is the number that its bits spell.
proof fn lemma_byte_to_bits(byte: u8)
    by (bit_vector)
    ensures
        byte == 128 * ((byte >> 7) & 1) + 64 * ((byte >> 6) & 1) + 32 * ((byte >> 5) & 1) + 16 * ((
        byte >> 4) & 1) + 8 * ((byte >> 3) & 1) + 4 * ((byte >> 2) & 1) + 2 * ((byte >> 1) & 1) + ((
        byte >> 0) & 1),
        (byte >> 7) & 1 <= 1,
        (byte >> 6) & 1 <= 1,
        (byte >> 5) & 1 <= 1,
        (byte >> 4) & 1 <= 1,
        (byte >> 3) & 1 <= 1,
        (byte >> 2) & 1 <= 1,
        (byte >> 1) & 1 <= 1,
        (byte >> 0) & 1 <= 1,
{
}

/// The eight bits of a byte spell that byte.
pub proof fn lemma_byte_of_its_bits(byte: u8, bits: Seq<bool>)
    requires
        bits.len() == 8,
        forall|j: int| 0 <= j < 8 ==> bits[j] == bit_of(byte, j),
    ensures
        bits_value(bits) == byte,
{
    lemma_byte_value_unfolded(bits);
    lemma_byte_to_bits(byte);
    assert(bits[0] == bit_of(byte, 0) && bits[1] == bit_of(byte, 1) && bits[2] == bit_of(byte, 2)
        && bits[3] == bit_of(byte, 3) && bits[4] == bit_of(byte, 4) && bits[5] == bit_of(byte, 5)
        && bits[6] == bit_of(byte, 6) && bits[7] == bit_of(byte, 7));
}

/// The byte spelled by eight bits has those bits.
pub proof fn lemma_bits_of_a_byte(bits: Seq<bool>, j: int)
    requires
        bits.len() == 8,
        0 <= j < 8,
    ensures
        bits_value(bits) < 256,
        bit_of(bits_value(bits) as u8, j) == bits[j],
{
    lemma_byte_value_unfolded(bits);
    lemma_byte_from_bits(
        bit_value(bits[0]) as u8,
        bit_value(bits[1]) as u8,
        bit_value(bits[2]) as u8,
        bit_value(bits[3]) as u8,
        bit_value(bits[4]) as u8,
        bit_value(bits[5]) as u8,
        bit_value(bits[6]) as u8,
        bit_value(bits[7]) as u8,
        bits_value(bits) as u8,
    );
    assert(j == 0 || j == 1 || j == 2 || j == 3 || j == 4 || j == 5 || j == 6 || j == 7);
}

/// Packing bits into bytes keeps them, in order, ahead of the padding.
pub proof fn bits_survive_packing(bits: Seq<bool>)
    ensures
        bits_of(packed(bits)) == padded(bits),
{
    let all = padded(bits);
    assert(all.len() % 8 == 0);
    assert(bits_of(packed(bits)).len() == all.len());
    assert forall|i: int| 0 <= i < all.len() implies bits_of(packed(bits))[i] == all[i] by {
        let byte_bits = all.subrange(8 * (i / 8), 8 * (i / 8) + 8);
        lemma_bits_of_a_byte(byte_bits, i % 8);
        assert(byte_bits[i % 8] == all[i]);
    }
    assert(bits_of(packed(bits)) =~= all);
}

/// The bits of whole bytes pack into the same bytes.
pub proof fn bytes_survive_unpacking(bytes: Seq<u8>)
    ensures
        packed(bits_of(bytes)) == bytes,
{
    let bits = bits_of(bytes);
    assert(padded(bits) =~= bits);
    assert forall|i: int| 0 <= i < bytes.len() implies packed(bits)[i] == bytes[i] by {
        let byte_bits = bits.subrange(8 * i, 8 * i + 8);
        assert forall|j: int| 0 <= j < 8 implies byte_bits[j] == bit_of(bytes[i], j) by {
            assert((8 * i + j) / 8 == i && (8 * i + j) % 8 == j);
        }
        lemma_byte_of_its_bits(bytes[i], byte_bits);
    }
    assert(packed(bits) =~= bytes);
}

/// Collects single bits into bytes.
pub struct BitWriter {
    output: Vec<u8>,
    current: u8,
    bits: u8,
}

impl BitWriter {
    /// The bits that are waiting for their byte to be completed.
    closed spec fn waiting(self) -> Seq<bool> {
        Seq::new(self.bits as nat, |j: int| bit_of(self.current, 8 - self.bits + j))
    }

    /// Fewer than eight bits wait, and nothing else is in their byte.
    pub closed spec fn wf(self) -> bool {
        &&& self.bits < 8
        &&& self.current < (1u8 << self.bits)
    }

    /// Creates a writer that holds no bits.
    pub fn new() -> (writer: Self)
        ensures
            writer.wf(),
            writer@ == Seq::<bool>::empty(),
    {
        assert(0 < (1u8 << 0)) by (bit_vector);
        let writer = BitWriter { output: Vec::new(), current: 0, bits: 0 };
        assert(writer@ =~= Seq::<bool>::empty());
        writer
    }

    /// Appends one bit.
    pub fn write(&mut self, bit: bool)
        requires
            old(self).wf(),
        ensures
            final(self).wf(),
            final(self)@ == old(self)@.push(bit),
    {
        let ghost before = *self;
        let current: u8 = self.current;
        let bits: u8 = self.bits;
        let low: u8 = if bit {
            1
        } else {
            0
        };
        let next: u8 = (current << 1) | low;
        proof {
            lemma_byte_shifted(current, low, bits);
            assert forall|j: int| 0 <= j < 7 implies bit_of(next, j) == bit_of(
                current,
                j + 1,
            ) by {
                lemma_bit_shifted(current, low, j as u8);
            }
            lemma_low_bit(current, low);
        }
        self.current = next;
        self.bits = bits + 1;
        if self.bits == 8 {
            self.output.push(self.current);
            self.current = 0;
            self.bits = 0;
        }
        proof {
            let expected = before@.push(bit);
            assert(self@.len() == expected.len());
            assert forall|i: int| 0 <= i < expected.len() implies self@[i] == expected[i] by {
                if i < 8 * before.output@.len() {
                    assert(i / 8 < before.output@.len());
                } else {
                    let j = i - 8 * before.output@.len();
                    if bits == 7 {
                        assert(i / 8 == before.output@.len() && i % 8 == j);
                        assert(self@[i] == bit_of(next, j));
                    } else {
                        assert(self@[i] == bit_of(next, 7 - bits + j));
                    }
                }
            }
            assert(self@ =~= expected);
        }
    }

    /// Returns the bytes written, the last one completed with clear bits.
    pub fn finish(self) -> (bytes: Vec<u8>)
        requires
            self.wf(),
        ensures
            bytes@ == packed(self@),
    {
        let mut output = self.output;
        let current: u8 = self.current;
        let bits: u8 = self.bits;
        if bits > 0 {
            let last: u8 = current << (8 - bits);
            output.push(last);
            proof {
                assert forall|j: int| 0 <= j < 8 implies bit_of(last, j) == if j < bits {
                    bit_of(current, 8 - bits + j)
                } else {
                    false
                } by {
                    lemma_byte_completed(current, bits, j as u8);
                }
            }
        }
        proof {
            let all = padded(self@);
            assert(bits_of(output@).len() == all.len());
            assert forall|i: int| 0 <= i < all.len() implies bits_of(output@)[i] == all[i] by {
                if i < 8 * self.output@.len() {
                    assert(i / 8 < self.output@.len());
                } else {
                    assert(i / 8 == self.output@.len() && i % 8 == i - 8 * self.output@.len());
                }
            }
            assert(bits_of(output@) =~= all);
            assert(packed(self@) =~= packed(bits_of(output@))) by {
                assert(padded(bits_of(output@)) =~= all);
            }
            bytes_survive_unpacking(output@);
        }
        output
    }
}

impl View for BitWriter {
    type V = Seq<bool>;

    /// The bits written so far.
    closed spec fn view(&self) -> Seq<bool> {
        bits_of(self.output@) + self.waiting()
    }
}

/// Appending a bit to a partial byte keeps it partial.
proof fn lemma_byte_shifted(current: u8, low: u8, bits: u8)
    by (bit_vector)
    requires
        bits < 8,
        low <= 1,
        current < (1u8 << bits),
    ensures
        bits < 7 ==> ((current << 1) | low) < (1u8 << ((bits + 1) as u8)),
        0 < (1u8 << 0),
{
}

/// Appending a bit to a partial byte moves the bits before it up by one.
proof fn lemma_bit_shifted(current: u8, low: u8, j: u8)
    by (bit_vector)
    requires
        j < 7,
        low <= 1,
    ensures
        (((current << 1) | low) >> ((7 - j) as u8)) & 1 == (current >> ((6 - j) as u8)) & 1,
{
}

/// The last bit of a byte is the one appended to it.
proof fn lemma_low_bit(current: u8, low: u8)
    by (bit_vector)
    requires
        low <= 1,
    ensures
        (((current << 1) | low) >> 0) & 1 == low,
{
}

/// Completing a partial byte keeps its bits and adds clear ones.
proof fn lemma_byte_completed(current: u8, bits: u8, j: u8)
    by (bit_vector)
    requires
        0 < bits < 8,
        j < 8,
        current < (1u8 << bits),
    ensures
        j < bits ==> ((current << ((8 - bits) as u8)) >> ((7 - j) as u8)) & 1 == (current >> ((
        bits - 1 - j) as u8)) & 1,
        j >= bits ==> ((current << ((8 - bits) as u8)) >> ((7 - j) as u8)) & 1 == 0,
{
}

/// Hands out the bits of a byte string one by one.
pub struct BitReader<'a> {
    input: &'a [u8],
    position: usize,
    current: u8,
    bits: u8,
}

impl<'a> BitReader<'a> {
    /// The byte being read is the one before `position`.
    pub closed spec fn wf(self) -> bool {
        &&& self.position <= self.input@.len()
        &&& self.bits < 8
        &&& self.bits > 0 ==> self.position > 0 && self.current == self.input@[self.position - 1]
    }

    /// All bits of the input, read or not.
    pub closed spec fn code(self) -> Seq<bool> {
        bits_of(self.input@)
    }

    /// How many bits were read.
    pub closed spec fn consumed(self) -> nat {
        (8 * self.position - self.bits) as nat
    }

    /// Creates a reader that stands before the first bit of `input`.
    pub fn new(input: &'a [u8]) -> (reader: Self)
        ensures
            reader.wf(),
            reader.code() == bits_of(input@),
            reader.consumed() == 0,
    {
        BitReader { input, position: 0, current: 0, bits: 0 }
    }

    /// Returns the next bit, or fails where there is none left.
    pub fn read(&mut self) -> (bit: Result<bool, Error>)
        requires
            old(self).wf(),
        ensures
            final(self).wf(),
            final(self).code() == old(self).code(),
            if old(self).consumed() < old(self).code().len() {
                &&& bit == Ok::<bool, Error>(old(self).code()[old(self).consumed() as int])
                &&& final(self).consumed() == old(self).consumed() + 1
            } else {
                &&& bit == Err::<bool, Error>(Error::TruncatedRangePayload)
                &&& *final(self) == *old(self)
            },
    {
        if self.bits == 0 {
            if self.position >= self.input.len() {
                return Err(Error::TruncatedRangePayload);
            }
            self.current = self.input[self.position];
            self.position = self.position + 1;
            self.bits = 8;
        }
        self.bits = self.bits - 1;
        let current: u8 = self.current;
        let shift: u8 = self.bits;
        proof {
            lemma_mask_bit(current, shift);
            let consumed = 8 * self.position - shift - 1;
            assert(consumed / 8 == self.position - 1 && consumed % 8 == 7 - shift);
        }
        Ok((current & (1u8 << shift)) != 0)
    }
}

/// Masking a bit out of a byte and shifting it down agree.
proof fn lemma_mask_bit(current: u8, shift: u8)
    by (bit_vector)
    requires
        shift < 8,
    ensures
        ((current & (1u8 << shift)) != 0) == ((current >> shift) & 1 == 1),
{
}

} // verus!
