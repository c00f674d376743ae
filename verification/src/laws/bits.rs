//! Laws of bits and bytes.
use vstd::prelude::*;

use crate::bits::{
    bit_of, bit_value, bits_of, bits_survive_packing, bits_value, lemma_byte_of_its_bits, packed,
    padded,
};
use crate::bytes::{little_endian, little_endian_value};

verus! {

/// The number that eight bits spell, the first one counting most.
proof fn lemma_eight_bits(bits: Seq<bool>)
    requires
        bits.len() == 8,
    ensures
        bits_value(bits) == 128 * bit_value(bits[0]) + 64 * bit_value(bits[1]) + 32 * bit_value(
            bits[2],
        ) + 16 * bit_value(bits[3]) + 8 * bit_value(bits[4]) + 4 * bit_value(bits[5]) + 2
            * bit_value(bits[6]) + bit_value(bits[7]),
{
    reveal_with_fuel(bits_value, 9);
}

/// Each byte is eight bits, and the first of them counts most.
pub proof fn bits_come_most_significant_first(bytes: Seq<u8>, i: int)
    requires
        0 <= i < bytes.len(),
    ensures
        bits_of(bytes).len() == 8 * bytes.len(),
        bytes[i] == (if bits_of(bytes)[8 * i] {
            128int
        } else {
            0
        }) + (if bits_of(bytes)[8 * i + 1] {
            64int
        } else {
            0
        }) + (if bits_of(bytes)[8 * i + 2] {
            32int
        } else {
            0
        }) + (if bits_of(bytes)[8 * i + 3] {
            16int
        } else {
            0
        }) + (if bits_of(bytes)[8 * i + 4] {
            8int
        } else {
            0
        }) + (if bits_of(bytes)[8 * i + 5] {
            4int
        } else {
            0
        }) + (if bits_of(bytes)[8 * i + 6] {
            2int
        } else {
            0
        }) + (if bits_of(bytes)[8 * i + 7] {
            1int
        } else {
            0
        }),
{
    let bits = bits_of(bytes);
    let byte_bits = bits.subrange(8 * i, 8 * i + 8);
    assert forall|j: int| 0 <= j < 8 implies byte_bits[j] == bit_of(bytes[i], j) by {
        assert((8 * i + j) / 8 == i && (8 * i + j) % 8 == j);
    }
    lemma_byte_of_its_bits(bytes[i], byte_bits);
    lemma_eight_bits(byte_bits);
    assert(byte_bits[0] == bits[8 * i] && byte_bits[1] == bits[8 * i + 1] && byte_bits[2]
        == bits[8 * i + 2] && byte_bits[3] == bits[8 * i + 3] && byte_bits[4] == bits[8 * i + 4]
        && byte_bits[5] == bits[8 * i + 5] && byte_bits[6] == bits[8 * i + 6] && byte_bits[7]
        == bits[8 * i + 7]);
}

/// Written bits fill as few bytes as can hold them, in order, and what is left
/// of the last byte is clear.
pub proof fn written_bits_fill_bytes_in_order(bits: Seq<bool>, i: int)
    ensures
        8 * packed(bits).len() < bits.len() + 8,
        8 * packed(bits).len() >= bits.len(),
        0 <= i < 8 * packed(bits).len() ==> bits_of(packed(bits))[i] == (i < bits.len()
            && bits[i]),
{
    bits_survive_packing(bits);
    if 0 <= i < padded(bits).len() {
        assert(padded(bits)[i] == (i < bits.len() && bits[i]));
    }
}

/// Bits that spell numbers are read with the first one counting most: one more
/// bit doubles the number and adds itself.
pub proof fn one_more_bit_doubles(bits: Seq<bool>, bit: bool)
    ensures
        bits_value(Seq::<bool>::empty()) == 0,
        bits_value(bits.push(bit)) == bits_value(bits) + bits_value(bits) + (if bit {
            1int
        } else {
            0
        }),
{
    assert(bits.push(bit).drop_last() =~= bits);
}

/// A number of 32 bits is written as its four bytes, the least one first.
pub proof fn four_bytes_least_first(value: nat)
    requires
        value < 0x1_0000_0000,
    ensures
        little_endian(value, 4).len() == 4,
        value == little_endian(value, 4)[0] + 0x100 * little_endian(value, 4)[1] + 0x1_0000
            * little_endian(value, 4)[2] + 0x100_0000 * little_endian(value, 4)[3],
{
    reveal_with_fuel(little_endian, 5);
}

/// A number of 64 bits is written as its eight bytes, the least one first.
pub proof fn eight_bytes_least_first(value: nat)
    requires
        value < 0x1_0000_0000_0000_0000,
    ensures
        little_endian(value, 8).len() == 8,
        value == little_endian(value, 8)[0] + 0x100 * little_endian(value, 8)[1] + 0x1_0000
            * little_endian(value, 8)[2] + 0x100_0000 * little_endian(value, 8)[3] + 0x1_0000_0000
            * little_endian(value, 8)[4] + 0x100_0000_0000 * little_endian(value, 8)[5]
            + 0x1_0000_0000_0000 * little_endian(value, 8)[6] + 0x100_0000_0000_0000
            * little_endian(value, 8)[7],
{
    reveal_with_fuel(little_endian, 9);
}

/// Bytes are read as numbers with the least one first.
pub proof fn bytes_read_least_first(bytes: Seq<u8>)
    ensures
        bytes.len() == 4 ==> little_endian_value(bytes) == bytes[0] + 0x100 * bytes[1] + 0x1_0000
            * bytes[2] + 0x100_0000 * bytes[3],
        bytes.len() == 8 ==> little_endian_value(bytes) == bytes[0] + 0x100 * bytes[1] + 0x1_0000
            * bytes[2] + 0x100_0000 * bytes[3] + 0x1_0000_0000 * bytes[4] + 0x100_0000_0000
            * bytes[5] + 0x1_0000_0000_0000 * bytes[6] + 0x100_0000_0000_0000 * bytes[7],
{
    reveal_with_fuel(little_endian_value, 9);
}

} // verus!
