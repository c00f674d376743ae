//! Little-endian numbers and magics in byte strings.
use vstd::arithmetic::power2::{
    lemma2_to64, lemma2_to64_rest, lemma_pow2_adds, lemma_pow2_strictly_increases, pow2,
};
use vstd::prelude::*;

verus! {

/// The `count` low bytes of `value`, least significant byte first.
pub open spec fn little_endian(value: nat, count: nat) -> Seq<u8>
    decreases count,
{
    if count == 0 {
        Seq::empty()
    } else {
        seq![(value % 256) as u8] + little_endian(value / 256, (count - 1) as nat)
    }
}

/// The number that `bytes` spell, least significant byte first.
pub open spec fn little_endian_value(bytes: Seq<u8>) -> nat
    decreases bytes.len(),
{
    if bytes.len() == 0 {
        0
    } else {
        bytes[0] as nat + 256 * little_endian_value(bytes.skip(1))
    }
}

/// `bytes` begins with the four bytes of `magic`.
pub open spec fn begins_with(bytes: Seq<u8>, magic: Seq<u8>) -> bool {
    bytes.len() >= magic.len() && bytes.take(magic.len() as int) == magic
}

/// A result with its bytes taken as a sequence.
pub open spec fn contents<E>(result: Result<Vec<u8>, E>) -> Result<Seq<u8>, E> {
    match result {
        Ok(bytes) => Ok(bytes@),
        Err(error) => Err(error),
    }
}

/// As many bytes are written as asked for.
pub proof fn lemma_little_endian_len(value: nat, count: nat)
    ensures
        little_endian(value, count).len() == count,
    decreases count,
{
    if count > 0 {
        lemma_little_endian_len(value / 256, (count - 1) as nat);
    }
}

/// `n` bytes spell a number below `2^(8 n)`.
pub proof fn lemma_little_endian_bound(bytes: Seq<u8>)
    ensures
        little_endian_value(bytes) < pow2(8 * bytes.len()),
    decreases bytes.len(),
{
    lemma2_to64();
    if bytes.len() > 0 {
        lemma_little_endian_bound(bytes.skip(1));
        lemma_pow2_adds(8, 8 * bytes.skip(1).len());
    }
}

/// A number that fits in `count` bytes is read back as it was written.
pub proof fn little_endian_reads_back(value: nat, count: nat)
    requires
        value < pow2(8 * count),
    ensures
        little_endian_value(little_endian(value, count)) == value,
    decreases count,
{
    lemma2_to64();
    lemma_little_endian_len(value, count);
    if count > 0 {
        let rest = (count - 1) as nat;
        lemma_pow2_adds(8, 8 * rest);
        assert(value / 256 < pow2(8 * rest));
        little_endian_reads_back(value / 256, rest);
        assert(little_endian(value, count).skip(1) =~= little_endian(value / 256, rest));
    }
}

/// Appends the `count` low bytes of `value`, least significant byte first.
pub(crate) fn push_little_endian(output: &mut Vec<u8>, value: u64, count: usize)
    ensures
        final(output)@ == old(output)@ + little_endian(value as nat, count as nat),
{
    let mut rest: u64 = value;
    let mut written: usize = 0;
    while written < count
        invariant
            written <= count,
            output@ + little_endian(rest as nat, (count - written) as nat) == old(output)@
                + little_endian(value as nat, count as nat),
        decreases count - written,
    {
        let ghost before = output@;
        let low: u8 = (rest % 256) as u8;
        output.push(low);
        assert(before + little_endian(rest as nat, (count - written) as nat) =~= output@
            + little_endian((rest / 256) as nat, (count - written - 1) as nat));
        rest = rest / 256;
        written = written + 1;
    }
    assert(output@ + little_endian(rest as nat, 0) =~= output@);
}

/// Reads the number in the `count` bytes from `start` on.
pub(crate) fn read_little_endian(bytes: &[u8], start: usize, count: usize) -> (value: u64)
    requires
        start + count <= bytes.len(),
        count <= 8,
    ensures
        value == little_endian_value(bytes@.subrange(start as int, start + count)),
{
    let mut value: u64 = 0;
    let mut left: usize = count;
    assert(bytes@.subrange(start + left, start + count) =~= Seq::<u8>::empty());
    while left > 0
        invariant
            left <= count <= 8,
            start + count <= bytes.len(),
            value == little_endian_value(bytes@.subrange(start + left, start + count)),
        decreases left,
    {
        let byte: u8 = bytes[start + left - 1];
        proof {
            let read = bytes@.subrange(start + left, start + count);
            lemma_little_endian_bound(read);
            lemma2_to64();
            lemma2_to64_rest();
            if read.len() < 7 {
                lemma_pow2_strictly_increases(8 * read.len(), 56);
            }
            assert(bytes@.subrange(start + left - 1, start + count).skip(1) =~= read);
        }
        value = byte as u64 + 256 * value;
        left = left - 1;
    }
    value
}

/// Tells whether `bytes` begins with `magic`.
pub(crate) fn has_magic(bytes: &[u8], magic: [u8; 4]) -> (found: bool)
    ensures
        found == begins_with(bytes@, magic@),
{
    if bytes.len() < 4 {
        return false;
    }
    let found: bool = bytes[0] == magic[0] && bytes[1] == magic[1] && bytes[2] == magic[2]
        && bytes[3] == magic[3];
    proof {
        let start = bytes@.take(4);
        assert(start[0] == bytes@[0] && start[1] == bytes@[1] && start[2] == bytes@[2] && start[3]
            == bytes@[3]);
        if found {
            assert(start =~= magic@);
        }
    }
    found
}

} // verus!
