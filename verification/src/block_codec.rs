//! Blocks of 128 ascending ids, delta-coded and bit-packed by the `bitpacking`
//! crate. The packer's calls are stated here; nothing in this file is proved
//! about the packer itself.

use vstd::prelude::*;
use bitpacking::BitPacker;
use bitpacking::BitPacker4x;
use crate::sorted::non_decreasing;

verus! {

/// Ids per packed block.
pub const BLOCK_LEN: usize = 128;

/// Most bits that one delta can take.
pub const MAX_BITS: u8 = 32;

/// `bitpacking::BitPacker4x`: the packer for blocks of 128. Nothing is known
/// of what a value of it holds.
#[verifier::external_type_specification]
#[verifier::external_body]
pub struct ExBitPacker4x(BitPacker4x);

/// The bytes that `BitPacker4x::compress_sorted` writes for a block, given
/// the value before its first id and the bits per delta. The packer has one
/// format, whichever of its implementations it picks on a machine.
pub uninterp spec fn packed_block(initial: u32, block: Seq<u32>, bits: u8) -> Seq<u8>;

/// The ids that `BitPacker4x::decompress_sorted` reads out of packed bytes,
/// given the value before the first id and the bits per delta.
pub uninterp spec fn unpacked_block(initial: u32, bytes: Seq<u8>, bits: u8) -> Seq<u32>;

/// The least number of bits that hold `v`: 0 for 0, else one more than the
/// position of the highest set bit.
pub open spec fn bit_width(v: int) -> nat
    decreases v,
{
    if v <= 0 {
        0
    } else {
        1 + bit_width(v / 2)
    }
}

/// The largest step between neighbours in `block`, where `initial` stands
/// before the first id.
pub open spec fn max_gap(initial: u32, block: Seq<u32>) -> int
    decreases block.len(),
{
    if block.len() == 0 {
        0
    } else {
        let before = if block.len() == 1 {
            initial
        } else {
            block[block.len() - 2]
        };
        let step = block.last() - before;
        let rest = max_gap(initial, block.drop_last());
        if step > rest {
            step
        } else {
            rest
        }
    }
}

/// Bits per delta that a block needs.
pub open spec fn gap_bits(initial: u32, block: Seq<u32>) -> nat {
    bit_width(max_gap(initial, block))
}

/// Bytes that a block packed at `bits` bits per delta takes.
pub open spec fn packed_len(bits: nat) -> nat {
    bits * 16
}

/// What the packer asks of a block: 128 ascending ids, none below `initial`.
pub open spec fn packable(initial: u32, block: Seq<u32>) -> bool {
    &&& block.len() == BLOCK_LEN
    &&& non_decreasing(block)
    &&& initial <= block[0]
}

/// `BitPacker4x::new`: picks the packer's implementation for this machine.
/// Nothing is claimed of the value; all implementations share one format.
#[verifier::external_body]
pub(crate) fn new_bitpacker() -> BitPacker4x {
    BitPacker4x::new()
}

/// `BitPacker4x::num_bits_sorted`: the bit width of the bitwise OR of all
/// deltas of the block, which is the bit width of the largest delta.
#[verifier::external_body]
pub(crate) fn num_bits_sorted(bitpacker: &BitPacker4x, initial: u32, block: &[u32]) -> (bits: u8)
    requires
        packable(initial, block@),
    ensures
        bits == gap_bits(initial, block@),
        bits <= MAX_BITS,
{
    bitpacker.num_bits_sorted(initial, block)
}

/// `BitPacker4x::compress_sorted`: fills `out` with the packed deltas of the
/// block and returns the number of bytes written, 16 per bit of width.
#[verifier::external_body]
pub(crate) fn compress_sorted(
    bitpacker: &BitPacker4x,
    initial: u32,
    block: &[u32],
    out: &mut Vec<u8>,
    bits: u8,
) -> (written: usize)
    requires
        packable(initial, block@),
        gap_bits(initial, block@) <= bits <= MAX_BITS,
        old(out)@.len() == packed_len(bits as nat),
    ensures
        written == packed_len(bits as nat),
        final(out)@ == packed_block(initial, block@, bits),
        final(out)@.len() == old(out)@.len(),
{
    bitpacker.compress_sorted(initial, block, out.as_mut_slice(), bits)
}

/// `BitPacker4x::decompress_sorted`: fills `out` with the 128 ids that the
/// packed bytes hold and returns the number of bytes read.
#[verifier::external_body]
pub(crate) fn decompress_sorted(
    bitpacker: &BitPacker4x,
    initial: u32,
    bytes: &Vec<u8>,
    out: &mut Vec<u32>,
    bits: u8,
) -> (read: usize)
    requires
        bits <= MAX_BITS,
        bytes@.len() == packed_len(bits as nat),
        old(out)@.len() == BLOCK_LEN,
    ensures
        read == packed_len(bits as nat),
        final(out)@ == unpacked_block(initial, bytes@, bits),
        final(out)@.len() == BLOCK_LEN,
{
    bitpacker.decompress_sorted(initial, bytes.as_slice(), out.as_mut_slice(), bits)
}

} // verus!
