//! The bit-pack primitive, supplied by the `bitpacking` crate: the minimal
//! width of a 256-value block, and packing and unpacking at a given width.
//! The packed byte form is not modelled; it is named by `packed_bytes` and
//! only its length and its round trip with unpacking are relied on.

use vstd::prelude::*;
use bitpacking::BitPacker;
use bitpacking::BitPacker8x;
use crate::model::blk_width;
use crate::model::fits_width;

verus! {

#[verifier::external_type_specification]
#[verifier::external_body]
pub struct ExBitPacker8x(BitPacker8x);

/// The bytes that packing a 256-value block at the given width produces.
/// A function of the block and the width alone: the crate's scalar and
/// vector code paths share one output format.
pub uninterp spec fn packed_bytes(block: Seq<u32>, width: nat) -> Seq<u8>;

/// Relies on `BitPacker8x::new`: picks the best available implementation;
/// all of them produce the same packed format.
#[verifier::external_body]
pub(crate) fn bp_new() -> BitPacker8x {
    BitPacker8x::new()
}

/// Relies on `BitPacker8x::num_bits`: the number of bits needed to represent
/// the largest value of a 256-value block.
#[verifier::external_body]
pub(crate) fn bp_num_bits(bp: &BitPacker8x, block: &Vec<u32>) -> (r: u8)
    requires
        block@.len() == 256,
    ensures
        r as nat == blk_width(block@),
        r <= 32,
{
    bp.num_bits(&block[..])
}

/// Relies on `BitPacker8x::compress`: packs a 256-value block whose values
/// all fit in `width` bits into exactly `width * 32` bytes.
#[verifier::external_body]
pub(crate) fn bp_compress(bp: &BitPacker8x, block: &Vec<u32>, width: u8) -> (r: Vec<u8>)
    requires
        block@.len() == 256,
        width <= 32,
        fits_width(block@, width as nat),
    ensures
        r@.len() == (width as nat) * 32,
        r@ == packed_bytes(block@, width as nat),
{
    let mut out = vec![0u8; (width as usize) * 32];
    bp.compress(&block[..], &mut out[..], width);
    out
}

/// Relies on `BitPacker8x::decompress`: the exact inverse of `compress` at
/// the same width, for any block whose values fit in that width.
#[verifier::external_body]
pub(crate) fn bp_decompress(bp: &BitPacker8x, bytes: &Vec<u8>, width: u8) -> (r: Vec<u32>)
    requires
        width <= 32,
        bytes@.len() == (width as nat) * 32,
    ensures
        r@.len() == 256,
        forall|block: Seq<u32>|
            block.len() == 256 && fits_width(block, width as nat) && #[trigger] packed_bytes(
                block,
                width as nat,
            ) == bytes@ ==> r@ == block,
{
    let mut out = vec![0u32; 256];
    bp.decompress(&bytes[..], &mut out[..], width);
    out
}

} // verus!
