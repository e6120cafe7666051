//! Describing a face by an embedding: what the embedding network is fed, and which of its answers
//! are of use.
use crate::picture::RgbPixels;
use crate::single::Single;
use crate::tensor::{holds_planes, law_planes_show_the_picture, plane_tensor, PlaneOrder};
use vstd::arithmetic::power2::{lemma2_to64, lemma_pow2_adds, pow2};
use vstd::prelude::*;

verus! {

/// The input of the embedding network: red, green and blue planes of the aligned view, in steps
/// of 1/256.
pub fn embedding_input(face: &RgbPixels) -> (tensor: Vec<i16>)
    requires
        face.wf(),
        face.width == 112,
        face.height == 112,
    ensures
        holds_planes(tensor@, face.samples@, 112, 112, 112, PlaneOrder::Rgb),
{
    plane_tensor(face, 112, PlaneOrder::Rgb)
}

/// The bit pattern of the smallest step from 1 to the next number, 2 to the -23.
pub const EPSILON_BITS: u32 = 0x3400_0000;

/// Whether an answer of the network can be brought to length one: its length is a number and not
/// as good as zero.
pub open spec fn usable_norm(norm: Single) -> bool {
    norm.finite() && !norm.le(Single { bits: EPSILON_BITS })
}

/// Accepts or refuses the length of an answer of the embedding network.
pub fn check_norm(norm: Single) -> (outcome: Result<(), String>)
    ensures
        outcome is Ok <==> usable_norm(norm),
        outcome matches Err(message) ==> message@ == "Invalid face embedding norm"@,
{
    if !norm.is_finite() || norm.at_most(&Single::from_bits(EPSILON_BITS)) {
        Err(String::from_str("Invalid face embedding norm"))
    } else {
        Ok(())
    }
}

/// A usable length is above 2 to the -23 and below infinity; a negative length or one that is not
/// a number is refused.
pub proof fn law_usable_norm_positive(norm: Single)
    requires
        usable_norm(norm),
    ensures
        !norm.nan(),
        !norm.negative(),
        (Single { bits: EPSILON_BITS }).lt(norm),
        norm.value() > 0,
{
    crate::single::law_rank_orders_values(Single { bits: 0 }, norm);
}

/// A length is of use exactly if it is a number above 2 to the -23 and not an infinity.
pub proof fn law_usable_norm_exact(norm: Single)
    ensures
        usable_norm(norm) <==> 0x3400_0000 < norm.bits < 0x7F80_0000,
        (Single { bits: 0x3400_0000 }).value() == pow2(126),
{
    lemma2_to64();
    lemma_pow2_adds(23, 103);
}

/// The input of the embedding network shows the aligned view: its red, green and blue planes in
/// this order, pixel by pixel.
pub proof fn law_view_shown_in_colour(tensor: Seq<i16>, samples: Seq<u8>, x: int, y: int)
    requires
        holds_planes(tensor, samples, 112, 112, 112, PlaneOrder::Rgb),
        0 <= x < 112,
        0 <= y < 112,
    ensures
        tensor.len() == 3 * 112 * 112,
        tensor[112 * y + x] == 2 * samples[3 * (112 * y + x)] - 255,
        tensor[112 * 112 + 112 * y + x] == 2 * samples[3 * (112 * y + x) + 1] - 255,
        tensor[2 * 112 * 112 + 112 * y + x] == 2 * samples[3 * (112 * y + x) + 2] - 255,
{
    law_planes_show_the_picture(tensor, samples, 112, 112, 112, PlaneOrder::Rgb, x, y);
}

} // verus!
