//! The block decompressor. BC1 decoding is done by the `texpresso` crate;
//! this module gives its result a name and states what the library relies
//! on.

use vstd::prelude::*;

verus! {

/// The image that `texpresso` decodes from BC1 data for a picture of `width`
/// by `height` pixels: row by row, four bytes (red, green, blue, alpha) for
/// each pixel.
pub uninterp spec fn bc1_pixels(data: Seq<u8>, width: usize, height: usize) -> Seq<u8>;

/// Calls `texpresso::Format::decompress` on `Format::Bc1`.
///
/// Not proved, but taken from the source of `texpresso`: for sides that are
/// positive multiples of four, an output buffer of four bytes for each pixel
/// and at least eight bytes of data for each block of four by four pixels,
/// the call reads no byte outside `data`, writes every byte of `output`, and
/// what it writes depends on `data`, `width` and `height` alone. The buffer
/// keeps its length.
#[verifier::external_body]
pub(crate) fn bc1_decompress(data: &[u8], width: usize, height: usize, output: &mut Vec<u8>)
    requires
        0 < width,
        0 < height,
        width % 4 == 0,
        height % 4 == 0,
        old(output)@.len() == width * height * 4,
        data@.len() >= (width / 4) * (height / 4) * 8,
    ensures
        final(output)@ == bc1_pixels(data@, width, height),
        final(output)@.len() == old(output)@.len(),
{
    texpresso::Format::Bc1.decompress(data, width, height, output.as_mut_slice());
}

} // verus!
