//! The guarded median-cut quantizer: the same bucket-splitting engine, with
//! a degenerate-size short-circuit of its own, so that a palette with room
//! for every input color is the input itself.

use crate::color::in_hull;
use crate::color::RGBChannel;
use crate::color::Rgb24;
use crate::median_cut::is_bucket_emission;
use vstd::prelude::*;

verus! {

/// Bucket represented as an offset in a sequential container.
/// Also saves the maximum channel delta and a tag for that channel.
#[derive(Clone, Copy, Debug)]
pub struct Bucket {
    pub offset: usize,
    pub channel: RGBChannel,
    pub delta: u8,
}

impl Bucket {
    /// Create a new bucket.
    pub fn new(offset: usize, channel: RGBChannel, delta: u8) -> (b: Self)
        ensures
            b == (Bucket { offset, channel, delta }),
    {
        Self { offset, channel, delta }
    }
}

/// Median cut palette quantize implementation.
///
/// Given a list `colors` and `palette_size`, median cut
/// finds a set of colors (called the palette) of size `palette_size`
/// that approximate the distribution of colors in an image.
///
/// When the palette has room for every input color, the input is returned
/// unchanged, in input order. Otherwise the colors are organized into
/// buckets according to a maximum channel delta heuristic, each bucket in
/// turn is sorted by its widest channel and split at its median, and the
/// palette is the averages within each final bucket.
pub fn median_cut(colors: Vec<Rgb24>, palette_size: usize) -> (palette: Vec<Rgb24>)
    requires
        colors@.len() <= 0x100_0000_0000_0000,
        palette_size >= 1 || colors@.len() == 0,
    ensures
        palette_size >= colors@.len() ==> palette@ == colors@,
        palette_size < colors@.len() ==> {
            &&& palette@.len() == palette_size
            &&& palette@ == crate::median_cut::spec_median_cut(colors@, palette_size as int)
            &&& exists|arrangement: Seq<Rgb24>, offsets: Seq<int>|
                is_bucket_emission(colors@, palette_size as int, arrangement, offsets, palette@)
            &&& forall|j: int|
                0 <= j < palette@.len() ==> in_hull(#[trigger] palette@[j], colors@) || palette@[j]
                    == (Rgb24 { r: 0, g: 0, b: 0 })
        },
{
    if palette_size >= colors.len() {
        return colors;
    }
    crate::median_cut::median_cut(colors, palette_size)
}

} // verus!
