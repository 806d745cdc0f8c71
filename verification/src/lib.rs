//! Color quantization: reduce the color set of an image to a palette of a
//! requested size, by median cut or by octree reduction.

use vstd::prelude::*;

pub mod color;
pub mod median_cut;
pub mod octree;
pub mod quantize;

use color::Rgb24;

verus! {

/// The quantization method to run.
#[derive(Debug, Clone, Copy, PartialEq, Eq, Structural)]
pub enum Method {
    MedianCut,
    Octree,
}

/// Quantize a palette with the specified method.
///
/// A palette with room for every input color is the input itself, in input
/// order. Otherwise median cut returns exactly `palette_size` bucket means
/// of a rearrangement of the input, every one inside the hull of the input.
pub fn solve(method: Method, colors: Vec<Rgb24>, palette_size: usize) -> (palette: Vec<Rgb24>)
    requires
        palette_size >= 1,
        colors@.len() <= 0x100_0000_0000_0000,
    ensures
        palette_size >= colors@.len() ==> palette@ == colors@,
        (method == Method::MedianCut || palette_size >= colors@.len()) ==> palette@.len() == min_int(
            palette_size as int,
            colors@.len() as int,
        ),
        method == Method::MedianCut && palette_size < colors@.len() ==> {
            &&& palette@ == median_cut::spec_median_cut(colors@, palette_size as int)
            &&& exists|arrangement: Seq<Rgb24>, offsets: Seq<int>|
                median_cut::is_bucket_emission(
                    colors@,
                    palette_size as int,
                    arrangement,
                    offsets,
                    palette@,
                )
            &&& forall|j: int|
                0 <= j < palette@.len() ==> color::in_hull(#[trigger] palette@[j], colors@)
                    || palette@[j] == (color::Rgb24 { r: 0, g: 0, b: 0 })
        },
        method == Method::Octree && palette_size < colors@.len() ==> {
            &&& forall|j: int|
                0 <= j < palette@.len() ==> color::in_hull(#[trigger] palette@[j], colors@)
            &&& 1 <= palette@.len() <= colors@.len()
            &&& palette@.len() <= colors@.to_set().len()
            &&& min_int(palette_size as int, colors@.to_set().len() as int) <= palette@.len()
            &&& octree::top_octant_count(colors@) <= palette@.len()
            &&& exists|groups: Seq<Seq<Rgb24>>, prefixes: Seq<Seq<u8>>|
                octree::is_grouped_emission(colors@, groups, prefixes, palette@)
        },
{
    if palette_size >= colors.len() {
        return colors;
    }

    match method {
        Method::MedianCut => median_cut::median_cut(colors, palette_size),
        Method::Octree => octree::octree(colors.as_slice(), palette_size),
    }
}

/// The smaller of two mathematical integers.
pub open spec fn min_int(a: int, b: int) -> int {
    if a <= b {
        a
    } else {
        b
    }
}

/// The flat RGBA pixel buffer that decoding an encoded image yields, or
/// nothing for bytes that no decoder accepts. What comes out is a function
/// of the bytes alone.
pub uninterp spec fn decoded_rgba(bytes: Seq<u8>) -> Option<Seq<u8>>;

/// Relies on `image::guess_format`, `image::load_from_memory_with_format`,
/// `DynamicImage::to_rgba8` and `ImageBuffer::into_raw`. The format is
/// recognized from the bytes alone against the crate's static table of
/// magic signatures, and decoding with an explicitly set format runs only
/// the built-in decoder for that format, so the whole result is a function
/// of the bytes; the raw buffer holds one RGBA quadruple per pixel, so its
/// length is a multiple of four.
#[verifier::external_body]
fn decode_rgba(bytes: &Vec<u8>) -> (r: Option<Vec<u8>>)
    ensures
        r is Some <==> decoded_rgba(bytes@) is Some,
        r is Some ==> r.unwrap()@ == decoded_rgba(bytes@).unwrap() && r.unwrap()@.len() % 4 == 0,
{
    let format = match image::guess_format(bytes.as_slice()) {
        Ok(format) => format,
        Err(_) => return None,
    };
    match image::load_from_memory_with_format(bytes.as_slice(), format) {
        Ok(img) => Some(img.to_rgba8().into_raw()),
        Err(_) => None,
    }
}

/// The colors that a flat RGBA buffer yields under an alpha threshold: each
/// complete 4-byte pixel whose alpha byte reaches the threshold becomes an
/// RGB24, in buffer order; a trailing incomplete pixel yields nothing.
pub open spec fn rgba_filter(bytes: Seq<u8>, alpha_min: u8) -> Seq<Rgb24>
    decreases bytes.len(),
{
    if bytes.len() < 4 {
        Seq::empty()
    } else {
        let rest = rgba_filter(bytes.skip(4), alpha_min);
        if bytes[3] >= alpha_min {
            seq![Rgb24 { r: bytes[0], g: bytes[1], b: bytes[2] }] + rest
        } else {
            rest
        }
    }
}

/// Packs a flat RGBA buffer to an RGB24 buffer, keeping every pixel whose
/// alpha is at least `alpha_min`.
pub fn rgba_to_colors(bytes: &Vec<u8>, alpha_min: u8) -> (colors: Vec<Rgb24>)
    ensures
        colors@ == rgba_filter(bytes@, alpha_min),
{
    let n = bytes.len();
    let mut out: Vec<Rgb24> = Vec::new();
    proof {
        assert(bytes@.skip(0) =~= bytes@);
        assert(out@ + rgba_filter(bytes@, alpha_min) =~= rgba_filter(bytes@, alpha_min));
    }
    let mut i: usize = 0;
    while n - i >= 4
        invariant
            n == bytes@.len(),
            i <= n,
            out@ + rgba_filter(bytes@.skip(i as int), alpha_min) == rgba_filter(bytes@, alpha_min),
        decreases n - i,
    {
        let ghost tail = bytes@.skip(i as int);
        proof {
            assert(tail.skip(4) =~= bytes@.skip(i as int + 4));
            assert(tail[0] == bytes@[i as int] && tail[1] == bytes@[i as int + 1] && tail[2]
                == bytes@[i as int + 2] && tail[3] == bytes@[i as int + 3]);
        }
        if bytes[i + 3] >= alpha_min {
            out.push(Rgb24::new(bytes[i], bytes[i + 1], bytes[i + 2]));
            proof {
                assert(rgba_filter(tail, alpha_min) == seq![
                    Rgb24 {
                        r: bytes@[i as int],
                        g: bytes@[i as int + 1],
                        b: bytes@[i as int + 2],
                    },
                ] + rgba_filter(bytes@.skip(i as int + 4), alpha_min));
                assert(out@ + rgba_filter(bytes@.skip(i as int + 4), alpha_min) =~= out@.drop_last()
                    + rgba_filter(tail, alpha_min));
            }
        } else {
            proof {
                assert(rgba_filter(tail, alpha_min) == rgba_filter(
                    bytes@.skip(i as int + 4),
                    alpha_min,
                ));
            }
        }
        i += 4;
    }
    proof {
        assert(rgba_filter(bytes@.skip(i as int), alpha_min) =~= Seq::<Rgb24>::empty());
        assert(out@ + rgba_filter(bytes@.skip(i as int), alpha_min) =~= out@);
    }
    out
}

/// Decodes an encoded image to the RGB24 colors of its pixels, keeping
/// every pixel whose alpha is at least `alpha_min`. Bytes that no decoder
/// accepts yield nothing.
pub fn decode_to_rgb24(bytes: &Vec<u8>, alpha_min: u8) -> (r: Option<Vec<Rgb24>>)
    ensures
        r is Some <==> decoded_rgba(bytes@) is Some,
        r is Some ==> r.unwrap()@ == rgba_filter(decoded_rgba(bytes@).unwrap(), alpha_min),
{
    match decode_rgba(bytes) {
        Some(raw) => Some(rgba_to_colors(&raw, alpha_min)),
        None => None,
    }
}

} // verus!
