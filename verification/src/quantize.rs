//! The quantizer: maps a row-major RGB pixel grid onto the fixed
//! palette with Floyd–Steinberg error diffusion, in a gamma-corrected
//! perceptual color space, and packs the result into the binary output
//! format.

use vstd::prelude::*;
use crate::color::{Rgb, palette, palette_spec, PALETTE_LEN};
use crate::pack::{pack_spec, pack_indices};
use crate::{IMAGE_WIDTH, IMAGE_HEIGHT};

verus! {

/// The gamma exponent used for dithering, written as decimal text.
/// The conventional value is 2.2; this is raised slightly for contrast.
pub open spec fn gamma_text() -> Seq<char> {
    "2.3"@
}

/// Abstract result of the dithered remap: the palette indices chosen
/// for the given pixels, which are a function of the gamma, the
/// palette, the pixel grid and the row width alone.
pub uninterp spec fn dithered_of(
    gamma: Seq<char>,
    pal: Seq<Rgb>,
    pixels: Seq<Rgb>,
    width: nat,
) -> Seq<u8>;

/// Relies on exoquant's `Remapper::remap` with its Floyd–Steinberg
/// ditherer and `SimpleColorSpace`: a pure computation, so its result
/// depends only on the arguments; it emits one palette index per input
/// pixel, and every index refers into the palette. Colors cross the
/// boundary as fully opaque RGB triples. `remap` asserts that the
/// palette fits in a byte, its color map rejects an empty palette, and
/// the ditherer divides by the row width, hence the bounds asked of
/// the caller.
#[verifier::external_body]
fn remap_pixels(gamma: &str, pal: &Vec<Rgb>, pixels: &Vec<Rgb>, width: usize) -> (r: Vec<u8>)
    requires
        gamma@ == gamma_text(),
        1 <= pal@.len() <= 256,
        width >= 1,
    ensures
        r@ == dithered_of(gamma@, pal@, pixels@, width as nat),
        r@.len() == pixels@.len(),
        forall|i: int| 0 <= i < r@.len() ==> (r@[i] as int) < pal@.len(),
{
    let colorspace = exoquant::SimpleColorSpace {
        dither_gamma: gamma.parse().unwrap(),
        ..Default::default()
    };
    let ditherer = exoquant::ditherer::FloydSteinberg::new();
    let exo_pal: Vec<exoquant::Color> =
        pal.iter().map(|c| exoquant::Color::new(c.r, c.g, c.b, 255)).collect();
    let exo_img: Vec<exoquant::Color> =
        pixels.iter().map(|c| exoquant::Color::new(c.r, c.g, c.b, 255)).collect();
    exoquant::Remapper::new(&exo_pal, &colorspace, &ditherer).remap(&exo_img, width)
}

/// Quantizes a row-major pixel grid against the fixed palette: one
/// palette index in `0..7` per pixel, chosen by gamma-corrected
/// Floyd–Steinberg error diffusion.
pub fn quantize(pixels: &Vec<Rgb>, width: usize) -> (r: Vec<u8>)
    requires
        width >= 1,
    ensures
        r@ == dithered_of(gamma_text(), palette_spec(), pixels@, width as nat),
        r@.len() == pixels@.len(),
        forall|i: int| 0 <= i < r@.len() ==> (r@[i] as int) < PALETTE_LEN,
{
    let pal = palette();
    remap_pixels("2.3", &pal, pixels, width)
}

/// Law: quantization is deterministic. Two quantizations of the same
/// pixel grid under the same palette and gamma yield the same indices.
pub proof fn lemma_quantize_deterministic(a: Seq<u8>, b: Seq<u8>, pixels: Seq<Rgb>, width: nat)
    requires
        a == dithered_of(gamma_text(), palette_spec(), pixels, width),
        b == dithered_of(gamma_text(), palette_spec(), pixels, width),
    ensures
        a == b,
{
}

/// The failure of the conversion stage: the grid decoded, but not to
/// the fixed resolution the display needs.
#[derive(Debug, Clone, Copy, PartialEq, Eq, Structural)]
pub enum DitherError {
    WrongDimensions { width: usize, height: usize },
}

/// Converts one decoded image to its binary form: checks the fixed
/// resolution, quantizes, and packs two palette indices per byte. Every
/// grid of exactly 600 x 448 pixels converts; any other size is
/// rejected with its offending dimensions.
pub fn dither_image(pixels: &Vec<Rgb>, width: usize, height: usize) -> (r: Result<
    Vec<u8>,
    DitherError,
>)
    requires
        pixels@.len() == width * height,
    ensures
        match r {
            Ok(bytes) => {
                &&& width == IMAGE_WIDTH
                &&& height == IMAGE_HEIGHT
                &&& bytes@ == pack_spec(
                    dithered_of(gamma_text(), palette_spec(), pixels@, IMAGE_WIDTH as nat),
                )
                &&& bytes@.len() == (IMAGE_WIDTH * IMAGE_HEIGHT) / 2
            },
            Err(e) => {
                &&& !(width == IMAGE_WIDTH && height == IMAGE_HEIGHT)
                &&& e == (DitherError::WrongDimensions { width, height })
            },
        },
{
    if width != IMAGE_WIDTH || height != IMAGE_HEIGHT {
        return Err(DitherError::WrongDimensions { width, height });
    }
    let indices = quantize(pixels, width);
    Ok(pack_indices(&indices))
}

} // verus!
