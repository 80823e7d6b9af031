//! Edge darkening: the mask is expanded into an inverted RGBA image,
//! blurred by the external filter collaborator, and each blurred pixel is
//! classified into a semi-opaque band hugging the region boundary.

use vstd::prelude::*;
use crate::grid::{Rgba8, ImageGrid, GrayGrid, opaque_black, opaque_white};

verus! {

/// A grayscale mask expanded to RGBA and inverted: a cell of value `g`
/// becomes the opaque pixel `(255 - g, 255 - g, 255 - g, 255)`.
pub open spec fn inverted_rgba(m: Seq<u8>) -> Seq<Rgba8> {
    Seq::new(
        m.len(),
        |i: int| Rgba8 {
            r: (255 - m[i]) as u8,
            g: (255 - m[i]) as u8,
            b: (255 - m[i]) as u8,
            a: 255,
        },
    )
}

/// What the external Gaussian blur returns for the given pixels and
/// dimensions, at the fixed radius used for edge darkening.
pub uninterp spec fn blur_of(pixels: Seq<Rgba8>, w: int, h: int) -> Seq<Rgba8>;

/// Relies on image::imageops::blur: a Gaussian blur that keeps the
/// image's dimensions, whose result is a function of the pixel data and
/// the dimensions alone.
#[verifier::external_body]
fn blur_rgba(img: &ImageGrid) -> (r: ImageGrid)
    requires
        img.wf(),
        img.width <= u32::MAX as usize,
        img.height <= u32::MAX as usize,
    ensures
        r.wf(),
        r.width == img.width,
        r.height == img.height,
        r.data@ == blur_of(img.data@, img.width as int, img.height as int),
{
    let raw: Vec<u8> = img.data.iter().flat_map(|p| [p.r, p.g, p.b, p.a]).collect();
    let buf = image::RgbaImage::from_raw(img.width as u32, img.height as u32, raw).unwrap();
    let out = image::imageops::blur(&buf, 2u8.into());
    let data: Vec<Rgba8> = out
        .into_raw()
        .chunks_exact(4)
        .map(|c| Rgba8 { r: c[0], g: c[1], b: c[2], a: c[3] })
        .collect();
    ImageGrid { width: img.width, height: img.height, data }
}

/// Expands a mask into the inverted opaque RGBA image that feeds the
/// blur: value `g` becomes `(255 - g, 255 - g, 255 - g, 255)`.
#[verifier::loop_isolation(false)]
pub fn mask_to_inverted_rgba(mask: &GrayGrid) -> (r: ImageGrid)
    requires
        mask.wf(),
    ensures
        r.wf(),
        r.width == mask.width,
        r.height == mask.height,
        r.data@ == inverted_rgba(mask.data@),
{
    let n = mask.data.len();
    let mut data: Vec<Rgba8> = Vec::new();
    let mut i: usize = 0;
    while i < n
        invariant
            i <= n,
            data@.len() == i as int,
            forall|q: int| 0 <= q < i as int ==> data@[q] == inverted_rgba(mask.data@)[q],
        decreases n - i,
    {
        let g = 255u8 - mask.data[i];
        data.push(Rgba8 { r: g, g: g, b: g, a: 255 });
        i = i + 1;
    }
    proof {
        assert(data@ =~= inverted_rgba(mask.data@));
    }
    ImageGrid { width: mask.width, height: mask.height, data }
}

/// Opacity of the darkened band around a region's edge.
pub const EDGE_ALPHA: u8 = 150;

/// The classification of one blurred pixel against the source mask:
/// pure black or pure white pixels become fully transparent, as do cells
/// that were background in the mask; everything else keeps its blurred
/// color under the fixed band alpha.
pub open spec fn edge_pixel(b: Rgba8, m: u8) -> Rgba8 {
    if b == opaque_black() || b == opaque_white() {
        Rgba8 { r: b.r, g: b.g, b: b.b, a: 0 }
    } else if m == 255u8 {
        Rgba8 { r: b.r, g: b.g, b: b.b, a: 0 }
    } else {
        Rgba8 { r: b.r, g: b.g, b: b.b, a: EDGE_ALPHA }
    }
}

/// Classifies every pixel of a blurred image against the source mask,
/// as `edge_pixel` states.
#[verifier::loop_isolation(false)]
pub fn classify_edge_pixels(blurred: &ImageGrid, mask: &GrayGrid) -> (r: ImageGrid)
    requires
        blurred.wf(),
        mask.wf(),
        mask.width == blurred.width,
        mask.height == blurred.height,
    ensures
        r.wf(),
        r.width == blurred.width,
        r.height == blurred.height,
        forall|i: int| 0 <= i < r.data@.len()
            ==> r.data@[i] == edge_pixel(blurred.data@[i], mask.data@[i]),
{
    let n = blurred.data.len();
    let mut data: Vec<Rgba8> = Vec::new();
    let mut i: usize = 0;
    while i < n
        invariant
            i <= n,
            data@.len() == i as int,
            mask.data@.len() == n as int,
            forall|q: int| 0 <= q < i as int
                ==> data@[q] == edge_pixel(blurred.data@[q], mask.data@[q]),
        decreases n - i,
    {
        let b = blurred.data[i];
        let m = mask.data[i];
        let a: u8 = if (b == Rgba8 { r: 0, g: 0, b: 0, a: 255 })
            || (b == Rgba8 { r: 255, g: 255, b: 255, a: 255 }) {
            0u8
        } else if m == 255u8 {
            0u8
        } else {
            EDGE_ALPHA
        };
        data.push(Rgba8 { r: b.r, g: b.g, b: b.b, a });
        i = i + 1;
    }
    ImageGrid { width: blurred.width, height: blurred.height, data }
}

/// Builds the soft edge-darkening band of a mask: the mask is expanded
/// to an inverted RGBA image, blurred by the external collaborator, and
/// each blurred pixel is classified — pure black or pure white pixels
/// and background cells of the source mask become fully transparent,
/// every other pixel keeps its blurred color at the fixed band alpha.
pub fn generate_edge_darkening_from_mask(mask: &GrayGrid) -> (r: ImageGrid)
    requires
        mask.wf(),
        mask.width <= u32::MAX as usize,
        mask.height <= u32::MAX as usize,
    ensures
        r.wf(),
        r.width == mask.width,
        r.height == mask.height,
        forall|i: int| 0 <= i < r.data@.len()
            ==> r.data@[i] == edge_pixel(
                blur_of(inverted_rgba(mask.data@), mask.width as int, mask.height as int)[i],
                mask.data@[i],
            ),
{
    let inv = mask_to_inverted_rgba(mask);
    let blurred = blur_rgba(&inv);
    classify_edge_pixels(&blurred, mask)
}

} // verus!
