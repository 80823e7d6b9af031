//! Mask construction and application: the hard distance threshold, the
//! probabilistic near-border whitening policy with its injectable random
//! source, in-place masking, grayscale thresholding, and mask tinting.

use vstd::prelude::*;
use crate::grid::{Rgba8, ImageGrid, GrayGrid, DistanceField, opaque_white};

verus! {

/// The hard-threshold policy: a cell is a member (near the border)
/// exactly when its distance is known and below `max_distance`.
pub open spec fn mask_member(d: i32, max_distance: i32) -> bool {
    0 <= d < max_distance
}

/// The mask byte of a cell: 0 for a member, 255 for background.
pub open spec fn mask_value(d: i32, max_distance: i32) -> u8 {
    if mask_member(d, max_distance) { 0u8 } else { 255u8 }
}

/// Raising the distance threshold only adds members, never removes them:
/// the member set of a mask at `d1` is contained in the member set at
/// `d2` whenever `d1 <= d2`, over any distance field.
pub proof fn lemma_mask_monotone(dists: Seq<i32>, d1: i32, d2: i32)
    requires
        d1 <= d2,
    ensures
        forall|i: int| 0 <= i < dists.len() && #[trigger] mask_member(dists[i], d1)
            ==> mask_member(dists[i], d2),
{
}

/// Thresholds a distance field into a binary mask: member (0) where the
/// distance is known and below `max_distance`, background (255)
/// elsewhere. The image argument supplies the dimensions the mask must
/// share.
#[verifier::loop_isolation(false)]
pub fn create_mask(img: &ImageGrid, max_distance: i32, distances: &DistanceField) -> (r: GrayGrid)
    requires
        img.wf(),
        distances.wf(),
        distances.width == img.width,
        distances.height == img.height,
    ensures
        r.wf(),
        r.width == img.width,
        r.height == img.height,
        forall|i: int| 0 <= i < r.data@.len()
            ==> r.data@[i] == mask_value(distances.data@[i], max_distance),
{
    let n = distances.data.len();
    let mut data: Vec<u8> = Vec::new();
    let mut i: usize = 0;
    while i < n
        invariant
            i <= n,
            data@.len() == i as int,
            forall|q: int| 0 <= q < i as int
                ==> data@[q] == mask_value(distances.data@[q], max_distance),
        decreases n - i,
    {
        let d = distances.data[i];
        if 0 <= d && d < max_distance {
            data.push(0u8);
        } else {
            data.push(255u8);
        }
        i = i + 1;
    }
    GrayGrid { width: img.width, height: img.height, data }
}

/// Forces every member cell (mask byte 0) to opaque white in place;
/// every other pixel is left byte-for-byte unchanged. The mask must have
/// the image's dimensions: a mismatch is a caller bug, so it is ruled
/// out rather than handled.
#[verifier::loop_isolation(false)]
pub fn apply_mask(img: &mut ImageGrid, mask: &GrayGrid)
    requires
        old(img).wf(),
        mask.wf(),
        mask.width == old(img).width,
        mask.height == old(img).height,
    ensures
        final(img).wf(),
        final(img).width == old(img).width,
        final(img).height == old(img).height,
        forall|i: int| 0 <= i < final(img).data@.len()
            ==> final(img).data@[i] == (
                if mask.data@[i] == 0u8 { opaque_white() } else { old(img).data@[i] }),
{
    let n = img.data.len();
    let mut i: usize = 0;
    while i < n
        invariant
            i <= n,
            img.wf(),
            img.width == old(img).width,
            img.height == old(img).height,
            img.data@.len() == n as int,
            forall|q: int| 0 <= q < i as int
                ==> img.data@[q] == (
                    if mask.data@[q] == 0u8 { opaque_white() } else { old(img).data@[q] }),
            forall|q: int| i as int <= q < n as int ==> img.data@[q] == old(img).data@[q],
        decreases n - i,
    {
        if mask.data[i] == 0u8 {
            img.data.set(i, Rgba8 { r: 255, g: 255, b: 255, a: 255 });
        }
        i = i + 1;
    }
}

/// Snaps a grayscale grid to two levels in place: values above the
/// threshold become 255, all others 0.
#[verifier::loop_isolation(false)]
pub fn apply_threshold_on_grey(img: &mut GrayGrid, threshold_value: u8)
    requires
        old(img).wf(),
    ensures
        final(img).wf(),
        final(img).width == old(img).width,
        final(img).height == old(img).height,
        forall|i: int| 0 <= i < final(img).data@.len()
            ==> final(img).data@[i] == (
                if old(img).data@[i] > threshold_value { 255u8 } else { 0u8 }),
{
    let n = img.data.len();
    let mut i: usize = 0;
    while i < n
        invariant
            i <= n,
            img.wf(),
            img.width == old(img).width,
            img.height == old(img).height,
            img.data@.len() == n as int,
            forall|q: int| 0 <= q < i as int
                ==> img.data@[q] == (
                    if old(img).data@[q] > threshold_value { 255u8 } else { 0u8 }),
            forall|q: int| i as int <= q < n as int ==> img.data@[q] == old(img).data@[q],
        decreases n - i,
    {
        if img.data[i] > threshold_value {
            img.data.set(i, 255u8);
        } else {
            img.data.set(i, 0u8);
        }
        i = i + 1;
    }
}

/// One xorshift step of the dither generator.
pub open spec fn xorshift_step(s0: u64) -> u64 {
    let a = s0 ^ (s0 << 13u64);
    let b = a ^ (a >> 7u64);
    b ^ (b << 17u64)
}

/// The generator's state after `k` draws from seed `s0`.
pub open spec fn rng_after(s0: u64, k: nat) -> u64
    decreases k,
{
    if k == 0 {
        s0
    } else {
        xorshift_step(rng_after(s0, (k - 1) as nat))
    }
}

/// The coin handed out by the `k`-th draw (counted from 0): the low bit
/// of the state after `k + 1` steps.
pub open spec fn coin_value(s0: u64, k: nat) -> bool {
    rng_after(s0, k + 1) & 1u64 == 1u64
}

/// A small seedable xorshift generator: the injectable random source of
/// the probabilistic whitening policy, reproducible from its seed.
pub struct DitherRng {
    pub state: u64,
}

impl DitherRng {
    pub fn new(seed: u64) -> (r: DitherRng)
        ensures
            r.state == seed,
    {
        DitherRng { state: seed }
    }

    /// Advances the generator one step and returns its coin, the low bit
    /// of the new state.
    pub fn next_bool(&mut self) -> (r: bool)
        ensures
            final(self).state == xorshift_step(old(self).state),
            r == (xorshift_step(old(self).state) & 1u64 == 1u64),
    {
        let s0 = self.state;
        let a = s0 ^ (s0 << 13u64);
        let b = a ^ (a >> 7u64);
        let s1 = b ^ (b << 17u64);
        self.state = s1;
        s1 & 1u64 == 1u64
    }
}

/// The gap between the distance threshold and a cell's distance; the
/// whitening policy acts on cells whose gap is positive.
pub open spec fn dither_gap(d: i32, max_distance: i32) -> int {
    max_distance - d
}

/// Number of dither coins consumed over the first `i` cells: one per
/// cell whose gap is exactly 1.
pub open spec fn coins_before(dists: Seq<i32>, max_distance: i32, i: int) -> nat
    decreases i,
{
    if i <= 0 {
        0
    } else {
        coins_before(dists, max_distance, i - 1)
            + (if dither_gap(dists[i - 1], max_distance) == 1 { 1nat } else { 0nat })
    }
}

/// Whitens pixels near the border in place, with a dithered edge: a cell
/// whose gap to the threshold exceeds 1 is always whitened, a cell whose
/// gap is exactly 1 is whitened on a coin from the injected generator
/// (softening the outermost ring), and every other cell is unchanged.
#[verifier::loop_isolation(false)]
pub fn whiten_near_border(
    img: &mut ImageGrid,
    max_distance: i32,
    distances: &DistanceField,
    rng: &mut DitherRng,
)
    requires
        old(img).wf(),
        distances.wf(),
        distances.width == old(img).width,
        distances.height == old(img).height,
    ensures
        final(img).wf(),
        final(img).width == old(img).width,
        final(img).height == old(img).height,
        forall|i: int| 0 <= i < final(img).data@.len()
            ==> final(img).data@[i] == (
                if dither_gap(distances.data@[i], max_distance) > 1 {
                    opaque_white()
                } else if dither_gap(distances.data@[i], max_distance) == 1 {
                    if coin_value(old(rng).state, coins_before(distances.data@, max_distance, i)) {
                        opaque_white()
                    } else {
                        old(img).data@[i]
                    }
                } else {
                    old(img).data@[i]
                }),
        final(rng).state == rng_after(
            old(rng).state,
            coins_before(distances.data@, max_distance, final(img).data@.len() as int),
        ),
{
    let n = img.data.len();
    let ghost s0 = rng.state;
    let ghost dd = distances.data@;
    let mut i: usize = 0;
    while i < n
        invariant
            i <= n,
            img.wf(),
            img.width == old(img).width,
            img.height == old(img).height,
            img.data@.len() == n as int,
            rng.state == rng_after(s0, coins_before(dd, max_distance, i as int)),
            forall|q: int| 0 <= q < i as int
                ==> img.data@[q] == (
                    if dither_gap(dd[q], max_distance) > 1 {
                        opaque_white()
                    } else if dither_gap(dd[q], max_distance) == 1 {
                        if coin_value(s0, coins_before(dd, max_distance, q)) {
                            opaque_white()
                        } else {
                            old(img).data@[q]
                        }
                    } else {
                        old(img).data@[q]
                    }),
            forall|q: int| i as int <= q < n as int ==> img.data@[q] == old(img).data@[q],
        decreases n - i,
    {
        let d = distances.data[i];
        let g = max_distance as i64 - d as i64;
        proof {
            assert(g as int == dither_gap(dd[i as int], max_distance));
        }
        if g > 1 {
            img.data.set(i, Rgba8 { r: 255, g: 255, b: 255, a: 255 });
        } else if g == 1 {
            let coin = rng.next_bool();
            proof {
                assert(coins_before(dd, max_distance, i as int + 1)
                    == coins_before(dd, max_distance, i as int) + 1);
                assert(rng.state == rng_after(s0, coins_before(dd, max_distance, i as int + 1)));
                assert(coin == coin_value(s0, coins_before(dd, max_distance, i as int)));
            }
            if coin {
                img.data.set(i, Rgba8 { r: 255, g: 255, b: 255, a: 255 });
            }
        }
        proof {
            if dither_gap(dd[i as int], max_distance) != 1 {
                assert(coins_before(dd, max_distance, i as int + 1)
                    == coins_before(dd, max_distance, i as int));
            }
        }
        i = i + 1;
    }
}

/// Full opacity scaled to 70%: the fixed alpha of a tinted region.
pub const TINT_ALPHA: u8 = 178;

/// The tint color laid over a region: the given color at the fixed alpha.
pub open spec fn tinted(pixel: Rgba8) -> Rgba8 {
    Rgba8 { r: pixel.r, g: pixel.g, b: pixel.b, a: TINT_ALPHA }
}

/// Fully transparent white, the background of a tinted mask image.
pub open spec fn transparent_white() -> Rgba8 {
    Rgba8 { r: 255, g: 255, b: 255, a: 0 }
}

/// Turns a mask into an image: background cells (mask byte 255) become
/// transparent white, every other cell the given color at the fixed
/// 70% alpha.
#[verifier::loop_isolation(false)]
pub fn transform_mask_into_image(mask: &GrayGrid, pixel: Rgba8) -> (r: ImageGrid)
    requires
        mask.wf(),
    ensures
        r.wf(),
        r.width == mask.width,
        r.height == mask.height,
        forall|i: int| 0 <= i < r.data@.len()
            ==> r.data@[i] == (
                if mask.data@[i] == 255u8 { transparent_white() } else { tinted(pixel) }),
{
    let n = mask.data.len();
    let mut data: Vec<Rgba8> = Vec::new();
    let mut i: usize = 0;
    while i < n
        invariant
            i <= n,
            data@.len() == i as int,
            forall|q: int| 0 <= q < i as int
                ==> data@[q] == (
                    if mask.data@[q] == 255u8 { transparent_white() } else { tinted(pixel) }),
        decreases n - i,
    {
        if mask.data[i] == 255u8 {
            data.push(Rgba8 { r: 255, g: 255, b: 255, a: 0 });
        } else {
            data.push(Rgba8 { r: pixel.r, g: pixel.g, b: pixel.b, a: TINT_ALPHA });
        }
        i = i + 1;
    }
    ImageGrid { width: mask.width, height: mask.height, data }
}

} // verus!
