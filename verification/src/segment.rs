//! Exact-color segmentation: a raster scan labels every pixel by exact
//! color equality against a palette collected in first-discovery order,
//! and each color whose region is large enough keeps a binary mask.

use vstd::prelude::*;
use crate::grid::{Rgba8, ImageGrid, GrayGrid};

verus! {

/// Default minimum number of pixels for a region to be retained.
pub const DEFAULT_AREA_THRESHOLD: usize = 1000;

/// The palette of a pixel sequence: its distinct colors, in the order in
/// which a raster scan first discovers them.
pub open spec fn palette(s: Seq<Rgba8>) -> Seq<Rgba8>
    decreases s.len(),
{
    if s.len() == 0 {
        Seq::empty()
    } else {
        let p = palette(s.drop_last());
        if p.contains(s.last()) {
            p
        } else {
            p.push(s.last())
        }
    }
}

/// Number of cells of `s` holding exactly the color `c`.
pub open spec fn count_color(s: Seq<Rgba8>, c: Rgba8) -> nat
    decreases s.len(),
{
    if s.len() == 0 {
        0
    } else {
        count_color(s.drop_last(), c) + (if s.last() == c { 1nat } else { 0nat })
    }
}

/// The first `n` palette entries whose pixel count reaches the area
/// threshold `t`, in palette order.
pub open spec fn retained_upto(s: Seq<Rgba8>, p: Seq<Rgba8>, t: nat, n: nat) -> Seq<Rgba8>
    decreases n,
{
    if n == 0 {
        Seq::empty()
    } else {
        let prev = retained_upto(s, p, t, (n - 1) as nat);
        if count_color(s, p[n - 1]) >= t {
            prev.push(p[n - 1])
        } else {
            prev
        }
    }
}

/// The palette entries whose regions hold at least `t` pixels, in
/// discovery order.
pub open spec fn retained_palette(s: Seq<Rgba8>, t: nat) -> Seq<Rgba8> {
    retained_upto(s, palette(s), t, palette(s).len())
}

/// The binary mask of a color: 0 (member) on cells of exactly that color,
/// 255 (background) elsewhere.
pub open spec fn color_mask(s: Seq<Rgba8>, c: Rgba8) -> Seq<u8> {
    Seq::new(s.len(), |i: int| if s[i] == c { 0u8 } else { 255u8 })
}

/// No color occurs twice in a sequence.
pub open spec fn all_distinct(p: Seq<Rgba8>) -> bool {
    forall|i: int, j: int| 0 <= i < j < p.len() ==> p[i] != p[j]
}

/// Every pixel's color stands in the palette.
pub proof fn lemma_palette_complete(s: Seq<Rgba8>, i: int)
    requires
        0 <= i < s.len(),
    ensures
        palette(s).contains(s[i]),
    decreases s.len(),
{
    let p = palette(s.drop_last());
    if i == s.len() - 1 {
        if p.contains(s.last()) {
        } else {
            assert(p.push(s.last())[p.len() as int] == s.last());
        }
    } else {
        lemma_palette_complete(s.drop_last(), i);
        assert(s.drop_last()[i] == s[i]);
        let j = choose|j: int| 0 <= j < p.len() && p[j] == s[i];
        if p.contains(s.last()) {
            assert(palette(s)[j] == s[i]);
        } else {
            assert(p.push(s.last())[j] == s[i]);
        }
    }
}

/// Palette entries are pairwise distinct: each pixel has exactly one label.
pub proof fn lemma_palette_distinct(s: Seq<Rgba8>)
    ensures
        all_distinct(palette(s)),
    decreases s.len(),
{
    if s.len() == 0 {
    } else {
        lemma_palette_distinct(s.drop_last());
        let p = palette(s.drop_last());
        if p.contains(s.last()) {
        } else {
            assert forall|i: int, j: int| 0 <= i < j < palette(s).len()
                implies palette(s)[i] != palette(s)[j] by {
                if j == p.len() {
                    if palette(s)[i] == s.last() {
                        assert(p[i] == s.last());
                        assert(p.contains(s.last()));
                    }
                } else {
                    assert(palette(s)[i] == p[i] && palette(s)[j] == p[j]);
                }
            }
        }
    }
}

/// A color absent from a sequence has pixel count zero there.
pub proof fn lemma_count_color_absent(s: Seq<Rgba8>, c: Rgba8)
    requires
        !s.contains(c),
    ensures
        count_color(s, c) == 0,
    decreases s.len(),
{
    if s.len() > 0 {
        assert forall|i: int| 0 <= i < s.drop_last().len()
            implies s.drop_last()[i] != c by {
            assert(s.drop_last()[i] == s[i]);
        }
        lemma_count_color_absent(s.drop_last(), c);
        assert(s[s.len() - 1] != c);
    }
}

/// Appending one pixel raises exactly that color's count by one.
pub proof fn lemma_count_color_push(s: Seq<Rgba8>, c: Rgba8, e: Rgba8)
    ensures
        count_color(s.push(c), e) == count_color(s, e) + (if e == c { 1nat } else { 0nat }),
{
    assert(s.push(c).drop_last() =~= s);
    assert(s.push(c).last() == c);
}

/// Sum of the pixel counts of the colors of `p` over the image `s`.
pub open spec fn sum_counts(p: Seq<Rgba8>, s: Seq<Rgba8>) -> nat
    decreases p.len(),
{
    if p.len() == 0 {
        0
    } else {
        sum_counts(p.drop_last(), s) + count_color(s, p.last())
    }
}

proof fn lemma_sum_counts_push_pixel(p: Seq<Rgba8>, s: Seq<Rgba8>, c: Rgba8)
    requires
        all_distinct(p),
    ensures
        sum_counts(p, s.push(c))
            == sum_counts(p, s) + (if p.contains(c) { 1nat } else { 0nat }),
    decreases p.len(),
{
    if p.len() == 0 {
        if p.contains(c) {
            let i = choose|i: int| 0 <= i < p.len() && p[i] == c;
            assert(false);
        }
    } else {
        let p0 = p.drop_last();
        assert(all_distinct(p0)) by {
            assert forall|i: int, j: int| 0 <= i < j < p0.len()
                implies p0[i] != p0[j] by {
                assert(p0[i] == p[i] && p0[j] == p[j]);
            }
        }
        lemma_sum_counts_push_pixel(p0, s, c);
        lemma_count_color_push(s, c, p.last());
        if p.last() == c {
            // Distinctness keeps the last entry out of the front part.
            if p0.contains(c) {
                let i = choose|i: int| 0 <= i < p0.len() && p0[i] == c;
                assert(p[i] == c && p[p.len() - 1] == c);
                assert(false);
            }
            assert(p.contains(c)) by {
                assert(p[p.len() - 1] == c);
            }
        } else {
            if p.contains(c) {
                let i = choose|i: int| 0 <= i < p.len() && p[i] == c;
                assert(p0[i] == c);
                assert(p0.contains(c));
            } else {
                if p0.contains(c) {
                    let i = choose|i: int| 0 <= i < p0.len() && p0[i] == c;
                    assert(p[i] == c);
                }
            }
        }
    }
}

/// Segmentation partitions the image before filtering: the pixel counts
/// of the palette's labels sum to the number of pixels, every pixel
/// having exactly one label.
pub proof fn lemma_segmentation_partition(s: Seq<Rgba8>)
    ensures
        sum_counts(palette(s), s) == s.len(),
    decreases s.len(),
{
    if s.len() == 0 {
    } else {
        let s0 = s.drop_last();
        let c = s.last();
        lemma_segmentation_partition(s0);
        lemma_palette_distinct(s0);
        let p0 = palette(s0);
        assert(s =~= s0.push(c));
        if p0.contains(c) {
            assert(palette(s) == p0);
            lemma_sum_counts_push_pixel(p0, s0, c);
        } else {
            assert(palette(s) == p0.push(c));
            lemma_sum_counts_push_pixel(p0, s0, c);
            assert(sum_counts(p0.push(c), s) == sum_counts(p0, s) + count_color(s, c)) by {
                assert(p0.push(c).drop_last() =~= p0);
                assert(p0.push(c).last() == c);
            }
            if s0.contains(c) {
                let i = choose|i: int| 0 <= i < s0.len() && s0[i] == c;
                lemma_palette_complete(s0, i);
                assert(false);
            }
            lemma_count_color_absent(s0, c);
            lemma_count_color_push(s0, c, c);
        }
    }
}

/// The segmentation contract pins its output as a function of the image
/// alone, so repeated runs agree bit for bit.
pub proof fn lemma_segmentation_deterministic(
    s: Seq<Rgba8>,
    t: nat,
    p1: Seq<Rgba8>,
    p2: Seq<Rgba8>,
)
    requires
        p1 == retained_palette(s, t),
        p2 == retained_palette(s, t),
    ensures
        p1 == p2,
{
}

/// Whether a collected palette already holds the color `c`.
fn palette_holds(pal: &Vec<Rgba8>, c: Rgba8) -> (r: bool)
    ensures
        r == pal@.contains(c),
{
    let mut k: usize = 0;
    while k < pal.len()
        invariant
            k <= pal@.len(),
            forall|q: int| 0 <= q < k as int ==> pal@[q] != c,
        decreases pal@.len() - k,
    {
        if pal[k] == c {
            return true;
        }
        k = k + 1;
    }
    false
}

/// Labels every pixel by exact color equality in one raster scan,
/// collecting the palette in first-discovery order; returns the colors
/// whose regions hold at least `area_threshold` pixels, each with its
/// binary mask (0 on the region, 255 elsewhere), in discovery order.
/// Pixels of discarded colors appear in no returned mask.
#[verifier::loop_isolation(false)]
pub fn segment_by_color(img: &ImageGrid, area_threshold: usize) -> (r: (Vec<Rgba8>, Vec<GrayGrid>))
    requires
        img.wf(),
    ensures
        r.0@ == retained_palette(img.data@, area_threshold as nat),
        r.1@.len() == r.0@.len(),
        forall|m: int| 0 <= m < r.1@.len() ==> (#[trigger] r.1@[m]).wf()
            && r.1@[m].width == img.width
            && r.1@[m].height == img.height
            && r.1@[m].data@ == color_mask(img.data@, r.0@[m]),
{
    let ghost s = img.data@;
    let n = img.data.len();

    // First pass: collect the palette in discovery order.
    let mut pal: Vec<Rgba8> = Vec::new();
    let mut i: usize = 0;
    while i < n
        invariant
            i <= n,
            n == s.len(),
            s == img.data@,
            pal@ == palette(s.take(i as int)),
        decreases n - i,
    {
        let c = img.data[i];
        let seen = palette_holds(&pal, c);
        proof {
            assert(s.take(i as int + 1).drop_last() =~= s.take(i as int));
            assert(s.take(i as int + 1).last() == s[i as int]);
        }
        if !seen {
            pal.push(c);
        }
        i = i + 1;
    }
    proof {
        assert(s.take(n as int) =~= s);
    }

    // Second pass: count each label's pixels and keep the large regions.
    let ghost t = area_threshold as nat;
    let mut colors: Vec<Rgba8> = Vec::new();
    let mut masks: Vec<GrayGrid> = Vec::new();
    let mut j: usize = 0;
    while j < pal.len()
        invariant
            j <= pal@.len(),
            n == s.len(),
            s == img.data@,
            img.wf(),
            pal@ == palette(s),
            colors@ == retained_upto(s, pal@, t, j as nat),
            masks@.len() == colors@.len(),
            forall|m: int| 0 <= m < masks@.len() ==> (#[trigger] masks@[m]).wf()
                && masks@[m].width == img.width
                && masks@[m].height == img.height
                && masks@[m].data@ == color_mask(s, colors@[m]),
        decreases pal@.len() - j,
    {
        let c = pal[j];
        let mut count: usize = 0;
        let mut i2: usize = 0;
        while i2 < n
            invariant
                i2 <= n,
                n == s.len(),
                s == img.data@,
                count <= i2,
                count as nat == count_color(s.take(i2 as int), c),
            decreases n - i2,
        {
            proof {
                assert(s.take(i2 as int + 1).drop_last() =~= s.take(i2 as int));
                assert(s.take(i2 as int + 1).last() == s[i2 as int]);
            }
            if img.data[i2] == c {
                count = count + 1;
            }
            i2 = i2 + 1;
        }
        proof {
            assert(s.take(n as int) =~= s);
        }
        if count >= area_threshold {
            let mut mdata: Vec<u8> = Vec::new();
            let mut i3: usize = 0;
            while i3 < n
                invariant
                    i3 <= n,
                    n == s.len(),
                    s == img.data@,
                    mdata@.len() == i3 as int,
                    forall|q: int| 0 <= q < i3 as int
                        ==> mdata@[q] == (if s[q] == c { 0u8 } else { 255u8 }),
                decreases n - i3,
            {
                if img.data[i3] == c {
                    mdata.push(0u8);
                } else {
                    mdata.push(255u8);
                }
                i3 = i3 + 1;
            }
            proof {
                assert(mdata@ =~= color_mask(s, c));
            }
            colors.push(c);
            masks.push(GrayGrid { width: img.width, height: img.height, data: mdata });
            proof {
                assert(count_color(s, pal@[j as int]) >= t);
                assert(colors@ == retained_upto(s, pal@, t, j as nat).push(pal@[j as int]));
                assert(colors@ =~= retained_upto(s, pal@, t, j as nat + 1));
            }
        } else {
            proof {
                assert(count_color(s, pal@[j as int]) < t);
                assert(colors@ =~= retained_upto(s, pal@, t, j as nat + 1));
            }
        }
        j = j + 1;
    }
    (colors, masks)
}

/// Segmentation at the default area threshold.
pub fn create_masks(img: &ImageGrid) -> (r: (Vec<Rgba8>, Vec<GrayGrid>))
    requires
        img.wf(),
    ensures
        r.0@ == retained_palette(img.data@, DEFAULT_AREA_THRESHOLD as nat),
        r.1@.len() == r.0@.len(),
        forall|m: int| 0 <= m < r.1@.len() ==> (#[trigger] r.1@[m]).wf()
            && r.1@[m].width == img.width
            && r.1@[m].height == img.height
            && r.1@[m].data@ == color_mask(img.data@, r.0@[m]),
{
    segment_by_color(img, DEFAULT_AREA_THRESHOLD)
}

} // verus!
