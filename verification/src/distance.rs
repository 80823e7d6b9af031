//! The border-distance transform: every cell's exact 4-connectivity
//! distance to the nearest border cell, where a border cell is a pixel
//! with a differently colored 4-neighbor.
//!
//! On an unobstructed grid the multi-source breadth-first distance equals
//! the least Manhattan distance to any border cell, so the specification
//! is stated as that minimum, and the full-grid wavefront sweeps are
//! proved to compute it layer by layer.

use vstd::prelude::*;
use vstd::arithmetic::div_mod::lemma_fundamental_div_mod_converse;
use crate::grid::{
    Rgba8, ImageGrid, DistanceField, flat_idx, in_bounds, lemma_flat_idx_bound,
    lemma_flat_idx_injective,
};

verus! {

/// A cell adjacent (4-connectivity) to a differently colored cell; such
/// cells seed the distance transform at distance 0.
pub open spec fn is_border_cell(s: Seq<Rgba8>, w: int, h: int, x: int, y: int) -> bool {
    in_bounds(w, h, x, y) && (
        (x + 1 < w && s[flat_idx(w, x, y)] != s[flat_idx(w, x + 1, y)])
        || (0 <= x - 1 && s[flat_idx(w, x, y)] != s[flat_idx(w, x - 1, y)])
        || (y + 1 < h && s[flat_idx(w, x, y)] != s[flat_idx(w, x, y + 1)])
        || (0 <= y - 1 && s[flat_idx(w, x, y)] != s[flat_idx(w, x, y - 1)])
    )
}

/// The image has at least one color transition.
pub open spec fn has_border(s: Seq<Rgba8>, w: int, h: int) -> bool {
    exists|bx: int, by: int| is_border_cell(s, w, h, bx, by)
}

pub open spec fn abs_val(a: int) -> int {
    if a < 0 { -a } else { a }
}

/// Manhattan distance between two cells.
pub open spec fn manhattan(x1: int, y1: int, x2: int, y2: int) -> int {
    abs_val(x1 - x2) + abs_val(y1 - y2)
}

/// Least Manhattan distance from `(x, y)` to a border cell among the
/// cells with flat index below `n`; `w + h` when none of them is a
/// border cell (larger than any distance within the grid).
pub open spec fn min_dist_upto(s: Seq<Rgba8>, w: int, h: int, x: int, y: int, n: nat) -> int
    decreases n,
{
    if n == 0 {
        w + h
    } else {
        let bx = ((n - 1) as int) % w;
        let by = ((n - 1) as int) / w;
        let rest = min_dist_upto(s, w, h, x, y, (n - 1) as nat);
        if is_border_cell(s, w, h, bx, by) && manhattan(x, y, bx, by) < rest {
            manhattan(x, y, bx, by)
        } else {
            rest
        }
    }
}

/// Least Manhattan distance from `(x, y)` to any border cell of the
/// image; `w + h` when the image has no border cell.
pub open spec fn border_dist(s: Seq<Rgba8>, w: int, h: int, x: int, y: int) -> int {
    min_dist_upto(s, w, h, x, y, (w * h) as nat)
}

proof fn lemma_min_upto_nonneg(s: Seq<Rgba8>, w: int, h: int, x: int, y: int, n: nat)
    requires
        w >= 0,
        h >= 0,
    ensures
        min_dist_upto(s, w, h, x, y, n) >= 0,
    decreases n,
{
    if n > 0 {
        lemma_min_upto_nonneg(s, w, h, x, y, (n - 1) as nat);
    }
}

proof fn lemma_min_upto_le(s: Seq<Rgba8>, w: int, h: int, x: int, y: int, n: nat, bx: int, by: int)
    requires
        w >= 1,
        is_border_cell(s, w, h, bx, by),
        flat_idx(w, bx, by) < n,
    ensures
        min_dist_upto(s, w, h, x, y, n) <= manhattan(x, y, bx, by),
    decreases n,
{
    let f = flat_idx(w, bx, by);
    lemma_flat_idx_bound(w, h, bx, by);
    if f == n - 1 {
        lemma_fundamental_div_mod_converse(n - 1, w, by, bx);
        assert(((n - 1) as int) % w == bx);
        assert(((n - 1) as int) / w == by);
    } else {
        lemma_min_upto_le(s, w, h, x, y, (n - 1) as nat, bx, by);
    }
}

proof fn lemma_min_upto_witness(s: Seq<Rgba8>, w: int, h: int, x: int, y: int, n: nat)
    requires
        w >= 1,
        min_dist_upto(s, w, h, x, y, n) < w + h,
    ensures
        exists|bx: int, by: int|
            is_border_cell(s, w, h, bx, by)
                && manhattan(x, y, bx, by) == min_dist_upto(s, w, h, x, y, n),
    decreases n,
{
    if n == 0 {
        assert(false);
    } else {
        let bx = ((n - 1) as int) % w;
        let by = ((n - 1) as int) / w;
        let rest = min_dist_upto(s, w, h, x, y, (n - 1) as nat);
        if is_border_cell(s, w, h, bx, by) && manhattan(x, y, bx, by) < rest {
        } else {
            lemma_min_upto_witness(s, w, h, x, y, (n - 1) as nat);
        }
    }
}

/// The distance to the border is a lower bound on the Manhattan distance
/// to every border cell.
pub proof fn lemma_border_dist_le(s: Seq<Rgba8>, w: int, h: int, x: int, y: int, bx: int, by: int)
    requires
        w >= 1,
        h >= 1,
        is_border_cell(s, w, h, bx, by),
    ensures
        border_dist(s, w, h, x, y) <= manhattan(x, y, bx, by),
{
    lemma_flat_idx_bound(w, h, bx, by);
    lemma_min_upto_le(s, w, h, x, y, (w * h) as nat, bx, by);
}

/// When the image has a border, the distance to the border of a cell in
/// bounds is realized by some border cell, is nonnegative, and is at most
/// `(w - 1) + (h - 1)`.
pub proof fn lemma_border_dist_witness(s: Seq<Rgba8>, w: int, h: int, x: int, y: int)
    requires
        w >= 1,
        h >= 1,
        in_bounds(w, h, x, y),
        has_border(s, w, h),
    ensures
        exists|bx: int, by: int|
            is_border_cell(s, w, h, bx, by)
                && manhattan(x, y, bx, by) == border_dist(s, w, h, x, y),
        0 <= border_dist(s, w, h, x, y) <= (w - 1) + (h - 1),
{
    let (bx0, by0) = choose|bx: int, by: int| is_border_cell(s, w, h, bx, by);
    lemma_border_dist_le(s, w, h, x, y, bx0, by0);
    lemma_min_upto_nonneg(s, w, h, x, y, (w * h) as nat);
    assert(min_dist_upto(s, w, h, x, y, (w * h) as nat) < w + h);
    lemma_min_upto_witness(s, w, h, x, y, (w * h) as nat);
}

/// Triangle inequality: the border distance changes by at most the
/// Manhattan distance between the two cells.
pub proof fn lemma_border_dist_triangle(
    s: Seq<Rgba8>,
    w: int,
    h: int,
    x1: int,
    y1: int,
    x2: int,
    y2: int,
)
    requires
        w >= 1,
        h >= 1,
        in_bounds(w, h, x1, y1),
        has_border(s, w, h),
    ensures
        border_dist(s, w, h, x2, y2)
            <= border_dist(s, w, h, x1, y1) + manhattan(x1, y1, x2, y2),
{
    lemma_border_dist_witness(s, w, h, x1, y1);
    let (bx, by) = choose|bx: int, by: int|
        is_border_cell(s, w, h, bx, by)
            && manhattan(x1, y1, bx, by) == border_dist(s, w, h, x1, y1);
    lemma_border_dist_le(s, w, h, x2, y2, bx, by);
    assert(manhattan(x2, y2, bx, by) <= manhattan(x1, y1, x2, y2) + manhattan(x1, y1, bx, by));
}

/// A cell is a border cell exactly when the image has a border and the
/// cell's border distance is zero.
pub proof fn lemma_border_dist_zero(s: Seq<Rgba8>, w: int, h: int, x: int, y: int)
    requires
        w >= 1,
        h >= 1,
        in_bounds(w, h, x, y),
    ensures
        is_border_cell(s, w, h, x, y)
            <==> (has_border(s, w, h) && border_dist(s, w, h, x, y) == 0),
{
    if is_border_cell(s, w, h, x, y) {
        assert(has_border(s, w, h));
        lemma_border_dist_le(s, w, h, x, y, x, y);
        lemma_border_dist_witness(s, w, h, x, y);
    } else {
        if has_border(s, w, h) && border_dist(s, w, h, x, y) == 0 {
            lemma_border_dist_witness(s, w, h, x, y);
            let (bx, by) = choose|bx: int, by: int|
                is_border_cell(s, w, h, bx, by)
                    && manhattan(x, y, bx, by) == border_dist(s, w, h, x, y);
            assert(bx == x && by == y);
        }
    }
}

/// A cell at positive distance `d` has a 4-neighbor, in bounds, at
/// distance `d - 1`: the wavefront that reaches the neighbor reaches the
/// cell one sweep later.
pub proof fn lemma_border_dist_descent(s: Seq<Rgba8>, w: int, h: int, x: int, y: int)
    requires
        w >= 1,
        h >= 1,
        in_bounds(w, h, x, y),
        has_border(s, w, h),
        border_dist(s, w, h, x, y) >= 1,
    ensures
        exists|nx: int, ny: int|
            in_bounds(w, h, nx, ny)
                && manhattan(x, y, nx, ny) == 1
                && border_dist(s, w, h, nx, ny) == border_dist(s, w, h, x, y) - 1,
{
    let d = border_dist(s, w, h, x, y);
    lemma_border_dist_witness(s, w, h, x, y);
    let (bx, by) = choose|bx: int, by: int|
        is_border_cell(s, w, h, bx, by) && manhattan(x, y, bx, by) == d;
    let (nx, ny): (int, int) = if bx > x {
        (x + 1, y)
    } else if bx < x {
        (x - 1, y)
    } else if by > y {
        (x, y + 1)
    } else {
        (x, y - 1)
    };
    assert(in_bounds(w, h, nx, ny));
    assert(manhattan(x, y, nx, ny) == 1);
    assert(manhattan(nx, ny, bx, by) == d - 1);
    lemma_border_dist_le(s, w, h, nx, ny, bx, by);
    lemma_border_dist_triangle(s, w, h, nx, ny, x, y);
    assert(border_dist(s, w, h, nx, ny) == d - 1);
}

/// Every distance value below a realized one is realized as well: the
/// layers of the wavefront have no gaps.
pub proof fn lemma_border_dist_intermediate(s: Seq<Rgba8>, w: int, h: int, x: int, y: int, j: int)
    requires
        w >= 1,
        h >= 1,
        in_bounds(w, h, x, y),
        has_border(s, w, h),
        0 <= j <= border_dist(s, w, h, x, y),
    ensures
        exists|cx: int, cy: int|
            in_bounds(w, h, cx, cy) && border_dist(s, w, h, cx, cy) == j,
    decreases border_dist(s, w, h, x, y) - j,
{
    let d = border_dist(s, w, h, x, y);
    if d == j {
        assert(in_bounds(w, h, x, y) && border_dist(s, w, h, x, y) == j);
    } else {
        lemma_border_dist_descent(s, w, h, x, y);
        let (nx, ny) = choose|nx: int, ny: int|
            in_bounds(w, h, nx, ny)
                && manhattan(x, y, nx, ny) == 1
                && border_dist(s, w, h, nx, ny) == d - 1;
        lemma_border_dist_intermediate(s, w, h, nx, ny, j);
    }
}

/// An image whose pixels are all equal has no border cell, so its
/// distance field is entirely unreached.
pub proof fn lemma_uniform_image_has_no_border(s: Seq<Rgba8>, w: int, h: int)
    requires
        s.len() == w * h,
        forall|i: int, j: int| 0 <= i < s.len() && 0 <= j < s.len() ==> s[i] == s[j],
    ensures
        !has_border(s, w, h),
{
    assert forall|bx: int, by: int| !is_border_cell(s, w, h, bx, by) by {
        if in_bounds(w, h, bx, by) {
            lemma_flat_idx_bound(w, h, bx, by);
            if bx + 1 < w {
                lemma_flat_idx_bound(w, h, bx + 1, by);
            }
            if 0 <= bx - 1 {
                lemma_flat_idx_bound(w, h, bx - 1, by);
            }
            if by + 1 < h {
                lemma_flat_idx_bound(w, h, bx, by + 1);
            }
            if 0 <= by - 1 {
                lemma_flat_idx_bound(w, h, bx, by - 1);
            }
        }
    }
}

/// The exact distance field pins the result: two fields that both satisfy
/// the transform's contract for the same image are equal.
pub proof fn lemma_distance_field_deterministic(
    s: Seq<Rgba8>,
    w: int,
    h: int,
    d1: Seq<i32>,
    d2: Seq<i32>,
)
    requires
        w >= 0,
        h >= 0,
        d1.len() == w * h,
        d2.len() == w * h,
        forall|x: int, y: int| in_bounds(w, h, x, y)
            ==> #[trigger] d1[flat_idx(w, x, y)] as int == (
                if has_border(s, w, h) {
                    border_dist(s, w, h, x, y)
                } else {
                    -1
                }),
        forall|x: int, y: int| in_bounds(w, h, x, y)
            ==> #[trigger] d2[flat_idx(w, x, y)] as int == (
                if has_border(s, w, h) {
                    border_dist(s, w, h, x, y)
                } else {
                    -1
                }),
    ensures
        d1 =~= d2,
{
    assert forall|i: int| 0 <= i < d1.len() implies d1[i] == d2[i] by {
        assert(w >= 1) by (nonlinear_arith)
            requires w >= 0 && h >= 0 && w * h > 0;
        let x = i % w;
        let y = i / w;
        lemma_div_bound_helper(i, w, h);
        assert(in_bounds(w, h, x, y));
        assert(flat_idx(w, x, y) == i);
        assert(d1[flat_idx(w, x, y)] as int == d2[flat_idx(w, x, y)] as int);
    }
}

/// For `0 <= i < w * h`, the row index `i / w` lies below `h`.
proof fn lemma_div_bound_helper(i: int, w: int, h: int)
    by (nonlinear_arith)
    requires
        w >= 1,
        0 <= i < w * h,
    ensures
        0 <= i / w < h,
        0 <= i % w < w,
        i == (i / w) * w + i % w,
{
}

/// The cells visited before position `(x, y)` of a row-major scan.
spec fn scanned(w: int, x: int, y: int, xx: int, yy: int) -> bool {
    0 <= xx < w && 0 <= yy && (yy < y || (yy == y && xx < x))
}

/// A cell scanned before `(x, y)` has a flat index below `y * w + x`.
proof fn lemma_scan_prefix_bound(w: int, x: int, y: int, xx: int, yy: int)
    by (nonlinear_arith)
    requires
        0 <= x <= w,
        0 <= xx < w,
        0 <= yy,
        yy < y || (yy == y && xx < x),
    ensures
        0 <= yy * w + xx < y * w + x,
{
}

/// Every value of the field so far is either unreached or the cell's
/// exact border distance, and no value exceeds `k + 1`.
spec fn dists_sound(d: Seq<i32>, s: Seq<Rgba8>, w: int, h: int, k: int) -> bool {
    forall|x: int, y: int|
        in_bounds(w, h, x, y) && #[trigger] d[flat_idx(w, x, y)] as int != -1
            ==> d[flat_idx(w, x, y)] as int == border_dist(s, w, h, x, y)
                && border_dist(s, w, h, x, y) <= k + 1
}

/// Every cell whose border distance is at most `k` already holds it.
spec fn dists_complete_upto(d: Seq<i32>, s: Seq<Rgba8>, w: int, h: int, k: int) -> bool {
    forall|x: int, y: int|
        in_bounds(w, h, x, y) && border_dist(s, w, h, x, y) <= k
            ==> #[trigger] d[flat_idx(w, x, y)] as int == border_dist(s, w, h, x, y)
}

/// All four in-bounds 4-neighbors of `(x, y)` are reached.
spec fn nbrs_set(d: Seq<i32>, w: int, h: int, x: int, y: int) -> bool {
    (x + 1 < w ==> d[flat_idx(w, x + 1, y)] != -1i32)
    && (0 <= x - 1 ==> d[flat_idx(w, x - 1, y)] != -1i32)
    && (y + 1 < h ==> d[flat_idx(w, x, y + 1)] != -1i32)
    && (0 <= y - 1 ==> d[flat_idx(w, x, y - 1)] != -1i32)
}

/// One propagation step of the wavefront: if the neighbor `(nx, ny)` of a
/// cell at distance `iteration` is still unreached, it is exactly one
/// layer further out, and is set to `iteration + 1`.
fn expand_neighbor(
    data: &mut Vec<i32>,
    w: usize,
    h: usize,
    nx: usize,
    ny: usize,
    iteration: i32,
    Ghost(s): Ghost<Seq<Rgba8>>,
    Ghost(cx): Ghost<int>,
    Ghost(cy): Ghost<int>,
) -> (did: bool)
    requires
        1 <= w,
        1 <= h,
        old(data)@.len() == (w as int) * (h as int),
        has_border(s, w as int, h as int),
        0 <= iteration as int,
        iteration as int + 1 < i32::MAX as int,
        in_bounds(w as int, h as int, cx, cy),
        in_bounds(w as int, h as int, nx as int, ny as int),
        manhattan(cx, cy, nx as int, ny as int) == 1,
        border_dist(s, w as int, h as int, cx, cy) == iteration as int,
        dists_sound(old(data)@, s, w as int, h as int, iteration as int),
        dists_complete_upto(old(data)@, s, w as int, h as int, iteration as int),
    ensures
        final(data)@.len() == old(data)@.len(),
        dists_sound(final(data)@, s, w as int, h as int, iteration as int),
        dists_complete_upto(final(data)@, s, w as int, h as int, iteration as int),
        final(data)@[flat_idx(w as int, nx as int, ny as int)] as int != -1,
        did ==> border_dist(s, w as int, h as int, nx as int, ny as int) == iteration as int + 1,
        !did ==> final(data)@ == old(data)@,
        forall|i: int|
            0 <= i < old(data)@.len() && i != flat_idx(w as int, nx as int, ny as int)
                ==> final(data)@[i] == old(data)@[i],
        forall|i: int| 0 <= i < old(data)@.len() && old(data)@[i] != -1i32
            ==> final(data)@[i] == old(data)@[i],
{
    let ghost wi = w as int;
    let ghost hi = h as int;
    let ghost nxi = nx as int;
    let ghost nyi = ny as int;
    let n = data.len();
    proof {
        lemma_flat_idx_bound(wi, hi, nxi, nyi);
    }
    let j = ny * w + nx;
    if data[j] == -1i32 {
        proof {
            lemma_border_dist_witness(s, wi, hi, nxi, nyi);
            // `dists_complete_upto` in contrapositive: an unreached cell
            // lies strictly beyond layer `iteration`.
            assert(border_dist(s, wi, hi, nxi, nyi) > iteration as int);
            lemma_border_dist_triangle(s, wi, hi, cx, cy, nxi, nyi);
            assert(border_dist(s, wi, hi, nxi, nyi) == iteration as int + 1);
        }
        data.set(j, iteration + 1);
        proof {
            let dd = data@;
            let od = old(data)@;
            assert forall|x: int, y: int|
                in_bounds(wi, hi, x, y) && #[trigger] dd[flat_idx(wi, x, y)] as int != -1
                    implies dd[flat_idx(wi, x, y)] as int == border_dist(s, wi, hi, x, y)
                        && border_dist(s, wi, hi, x, y) <= iteration as int + 1 by {
                lemma_flat_idx_bound(wi, hi, x, y);
                if flat_idx(wi, x, y) == flat_idx(wi, nxi, nyi) {
                    lemma_flat_idx_injective(wi, hi, x, y, nxi, nyi);
                } else {
                    assert(dd[flat_idx(wi, x, y)] == od[flat_idx(wi, x, y)]);
                }
            }
            assert forall|x: int, y: int|
                in_bounds(wi, hi, x, y) && border_dist(s, wi, hi, x, y) <= iteration as int
                    implies #[trigger] dd[flat_idx(wi, x, y)] as int
                        == border_dist(s, wi, hi, x, y) by {
                lemma_flat_idx_bound(wi, hi, x, y);
                if flat_idx(wi, x, y) == flat_idx(wi, nxi, nyi) {
                    lemma_flat_idx_injective(wi, hi, x, y, nxi, nyi);
                    assert(false);
                } else {
                    assert(dd[flat_idx(wi, x, y)] == od[flat_idx(wi, x, y)]);
                }
            }
        }
        true
    } else {
        false
    }
}

/// The border-distance transform: seeds every border cell at distance 0,
/// then expands the wavefront by whole-grid sweeps, one layer per sweep,
/// until a sweep changes nothing. The result holds every cell's exact
/// least Manhattan distance to a border cell, or `-1` everywhere when the
/// image is uniform.
#[verifier::loop_isolation(false)]
#[verifier::rlimit(100)]
pub fn compute_distance_to_border(img: &ImageGrid) -> (df: DistanceField)
    requires
        img.wf(),
        img.width as int + img.height as int <= i32::MAX as int,
    ensures
        df.wf(),
        df.width == img.width,
        df.height == img.height,
        forall|x: int, y: int| in_bounds(img.width as int, img.height as int, x, y)
            ==> #[trigger] df.data@[flat_idx(img.width as int, x, y)] as int == (
                if has_border(img.data@, img.width as int, img.height as int) {
                    border_dist(img.data@, img.width as int, img.height as int, x, y)
                } else {
                    -1
                }),
        !has_border(img.data@, img.width as int, img.height as int)
            ==> forall|i: int| 0 <= i < df.data@.len() ==> df.data@[i] == -1i32,
        has_border(img.data@, img.width as int, img.height as int)
            ==> forall|i: int| 0 <= i < df.data@.len() ==> df.data@[i] >= 0i32,
{
    let w = img.width;
    let h = img.height;
    let ghost s = img.data@;
    let ghost wi = w as int;
    let ghost hi = h as int;
    let n = img.data.len();

    // Seeding pass: distance 0 on every cell with a differently colored
    // 4-neighbor, -1 elsewhere.
    let mut data: Vec<i32> = Vec::new();
    let mut found = false;
    let mut y: usize = 0;
    while y < h
        invariant
            y <= h,
            data@.len() == (y as int) * wi,
            forall|xx: int, yy: int| scanned(wi, 0, y as int, xx, yy)
                ==> #[trigger] data@[flat_idx(wi, xx, yy)]
                    == (if is_border_cell(s, wi, hi, xx, yy) { 0i32 } else { -1i32 }),
            found == exists|xx: int, yy: int|
                #[trigger] scanned(wi, 0, y as int, xx, yy) && is_border_cell(s, wi, hi, xx, yy),
        decreases h - y,
    {
        let mut x: usize = 0;
        while x < w
            invariant
                x <= w,
                y < h,
                data@.len() == (y as int) * wi + x as int,
                forall|xx: int, yy: int| scanned(wi, x as int, y as int, xx, yy)
                    ==> #[trigger] data@[flat_idx(wi, xx, yy)]
                        == (if is_border_cell(s, wi, hi, xx, yy) { 0i32 } else { -1i32 }),
                found == exists|xx: int, yy: int|
                    #[trigger] scanned(wi, x as int, y as int, xx, yy)
                        && is_border_cell(s, wi, hi, xx, yy),
            decreases w - x,
        {
            let p = img.get_pixel(x, y);
            let mut border = false;
            if x + 1 < w {
                if img.get_pixel(x + 1, y) != p {
                    border = true;
                }
            }
            if x > 0 {
                if img.get_pixel(x - 1, y) != p {
                    border = true;
                }
            }
            if y + 1 < h {
                if img.get_pixel(x, y + 1) != p {
                    border = true;
                }
            }
            if y > 0 {
                if img.get_pixel(x, y - 1) != p {
                    border = true;
                }
            }
            let ghost xi = x as int;
            let ghost yi = y as int;
            proof {
                assert(border == is_border_cell(s, wi, hi, xi, yi));
            }
            let ghost old_found = found;
            let ghost old_data = data@;
            if border {
                data.push(0i32);
                found = true;
            } else {
                data.push(-1i32);
            }
            proof {
                assert(flat_idx(wi, xi, yi) == old_data.len());
                assert forall|xx: int, yy: int| scanned(wi, xi + 1, yi, xx, yy)
                    implies #[trigger] data@[flat_idx(wi, xx, yy)]
                        == (if is_border_cell(s, wi, hi, xx, yy) { 0i32 } else { -1i32 }) by {
                    if xx == xi && yy == yi {
                    } else {
                        assert(scanned(wi, xi, yi, xx, yy));
                        lemma_scan_prefix_bound(wi, xi, yi, xx, yy);
                        assert(data@[flat_idx(wi, xx, yy)] == old_data[flat_idx(wi, xx, yy)]);
                    }
                }
                if border {
                    assert(scanned(wi, xi + 1, yi, xi, yi) && is_border_cell(s, wi, hi, xi, yi));
                } else if old_found {
                    let (ox, oy) = choose|xx: int, yy: int|
                        #[trigger] scanned(wi, xi, yi, xx, yy) && is_border_cell(s, wi, hi, xx, yy);
                    assert(scanned(wi, xi + 1, yi, ox, oy) && is_border_cell(s, wi, hi, ox, oy));
                } else {
                    assert forall|xx: int, yy: int|
                        !(#[trigger] scanned(wi, xi + 1, yi, xx, yy)
                            && is_border_cell(s, wi, hi, xx, yy)) by {
                        if scanned(wi, xi + 1, yi, xx, yy) && !(xx == xi && yy == yi) {
                            assert(scanned(wi, xi, yi, xx, yy));
                        }
                    }
                }
            }
            x = x + 1;
        }
        proof {
            assert((y as int + 1) * wi == (y as int) * wi + wi) by (nonlinear_arith);
            assert forall|xx: int, yy: int|
                scanned(wi, 0, y as int + 1, xx, yy) == scanned(wi, wi, y as int, xx, yy) by {
            }
            if found {
                let (ox, oy) = choose|xx: int, yy: int|
                    #[trigger] scanned(wi, wi, y as int, xx, yy)
                        && is_border_cell(s, wi, hi, xx, yy);
                assert(scanned(wi, 0, y as int + 1, ox, oy) && is_border_cell(s, wi, hi, ox, oy));
            } else {
                assert forall|xx: int, yy: int|
                    !(#[trigger] scanned(wi, 0, y as int + 1, xx, yy)
                        && is_border_cell(s, wi, hi, xx, yy)) by {
                    if scanned(wi, 0, y as int + 1, xx, yy) {
                        assert(scanned(wi, wi, y as int, xx, yy));
                    }
                }
            }
        }
        y = y + 1;
    }
    proof {
        assert(hi * wi == wi * hi) by (nonlinear_arith);
    }

    if !found {
        proof {
            assert forall|bx: int, by: int| !is_border_cell(s, wi, hi, bx, by) by {
                if is_border_cell(s, wi, hi, bx, by) {
                    assert(scanned(wi, 0, hi, bx, by));
                    assert(false);
                }
            }
            assert(!has_border(s, wi, hi));
            assert forall|i: int| 0 <= i < data@.len() implies data@[i] == -1i32 by {
                assert(wi >= 1) by (nonlinear_arith)
                    requires wi >= 0 && hi >= 0 && hi * wi > 0;
                lemma_div_bound_helper(i, wi, hi);
                let x = i % wi;
                let yq = i / wi;
                assert(scanned(wi, 0, hi, x, yq));
                assert(flat_idx(wi, x, yq) == i);
            }
        }
        return DistanceField { width: w, height: h, data };
    }

    proof {
        let (ox, oy) = choose|xx: int, yy: int|
            #[trigger] scanned(wi, 0, hi, xx, yy) && is_border_cell(s, wi, hi, xx, yy);
        assert(has_border(s, wi, hi));
        assert(wi >= 1 && hi >= 1);
        // The seeded field is the wavefront state after layer 0.
        assert forall|x: int, y: int| in_bounds(wi, hi, x, y)
            implies #[trigger] data@[flat_idx(wi, x, y)] as int == (
                if border_dist(s, wi, hi, x, y) <= 0 { border_dist(s, wi, hi, x, y) } else { -1 })
            by {
            lemma_border_dist_witness(s, wi, hi, x, y);
            lemma_border_dist_zero(s, wi, hi, x, y);
            assert(scanned(wi, 0, hi, x, y));
        }
    }

    // Wavefront expansion: each sweep propagates the layer `iteration`
    // outward by exactly one unit; it stops when a sweep changes nothing.
    let mut iteration: i32 = 0;
    let mut changed = true;
    while changed
        invariant
            data@.len() == n as int,
            0 <= iteration as int <= wi + hi - 2,
            forall|x: int, y: int| in_bounds(wi, hi, x, y)
                ==> #[trigger] data@[flat_idx(wi, x, y)] as int == (
                    if border_dist(s, wi, hi, x, y) <= iteration as int {
                        border_dist(s, wi, hi, x, y)
                    } else {
                        -1
                    }),
            !changed ==> forall|x: int, y: int| in_bounds(wi, hi, x, y)
                ==> #[trigger] border_dist(s, wi, hi, x, y) <= iteration as int,
        decreases wi + hi - iteration as int, changed as int,
    {
        changed = false;
        let ghost data0 = data@;
        let ghost k = iteration as int;
        proof {
            assert(dists_sound(data0, s, wi, hi, k)) by {
                assert forall|x: int, y: int|
                    in_bounds(wi, hi, x, y) && #[trigger] data0[flat_idx(wi, x, y)] as int != -1
                        implies data0[flat_idx(wi, x, y)] as int == border_dist(s, wi, hi, x, y)
                            && border_dist(s, wi, hi, x, y) <= k + 1 by {
                }
            }
            assert(dists_complete_upto(data0, s, wi, hi, k));
        }
        let mut sy: usize = 0;
        while sy < h
            invariant
                sy <= h,
                data@.len() == n as int,
                dists_sound(data@, s, wi, hi, k),
                dists_complete_upto(data@, s, wi, hi, k),
                forall|xx: int, yy: int|
                    #[trigger] scanned(wi, 0, sy as int, xx, yy)
                        && data@[flat_idx(wi, xx, yy)] == iteration
                        ==> nbrs_set(data@, wi, hi, xx, yy),
                changed ==> exists|x: int, y: int| in_bounds(wi, hi, x, y)
                    && #[trigger] border_dist(s, wi, hi, x, y) == k + 1,
                !changed ==> data@ == data0,
            decreases h - sy,
        {
            let mut sx: usize = 0;
            while sx < w
                invariant
                    sx <= w,
                    sy < h,
                    data@.len() == n as int,
                    dists_sound(data@, s, wi, hi, k),
                    dists_complete_upto(data@, s, wi, hi, k),
                    forall|xx: int, yy: int|
                        #[trigger] scanned(wi, sx as int, sy as int, xx, yy)
                            && data@[flat_idx(wi, xx, yy)] == iteration
                            ==> nbrs_set(data@, wi, hi, xx, yy),
                    changed ==> exists|x: int, y: int| in_bounds(wi, hi, x, y)
                        && #[trigger] border_dist(s, wi, hi, x, y) == k + 1,
                    !changed ==> data@ == data0,
                decreases w - sx,
            {
                let ghost sxi = sx as int;
                let ghost syi = sy as int;
                proof {
                    lemma_flat_idx_bound(wi, hi, sxi, syi);
                }
                let d = data[sy * w + sx];
                let ghost before_cell = data@;
                if d == iteration {
                    proof {
                        assert(data@[flat_idx(wi, sxi, syi)] as int != -1);
                        assert(border_dist(s, wi, hi, sxi, syi) == k);
                        if sxi + 1 < wi {
                            lemma_flat_idx_bound(wi, hi, sxi + 1, syi);
                        }
                        if 0 <= sxi - 1 {
                            lemma_flat_idx_bound(wi, hi, sxi - 1, syi);
                        }
                        if syi + 1 < hi {
                            lemma_flat_idx_bound(wi, hi, sxi, syi + 1);
                        }
                        if 0 <= syi - 1 {
                            lemma_flat_idx_bound(wi, hi, sxi, syi - 1);
                        }
                    }
                    if sx + 1 < w {
                        let did = expand_neighbor(
                            &mut data, w, h, sx + 1, sy, iteration,
                            Ghost(s), Ghost(sxi), Ghost(syi),
                        );
                        if did {
                            changed = true;
                        }
                    }
                    let ghost d1 = data@;
                    proof {
                        assert(sxi + 1 < wi ==> d1[flat_idx(wi, sxi + 1, syi)] != -1i32);
                    }
                    if sx > 0 {
                        let did = expand_neighbor(
                            &mut data, w, h, sx - 1, sy, iteration,
                            Ghost(s), Ghost(sxi), Ghost(syi),
                        );
                        if did {
                            changed = true;
                        }
                    }
                    let ghost d2 = data@;
                    proof {
                        assert(sxi + 1 < wi ==> d2[flat_idx(wi, sxi + 1, syi)] != -1i32);
                        assert(0 <= sxi - 1 ==> d2[flat_idx(wi, sxi - 1, syi)] != -1i32);
                    }
                    if sy + 1 < h {
                        let did = expand_neighbor(
                            &mut data, w, h, sx, sy + 1, iteration,
                            Ghost(s), Ghost(sxi), Ghost(syi),
                        );
                        if did {
                            changed = true;
                        }
                    }
                    let ghost d3 = data@;
                    proof {
                        assert(sxi + 1 < wi ==> d3[flat_idx(wi, sxi + 1, syi)] != -1i32);
                        assert(0 <= sxi - 1 ==> d3[flat_idx(wi, sxi - 1, syi)] != -1i32);
                        assert(syi + 1 < hi ==> d3[flat_idx(wi, sxi, syi + 1)] != -1i32);
                    }
                    if sy > 0 {
                        let did = expand_neighbor(
                            &mut data, w, h, sx, sy - 1, iteration,
                            Ghost(s), Ghost(sxi), Ghost(syi),
                        );
                        if did {
                            changed = true;
                        }
                    }
                    proof {
                        assert(sxi + 1 < wi ==> data@[flat_idx(wi, sxi + 1, syi)] != -1i32);
                        assert(0 <= sxi - 1 ==> data@[flat_idx(wi, sxi - 1, syi)] != -1i32);
                        assert(syi + 1 < hi ==> data@[flat_idx(wi, sxi, syi + 1)] != -1i32);
                        assert(0 <= syi - 1 ==> data@[flat_idx(wi, sxi, syi - 1)] != -1i32);
                        assert(nbrs_set(data@, wi, hi, sxi, syi));
                    }
                }
                proof {
                    // Cells keep their values once set, so the scanned
                    // cells' neighbors stay reached, and the new cell's
                    // are reached when it sits on the current layer.
                    assert forall|xx: int, yy: int|
                        #[trigger] scanned(wi, sxi + 1, syi, xx, yy)
                            && data@[flat_idx(wi, xx, yy)] == iteration
                            implies nbrs_set(data@, wi, hi, xx, yy) by {
                        lemma_flat_idx_bound(wi, hi, xx, yy);
                        if xx == sxi && yy == syi {
                            assert(before_cell[flat_idx(wi, xx, yy)]
                                == data@[flat_idx(wi, xx, yy)]);
                        } else {
                            assert(scanned(wi, sxi, syi, xx, yy));
                            assert(before_cell[flat_idx(wi, xx, yy)]
                                == data@[flat_idx(wi, xx, yy)]);
                            assert(nbrs_set(before_cell, wi, hi, xx, yy));
                            if xx + 1 < wi {
                                lemma_flat_idx_bound(wi, hi, xx + 1, yy);
                            }
                            if 0 <= xx - 1 {
                                lemma_flat_idx_bound(wi, hi, xx - 1, yy);
                            }
                            if yy + 1 < hi {
                                lemma_flat_idx_bound(wi, hi, xx, yy + 1);
                            }
                            if 0 <= yy - 1 {
                                lemma_flat_idx_bound(wi, hi, xx, yy - 1);
                            }
                        }
                    }
                }
                sx = sx + 1;
            }
            proof {
                assert forall|xx: int, yy: int|
                    #[trigger] scanned(wi, 0, sy as int + 1, xx, yy)
                        && data@[flat_idx(wi, xx, yy)] == iteration
                        implies nbrs_set(data@, wi, hi, xx, yy) by {
                    assert(scanned(wi, wi, sy as int, xx, yy));
                }
            }
            sy = sy + 1;
        }
        if changed {
            proof {
                assert forall|x: int, y: int| in_bounds(wi, hi, x, y)
                    implies #[trigger] data@[flat_idx(wi, x, y)] as int == (
                        if border_dist(s, wi, hi, x, y) <= k + 1 {
                            border_dist(s, wi, hi, x, y)
                        } else {
                            -1
                        }) by {
                    let bd = border_dist(s, wi, hi, x, y);
                    lemma_border_dist_witness(s, wi, hi, x, y);
                    lemma_flat_idx_bound(wi, hi, x, y);
                    if bd <= k {
                        assert(data@[flat_idx(wi, x, y)] as int == bd);
                    } else if bd == k + 1 {
                        lemma_border_dist_descent(s, wi, hi, x, y);
                        let (nx2, ny2) = choose|nx2: int, ny2: int|
                            in_bounds(wi, hi, nx2, ny2) && manhattan(x, y, nx2, ny2) == 1
                                && border_dist(s, wi, hi, nx2, ny2) == bd - 1;
                        assert(data@[flat_idx(wi, nx2, ny2)] as int == k);
                        assert(data@[flat_idx(wi, nx2, ny2)] == iteration);
                        assert(scanned(wi, 0, hi, nx2, ny2));
                        assert(nbrs_set(data@, wi, hi, nx2, ny2));
                        assert((x == nx2 + 1 && y == ny2) || (x == nx2 - 1 && y == ny2)
                            || (x == nx2 && y == ny2 + 1) || (x == nx2 && y == ny2 - 1));
                        assert(data@[flat_idx(wi, x, y)] as int != -1);
                    } else {
                        if data@[flat_idx(wi, x, y)] as int != -1 {
                            assert(false);
                        }
                    }
                }
                let (ex, ey) = choose|x: int, y: int| in_bounds(wi, hi, x, y)
                    && #[trigger] border_dist(s, wi, hi, x, y) == k + 1;
                lemma_border_dist_witness(s, wi, hi, ex, ey);
                assert(k + 1 <= wi + hi - 2);
            }
            iteration = iteration + 1;
        } else {
            proof {
                assert(data@ == data0);
                assert forall|x: int, y: int| in_bounds(wi, hi, x, y)
                    implies #[trigger] border_dist(s, wi, hi, x, y) <= k by {
                    let bd = border_dist(s, wi, hi, x, y);
                    if bd > k {
                        lemma_border_dist_intermediate(s, wi, hi, x, y, k + 1);
                        let (cx2, cy2) = choose|cx2: int, cy2: int|
                            in_bounds(wi, hi, cx2, cy2)
                                && border_dist(s, wi, hi, cx2, cy2) == k + 1;
                        lemma_border_dist_descent(s, wi, hi, cx2, cy2);
                        let (nx2, ny2) = choose|nx2: int, ny2: int|
                            in_bounds(wi, hi, nx2, ny2)
                                && manhattan(cx2, cy2, nx2, ny2) == 1
                                && border_dist(s, wi, hi, nx2, ny2) == k;
                        lemma_flat_idx_bound(wi, hi, nx2, ny2);
                        lemma_flat_idx_bound(wi, hi, cx2, cy2);
                        assert(data@[flat_idx(wi, nx2, ny2)] as int == k);
                        assert(data@[flat_idx(wi, nx2, ny2)] == iteration);
                        assert(scanned(wi, 0, hi, nx2, ny2));
                        assert(nbrs_set(data@, wi, hi, nx2, ny2));
                        assert((cx2 == nx2 + 1 && cy2 == ny2) || (cx2 == nx2 - 1 && cy2 == ny2)
                            || (cx2 == nx2 && cy2 == ny2 + 1) || (cx2 == nx2 && cy2 == ny2 - 1));
                        assert(data@[flat_idx(wi, cx2, cy2)] as int != -1);
                        // But the state after layer `k` leaves every cell
                        // beyond layer `k` unreached: contradiction.
                        assert(data0[flat_idx(wi, cx2, cy2)] as int == -1);
                        assert(false);
                    }
                }
            }
        }
    }

    proof {
        assert forall|i: int| 0 <= i < data@.len() implies data@[i] >= 0i32 by {
            lemma_div_bound_helper(i, wi, hi);
            let x = i % wi;
            let yq = i / wi;
            assert(in_bounds(wi, hi, x, yq));
            assert(flat_idx(wi, x, yq) == i);
            lemma_border_dist_witness(s, wi, hi, x, yq);
        }
    }
    DistanceField { width: w, height: h, data }
}

} // verus!
