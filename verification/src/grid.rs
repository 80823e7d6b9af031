//! Pixel grids: an RGBA image, a grayscale mask, and a signed distance
//! field, all row-major with the pixel at `(x, y)` stored at index
//! `y * width + x`.

use vstd::prelude::*;

verus! {

/// One RGBA pixel; colors are compared for exact equality only.
#[derive(Clone, Copy, PartialEq, Eq, Structural, Debug)]
pub struct Rgba8 {
    pub r: u8,
    pub g: u8,
    pub b: u8,
    pub a: u8,
}

/// Opaque white, the color that masking and whitening write.
pub open spec fn opaque_white() -> Rgba8 {
    Rgba8 { r: 255, g: 255, b: 255, a: 255 }
}

/// Opaque black.
pub open spec fn opaque_black() -> Rgba8 {
    Rgba8 { r: 0, g: 0, b: 0, a: 255 }
}

/// Row-major flat index of the cell `(x, y)` in a grid `w` cells wide.
pub open spec fn flat_idx(w: int, x: int, y: int) -> int {
    y * w + x
}

/// A cell position inside a `w` by `h` grid.
pub open spec fn in_bounds(w: int, h: int, x: int, y: int) -> bool {
    0 <= x < w && 0 <= y < h
}

/// A flat index of a cell in bounds stays below `w * h`.
pub proof fn lemma_flat_idx_bound(w: int, h: int, x: int, y: int)
    by (nonlinear_arith)
    requires
        in_bounds(w, h, x, y),
    ensures
        0 <= flat_idx(w, x, y) < w * h,
        flat_idx(w, x, y) == y * w + x,
{
}

/// Distinct in-bounds cells have distinct flat indices.
pub proof fn lemma_flat_idx_injective(w: int, h: int, x1: int, y1: int, x2: int, y2: int)
    by (nonlinear_arith)
    requires
        in_bounds(w, h, x1, y1),
        in_bounds(w, h, x2, y2),
        flat_idx(w, x1, y1) == flat_idx(w, x2, y2),
    ensures
        x1 == x2 && y1 == y2,
{
}

/// An RGBA raster image.
pub struct ImageGrid {
    pub width: usize,
    pub height: usize,
    pub data: Vec<Rgba8>,
}

impl ImageGrid {
    /// The backing vector holds exactly one pixel per cell.
    pub open spec fn wf(&self) -> bool {
        self.data@.len() == (self.width as int) * (self.height as int)
    }

    /// The pixel stored at `(x, y)`.
    pub open spec fn spec_pixel(&self, x: int, y: int) -> Rgba8 {
        self.data@[flat_idx(self.width as int, x, y)]
    }

    /// A fresh image with every pixel set to `fill`.
    pub fn new(width: usize, height: usize, fill: Rgba8) -> (r: ImageGrid)
        requires
            (width as int) * (height as int) <= usize::MAX,
        ensures
            r.wf(),
            r.width == width,
            r.height == height,
            forall|i: int| 0 <= i < r.data@.len() ==> r.data@[i] == fill,
    {
        proof {
            lemma_mul_nonneg_usize(width as int, height as int);
        }
        let n = width * height;
        let mut data: Vec<Rgba8> = Vec::new();
        let mut i: usize = 0;
        while i < n
            invariant
                i <= n,
                data@.len() == i as int,
                forall|j: int| 0 <= j < i as int ==> data@[j] == fill,
            decreases n - i,
        {
            data.push(fill);
            i = i + 1;
        }
        ImageGrid { width, height, data }
    }

    pub fn get_pixel(&self, x: usize, y: usize) -> (r: Rgba8)
        requires
            self.wf(),
            x < self.width,
            y < self.height,
        ensures
            r == self.spec_pixel(x as int, y as int),
    {
        let n = self.data.len();
        proof {
            lemma_flat_idx_bound(self.width as int, self.height as int, x as int, y as int);
        }
        self.data[y * self.width + x]
    }

    pub fn put_pixel(&mut self, x: usize, y: usize, p: Rgba8)
        requires
            old(self).wf(),
            x < old(self).width,
            y < old(self).height,
        ensures
            final(self).wf(),
            final(self).width == old(self).width,
            final(self).height == old(self).height,
            final(self).data@ == old(self).data@.update(
                flat_idx(old(self).width as int, x as int, y as int),
                p,
            ),
    {
        let n = self.data.len();
        proof {
            lemma_flat_idx_bound(self.width as int, self.height as int, x as int, y as int);
        }
        let i = y * self.width + x;
        self.data.set(i, p);
    }
}

/// A grayscale grid; masks encode a member cell as 0 and background as 255.
pub struct GrayGrid {
    pub width: usize,
    pub height: usize,
    pub data: Vec<u8>,
}

impl GrayGrid {
    /// The backing vector holds exactly one value per cell.
    pub open spec fn wf(&self) -> bool {
        self.data@.len() == (self.width as int) * (self.height as int)
    }

    /// The value stored at `(x, y)`.
    pub open spec fn spec_value(&self, x: int, y: int) -> u8 {
        self.data@[flat_idx(self.width as int, x, y)]
    }

    /// A fresh grid with every cell set to `fill`.
    pub fn new(width: usize, height: usize, fill: u8) -> (r: GrayGrid)
        requires
            (width as int) * (height as int) <= usize::MAX,
        ensures
            r.wf(),
            r.width == width,
            r.height == height,
            forall|i: int| 0 <= i < r.data@.len() ==> r.data@[i] == fill,
    {
        proof {
            lemma_mul_nonneg_usize(width as int, height as int);
        }
        let n = width * height;
        let mut data: Vec<u8> = Vec::new();
        let mut i: usize = 0;
        while i < n
            invariant
                i <= n,
                data@.len() == i as int,
                forall|j: int| 0 <= j < i as int ==> data@[j] == fill,
            decreases n - i,
        {
            data.push(fill);
            i = i + 1;
        }
        GrayGrid { width, height, data }
    }

    pub fn get_value(&self, x: usize, y: usize) -> (r: u8)
        requires
            self.wf(),
            x < self.width,
            y < self.height,
        ensures
            r == self.spec_value(x as int, y as int),
    {
        let n = self.data.len();
        proof {
            lemma_flat_idx_bound(self.width as int, self.height as int, x as int, y as int);
        }
        self.data[y * self.width + x]
    }

    pub fn put_value(&mut self, x: usize, y: usize, v: u8)
        requires
            old(self).wf(),
            x < old(self).width,
            y < old(self).height,
        ensures
            final(self).wf(),
            final(self).width == old(self).width,
            final(self).height == old(self).height,
            final(self).data@ == old(self).data@.update(
                flat_idx(old(self).width as int, x as int, y as int),
                v,
            ),
    {
        let n = self.data.len();
        proof {
            lemma_flat_idx_bound(self.width as int, self.height as int, x as int, y as int);
        }
        let i = y * self.width + x;
        self.data.set(i, v);
    }
}

/// A per-cell distance field: `-1` for an unreached cell, otherwise the
/// exact 4-connectivity distance to the nearest border cell.
pub struct DistanceField {
    pub width: usize,
    pub height: usize,
    pub data: Vec<i32>,
}

impl DistanceField {
    /// The backing vector holds exactly one value per cell.
    pub open spec fn wf(&self) -> bool {
        self.data@.len() == (self.width as int) * (self.height as int)
    }

    /// The distance stored at `(x, y)`.
    pub open spec fn spec_dist(&self, x: int, y: int) -> i32 {
        self.data@[flat_idx(self.width as int, x, y)]
    }

    pub fn get_dist(&self, x: usize, y: usize) -> (r: i32)
        requires
            self.wf(),
            x < self.width,
            y < self.height,
        ensures
            r == self.spec_dist(x as int, y as int),
    {
        let n = self.data.len();
        proof {
            lemma_flat_idx_bound(self.width as int, self.height as int, x as int, y as int);
        }
        self.data[y * self.width + x]
    }
}

/// The product of two nonnegative factors is nonnegative.
proof fn lemma_mul_nonneg_usize(a: int, b: int)
    by (nonlinear_arith)
    requires
        0 <= a,
        0 <= b,
    ensures
        0 <= a * b,
{
}

} // verus!
