use watercolor_images::distance::compute_distance_to_border;
use watercolor_images::grid::{ImageGrid, Rgba8};

fn rgba(r: u8, g: u8, b: u8, a: u8) -> Rgba8 {
    Rgba8 { r, g, b, a }
}

fn black() -> Rgba8 {
    rgba(0, 0, 0, 255)
}

fn white() -> Rgba8 {
    rgba(255, 255, 255, 255)
}

/// Reference distance: brute-force least Manhattan distance to any border
/// cell (a cell with a differently colored 4-neighbor), or -1 if none.
fn reference_distances(img: &ImageGrid) -> Vec<i32> {
    let w = img.width as i64;
    let h = img.height as i64;
    let mut borders: Vec<(i64, i64)> = Vec::new();
    for y in 0..h {
        for x in 0..w {
            let p = img.get_pixel(x as usize, y as usize);
            let mut b = false;
            if x + 1 < w && img.get_pixel((x + 1) as usize, y as usize) != p {
                b = true;
            }
            if x > 0 && img.get_pixel((x - 1) as usize, y as usize) != p {
                b = true;
            }
            if y + 1 < h && img.get_pixel(x as usize, (y + 1) as usize) != p {
                b = true;
            }
            if y > 0 && img.get_pixel(x as usize, (y - 1) as usize) != p {
                b = true;
            }
            if b {
                borders.push((x, y));
            }
        }
    }
    let mut out = Vec::new();
    for y in 0..h {
        for x in 0..w {
            if borders.is_empty() {
                out.push(-1);
            } else {
                let mut best = i64::MAX;
                for &(bx, by) in &borders {
                    let d = (x - bx).abs() + (y - by).abs();
                    if d < best {
                        best = d;
                    }
                }
                out.push(best as i32);
            }
        }
    }
    out
}

#[test]
fn test_uniform_image_all_unreached() {
    let img = ImageGrid::new(4, 4, rgba(10, 20, 30, 255));
    let df = compute_distance_to_border(&img);
    assert_eq!(df.width, 4);
    assert_eq!(df.height, 4);
    for v in &df.data {
        assert_eq!(*v, -1);
    }
}

#[test]
fn test_single_vertical_seam() {
    // 4x4, left two columns black, right two columns white.
    let mut img = ImageGrid::new(4, 4, black());
    for y in 0..4 {
        for x in 2..4 {
            img.put_pixel(x, y, white());
        }
    }
    let df = compute_distance_to_border(&img);
    for y in 0..4 {
        assert_eq!(df.get_dist(0, y), 1);
        assert_eq!(df.get_dist(1, y), 0);
        assert_eq!(df.get_dist(2, y), 0);
        assert_eq!(df.get_dist(3, y), 1);
    }
}

#[test]
fn test_wavefront_matches_bfs_checkerboard() {
    // 5x5 checkerboard: every cell touches a differently colored cell.
    let mut img = ImageGrid::new(5, 5, black());
    for y in 0..5 {
        for x in 0..5 {
            if (x + y) % 2 == 0 {
                img.put_pixel(x, y, white());
            }
        }
    }
    let df = compute_distance_to_border(&img);
    let reference = reference_distances(&img);
    assert_eq!(df.data, reference);
    for v in &df.data {
        assert_eq!(*v, 0);
    }
}

#[test]
fn test_wavefront_matches_bfs_random_grids() {
    // Deterministic pseudo-random small grids, compared against the
    // brute-force multi-source distance.
    let mut state: u64 = 0x1234_5678_9abc_def0;
    let mut next = move || {
        state ^= state << 13;
        state ^= state >> 7;
        state ^= state << 17;
        state
    };
    for (w, h) in [(1, 1), (1, 7), (6, 1), (5, 5), (7, 3), (8, 8)] {
        for _ in 0..4 {
            let mut img = ImageGrid::new(w, h, black());
            for y in 0..h {
                for x in 0..w {
                    // A tiny palette makes both uniform and varied regions likely.
                    let v = (next() % 3) as u8;
                    img.put_pixel(x, y, rgba(v * 100, v * 50, v, 255));
                }
            }
            let df = compute_distance_to_border(&img);
            assert_eq!(df.data, reference_distances(&img));
        }
    }
}

#[test]
fn test_distance_determinism() {
    let mut img = ImageGrid::new(6, 4, black());
    img.put_pixel(2, 1, white());
    img.put_pixel(5, 3, rgba(1, 2, 3, 4));
    let a = compute_distance_to_border(&img);
    let b = compute_distance_to_border(&img);
    assert_eq!(a.data, b.data);
    assert_eq!(a.width, b.width);
    assert_eq!(a.height, b.height);
}

#[test]
fn test_distance_two_isolated_spots() {
    // A single off-color pixel seeds itself and its neighbors.
    let mut img = ImageGrid::new(7, 1, black());
    img.put_pixel(0, 0, white());
    let df = compute_distance_to_border(&img);
    assert_eq!(df.data, vec![0, 0, 1, 2, 3, 4, 5]);
}
