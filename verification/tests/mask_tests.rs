use watercolor_images::distance::compute_distance_to_border;
use watercolor_images::grid::{DistanceField, GrayGrid, ImageGrid, Rgba8};
use watercolor_images::mask::{
    apply_mask, apply_threshold_on_grey, create_mask, transform_mask_into_image,
    whiten_near_border, DitherRng,
};

fn rgba(r: u8, g: u8, b: u8, a: u8) -> Rgba8 {
    Rgba8 { r, g, b, a }
}

fn field(width: usize, height: usize, data: Vec<i32>) -> DistanceField {
    assert_eq!(data.len(), width * height);
    DistanceField { width, height, data }
}

#[test]
fn test_create_mask_vertical_seam() {
    // The seam image of the distance tests: distance 0 at x in {1, 2},
    // 1 at x in {0, 3}; at threshold 1 exactly the zero ring is member.
    let mut img = ImageGrid::new(4, 4, rgba(0, 0, 0, 255));
    for y in 0..4 {
        for x in 2..4 {
            img.put_pixel(x, y, rgba(255, 255, 255, 255));
        }
    }
    let df = compute_distance_to_border(&img);
    let mask = create_mask(&img, 1, &df);
    for y in 0..4 {
        assert_eq!(mask.get_value(0, y), 255);
        assert_eq!(mask.get_value(1, y), 0);
        assert_eq!(mask.get_value(2, y), 0);
        assert_eq!(mask.get_value(3, y), 255);
    }
}

#[test]
fn test_mask_unknown_cells_are_background() {
    // A -1 (unreached) cell is never a member, whatever the threshold.
    let img = ImageGrid::new(2, 1, rgba(0, 0, 0, 255));
    let df = field(2, 1, vec![-1, 3]);
    let mask = create_mask(&img, 100, &df);
    assert_eq!(mask.get_value(0, 0), 255);
    assert_eq!(mask.get_value(1, 0), 0);
}

#[test]
fn test_mask_monotonicity() {
    // Raising the threshold only adds members.
    let img = ImageGrid::new(3, 3, rgba(0, 0, 0, 255));
    let df = field(3, 3, vec![-1, 0, 1, 2, 3, 4, 5, 0, 2]);
    for d1 in 0..6 {
        for d2 in d1..6 {
            let m1 = create_mask(&img, d1, &df);
            let m2 = create_mask(&img, d2, &df);
            for i in 0..9 {
                if m1.data[i] == 0 {
                    assert_eq!(m2.data[i], 0);
                }
            }
        }
    }
}

#[test]
fn test_apply_mask() {
    let mut img = ImageGrid::new(2, 2, rgba(10, 20, 30, 40));
    img.put_pixel(1, 1, rgba(1, 2, 3, 4));
    let mask = GrayGrid { width: 2, height: 2, data: vec![0, 255, 255, 0] };
    apply_mask(&mut img, &mask);
    // Member cells forced to opaque white, the rest byte-for-byte unchanged.
    assert_eq!(img.get_pixel(0, 0), rgba(255, 255, 255, 255));
    assert_eq!(img.get_pixel(1, 0), rgba(10, 20, 30, 40));
    assert_eq!(img.get_pixel(0, 1), rgba(10, 20, 30, 40));
    assert_eq!(img.get_pixel(1, 1), rgba(255, 255, 255, 255));
}

#[test]
fn test_apply_threshold_on_grey() {
    let mut g = GrayGrid { width: 5, height: 1, data: vec![0, 127, 128, 129, 255] };
    apply_threshold_on_grey(&mut g, 128);
    assert_eq!(g.data, vec![0, 0, 0, 255, 255]);
}

#[test]
fn test_transform_mask_into_image() {
    let mask = GrayGrid { width: 2, height: 1, data: vec![0, 255] };
    let tint = rgba(50, 60, 70, 255);
    let img = transform_mask_into_image(&mask, tint);
    // Member cells carry the tint at 70% alpha (178 of 255), background
    // cells are fully transparent white.
    assert_eq!(img.get_pixel(0, 0), rgba(50, 60, 70, 178));
    assert_eq!(img.get_pixel(1, 0), rgba(255, 255, 255, 0));
}

#[test]
fn test_dither_rng_reproducible() {
    let mut a = DitherRng::new(42);
    let mut b = DitherRng::new(42);
    for _ in 0..64 {
        assert_eq!(a.next_bool(), b.next_bool());
    }
    let mut c = DitherRng::new(43);
    let mut any_diff = false;
    let mut a2 = DitherRng::new(42);
    for _ in 0..64 {
        if a2.next_bool() != c.next_bool() {
            any_diff = true;
        }
    }
    assert!(any_diff);
}

#[test]
fn test_whiten_near_border() {
    // Distances 0..4 against threshold 3: gap > 1 at distances 0 and 1
    // (always whitened), gap == 1 at distance 2 (coin), gap <= 0 beyond.
    let base = rgba(9, 9, 9, 9);
    let mut img = ImageGrid::new(5, 1, base);
    let df = field(5, 1, vec![0, 1, 2, 3, 4]);
    let mut rng = DitherRng::new(7);
    whiten_near_border(&mut img, 3, &df, &mut rng);
    let white = rgba(255, 255, 255, 255);
    assert_eq!(img.get_pixel(0, 0), white);
    assert_eq!(img.get_pixel(1, 0), white);
    // The gap-1 cell follows the generator's first coin.
    let mut probe = DitherRng::new(7);
    let coin = probe.next_bool();
    let expected = if coin { white } else { base };
    assert_eq!(img.get_pixel(2, 0), expected);
    assert_eq!(img.get_pixel(3, 0), base);
    assert_eq!(img.get_pixel(4, 0), base);
}

#[test]
fn test_whiten_unreached_cells_follow_gap() {
    // The dither policy is a pure function of the gap alone: an
    // unreached cell (-1) has gap max_distance + 1, so any positive
    // threshold whitens it outright.
    let base = rgba(8, 8, 8, 8);
    let mut img = ImageGrid::new(2, 1, base);
    let df = field(2, 1, vec![-1, 5]);
    let mut rng = DitherRng::new(1);
    whiten_near_border(&mut img, 1, &df, &mut rng);
    assert_eq!(img.get_pixel(0, 0), rgba(255, 255, 255, 255));
    assert_eq!(img.get_pixel(1, 0), base);
}

#[test]
fn test_whiten_near_border_deterministic() {
    let base = rgba(1, 2, 3, 4);
    let df = field(4, 2, vec![0, 1, 2, 3, 2, 2, -1, 0]);
    let mut img1 = ImageGrid::new(4, 2, base);
    let mut img2 = ImageGrid::new(4, 2, base);
    let mut rng1 = DitherRng::new(99);
    let mut rng2 = DitherRng::new(99);
    whiten_near_border(&mut img1, 3, &df, &mut rng1);
    whiten_near_border(&mut img2, 3, &df, &mut rng2);
    assert_eq!(img1.data, img2.data);
    assert_eq!(rng1.state, rng2.state);
}
