use watercolor_images::edge::{
    classify_edge_pixels, generate_edge_darkening_from_mask, mask_to_inverted_rgba, EDGE_ALPHA,
};
use watercolor_images::grid::{GrayGrid, ImageGrid, Rgba8};

fn rgba(r: u8, g: u8, b: u8, a: u8) -> Rgba8 {
    Rgba8 { r, g, b, a }
}

#[test]
fn test_mask_to_inverted_rgba() {
    let mask = GrayGrid { width: 3, height: 1, data: vec![0, 100, 255] };
    let img = mask_to_inverted_rgba(&mask);
    assert_eq!(img.get_pixel(0, 0), rgba(255, 255, 255, 255));
    assert_eq!(img.get_pixel(1, 0), rgba(155, 155, 155, 255));
    assert_eq!(img.get_pixel(2, 0), rgba(0, 0, 0, 255));
}

#[test]
fn test_classify_edge_pixels() {
    // Pure black and pure white turn transparent; gray pixels keep their
    // color, transparent on background cells, at the band alpha on
    // member cells.
    let blurred = ImageGrid {
        width: 4,
        height: 1,
        data: vec![
            rgba(0, 0, 0, 255),
            rgba(255, 255, 255, 255),
            rgba(100, 100, 100, 255),
            rgba(100, 100, 100, 255),
        ],
    };
    let mask = GrayGrid { width: 4, height: 1, data: vec![0, 0, 255, 0] };
    let out = classify_edge_pixels(&blurred, &mask);
    assert_eq!(out.get_pixel(0, 0), rgba(0, 0, 0, 0));
    assert_eq!(out.get_pixel(1, 0), rgba(255, 255, 255, 0));
    assert_eq!(out.get_pixel(2, 0), rgba(100, 100, 100, 0));
    assert_eq!(out.get_pixel(3, 0), rgba(100, 100, 100, EDGE_ALPHA));
}

#[test]
fn test_edge_darkening_band() {
    // Left half member, right half background. The blur mixes the black
    // and white halves near the seam, so the member cell beside the seam
    // is neither pure black nor pure white: it lands in the band.
    let mut mask = GrayGrid { width: 8, height: 8, data: vec![0; 64] };
    for y in 0..8 {
        for x in 4..8 {
            mask.data[y * 8 + x] = 255;
        }
    }
    let out = generate_edge_darkening_from_mask(&mask);
    assert_eq!(out.width, 8);
    assert_eq!(out.height, 8);
    let near = out.get_pixel(3, 4);
    // Strictly intermediate gray: the blur really ran.
    assert!(near.r > 0 && near.r < 255);
    assert_eq!(near.a, EDGE_ALPHA);
    // Background cells are always fully transparent.
    for y in 0..8 {
        assert_eq!(out.get_pixel(7, y).a, 0);
        assert_eq!(out.get_pixel(6, y).a, 0);
    }
}

#[test]
fn test_edge_darkening_uniform_mask_transparent() {
    // A mask with no edge blurs to a flat image of pure black, which is
    // classified fully transparent.
    let mask = GrayGrid { width: 6, height: 6, data: vec![0; 36] };
    let out = generate_edge_darkening_from_mask(&mask);
    for y in 0..6 {
        for x in 0..6 {
            assert_eq!(out.get_pixel(x, y).a, 0);
        }
    }
}
