use watercolor_images::grid::{ImageGrid, Rgba8};
use watercolor_images::segment::{create_masks, segment_by_color};

fn rgba(r: u8, g: u8, b: u8, a: u8) -> Rgba8 {
    Rgba8 { r, g, b, a }
}

#[test]
fn test_area_filtering() {
    // Three exact-color regions of 2000, 2000 and 10 pixels; at the
    // default threshold of 1000 only the first two survive, in discovery
    // order.
    let a = rgba(10, 0, 0, 255);
    let b = rgba(0, 20, 0, 255);
    let c = rgba(0, 0, 30, 255);
    let mut img = ImageGrid::new(401, 10, a);
    for y in 0..10 {
        for x in 200..400 {
            img.put_pixel(x, y, b);
        }
        img.put_pixel(400, y, c);
    }
    let (colors, masks) = create_masks(&img);
    assert_eq!(colors.len(), 2);
    assert_eq!(masks.len(), 2);
    assert_eq!(colors[0], a);
    assert_eq!(colors[1], b);
    // Each mask marks exactly its color's cells with 0.
    for y in 0..10 {
        for x in 0..401 {
            let expect0 = if x < 200 { 0u8 } else { 255u8 };
            let expect1 = if (200..400).contains(&x) { 0u8 } else { 255u8 };
            assert_eq!(masks[0].get_value(x, y), expect0);
            assert_eq!(masks[1].get_value(x, y), expect1);
        }
    }
}

#[test]
fn test_partition_pre_filter() {
    // With a threshold of 1 every discovered label is kept; the member
    // counts of all masks sum to the pixel count, each pixel belonging
    // to exactly one label's mask.
    let colors = [
        rgba(1, 1, 1, 255),
        rgba(2, 2, 2, 255),
        rgba(3, 3, 3, 255),
        rgba(4, 4, 4, 255),
    ];
    let mut img = ImageGrid::new(9, 7, colors[0]);
    for y in 0..7 {
        for x in 0..9 {
            img.put_pixel(x, y, colors[(x * 5 + y * 3) % 4]);
        }
    }
    let (pal, masks) = segment_by_color(&img, 1);
    assert_eq!(pal.len(), masks.len());
    let mut total = 0usize;
    for m in &masks {
        for v in &m.data {
            if *v == 0 {
                total += 1;
            }
        }
    }
    assert_eq!(total, 9 * 7);
    // Each pixel is a member of exactly one mask.
    for i in 0..(9 * 7) {
        let mut member_count = 0;
        for m in &masks {
            if m.data[i] == 0 {
                member_count += 1;
            }
        }
        assert_eq!(member_count, 1);
    }
}

#[test]
fn test_palette_discovery_order() {
    // Scan order is row-major, y outermost: colors are discovered left
    // to right along the first row, then down.
    let c0 = rgba(5, 0, 0, 255);
    let c1 = rgba(0, 5, 0, 255);
    let c2 = rgba(0, 0, 5, 255);
    let mut img = ImageGrid::new(3, 2, c0);
    img.put_pixel(1, 0, c1);
    img.put_pixel(2, 0, c0);
    img.put_pixel(0, 1, c2);
    let (pal, _masks) = segment_by_color(&img, 1);
    assert_eq!(pal, vec![c0, c1, c2]);
}

#[test]
fn test_segmentation_determinism() {
    let mut img = ImageGrid::new(8, 8, rgba(9, 9, 9, 255));
    for y in 0..8 {
        for x in 0..8 {
            let v = ((x * 7 + y * 11) % 3) as u8;
            img.put_pixel(x, y, rgba(v, v, v, 255));
        }
    }
    let (p1, m1) = segment_by_color(&img, 2);
    let (p2, m2) = segment_by_color(&img, 2);
    assert_eq!(p1, p2);
    assert_eq!(m1.len(), m2.len());
    for k in 0..m1.len() {
        assert_eq!(m1[k].data, m2[k].data);
    }
}

#[test]
fn test_empty_retained_set() {
    // No region reaches the threshold: segmentation legitimately returns
    // an empty retained set.
    let mut img = ImageGrid::new(4, 4, rgba(1, 0, 0, 255));
    for y in 0..4 {
        for x in 0..4 {
            img.put_pixel(x, y, rgba((x + 4 * y) as u8, 0, 0, 255));
        }
    }
    let (pal, masks) = segment_by_color(&img, 2);
    assert_eq!(pal.len(), 0);
    assert_eq!(masks.len(), 0);
}

#[test]
fn test_uniform_image_single_mask() {
    let c = rgba(7, 7, 7, 7);
    let img = ImageGrid::new(40, 25, c);
    let (pal, masks) = create_masks(&img);
    assert_eq!(pal, vec![c]);
    assert_eq!(masks.len(), 1);
    for v in &masks[0].data {
        assert_eq!(*v, 0);
    }
}
