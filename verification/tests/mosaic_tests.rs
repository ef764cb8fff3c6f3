use mosaic::buffer::PixelBuffer;
use mosaic::buffer::resize_image;
use mosaic::color::Color;
use mosaic::color::calculate_rgb_distance_squared;
use mosaic::color::calculate_rgb_mean;
use mosaic::mosaic::MosaicError;
use mosaic::mosaic::ResizeCache;
use mosaic::mosaic::calculate_source_images_means;
use mosaic::mosaic::divide_image_into_squares;
use mosaic::mosaic::find_closest_source_image;
use mosaic::mosaic::match_source_images;
use mosaic::mosaic::render_mosaic;

fn rgb(r: u8, g: u8, b: u8) -> Color {
    Color { r, g, b }
}

fn solid(width: u32, height: u32, c: Color) -> PixelBuffer {
    PixelBuffer { width, height, pixels: vec![c; (width * height) as usize] }
}

#[test]
fn mean_of_uniform_buffer_is_that_color() {
    let c = rgb(13, 200, 77);
    for (w, h) in [(1u32, 1u32), (3, 2), (7, 5)] {
        let buffer = solid(w, h, c);
        let mean = calculate_rgb_mean(&buffer);
        assert_eq!((mean.r, mean.g, mean.b), (13, 200, 77));
    }
}

#[test]
fn mean_is_invariant_to_pixel_order() {
    let a = rgb(10, 0, 0);
    let b = rgb(20, 5, 255);
    let c = rgb(7, 100, 3);
    let d = rgb(250, 9, 40);
    let buf1 = PixelBuffer { width: 2, height: 2, pixels: vec![a, b, c, d] };
    let buf2 = PixelBuffer { width: 2, height: 2, pixels: vec![d, c, a, b] };
    let buf3 = PixelBuffer { width: 4, height: 1, pixels: vec![b, d, a, c] };
    let m1 = calculate_rgb_mean(&buf1);
    let m2 = calculate_rgb_mean(&buf2);
    let m3 = calculate_rgb_mean(&buf3);
    assert_eq!((m1.r, m1.g, m1.b), (m2.r, m2.g, m2.b));
    assert_eq!((m1.r, m1.g, m1.b), (m3.r, m3.g, m3.b));
}

#[test]
fn mean_truncates_toward_zero() {
    let buffer = PixelBuffer {
        width: 2,
        height: 1,
        pixels: vec![rgb(0, 1, 255), rgb(255, 2, 254)],
    };
    let mean = calculate_rgb_mean(&buffer);
    // (0 + 255) / 2 = 127 (truncated), (1 + 2) / 2 = 1, (255 + 254) / 2 = 254
    assert_eq!((mean.r, mean.g, mean.b), (127, 1, 254));
}

#[test]
fn distance_is_symmetric_and_zero_on_self() {
    let a = rgb(1, 2, 3);
    let b = rgb(200, 100, 0);
    assert_eq!(
        calculate_rgb_distance_squared(a, b),
        calculate_rgb_distance_squared(b, a)
    );
    assert_eq!(calculate_rgb_distance_squared(a, a), 0);
    assert_eq!(calculate_rgb_distance_squared(b, b), 0);
    // 199^2 + 98^2 + 3^2
    assert_eq!(calculate_rgb_distance_squared(a, b), 39601 + 9604 + 9);
}

#[test]
fn decompose_counts_and_orders_tiles() {
    let img = solid(10, 10, rgb(9, 9, 9));
    let grid = divide_image_into_squares(&img, 4);
    assert_eq!(grid.dimensions, (3, 3));
    assert_eq!(grid.squares.len(), 9);
    for (k, sq) in grid.squares.iter().enumerate() {
        assert_eq!(sq.x, (k % 3) as u32);
        assert_eq!(sq.y, (k / 3) as u32);
        assert_eq!((sq.color.r, sq.color.g, sq.color.b), (9, 9, 9));
    }
}

#[test]
fn decompose_edge_tiles_are_clipped() {
    // 10x10 image, tile edge 4: the last column/row of tiles is 2 wide/high,
    // not 4. Columns 8..10 are white, everything else black, so the clipped
    // right-edge tiles average to pure white; if padding or a full-width
    // extent leaked in, their mean would not be pure.
    let mut pixels = Vec::new();
    for y in 0..10u32 {
        for x in 0..10u32 {
            if x >= 8 {
                pixels.push(rgb(255, 255, 255));
            } else {
                pixels.push(rgb(0, 0, 0));
            }
        }
    }
    let img = PixelBuffer { width: 10, height: 10, pixels };
    let grid = divide_image_into_squares(&img, 4);
    assert_eq!(grid.dimensions, (3, 3));
    let right_edge = &grid.squares[2];
    assert_eq!((right_edge.x, right_edge.y), (2, 0));
    assert_eq!(
        (right_edge.color.r, right_edge.color.g, right_edge.color.b),
        (255, 255, 255)
    );
    let interior = &grid.squares[0];
    assert_eq!((interior.color.r, interior.color.g, interior.color.b), (0, 0, 0));
}

#[test]
fn decompose_exact_multiple_has_full_tiles() {
    let img = solid(8, 4, rgb(50, 60, 70));
    let grid = divide_image_into_squares(&img, 4);
    assert_eq!(grid.dimensions, (2, 1));
    assert_eq!(grid.squares.len(), 2);
}

#[test]
fn find_nearest_single_entry_wins_always() {
    let means = vec![rgb(1, 2, 3)];
    for target in [rgb(0, 0, 0), rgb(255, 255, 255), rgb(1, 2, 3), rgb(200, 0, 9)] {
        assert_eq!(find_closest_source_image(&means, target), 0);
    }
}

#[test]
fn find_nearest_exact_match_wins() {
    let means = vec![rgb(255, 0, 0), rgb(0, 255, 0), rgb(0, 0, 255)];
    assert_eq!(find_closest_source_image(&means, rgb(0, 255, 0)), 1);
    assert_eq!(find_closest_source_image(&means, rgb(0, 0, 255)), 2);
}

#[test]
fn find_nearest_breaks_ties_on_first_entry() {
    let means = vec![rgb(10, 10, 10), rgb(10, 10, 10), rgb(0, 0, 0)];
    assert_eq!(find_closest_source_image(&means, rgb(10, 10, 10)), 0);
}

#[test]
fn empty_candidate_folder_fails_before_matching() {
    let sources: Vec<PixelBuffer> = Vec::new();
    let result = calculate_source_images_means(&sources);
    assert!(matches!(result, Err(MosaicError::NoCandidates)));
}

#[test]
fn catalog_records_one_mean_per_candidate() {
    let sources = vec![solid(2, 2, rgb(255, 0, 0)), solid(3, 1, rgb(0, 0, 255))];
    let means = calculate_source_images_means(&sources).unwrap();
    assert_eq!(means.len(), 2);
    assert_eq!((means[0].r, means[0].g, means[0].b), (255, 0, 0));
    assert_eq!((means[1].r, means[1].g, means[1].b), (0, 0, 255));
}

#[test]
fn cache_loads_each_matched_candidate_once() {
    // Three tiles all matched to candidate 0, one to candidate 1: the
    // loader must run exactly once per distinct candidate.
    let matched = vec![0usize, 0, 1, 0];
    let mut cache = ResizeCache::new(2, 2);
    let mut loads = 0;
    for &m in matched.iter() {
        if !cache.is_cached(m) {
            loads += 1;
            cache.insert(m, solid(2, 2, rgb(1, 2, 3)));
        }
    }
    assert_eq!(loads, 2);
    let first_only = vec![0usize, 0, 0];
    let mut cache2 = ResizeCache::new(2, 2);
    let mut loads2 = 0;
    for &m in first_only.iter() {
        if !cache2.is_cached(m) {
            loads2 += 1;
            cache2.insert(m, solid(2, 2, rgb(1, 2, 3)));
        }
    }
    assert_eq!(loads2, 1);
}

#[test]
fn resize_produces_requested_dimensions() {
    let src = solid(8, 6, rgb(40, 80, 120));
    let resized = resize_image(&src, 4);
    assert_eq!(resized.width, 4);
    assert_eq!(resized.height, 4);
    assert_eq!(resized.pixels.len(), 16);
}

#[test]
fn resize_of_uniform_buffer_stays_uniform() {
    let src = solid(16, 16, rgb(255, 0, 0));
    let resized = resize_image(&src, 4);
    for p in resized.pixels.iter() {
        assert_eq!((p.r, p.g, p.b), (255, 0, 0));
    }
}

#[test]
fn end_to_end_two_by_two_mosaic() {
    // A 64x64 target with tile edge 32: left half reddish, right half
    // bluish, matched against a pure-red and a pure-blue candidate. The
    // output canvas must hold a red-derived 32x32 tile on the left tiles
    // and a blue-derived one on the right, at the correct pixel offsets.
    let mut pixels = Vec::new();
    for y in 0..64u32 {
        for x in 0..64u32 {
            if x < 32 {
                pixels.push(rgb(200, 0, 0));
            } else {
                pixels.push(rgb(0, 0, 200));
            }
        }
    }
    let target = PixelBuffer { width: 64, height: 64, pixels };
    let sources = vec![solid(8, 8, rgb(255, 0, 0)), solid(8, 8, rgb(0, 0, 255))];
    let means = calculate_source_images_means(&sources).unwrap();
    let grid = divide_image_into_squares(&target, 32);
    assert_eq!(grid.dimensions, (2, 2));
    let matched = match_source_images(&grid, &means);
    assert_eq!(matched, vec![0, 1, 0, 1]);
    let mut cache = ResizeCache::new(means.len(), 32);
    let mut loads = 0;
    for &m in matched.iter() {
        if !cache.is_cached(m) {
            loads += 1;
            cache.insert(m, resize_image(&sources[m], 32));
        }
    }
    assert_eq!(loads, 2);
    let canvas = render_mosaic(&grid, &matched, &cache, 32);
    assert_eq!(canvas.width, 64);
    assert_eq!(canvas.height, 64);
    for (x, y) in [(0u32, 0u32), (13, 5), (31, 40), (0, 63), (17, 33)] {
        let p = canvas.pixels[(y * 64 + x) as usize];
        assert_eq!((p.r, p.g, p.b), (255, 0, 0), "pixel ({x}, {y})");
    }
    for (x, y) in [(32u32, 0u32), (63, 0), (40, 50), (63, 63), (33, 31)] {
        let p = canvas.pixels[(y * 64 + x) as usize];
        assert_eq!((p.r, p.g, p.b), (0, 0, 255), "pixel ({x}, {y})");
    }
}
