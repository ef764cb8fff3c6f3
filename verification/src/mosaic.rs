use vstd::prelude::*;
use crate::buffer::PixelBuffer;
use crate::buffer::write_image_into_buffer;
use crate::color::Color;
use crate::color::calculate_rgb_distance_squared;
use crate::color::calculate_rgb_mean;
use crate::color::dist_sq;
use crate::color::mean_spec;

verus! {

/// One tile of the decomposed target image: its grid coordinates (tile
/// index, not pixel offset) and its mean color.
#[derive(Debug)]
pub struct Square {
    pub x: u32,
    pub y: u32,
    pub color: Color,
}

/// The decomposed target: grid dimensions in tile units and the tiles in
/// row-major scan order.
#[derive(Debug)]
pub struct PixelImage {
    pub dimensions: (u32, u32),
    pub squares: Vec<Square>,
}

impl PixelImage {
    /// Row-major grid layout: one square per grid cell, the `k`-th square
    /// sitting at column `k % grid_width` of row `k / grid_width`.
    pub open spec fn wf(self) -> bool {
        &&& self.squares@.len() == self.dimensions.0 * self.dimensions.1
        &&& forall|k: int|
            0 <= k < self.squares@.len() ==> (#[trigger] self.squares@[k]).x
                == k % (self.dimensions.0 as int) && self.squares@[k].y == k / (
            self.dimensions.0 as int)
    }
}

/// How many tile steps of edge `tile` cover an extent: the ceiling of
/// `extent / tile`.
pub open spec fn ceil_div(extent: int, tile: int) -> int
    recommends
        tile >= 1,
{
    if extent % tile == 0 {
        extent / tile
    } else {
        extent / tile + 1
    }
}

/// The edge length of the tile starting at offset `off` along an axis of
/// length `extent`: the full tile edge, clipped at the border.
pub open spec fn clip(extent: int, tile: int, off: int) -> int {
    if tile <= extent - off {
        tile
    } else {
        extent - off
    }
}

/// The pixels of the `w x h` region of `img` whose top-left corner is at
/// `(x, y)`, in row-major order.
pub open spec fn tile_pixels(img: PixelBuffer, x: int, y: int, w: int, h: int) -> Seq<Color> {
    Seq::new((w * h) as nat, |i: int| img.pixel_at(x + i % w, y + i / w))
}

/// A square is correct for an image and tile edge when its color is the
/// mean color of its clipped pixel extent.
pub open spec fn square_ok(img: PixelBuffer, tile: int, sq: Square) -> bool {
    sq.color == mean_spec(
        tile_pixels(
            img,
            sq.x * tile,
            sq.y * tile,
            clip(img.width as int, tile, sq.x * tile),
            clip(img.height as int, tile, sq.y * tile),
        ),
    )
}

/// The ceiling in `ceil_div` is the least multiple bound: `extent` fits in
/// `ceil_div(extent, tile)` steps and in no fewer.
proof fn lemma_ceil_div_bounds(extent: int, tile: int)
    requires
        tile >= 1,
        extent >= 0,
    ensures
        ceil_div(extent, tile) >= 0,
        extent <= ceil_div(extent, tile) * tile,
        extent > 0 ==> (ceil_div(extent, tile) - 1) * tile < extent,
        extent == 0 ==> ceil_div(extent, tile) == 0,
{
    let q = extent / tile;
    let r = extent % tile;
    vstd::arithmetic::div_mod::lemma_fundamental_div_mod(extent, tile);
    assert(0 <= r < tile) by (nonlinear_arith)
        requires
            tile >= 1,
            extent >= 0,
            r == extent % tile,
    ;
    assert(q >= 0) by (nonlinear_arith)
        requires
            tile >= 1,
            extent >= 0,
            q == extent / tile,
    ;
    if r == 0 {
        assert(q * tile == extent);
        if extent > 0 {
            assert(q >= 1) by (nonlinear_arith)
                requires
                    q * tile == extent,
                    extent > 0,
                    tile >= 1,
                    q >= 0,
            ;
            assert((q - 1) * tile == q * tile - tile) by (nonlinear_arith);
        }
    } else {
        assert(extent <= (q + 1) * tile && q * tile < extent) by (nonlinear_arith)
            requires
                extent == tile * q + r,
                0 < r < tile,
        ;
    }
}

/// For a positive extent the ceiling of `extent / tile` can be computed
/// without overflow as `(extent - 1) / tile + 1`.
proof fn lemma_ceil_div_formula(extent: int, tile: int)
    requires
        tile >= 1,
        extent >= 1,
    ensures
        ceil_div(extent, tile) == (extent - 1) / tile + 1,
{
    let q = extent / tile;
    let r = extent % tile;
    vstd::arithmetic::div_mod::lemma_fundamental_div_mod(extent, tile);
    assert(0 <= r < tile) by (nonlinear_arith)
        requires
            tile >= 1,
            extent >= 0,
            r == extent % tile,
    ;
    if r == 0 {
        assert(q >= 1) by (nonlinear_arith)
            requires
                extent == tile * q,
                extent >= 1,
                tile >= 1,
        ;
        assert(extent - 1 == (q - 1) * tile + (tile - 1)) by (nonlinear_arith)
            requires
                extent == tile * q,
        ;
        vstd::arithmetic::div_mod::lemma_fundamental_div_mod_converse(
            extent - 1,
            tile,
            q - 1,
            tile - 1,
        );
    } else {
        assert(extent - 1 == q * tile + (r - 1)) by (nonlinear_arith)
            requires
                extent == tile * q + r,
        ;
        vstd::arithmetic::div_mod::lemma_fundamental_div_mod_converse(extent - 1, tile, q, r - 1);
    }
}

/// A step count that lands on or past the extent, with its previous step
/// strictly inside, is exactly the ceiling of `extent / tile`.
proof fn lemma_step_count(extent: int, tile: int, steps: int)
    requires
        tile >= 1,
        extent >= 0,
        steps >= 0,
        extent <= steps * tile,
        steps >= 1 ==> (steps - 1) * tile < extent,
        steps == 0 ==> extent == 0,
    ensures
        steps == ceil_div(extent, tile),
{
    lemma_ceil_div_bounds(extent, tile);
    let c = ceil_div(extent, tile);
    if extent == 0 {
        assert(steps == 0);
    } else {
        assert(steps == c) by (nonlinear_arith)
            requires
                tile >= 1,
                extent > 0,
                steps >= 1,
                extent <= steps * tile,
                (steps - 1) * tile < extent,
                extent <= c * tile,
                (c - 1) * tile < extent,
        ;
    }
}

/// Extracts the tile whose top-left pixel is `(x, y)`: its extent is the
/// tile edge clipped at the image border, its color the mean color of that
/// region, and its grid coordinates the pixel offset divided by the edge.
pub fn create_square(img: &PixelBuffer, square_size: u32, x: u32, y: u32) -> (sq: Square)
    requires
        img.wf(),
        square_size >= 1,
        x < img.width,
        y < img.height,
    ensures
        sq.x == x as int / square_size as int,
        sq.y == y as int / square_size as int,
        sq.color == mean_spec(
            tile_pixels(
                *img,
                x as int,
                y as int,
                clip(img.width as int, square_size as int, x as int),
                clip(img.height as int, square_size as int, y as int),
            ),
        ),
{
    let square_width: u32 = if square_size <= img.width - x {
        square_size
    } else {
        img.width - x
    };
    let square_height: u32 = if square_size <= img.height - y {
        square_size
    } else {
        img.height - y
    };
    let ghost sw = square_width as int;
    let ghost sh = square_height as int;
    let ghost region = tile_pixels(*img, x as int, y as int, sw, sh);
    proof {
        assert(sw * sh >= 1 && sw * sh >= sh && sw * sh >= sw) by (nonlinear_arith)
            requires
                sw >= 1,
                sh >= 1,
        ;
    }
    let mut pixels: Vec<Color> = Vec::new();
    let mut sy: u32 = 0;
    while sy < square_height
        invariant
            0 <= sy <= square_height,
            img.wf(),
            x + square_width <= img.width,
            y + square_height <= img.height,
            sw == square_width as int,
            sh == square_height as int,
            square_width >= 1,
            square_height >= 1,
            pixels@.len() == sy * sw,
            forall|i: int|
                0 <= i < pixels@.len() ==> pixels@[i] == img.pixel_at(
                    x + i % sw,
                    y + i / sw,
                ),
        decreases square_height - sy,
    {
        let mut sx: u32 = 0;
        proof {
            assert(sy * sw + 0 == sy * sw);
        }
        while sx < square_width
            invariant
                0 <= sx <= square_width,
                0 <= sy < square_height,
                img.wf(),
                x + square_width <= img.width,
                y + square_height <= img.height,
                sw == square_width as int,
                sh == square_height as int,
                pixels@.len() == sy * sw + sx,
                forall|i: int|
                    0 <= i < pixels@.len() ==> pixels@[i] == img.pixel_at(
                        x + i % sw,
                        y + i / sw,
                    ),
            decreases square_width - sx,
        {
            let c = img.get_pixel(x + sx, y + sy);
            pixels.push(c);
            proof {
                let idx = sy * sw + sx;
                vstd::arithmetic::div_mod::lemma_fundamental_div_mod_converse(
                    idx,
                    sw,
                    sy as int,
                    sx as int,
                );
            }
            sx = sx + 1;
        }
        proof {
            assert(sy * sw + sw == (sy + 1) * sw) by (nonlinear_arith);
        }
        sy = sy + 1;
    }
    let square_img = PixelBuffer { width: square_width, height: square_height, pixels };
    proof {
        assert(sh * sw == sw * sh) by (nonlinear_arith);
        assert(square_img.wf());
        assert(square_img.pixels@ =~= region);
    }
    let color = calculate_rgb_mean(&square_img);
    Square { x: x / square_size, y: y / square_size, color }
}

/// Decomposes an image into a row-major grid of squares with a fixed stride
/// `square_size` along both axes: `ceil(width / edge) * ceil(height / edge)`
/// squares, border squares clipped rather than padded, each carrying the
/// mean color of its own pixel extent.
pub fn divide_image_into_squares(img: &PixelBuffer, square_size: u32) -> (r: PixelImage)
    requires
        img.wf(),
        square_size >= 1,
    ensures
        r.wf(),
        r.dimensions.0 == ceil_div(img.width as int, square_size as int),
        r.dimensions.1 == ceil_div(img.height as int, square_size as int),
        forall|k: int|
            0 <= k < r.squares@.len() ==> square_ok(
                *img,
                square_size as int,
                #[trigger] r.squares@[k],
            ),
{
    let width = img.width;
    let height = img.height;
    let ghost t = square_size as int;
    let grid_width: u32 = if width == 0 {
        0
    } else {
        proof {
            lemma_ceil_div_formula(width as int, t);
            assert((width - 1) as int / t <= (width - 1) as int) by (nonlinear_arith)
                requires
                    t >= 1,
                    width >= 1,
            ;
        }
        (width - 1) / square_size + 1
    };
    let grid_height: u32 = if height == 0 {
        0
    } else {
        proof {
            lemma_ceil_div_formula(height as int, t);
            assert((height - 1) as int / t <= (height - 1) as int) by (nonlinear_arith)
                requires
                    t >= 1,
                    height >= 1,
            ;
        }
        (height - 1) / square_size + 1
    };
    let ghost gw = grid_width as int;
    proof {
        lemma_ceil_div_bounds(width as int, t);
        lemma_ceil_div_bounds(height as int, t);
        assert(gw == ceil_div(width as int, t));
        assert(grid_height as int == ceil_div(height as int, t));
    }
    let mut squares: Vec<Square> = Vec::new();
    let ghost mut row: int = 0;
    let mut y: u64 = 0;
    while y < height as u64
        invariant
            img.wf(),
            width == img.width,
            height == img.height,
            square_size >= 1,
            t == square_size as int,
            gw == grid_width as int,
            gw == ceil_div(width as int, t),
            row >= 0,
            y == row * t,
            row >= 1 ==> (row - 1) * t < height,
            row == 0 ==> y == 0,
            squares@.len() == row * gw,
            forall|k: int|
                0 <= k < squares@.len() ==> (#[trigger] squares@[k]).x == k % gw
                    && squares@[k].y == k / gw && square_ok(*img, t, squares@[k]),
        decreases height as int + t - y,
    {
        let ghost mut col: int = 0;
        let mut x: u64 = 0;
        while x < width as u64
            invariant
                img.wf(),
                width == img.width,
                height == img.height,
                square_size >= 1,
                t == square_size as int,
                gw == grid_width as int,
                gw == ceil_div(width as int, t),
                row >= 0,
                y == row * t,
                y < height,
                col >= 0,
                x == col * t,
                col >= 1 ==> (col - 1) * t < width,
                col == 0 ==> x == 0,
                col <= gw,
                squares@.len() == row * gw + col,
                forall|k: int|
                    0 <= k < squares@.len() ==> (#[trigger] squares@[k]).x == k % gw
                        && squares@[k].y == k / gw && square_ok(*img, t, squares@[k]),
            decreases width as int + t - x,
        {
            let sq = create_square(img, square_size, x as u32, y as u32);
            proof {
                vstd::arithmetic::div_mod::lemma_div_by_multiple(col, t);
                vstd::arithmetic::div_mod::lemma_div_by_multiple(row, t);
                lemma_ceil_div_bounds(width as int, t);
                assert(col < gw) by (nonlinear_arith)
                    requires
                        t >= 1,
                        col >= 0,
                        col * t < width,
                        width <= gw * t,
                ;
                let k = row * gw + col;
                vstd::arithmetic::div_mod::lemma_fundamental_div_mod_converse(k, gw, row, col);
            }
            squares.push(sq);
            proof {
                assert((col + 1) * t == col * t + t) by (nonlinear_arith);
                col = col + 1;
            }
            x = x + square_size as u64;
        }
        proof {
            lemma_step_count(width as int, t, col);
            assert(row * gw + gw == (row + 1) * gw) by (nonlinear_arith);
            assert((row + 1) * t == row * t + t) by (nonlinear_arith);
            row = row + 1;
        }
        y = y + square_size as u64;
    }
    proof {
        lemma_step_count(height as int, t, row);
        if height == 0 {
            assert(squares@.len() == 0);
            assert(row == 0);
        }
        assert(row == ceil_div(height as int, t));
        assert(squares@.len() == grid_width * grid_height) by (nonlinear_arith)
            requires
                squares@.len() == row * gw,
                row == grid_height as int,
                gw == grid_width as int,
        ;
    }
    PixelImage { squares, dimensions: (grid_width, grid_height) }
}

/// Pixel `(px, py)` lies inside the clipped pixel extent of the tile at
/// grid coordinates `(tx, ty)`.
pub open spec fn in_tile_extent(
    w: int,
    h: int,
    tile: int,
    tx: int,
    ty: int,
    px: int,
    py: int,
) -> bool {
    &&& tx * tile <= px < tx * tile + clip(w, tile, tx * tile)
    &&& ty * tile <= py < ty * tile + clip(h, tile, ty * tile)
}

/// Along one axis, a coordinate lies in the clipped extent of exactly one
/// tile step: the one at index `p / tile`.
proof fn lemma_axis_cover(extent: int, tile: int, p: int)
    requires
        tile >= 1,
        0 <= p < extent,
    ensures
        0 <= p / tile < ceil_div(extent, tile),
        (p / tile) * tile <= p < (p / tile) * tile + clip(extent, tile, (p / tile) * tile),
        forall|tx: int|
            #[trigger] (tx * tile) <= p < tx * tile + clip(extent, tile, tx * tile) ==> tx == p
                / tile,
{
    let q = p / tile;
    let r = p % tile;
    vstd::arithmetic::div_mod::lemma_fundamental_div_mod(p, tile);
    assert(0 <= r < tile && q >= 0 && q * tile <= p && p < q * tile + tile) by (nonlinear_arith)
        requires
            tile >= 1,
            p >= 0,
            r == p % tile,
            q == p / tile,
            p == tile * q + r,
    ;
    lemma_ceil_div_bounds(extent, tile);
    assert(q < ceil_div(extent, tile)) by (nonlinear_arith)
        requires
            tile >= 1,
            q >= 0,
            q * tile <= p,
            p < extent,
            extent <= ceil_div(extent, tile) * tile,
    ;
    assert forall|tx: int|
        #[trigger] (tx * tile) <= p < tx * tile + clip(extent, tile, tx * tile) implies tx == q by {
        assert(p < tx * tile + tile);
        assert(tx == q) by (nonlinear_arith)
            requires
                tile >= 1,
                tx * tile <= p,
                p < tx * tile + tile,
                p == tile * q + r,
                0 <= r < tile,
        ;
    }
}

/// Exact coverage: every pixel of a `w x h` image lies in the clipped
/// extent of the tile at grid coordinates `(px / tile, py / tile)`, those
/// coordinates lie inside the decomposition grid, and no other tile's
/// extent holds the pixel. The tile extents thus partition the image with
/// no gap and no overlap.
pub proof fn lemma_tiles_cover_exactly(w: int, h: int, tile: int, px: int, py: int)
    requires
        tile >= 1,
        0 <= px < w,
        0 <= py < h,
    ensures
        0 <= px / tile < ceil_div(w, tile),
        0 <= py / tile < ceil_div(h, tile),
        in_tile_extent(w, h, tile, px / tile, py / tile, px, py),
        forall|tx: int, ty: int|
            #[trigger] in_tile_extent(w, h, tile, tx, ty, px, py) ==> tx == px / tile && ty == py
                / tile,
{
    lemma_axis_cover(w, tile, px);
    lemma_axis_cover(h, tile, py);
}

/// Exact coverage, stated over a decomposed grid: every pixel of a
/// `w x h` image lies in the clipped extent of exactly one square of a
/// well-formed grid with the decomposition's dimensions. The squares'
/// extents thus partition the image with no gap and no overlap.
pub proof fn lemma_grid_partitions_image(
    grid: PixelImage,
    w: int,
    h: int,
    tile: int,
    px: int,
    py: int,
)
    requires
        grid.wf(),
        tile >= 1,
        grid.dimensions.0 == ceil_div(w, tile),
        grid.dimensions.1 == ceil_div(h, tile),
        0 <= px < w,
        0 <= py < h,
    ensures
        exists|k: int|
            0 <= k < grid.squares@.len() && in_tile_extent(
                w,
                h,
                tile,
                (#[trigger] grid.squares@[k]).x as int,
                grid.squares@[k].y as int,
                px,
                py,
            ),
        forall|k1: int, k2: int|
            0 <= k1 < grid.squares@.len() && 0 <= k2 < grid.squares@.len() && in_tile_extent(
                w,
                h,
                tile,
                (#[trigger] grid.squares@[k1]).x as int,
                grid.squares@[k1].y as int,
                px,
                py,
            ) && in_tile_extent(
                w,
                h,
                tile,
                (#[trigger] grid.squares@[k2]).x as int,
                grid.squares@[k2].y as int,
                px,
                py,
            ) ==> k1 == k2,
{
    lemma_tiles_cover_exactly(w, h, tile, px, py);
    let tx = px / tile;
    let ty = py / tile;
    let gw = grid.dimensions.0 as int;
    let gh = grid.dimensions.1 as int;
    let k = ty * gw + tx;
    assert(0 <= k < gw * gh) by (nonlinear_arith)
        requires
            0 <= tx < gw,
            0 <= ty < gh,
            k == ty * gw + tx,
    ;
    vstd::arithmetic::div_mod::lemma_fundamental_div_mod_converse(k, gw, ty, tx);
    assert(grid.squares@[k].x == tx && grid.squares@[k].y == ty);
    assert(in_tile_extent(
        w,
        h,
        tile,
        grid.squares@[k].x as int,
        grid.squares@[k].y as int,
        px,
        py,
    ));
    assert forall|k1: int, k2: int|
        0 <= k1 < grid.squares@.len() && 0 <= k2 < grid.squares@.len() && in_tile_extent(
            w,
            h,
            tile,
            (#[trigger] grid.squares@[k1]).x as int,
            grid.squares@[k1].y as int,
            px,
            py,
        ) && in_tile_extent(
            w,
            h,
            tile,
            (#[trigger] grid.squares@[k2]).x as int,
            grid.squares@[k2].y as int,
            px,
            py,
        ) implies k1 == k2 by {
        vstd::arithmetic::div_mod::lemma_fundamental_div_mod(k1, gw);
        vstd::arithmetic::div_mod::lemma_fundamental_div_mod(k2, gw);
    }
}

/// When an axis extent is not a multiple of the tile edge, every tile
/// before the last has the full edge, and the last tile is strictly
/// smaller: its edge is the remainder `extent % tile`.
pub proof fn lemma_edge_tiles_clipped(extent: int, tile: int)
    requires
        tile >= 1,
        extent >= 1,
        extent % tile != 0,
    ensures
        0 < extent % tile < tile,
        clip(extent, tile, (ceil_div(extent, tile) - 1) * tile) == extent % tile,
        forall|tx: int|
            0 <= tx < ceil_div(extent, tile) - 1 ==> clip(extent, tile, #[trigger] (tx * tile))
                == tile,
{
    let q = extent / tile;
    let r = extent % tile;
    vstd::arithmetic::div_mod::lemma_fundamental_div_mod(extent, tile);
    assert(0 <= r < tile && q >= 0) by (nonlinear_arith)
        requires
            tile >= 1,
            extent >= 0,
            r == extent % tile,
            q == extent / tile,
            extent == tile * q + r,
    ;
    assert(ceil_div(extent, tile) == q + 1);
    assert(extent - q * tile == r) by (nonlinear_arith)
        requires
            extent == tile * q + r,
    ;
    assert forall|tx: int| 0 <= tx < q implies clip(extent, tile, #[trigger] (tx * tile)) == tile by {
        assert(extent - tx * tile >= tile) by (nonlinear_arith)
            requires
                extent == tile * q + r,
                0 <= tx < q,
                r >= 0,
                tile >= 1,
        ;
    }
}

/// Everything that can abort a mosaic run. None of these is recovered
/// locally: a single failure invalidates the whole run, and no partial
/// output is produced. The path-carrying variants report which candidate
/// or operation failed; the surrounding program builds them at its
/// input/output edges.
#[derive(Debug)]
pub enum MosaicError {
    /// The source folder yielded no candidate images, so no catalog can be
    /// built and no matching is attempted.
    NoCandidates,
    /// A candidate or target image could not be read or decoded.
    Decode(String),
    /// The source folder itself could not be listed.
    Directory(String),
    /// The catalog build failed on a specific candidate.
    CatalogBuild(String),
    /// The output image could not be written.
    Encode(String),
}

/// Builds the catalog of candidate mean colors: one whole-image mean color
/// per candidate, aligned by index with the given full-resolution buffers.
/// Fails with `NoCandidates` exactly when no candidate was supplied; the
/// full-resolution buffers are not retained, only their mean colors.
pub fn calculate_source_images_means(source_images: &Vec<PixelBuffer>) -> (r: Result<
    Vec<Color>,
    MosaicError,
>)
    requires
        forall|k: int|
            0 <= k < source_images@.len() ==> (#[trigger] source_images@[k]).wf()
                && source_images@[k].pixels@.len() > 0,
    ensures
        r is Err <==> source_images@.len() == 0,
        r is Err ==> r->Err_0 is NoCandidates,
        r is Ok ==> r->Ok_0@.len() == source_images@.len() && forall|k: int|
            0 <= k < source_images@.len() ==> r->Ok_0@[k] == mean_spec(
                #[trigger] source_images@[k].pixels@,
            ),
{
    if source_images.len() == 0 {
        return Err(MosaicError::NoCandidates);
    }
    let mut means: Vec<Color> = Vec::new();
    let mut i: usize = 0;
    while i < source_images.len()
        invariant
            0 <= i <= source_images@.len(),
            means@.len() == i,
            forall|k: int|
                0 <= k < source_images@.len() ==> (#[trigger] source_images@[k]).wf()
                    && source_images@[k].pixels@.len() > 0,
            forall|k: int|
                0 <= k < i ==> means@[k] == mean_spec(#[trigger] source_images@[k].pixels@),
        decreases source_images@.len() - i,
    {
        let mean = calculate_rgb_mean(&source_images[i]);
        means.push(mean);
        i = i + 1;
    }
    Ok(means)
}

/// Index `i` is the matcher's answer for `target` in `means`: no entry is
/// strictly nearer, and every entry before `i` is strictly farther. Among
/// entries at the same minimal distance the first in catalog order wins,
/// which makes the matcher deterministic in the (documented) catalog order.
pub open spec fn is_first_closest(means: Seq<Color>, target: Color, i: int) -> bool {
    &&& 0 <= i < means.len()
    &&& forall|j: int|
        0 <= j < means.len() ==> dist_sq(target, #[trigger] means[j]) >= dist_sq(
            target,
            means[i],
        )
    &&& forall|j: int| 0 <= j < i ==> dist_sq(target, #[trigger] means[j]) > dist_sq(
        target,
        means[i],
    )
}

/// Linear scan for the catalog entry nearest to `color` in Euclidean RGB
/// distance. Ties break deterministically: the entry earliest in catalog
/// order wins. Requires a non-empty catalog; an empty candidate set is
/// rejected earlier, when the catalog is built.
pub fn find_closest_source_image(source_image_means: &Vec<Color>, color: Color) -> (best: usize)
    requires
        source_image_means@.len() >= 1,
    ensures
        is_first_closest(source_image_means@, color, best as int),
{
    let mut best: usize = 0;
    let mut minimum_distance: u32 = calculate_rgb_distance_squared(color, source_image_means[0]);
    let mut j: usize = 1;
    while j < source_image_means.len()
        invariant
            1 <= j <= source_image_means@.len(),
            0 <= best < j,
            minimum_distance == dist_sq(color, source_image_means@[best as int]),
            forall|k: int|
                0 <= k < j ==> dist_sq(color, #[trigger] source_image_means@[k])
                    >= minimum_distance,
            forall|k: int|
                0 <= k < best ==> dist_sq(color, #[trigger] source_image_means@[k])
                    > minimum_distance,
        decreases source_image_means@.len() - j,
    {
        let d = calculate_rgb_distance_squared(color, source_image_means[j]);
        if d < minimum_distance {
            best = j;
            minimum_distance = d;
        }
        j = j + 1;
    }
    best
}

/// On a catalog with a single entry the matcher returns that entry,
/// whatever the target color.
pub proof fn lemma_find_nearest_singleton(means: Seq<Color>, target: Color, i: int)
    requires
        means.len() == 1,
        is_first_closest(means, target, i),
    ensures
        i == 0,
{
}

/// A target color that appears in the catalog is matched to an entry with
/// exactly that color: distance zero dominates every other entry.
pub proof fn lemma_find_nearest_exact(means: Seq<Color>, target: Color, i: int, j: int)
    requires
        0 <= j < means.len(),
        means[j] == target,
        is_first_closest(means, target, i),
    ensures
        means[i] == target,
{
    crate::color::lemma_distance_zero_iff_equal(target, means[j]);
    crate::color::lemma_distance_zero_iff_equal(target, means[i]);
}

/// The read-only matching pass: for each square of the decomposed target,
/// the index of the catalog entry nearest to the square's mean color, in
/// the squares' own order. No cache is touched here; compositing follows
/// as a separate pass.
pub fn match_source_images(img_pixels: &PixelImage, source_image_means: &Vec<Color>) -> (matched:
    Vec<usize>)
    requires
        source_image_means@.len() >= 1,
    ensures
        matched@.len() == img_pixels.squares@.len(),
        forall|k: int|
            0 <= k < matched@.len() ==> is_first_closest(
                source_image_means@,
                img_pixels.squares@[k].color,
                #[trigger] matched@[k] as int,
            ),
{
    let mut matched: Vec<usize> = Vec::new();
    let mut k: usize = 0;
    while k < img_pixels.squares.len()
        invariant
            0 <= k <= img_pixels.squares@.len(),
            source_image_means@.len() >= 1,
            matched@.len() == k,
            forall|j: int|
                0 <= j < k ==> is_first_closest(
                    source_image_means@,
                    img_pixels.squares@[j].color,
                    #[trigger] matched@[j] as int,
                ),
        decreases img_pixels.squares@.len() - k,
    {
        let best = find_closest_source_image(source_image_means, img_pixels.squares[k].color);
        matched.push(best);
        k = k + 1;
    }
    matched
}

/// The reuse cache of resized candidate buffers: one lazily filled slot per
/// catalog entry, keyed by catalog index. A slot can only be filled while
/// empty, so within one run the resize cost is paid at most once per
/// distinct matched candidate, however many tiles select it.
pub struct ResizeCache {
    pub slots: Vec<Option<PixelBuffer>>,
    pub tile_edge: u32,
}

impl ResizeCache {
    /// Every filled slot holds a well-formed buffer of exactly
    /// `tile_edge x tile_edge` pixels.
    pub open spec fn wf(self) -> bool {
        forall|i: int|
            0 <= i < self.slots@.len() ==> match #[trigger] self.slots@[i] {
                Some(b) => b.wf() && b.width == self.tile_edge && b.height == self.tile_edge,
                None => true,
            }
    }

    /// Whether the slot for catalog index `i` has been filled.
    pub open spec fn is_cached_spec(self, i: int) -> bool {
        self.slots@[i] is Some
    }

    /// A fresh cache with one empty slot per catalog entry.
    pub fn new(count: usize, tile_edge: u32) -> (cache: ResizeCache)
        ensures
            cache.wf(),
            cache.tile_edge == tile_edge,
            cache.slots@.len() == count,
            forall|i: int| 0 <= i < count ==> !cache.is_cached_spec(i),
    {
        let mut slots: Vec<Option<PixelBuffer>> = Vec::new();
        let mut i: usize = 0;
        while i < count
            invariant
                0 <= i <= count,
                slots@.len() == i,
                forall|j: int| 0 <= j < i ==> (#[trigger] slots@[j]) is None,
            decreases count - i,
        {
            slots.push(None);
            i = i + 1;
        }
        ResizeCache { slots, tile_edge }
    }

    /// Whether the candidate at catalog index `i` already has a resized
    /// buffer.
    pub fn is_cached(&self, i: usize) -> (cached: bool)
        requires
            i < self.slots@.len(),
        ensures
            cached == self.is_cached_spec(i as int),
    {
        self.slots[i].is_some()
    }

    /// Fills the slot for catalog index `i`. A slot can only be filled
    /// while empty: a caller must consult `is_cached` first, which is what
    /// bounds the loads to one per distinct candidate.
    pub fn insert(&mut self, i: usize, buffer: PixelBuffer)
        requires
            old(self).wf(),
            i < old(self).slots@.len(),
            !old(self).is_cached_spec(i as int),
            buffer.wf(),
            buffer.width == old(self).tile_edge,
            buffer.height == old(self).tile_edge,
        ensures
            final(self).wf(),
            final(self).tile_edge == old(self).tile_edge,
            final(self).slots@ == old(self).slots@.update(i as int, Some(buffer)),
    {
        self.slots.set(i, Some(buffer));
    }

    /// The resized buffer cached for catalog index `i`.
    pub fn get(&self, i: usize) -> (buffer: &PixelBuffer)
        requires
            i < self.slots@.len(),
            self.is_cached_spec(i as int),
        ensures
            self.slots@[i as int] == Some(*buffer),
    {
        self.slots[i].as_ref().unwrap()
    }
}

/// The canvas holds, over the whole pixel extent of tile `sq`, exactly the
/// pixels of `buf`.
pub open spec fn tile_rendered(canvas: PixelBuffer, sq: Square, buf: PixelBuffer, tile: int) -> bool {
    forall|px: int, py: int|
        sq.x * tile <= px < sq.x * tile + tile && sq.y * tile <= py < sq.y * tile + tile
            ==> #[trigger] canvas.pixel_at(px, py) == buf.pixel_at(
            px - sq.x * tile,
            py - sq.y * tile,
        )
}

/// Two distinct grid cells have disjoint pixel extents.
proof fn lemma_distinct_tiles_disjoint(t: int, ax: int, ay: int, bx: int, by: int, px: int, py: int)
    requires
        t >= 1,
        ax != bx || ay != by,
        ax * t <= px < ax * t + t,
        ay * t <= py < ay * t + t,
    ensures
        !(bx * t <= px < bx * t + t && by * t <= py < by * t + t),
{
    if ax != bx {
        assert(!(bx * t <= px < bx * t + t)) by (nonlinear_arith)
            requires
                t >= 1,
                ax != bx,
                ax * t <= px < ax * t + t,
        ;
    } else {
        assert(!(by * t <= py < by * t + t)) by (nonlinear_arith)
            requires
                t >= 1,
                ay != by,
                ay * t <= py < ay * t + t,
        ;
    }
}

/// The compositing pass: a canvas of `grid_dimensions * square_size`
/// pixels in which every square's pixel extent has been overwritten with
/// the cached resized buffer of its matched candidate. Every matched
/// candidate must already be cached; within each run the cache was filled
/// before compositing begins.
pub fn render_mosaic(
    img_pixels: &PixelImage,
    matched: &Vec<usize>,
    cache: &ResizeCache,
    square_size: u32,
) -> (canvas: PixelBuffer)
    requires
        img_pixels.wf(),
        square_size >= 1,
        cache.wf(),
        cache.tile_edge == square_size,
        matched@.len() == img_pixels.squares@.len(),
        forall|k: int|
            0 <= k < matched@.len() ==> (#[trigger] matched@[k]) < cache.slots@.len()
                && cache.is_cached_spec(matched@[k] as int),
        img_pixels.dimensions.0 * square_size <= u32::MAX,
        img_pixels.dimensions.1 * square_size <= u32::MAX,
        (img_pixels.dimensions.0 * square_size) * (img_pixels.dimensions.1 * square_size)
            <= usize::MAX,
    ensures
        canvas.wf(),
        canvas.width == img_pixels.dimensions.0 * square_size,
        canvas.height == img_pixels.dimensions.1 * square_size,
        forall|k: int|
            0 <= k < matched@.len() ==> tile_rendered(
                canvas,
                img_pixels.squares@[k],
                (#[trigger] cache.slots@[matched@[k] as int])->Some_0,
                square_size as int,
            ),
{
    let ghost t = square_size as int;
    let ghost gw = img_pixels.dimensions.0 as int;
    let ghost gh = img_pixels.dimensions.1 as int;
    let canvas_width: u32 = img_pixels.dimensions.0 * square_size;
    let canvas_height: u32 = img_pixels.dimensions.1 * square_size;
    let mut canvas = PixelBuffer::new_filled(canvas_width, canvas_height, Color { r: 0, g: 0, b: 0 });
    let mut k: usize = 0;
    while k < matched.len()
        invariant
            img_pixels.wf(),
            square_size >= 1,
            t == square_size as int,
            gw == img_pixels.dimensions.0 as int,
            gh == img_pixels.dimensions.1 as int,
            cache.wf(),
            cache.tile_edge == square_size,
            matched@.len() == img_pixels.squares@.len(),
            forall|j: int|
                0 <= j < matched@.len() ==> (#[trigger] matched@[j]) < cache.slots@.len()
                    && cache.is_cached_spec(matched@[j] as int),
            0 <= k <= matched@.len(),
            canvas.wf(),
            canvas.width == canvas_width,
            canvas.height == canvas_height,
            canvas_width == gw * t,
            canvas_height == gh * t,
            forall|j: int|
                0 <= j < k ==> tile_rendered(
                    canvas,
                    img_pixels.squares@[j],
                    (#[trigger] cache.slots@[matched@[j] as int])->Some_0,
                    t,
                ),
        decreases matched@.len() - k,
    {
        let sq_x = img_pixels.squares[k].x;
        let sq_y = img_pixels.squares[k].y;
        let m = matched[k];
        let buf = cache.get(m);
        proof {
            assert(gw * gh >= 1 && gw >= 1 && gh >= 1) by (nonlinear_arith)
                requires
                    gw >= 0,
                    gh >= 0,
                    gw * gh > k,
                    k >= 0,
            ;
            assert(0 <= k as int % gw < gw && 0 <= k as int / gw < gh) by (nonlinear_arith)
                requires
                    gw >= 1,
                    gh >= 1,
                    0 <= k < gw * gh,
            ;
            assert(sq_x * t + t <= gw * t && sq_y * t + t <= gh * t && sq_x * t >= 0 && sq_y * t
                >= 0) by (nonlinear_arith)
                requires
                    t >= 1,
                    0 <= sq_x < gw,
                    0 <= sq_y < gh,
            ;
        }
        let offset_x: u32 = sq_x * square_size;
        let offset_y: u32 = sq_y * square_size;
        let ghost canvas_before = canvas;
        write_image_into_buffer(buf, &mut canvas, offset_x, offset_y);
        proof {
            assert forall|j: int| 0 <= j < k + 1 implies tile_rendered(
                canvas,
                img_pixels.squares@[j],
                (#[trigger] cache.slots@[matched@[j] as int])->Some_0,
                t,
            ) by {
                let sq = img_pixels.squares@[j];
                let jbuf = cache.slots@[matched@[j] as int]->Some_0;
                assert(0 <= j as int % gw < gw && 0 <= j as int / gw < gh) by (nonlinear_arith)
                    requires
                        gw >= 1,
                        gh >= 1,
                        0 <= j < gw * gh,
                ;
                assert forall|px: int, py: int|
                    sq.x * t <= px < sq.x * t + t && sq.y * t <= py < sq.y * t + t implies #[trigger] canvas.pixel_at(
                    px,
                    py,
                ) == jbuf.pixel_at(px - sq.x * t, py - sq.y * t) by {
                    assert(sq.x * t + t <= gw * t && sq.y * t + t <= gh * t && sq.x * t >= 0
                        && sq.y * t >= 0) by (nonlinear_arith)
                        requires
                            t >= 1,
                            0 <= sq.x < gw,
                            0 <= sq.y < gh,
                    ;
                    if j < k {
                        if sq.x == sq_x && sq.y == sq_y {
                            vstd::arithmetic::div_mod::lemma_fundamental_div_mod(j, gw);
                            vstd::arithmetic::div_mod::lemma_fundamental_div_mod(k as int, gw);
                            assert(false);
                        }
                        lemma_distinct_tiles_disjoint(
                            t,
                            sq.x as int,
                            sq.y as int,
                            sq_x as int,
                            sq_y as int,
                            px,
                            py,
                        );
                        assert(canvas.pixel_at(px, py) == canvas_before.pixel_at(px, py));
                    }
                }
            }
        }
        k = k + 1;
    }
    canvas
}

} // verus!
