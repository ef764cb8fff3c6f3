use vstd::prelude::*;
use crate::color::Color;

verus! {

/// A 2-D raster of RGB samples stored in row-major order: the pixel at
/// column `x` of row `y` sits at index `y * width + x`.
pub struct PixelBuffer {
    pub width: u32,
    pub height: u32,
    pub pixels: Vec<Color>,
}

impl PixelBuffer {
    /// The sample vector holds exactly one entry per pixel of the raster.
    pub open spec fn wf(self) -> bool {
        self.pixels@.len() == self.width * self.height
    }

    /// The sample at column `x` of row `y`.
    pub open spec fn pixel_at(self, x: int, y: int) -> Color
        recommends
            0 <= x < self.width,
            0 <= y < self.height,
    {
        self.pixels@[y * self.width + x]
    }

    /// A fresh `width x height` raster with every sample equal to `fill`.
    pub fn new_filled(width: u32, height: u32, fill: Color) -> (r: PixelBuffer)
        requires
            width * height <= usize::MAX,
        ensures
            r.wf(),
            r.width == width,
            r.height == height,
            forall|i: int| 0 <= i < r.pixels@.len() ==> r.pixels@[i] == fill,
    {
        let count: usize = (width as usize) * (height as usize);
        let mut pixels: Vec<Color> = Vec::new();
        let mut i: usize = 0;
        while i < count
            invariant
                0 <= i <= count,
                pixels@.len() == i,
                forall|j: int| 0 <= j < i ==> pixels@[j] == fill,
            decreases count - i,
        {
            pixels.push(fill);
            i = i + 1;
        }
        PixelBuffer { width, height, pixels }
    }

    /// Reads the sample at `(x, y)`.
    pub fn get_pixel(&self, x: u32, y: u32) -> (c: Color)
        requires
            self.wf(),
            x < self.width,
            y < self.height,
        ensures
            c == self.pixel_at(x as int, y as int),
    {
        let total: usize = self.pixels.len();
        proof {
            assert(total == self.width * self.height);
            lemma_row_major_index_bounds(self.width as int, self.height as int, x as int, y as int);
        }
        let idx: usize = (y as usize) * (self.width as usize) + (x as usize);
        self.pixels[idx]
    }

    /// Overwrites the sample at `(x, y)`; every other sample is unchanged.
    pub fn put_pixel(&mut self, x: u32, y: u32, c: Color)
        requires
            old(self).wf(),
            x < old(self).width,
            y < old(self).height,
        ensures
            final(self).wf(),
            final(self).width == old(self).width,
            final(self).height == old(self).height,
            final(self).pixels@ == old(self).pixels@.update(
                y * old(self).width + x,
                c,
            ),
            final(self).pixel_at(x as int, y as int) == c,
            forall|px: int, py: int|
                0 <= px < old(self).width && 0 <= py < old(self).height && !(px == x && py == y)
                    ==> final(self).pixel_at(px, py) == old(self).pixel_at(px, py),
    {
        let total: usize = self.pixels.len();
        proof {
            assert(total == self.width * self.height);
            lemma_row_major_index_bounds(self.width as int, self.height as int, x as int, y as int);
        }
        let idx: usize = (y as usize) * (self.width as usize) + (x as usize);
        self.pixels.set(idx, c);
        proof {
            assert forall|px: int, py: int|
                0 <= px < self.width && 0 <= py < self.height && !(px == x && py == y)
                implies self.pixel_at(px, py) == old(self).pixel_at(px, py) by {
                let w = self.width as int;
                if py * w + px == y * w + x {
                    lemma_row_major_index_injective(w, px, py, x as int, y as int);
                }
                lemma_row_major_index_bounds(w, self.height as int, px, py);
            }
        }
    }
}

/// A row-major index of an in-range coordinate pair lies inside the raster.
proof fn lemma_row_major_index_bounds(w: int, h: int, x: int, y: int)
    requires
        0 <= x < w,
        0 <= y < h,
    ensures
        0 <= y * w + x < w * h,
{
    assert(0 <= y * w + x < w * h) by (nonlinear_arith)
        requires
            0 <= x < w,
            0 <= y < h,
    ;
}

/// Two in-range columns give the same row-major index only at the same
/// coordinates.
proof fn lemma_row_major_index_injective(w: int, x1: int, y1: int, x2: int, y2: int)
    requires
        0 <= x1 < w,
        0 <= x2 < w,
        y1 * w + x1 == y2 * w + x2,
    ensures
        x1 == x2,
        y1 == y2,
{
    assert(x1 == x2 && y1 == y2) by (nonlinear_arith)
        requires
            0 <= x1 < w,
            0 <= x2 < w,
            y1 * w + x1 == y2 * w + x2,
    ;
}

/// The pixels of the raster that the Gaussian-filter resampling of a
/// `src_width x src_height` raster down (or up) to `size x size` produces.
/// Its value depends on the source samples and the dimensions alone.
pub uninterp spec fn gaussian_resize_of(
    src: Seq<Color>,
    src_width: int,
    src_height: int,
    size: int,
) -> Seq<Color>;

/// Relies on image::imageops::resize with FilterType::Gaussian: it returns
/// a raster of exactly the requested dimensions, resampled from the source
/// samples alone, and on image::ImageBuffer::from_raw, which accepts a
/// container holding exactly three subpixels per pixel.
#[verifier::external_body]
fn resize_gaussian(src: &PixelBuffer, size: u32) -> (r: PixelBuffer)
    requires
        src.wf(),
        src.width >= 1,
        src.height >= 1,
        size >= 1,
    ensures
        r.wf(),
        r.width == size,
        r.height == size,
        r.pixels@ == gaussian_resize_of(
            src.pixels@,
            src.width as int,
            src.height as int,
            size as int,
        ),
{
    let raw: Vec<u8> = src.pixels.iter().flat_map(|c| [c.r, c.g, c.b]).collect();
    let img = image::ImageBuffer::<image::Rgb<u8>, Vec<u8>>::from_raw(src.width, src.height, raw)
        .unwrap();
    let out = image::imageops::resize(&img, size, size, image::imageops::FilterType::Gaussian);
    let pixels: Vec<Color> = out.pixels().map(|p| Color { r: p.0[0], g: p.0[1], b: p.0[2] }).collect();
    PixelBuffer { width: size, height: size, pixels }
}

/// Resizes a source raster to a `size x size` tile with the smooth
/// Gaussian resampling filter, so that shrinking a large candidate to tile
/// size does not alias.
pub fn resize_image(src: &PixelBuffer, size: u32) -> (r: PixelBuffer)
    requires
        src.wf(),
        src.width >= 1,
        src.height >= 1,
        size >= 1,
    ensures
        r.wf(),
        r.width == size,
        r.height == size,
        r.pixels@ == gaussian_resize_of(
            src.pixels@,
            src.width as int,
            src.height as int,
            size as int,
        ),
{
    resize_gaussian(src, size)
}

/// Copies every pixel of `src_img` into `dest_img` at offset `(x, y)`,
/// overwriting what was there; pixels outside the pasted region keep their
/// old value. The destination must be large enough to hold the source at
/// that offset.
pub fn write_image_into_buffer(src_img: &PixelBuffer, dest_img: &mut PixelBuffer, x: u32, y: u32)
    requires
        src_img.wf(),
        old(dest_img).wf(),
        x + src_img.width <= old(dest_img).width,
        y + src_img.height <= old(dest_img).height,
    ensures
        final(dest_img).wf(),
        final(dest_img).width == old(dest_img).width,
        final(dest_img).height == old(dest_img).height,
        forall|px: int, py: int|
            0 <= px < old(dest_img).width && 0 <= py < old(dest_img).height
                ==> #[trigger] final(dest_img).pixel_at(px, py) == (
                if x <= px < x + src_img.width && y <= py < y + src_img.height {
                    src_img.pixel_at(px - x, py - y)
                } else {
                    old(dest_img).pixel_at(px, py)
                }),
{
    let mut sy: u32 = 0;
    while sy < src_img.height
        invariant
            0 <= sy <= src_img.height,
            src_img.wf(),
            dest_img.wf(),
            dest_img.width == old(dest_img).width,
            dest_img.height == old(dest_img).height,
            x + src_img.width <= dest_img.width,
            y + src_img.height <= dest_img.height,
            forall|px: int, py: int|
                0 <= px < dest_img.width && 0 <= py < dest_img.height
                    ==> #[trigger] dest_img.pixel_at(px, py) == (
                    if x <= px < x + src_img.width && y <= py < y + sy {
                        src_img.pixel_at(px - x, py - y)
                    } else {
                        old(dest_img).pixel_at(px, py)
                    }),
        decreases src_img.height - sy,
    {
        let mut sx: u32 = 0;
        while sx < src_img.width
            invariant
                0 <= sx <= src_img.width,
                0 <= sy < src_img.height,
                src_img.wf(),
                dest_img.wf(),
                dest_img.width == old(dest_img).width,
                dest_img.height == old(dest_img).height,
                x + src_img.width <= dest_img.width,
                y + src_img.height <= dest_img.height,
                forall|px: int, py: int|
                    0 <= px < dest_img.width && 0 <= py < dest_img.height
                        ==> #[trigger] dest_img.pixel_at(px, py) == (
                        if x <= px < x + src_img.width && y <= py < y + sy {
                            src_img.pixel_at(px - x, py - y)
                        } else if y + sy == py && x <= px < x + sx {
                            src_img.pixel_at(px - x, py - y)
                        } else {
                            old(dest_img).pixel_at(px, py)
                        }),
            decreases src_img.width - sx,
        {
            let c = src_img.get_pixel(sx, sy);
            dest_img.put_pixel(x + sx, y + sy, c);
            sx = sx + 1;
        }
        sy = sy + 1;
    }
}

} // verus!
