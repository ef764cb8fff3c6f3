use vstd::prelude::*;
use crate::buffer::PixelBuffer;

verus! {

/// An RGB color sample: three 8-bit channels, compared and combined by value.
#[derive(Clone, Copy, PartialEq, Eq, Structural, Debug)]
pub struct Color {
    pub r: u8,
    pub g: u8,
    pub b: u8,
}

/// Sum of the red channel over a pixel sequence.
pub open spec fn sum_red(s: Seq<Color>) -> int
    decreases s.len(),
{
    if s.len() == 0 {
        0
    } else {
        sum_red(s.drop_last()) + s.last().r
    }
}

/// Sum of the green channel over a pixel sequence.
pub open spec fn sum_green(s: Seq<Color>) -> int
    decreases s.len(),
{
    if s.len() == 0 {
        0
    } else {
        sum_green(s.drop_last()) + s.last().g
    }
}

/// Sum of the blue channel over a pixel sequence.
pub open spec fn sum_blue(s: Seq<Color>) -> int
    decreases s.len(),
{
    if s.len() == 0 {
        0
    } else {
        sum_blue(s.drop_last()) + s.last().b
    }
}

/// The per-channel arithmetic mean of a non-empty pixel sequence, with
/// integer division truncating toward zero.
pub open spec fn mean_spec(s: Seq<Color>) -> Color
    recommends
        s.len() > 0,
{
    Color {
        r: (sum_red(s) / s.len() as int) as u8,
        g: (sum_green(s) / s.len() as int) as u8,
        b: (sum_blue(s) / s.len() as int) as u8,
    }
}

/// Squared Euclidean distance between two colors in raw 0-255 RGB space.
pub open spec fn dist_sq(a: Color, b: Color) -> int {
    (a.r - b.r) * (a.r - b.r) + (a.g - b.g) * (a.g - b.g) + (a.b - b.b) * (a.b - b.b)
}

/// Squared Euclidean distance between two colors. Squaring is strictly
/// monotonic on non-negative reals, so comparing squared distances orders
/// color pairs exactly as the Euclidean distance itself would; the matcher
/// works entirely over this integer quantity.
pub fn calculate_rgb_distance_squared(color: Color, other_color: Color) -> (d: u32)
    ensures
        d == dist_sq(color, other_color),
{
    let r_diff: i32 = color.r as i32 - other_color.r as i32;
    let g_diff: i32 = color.g as i32 - other_color.g as i32;
    let b_diff: i32 = color.b as i32 - other_color.b as i32;
    proof {
        assert(r_diff * r_diff <= 255 * 255 && r_diff * r_diff >= 0) by (nonlinear_arith)
            requires
                -255 <= r_diff <= 255,
        ;
        assert(g_diff * g_diff <= 255 * 255 && g_diff * g_diff >= 0) by (nonlinear_arith)
            requires
                -255 <= g_diff <= 255,
        ;
        assert(b_diff * b_diff <= 255 * 255 && b_diff * b_diff >= 0) by (nonlinear_arith)
            requires
                -255 <= b_diff <= 255,
        ;
    }
    (r_diff * r_diff + g_diff * g_diff + b_diff * b_diff) as u32
}

/// Distance is symmetric, and the distance from a color to itself is zero.
pub proof fn lemma_distance_symmetric(a: Color, b: Color)
    ensures
        dist_sq(a, b) == dist_sq(b, a),
        dist_sq(a, a) == 0,
{
    assert((a.r - b.r) * (a.r - b.r) == (b.r - a.r) * (b.r - a.r)) by (nonlinear_arith);
    assert((a.g - b.g) * (a.g - b.g) == (b.g - a.g) * (b.g - a.g)) by (nonlinear_arith);
    assert((a.b - b.b) * (a.b - b.b) == (b.b - a.b) * (b.b - a.b)) by (nonlinear_arith);
}

/// The distance between two colors is zero exactly when they are equal,
/// and it is never negative.
pub proof fn lemma_distance_zero_iff_equal(a: Color, b: Color)
    ensures
        dist_sq(a, b) >= 0,
        dist_sq(a, b) == 0 <==> a == b,
{
    assert((a.r - b.r) * (a.r - b.r) >= 0 && ((a.r - b.r) * (a.r - b.r) == 0 <==> a.r == b.r))
        by (nonlinear_arith);
    assert((a.g - b.g) * (a.g - b.g) >= 0 && ((a.g - b.g) * (a.g - b.g) == 0 <==> a.g == b.g))
        by (nonlinear_arith);
    assert((a.b - b.b) * (a.b - b.b) >= 0 && ((a.b - b.b) * (a.b - b.b) == 0 <==> a.b == b.b))
        by (nonlinear_arith);
    if a.r == b.r && a.g == b.g && a.b == b.b {
        assert(a == b);
    }
}

/// Channel sums over any pixel sequence lie between 0 and 255 per pixel.
proof fn lemma_sum_bounds(s: Seq<Color>)
    ensures
        0 <= sum_red(s) <= 255 * s.len(),
        0 <= sum_green(s) <= 255 * s.len(),
        0 <= sum_blue(s) <= 255 * s.len(),
    decreases s.len(),
{
    if s.len() > 0 {
        lemma_sum_bounds(s.drop_last());
    }
}

/// Appending one pixel grows each channel sum by that pixel's channel.
proof fn lemma_sum_take_step(s: Seq<Color>, i: int)
    requires
        0 <= i < s.len(),
    ensures
        sum_red(s.take(i + 1)) == sum_red(s.take(i)) + s[i].r,
        sum_green(s.take(i + 1)) == sum_green(s.take(i)) + s[i].g,
        sum_blue(s.take(i + 1)) == sum_blue(s.take(i)) + s[i].b,
{
    assert(s.take(i + 1).drop_last() =~= s.take(i));
    assert(s.take(i + 1).last() == s[i]);
}

/// Removing one pixel takes exactly its channels out of each channel sum.
proof fn lemma_sum_remove(s: Seq<Color>, i: int)
    requires
        0 <= i < s.len(),
    ensures
        sum_red(s) == s[i].r + sum_red(s.remove(i)),
        sum_green(s) == s[i].g + sum_green(s.remove(i)),
        sum_blue(s) == s[i].b + sum_blue(s.remove(i)),
    decreases s.len(),
{
    if i == s.len() - 1 {
        assert(s.remove(i) =~= s.drop_last());
    } else {
        lemma_sum_remove(s.drop_last(), i);
        assert(s.remove(i).drop_last() =~= s.drop_last().remove(i));
        assert(s.remove(i).last() == s.last());
    }
}

/// Channel sums agree on any two sequences that hold the same pixels as a
/// multiset, whatever the visiting order.
proof fn lemma_sum_permutation(s1: Seq<Color>, s2: Seq<Color>)
    requires
        s1.to_multiset() == s2.to_multiset(),
    ensures
        sum_red(s1) == sum_red(s2),
        sum_green(s1) == sum_green(s2),
        sum_blue(s1) == sum_blue(s2),
    decreases s1.len(),
{
    s1.to_multiset_ensures();
    s2.to_multiset_ensures();
    if s1.len() == 0 {
        assert(s2.len() == 0);
    } else {
        let last = s1.last();
        assert(s1.contains(last));
        assert(s2.to_multiset().count(last) > 0);
        assert(s2.contains(last));
        let j = choose|j: int| 0 <= j < s2.len() && s2[j] == last;
        assert(s1.drop_last() =~= s1.remove(s1.len() - 1));
        assert(s1.drop_last().to_multiset() =~= s1.to_multiset().remove(last));
        assert(s2.remove(j).to_multiset() =~= s2.to_multiset().remove(last));
        lemma_sum_permutation(s1.drop_last(), s2.remove(j));
        lemma_sum_remove(s2, j);
    }
}

/// Mean color is invariant to pixel visiting order: two non-empty rasters
/// holding the same pixels as a multiset (any permutation of one another)
/// have exactly the same mean color.
pub proof fn lemma_mean_permutation_invariant(s1: Seq<Color>, s2: Seq<Color>)
    requires
        s1.len() > 0,
        s1.to_multiset() == s2.to_multiset(),
    ensures
        mean_spec(s1) == mean_spec(s2),
{
    s1.to_multiset_ensures();
    s2.to_multiset_ensures();
    lemma_sum_permutation(s1, s2);
}

/// The channel sums of a uniform sequence are the common channel values
/// scaled by the length.
proof fn lemma_sum_uniform(s: Seq<Color>, c: Color)
    requires
        forall|i: int| 0 <= i < s.len() ==> s[i] == c,
    ensures
        sum_red(s) == c.r * s.len(),
        sum_green(s) == c.g * s.len(),
        sum_blue(s) == c.b * s.len(),
    decreases s.len(),
{
    if s.len() > 0 {
        lemma_sum_uniform(s.drop_last(), c);
        assert(s.last() == s[s.len() - 1]);
        assert(c.r * s.len() == c.r * (s.len() - 1) + c.r) by (nonlinear_arith);
        assert(c.g * s.len() == c.g * (s.len() - 1) + c.g) by (nonlinear_arith);
        assert(c.b * s.len() == c.b * (s.len() - 1) + c.b) by (nonlinear_arith);
    }
}

/// The mean color of a uniform raster (every pixel the same color) is that
/// color exactly, for any pixel count of at least one.
pub proof fn lemma_mean_uniform(s: Seq<Color>, c: Color)
    requires
        s.len() > 0,
        forall|i: int| 0 <= i < s.len() ==> s[i] == c,
    ensures
        mean_spec(s) == c,
{
    lemma_sum_uniform(s, c);
    vstd::arithmetic::div_mod::lemma_div_multiples_vanish(c.r as int, s.len() as int);
    vstd::arithmetic::div_mod::lemma_div_multiples_vanish(c.g as int, s.len() as int);
    vstd::arithmetic::div_mod::lemma_div_multiples_vanish(c.b as int, s.len() as int);
    assert(c.r * s.len() == s.len() * c.r) by (nonlinear_arith);
    assert(c.g * s.len() == s.len() * c.g) by (nonlinear_arith);
    assert(c.b * s.len() == s.len() * c.b) by (nonlinear_arith);
}

/// Mean color of a raster: per-channel sums divided by the pixel count.
/// Requires a non-empty buffer; decomposition never produces zero-area tiles.
pub fn calculate_rgb_mean(image: &PixelBuffer) -> (mean: Color)
    requires
        image.wf(),
        image.pixels@.len() > 0,
    ensures
        mean == mean_spec(image.pixels@),
{
    let ghost s = image.pixels@;
    let n: usize = image.pixels.len();
    let mut sum_r: u128 = 0;
    let mut sum_g: u128 = 0;
    let mut sum_b: u128 = 0;
    let mut i: usize = 0;
    proof {
        assert(s.take(0) =~= Seq::<Color>::empty());
    }
    while i < n
        invariant
            0 <= i <= n,
            n == s.len(),
            s == image.pixels@,
            sum_r == sum_red(s.take(i as int)),
            sum_g == sum_green(s.take(i as int)),
            sum_b == sum_blue(s.take(i as int)),
            sum_r <= 255 * i,
            sum_g <= 255 * i,
            sum_b <= 255 * i,
        decreases n - i,
    {
        let p = image.pixels[i];
        proof {
            lemma_sum_take_step(s, i as int);
        }
        sum_r = sum_r + p.r as u128;
        sum_g = sum_g + p.g as u128;
        sum_b = sum_b + p.b as u128;
        i = i + 1;
    }
    proof {
        assert(s.take(n as int) =~= s);
        lemma_sum_bounds(s);
        assert(sum_red(s) / s.len() as int <= 255 && sum_red(s) / s.len() as int >= 0)
            by (nonlinear_arith)
            requires
                s.len() > 0,
                0 <= sum_red(s) <= 255 * s.len(),
        ;
        assert(sum_green(s) / s.len() as int <= 255 && sum_green(s) / s.len() as int >= 0)
            by (nonlinear_arith)
            requires
                s.len() > 0,
                0 <= sum_green(s) <= 255 * s.len(),
        ;
        assert(sum_blue(s) / s.len() as int <= 255 && sum_blue(s) / s.len() as int >= 0)
            by (nonlinear_arith)
            requires
                s.len() > 0,
                0 <= sum_blue(s) <= 255 * s.len(),
        ;
    }
    let mean_red: u8 = (sum_r / n as u128) as u8;
    let mean_green: u8 = (sum_g / n as u128) as u8;
    let mean_blue: u8 = (sum_b / n as u128) as u8;
    Color { r: mean_red, g: mean_green, b: mean_blue }
}

} // verus!
