//! Tiles: small square pictures, each with the colour that stands for it.

use crate::color::Color;
use crate::raster::Raster;
use vstd::prelude::*;

verus! {

/// Channel `k` of a colour: 0 red, 1 green, 2 blue, anything else alpha.
pub open spec fn channel(c: Color, k: int) -> u8 {
    if k == 0 {
        c.r
    } else if k == 1 {
        c.g
    } else if k == 2 {
        c.b
    } else {
        c.a
    }
}

/// The sum, over all pixels, of the square of channel `k`.
pub open spec fn square_sum(pixels: Seq<Color>, k: int) -> int
    decreases pixels.len(),
{
    if pixels.len() == 0 {
        0
    } else {
        square_sum(pixels.drop_last(), k) + channel(pixels.last(), k) * channel(pixels.last(), k)
    }
}

/// Whether `v` is the root of the mean of `n` squares that add up to `sum`,
/// rounded down: the largest `v` with `v * v <= sum / n`.  Of no squares the
/// root mean square is taken to be 0.
pub open spec fn is_root_mean_square(v: int, sum: int, n: int) -> bool {
    if n == 0 {
        v == 0
    } else {
        0 <= v && v * v * n <= sum < (v + 1) * (v + 1) * n
    }
}

/// Whether each channel of `c` is the root mean square of that channel over
/// all the given pixels.
pub open spec fn represents(c: Color, pixels: Seq<Color>) -> bool {
    forall|k: int|
        0 <= k < 4 ==> is_root_mean_square(
            #[trigger] channel(c, k) as int,
            square_sum(pixels, k),
            pixels.len() as int,
        )
}

/// Only one value is the root mean square of given squares.
pub proof fn lemma_root_mean_square_unique(v: int, w: int, sum: int, n: int)
    by (nonlinear_arith)
    requires
        0 <= n,
        is_root_mean_square(v, sum, n),
        is_root_mean_square(w, sum, n),
    ensures
        v == w,
{
    if n > 0 {
        if v < w {
            assert((v + 1) * (v + 1) <= w * w);
            assert((v + 1) * (v + 1) * n <= w * w * n);
        } else if w < v {
            assert((w + 1) * (w + 1) <= v * v);
            assert((w + 1) * (w + 1) * n <= v * v * n);
        }
    }
}

/// Only one colour represents given pixels.
pub proof fn lemma_represents_unique(c: Color, d: Color, pixels: Seq<Color>)
    requires
        represents(c, pixels),
        represents(d, pixels),
    ensures
        c == d,
{
    let n = pixels.len() as int;
    assert(is_root_mean_square(channel(c, 0) as int, square_sum(pixels, 0), n));
    assert(is_root_mean_square(channel(d, 0) as int, square_sum(pixels, 0), n));
    lemma_root_mean_square_unique(c.r as int, d.r as int, square_sum(pixels, 0), n);
    assert(is_root_mean_square(channel(c, 1) as int, square_sum(pixels, 1), n));
    assert(is_root_mean_square(channel(d, 1) as int, square_sum(pixels, 1), n));
    lemma_root_mean_square_unique(c.g as int, d.g as int, square_sum(pixels, 1), n);
    assert(is_root_mean_square(channel(c, 2) as int, square_sum(pixels, 2), n));
    assert(is_root_mean_square(channel(d, 2) as int, square_sum(pixels, 2), n));
    lemma_root_mean_square_unique(c.b as int, d.b as int, square_sum(pixels, 2), n);
    assert(is_root_mean_square(channel(c, 3) as int, square_sum(pixels, 3), n));
    assert(is_root_mean_square(channel(d, 3) as int, square_sum(pixels, 3), n));
    lemma_root_mean_square_unique(c.a as int, d.a as int, square_sum(pixels, 3), n);
}

proof fn lemma_square_sum_step(pixels: Seq<Color>, i: int, k: int)
    requires
        0 <= i < pixels.len(),
    ensures
        square_sum(pixels.take(i + 1), k) == square_sum(pixels.take(i), k) + channel(pixels[i], k)
            * channel(pixels[i], k),
{
    assert(pixels.take(i + 1).drop_last() == pixels.take(i));
}

proof fn lemma_byte_square(v: u8)
    by (nonlinear_arith)
    ensures
        0 <= v * v <= 65025,
{
}

proof fn lemma_root_from_quotient(v: int, q: int, sum: int, n: int)
    by (nonlinear_arith)
    requires
        n > 0,
        0 <= v,
        0 <= sum,
        q == sum / n,
        v * v <= q < (v + 1) * (v + 1),
    ensures
        is_root_mean_square(v, sum, n),
{
    assert(q * n <= sum < (q + 1) * n);
    assert(v * v * n <= q * n);
    assert((q + 1) * n <= (v + 1) * (v + 1) * n);
}

proof fn lemma_quotient_bound(sum: int, n: int)
    by (nonlinear_arith)
    requires
        n > 0,
        0 <= sum <= 65025 * n,
    ensures
        0 <= sum / n <= 65025,
{
}

/// The largest `v` with `v * v <= q`.
fn square_root(q: u128) -> (v: u8)
    requires
        q <= 65025,
    ensures
        v * v <= q < (v + 1) * (v + 1),
{
    let mut v: u8 = 0;
    loop
        invariant
            v * v <= q,
            q <= 65025,
        ensures
            v * v <= q < (v + 1) * (v + 1),
        decreases 255 - v,
    {
        let next: u32 = v as u32 + 1;
        assert(next * next <= 65536) by (nonlinear_arith)
            requires
                1 <= next <= 256,
        ;
        if (next * next) as u128 > q {
            break ;
        }
        assert(next <= 255) by (nonlinear_arith)
            requires
                next * next <= 65025,
                0 <= next,
        ;
        v += 1;
    }
    v
}

/// The root mean square of `n` squares that add up to `sum`, rounded down.
fn root_mean_square(sum: u128, n: usize) -> (v: u8)
    requires
        sum <= 65025 * n,
    ensures
        is_root_mean_square(v as int, sum as int, n as int),
{
    if n == 0 {
        0
    } else {
        proof {
            lemma_quotient_bound(sum as int, n as int);
        }
        let q: u128 = sum / (n as u128);
        let v = square_root(q);
        proof {
            lemma_root_from_quotient(v as int, q as int, sum as int, n as int);
        }
        v
    }
}

/// The colour that stands for the given pixels: channel by channel, alpha
/// too, the root mean square over all of them, rounded down.
pub fn average_color(pixels: &Vec<Color>) -> (c: Color)
    ensures
        represents(c, pixels@),
{
    let n = pixels.len();
    let mut r: u128 = 0;
    let mut g: u128 = 0;
    let mut b: u128 = 0;
    let mut a: u128 = 0;
    let mut i: usize = 0;
    while i < n
        invariant
            i <= n,
            n == pixels@.len(),
            r == square_sum(pixels@.take(i as int), 0),
            g == square_sum(pixels@.take(i as int), 1),
            b == square_sum(pixels@.take(i as int), 2),
            a == square_sum(pixels@.take(i as int), 3),
            r <= 65025 * i,
            g <= 65025 * i,
            b <= 65025 * i,
            a <= 65025 * i,
        decreases n - i,
    {
        let p = pixels[i];
        proof {
            lemma_square_sum_step(pixels@, i as int, 0);
            lemma_square_sum_step(pixels@, i as int, 1);
            lemma_square_sum_step(pixels@, i as int, 2);
            lemma_square_sum_step(pixels@, i as int, 3);
            lemma_byte_square(p.r);
            lemma_byte_square(p.g);
            lemma_byte_square(p.b);
            lemma_byte_square(p.a);
        }
        r += (p.r as u128) * (p.r as u128);
        g += (p.g as u128) * (p.g as u128);
        b += (p.b as u128) * (p.b as u128);
        a += (p.a as u128) * (p.a as u128);
        i += 1;
    }
    assert(pixels@.take(n as int) == pixels@);
    Color {
        r: root_mean_square(r, n),
        g: root_mean_square(g, n),
        b: root_mean_square(b, n),
        a: root_mean_square(a, n),
    }
}

/// A tile: a picture and the colour that stands for it.
#[derive(Clone, Debug)]
pub struct Tile {
    image: Raster,
    color: Color,
}

impl Tile {
    /// The tile's picture.
    pub closed spec fn spec_image(&self) -> Raster {
        self.image
    }

    /// The colour that stands for the tile.
    pub closed spec fn spec_color(&self) -> Color {
        self.color
    }

    /// The picture is well formed and the colour is the one that represents
    /// all its pixels.
    pub open spec fn wf(&self) -> bool {
        self.spec_image().wf() && represents(self.spec_color(), self.spec_image()@)
    }

    /// The tile of the given picture.
    pub fn new(image: Raster) -> (tile: Tile)
        requires
            image.wf(),
        ensures
            tile.wf(),
            tile.spec_image() == image,
    {
        let color = average_color(image.pixels());
        Tile { image, color }
    }

    /// The tile's picture.
    pub fn image(&self) -> (img: &Raster)
        ensures
            *img == self.spec_image(),
    {
        &self.image
    }

    /// The colour that stands for the tile.
    #[verifier::when_used_as_spec(spec_color)]
    pub fn color(&self) -> (c: Color)
        ensures
            c == self.spec_color(),
    {
        self.color
    }
}

} // verus!
