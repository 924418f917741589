//! Colours and the distance between two of them.

use vstd::prelude::*;

verus! {

/// An RGBA colour with eight bits per channel.
#[derive(Clone, Copy, Debug, PartialEq, Eq, Structural, Hash)]
pub struct Color {
    pub r: u8,
    pub g: u8,
    pub b: u8,
    pub a: u8,
}

/// The red-weighted squared distance between two colours, alpha ignored.
///
/// With `m` the mean of the two reds, the red difference weighs
/// `(512 + m) / 256`, the green difference 4 and the blue difference
/// `(767 - m) / 256`; the red and the blue term are each rounded down.
pub open spec fn redmean(x: Color, y: Color) -> int {
    let m = (x.r + y.r) / 2;
    let dr = x.r - y.r;
    let dg = x.g - y.g;
    let db = x.b - y.b;
    ((512 + m) * (dr * dr)) / 256 + 4 * (dg * dg) + ((767 - m) * (db * db)) / 256
}

/// The key under which a colour is stored in hash sets and maps: its four
/// channels as the bytes of one integer, red highest.
pub open spec fn spec_pack(c: Color) -> u32 {
    (c.r as int * 0x100_0000 + c.g as int * 0x1_0000 + c.b as int * 0x100 + c.a as int) as u32
}

proof fn lemma_square_bounds(d: int)
    by (nonlinear_arith)
    requires
        -255 <= d <= 255,
    ensures
        0 <= d * d <= 65025,
        d != 0 ==> d * d >= 1,
{
}

proof fn lemma_term_bounds(w: int, q: int)
    by (nonlinear_arith)
    requires
        512 <= w <= 767,
        0 <= q <= 65025,
    ensures
        0 <= w * q <= 767 * 65025,
        q >= 1 ==> w * q >= 512,
{
}

proof fn lemma_square_symmetric(d: int)
    by (nonlinear_arith)
    ensures
        d * d == (-d) * (-d),
{
}

impl Color {
    /// The colour with the given channels.
    pub fn new(r: u8, g: u8, b: u8, a: u8) -> (c: Color)
        ensures
            c == (Color { r, g, b, a }),
    {
        Color { r, g, b, a }
    }

    /// The colour's key, see [`spec_pack`].
    pub fn pack(self) -> (k: u32)
        ensures
            k == spec_pack(self),
    {
        (self.r as u32) * 0x100_0000 + (self.g as u32) * 0x1_0000 + (self.b as u32) * 0x100 + (
        self.a as u32)
    }
}

/// Two colours with the same key are the same colour.
pub proof fn lemma_pack_injective(x: Color, y: Color)
    requires
        spec_pack(x) == spec_pack(y),
    ensures
        x == y,
{
}

/// The distance between two colours, see [`redmean`].
pub fn distance(x: Color, y: Color) -> (d: i64)
    ensures
        d == redmean(x, y),
        0 <= d <= 650250,
{
    let m: i64 = (x.r as i64 + y.r as i64) / 2;
    let dr: i64 = x.r as i64 - y.r as i64;
    let dg: i64 = x.g as i64 - y.g as i64;
    let db: i64 = x.b as i64 - y.b as i64;
    proof {
        lemma_square_bounds(dr as int);
        lemma_square_bounds(dg as int);
        lemma_square_bounds(db as int);
        lemma_term_bounds(512 + m, dr * dr);
        lemma_term_bounds(767 - m, db * db);
    }
    let rr: i64 = dr * dr;
    let gg: i64 = dg * dg;
    let bb: i64 = db * db;
    let tr: i64 = (512 + m) * rr;
    let tb: i64 = (767 - m) * bb;
    assert(tr >> 8 == tr / 256) by (bit_vector)
        requires
            0 <= tr <= 767 * 65025,
    ;
    assert(tb >> 8 == tb / 256) by (bit_vector)
        requires
            0 <= tb <= 767 * 65025,
    ;
    (tr >> 8) + 4 * gg + (tb >> 8)
}

/// The distance is never negative.
pub proof fn lemma_distance_nonnegative(x: Color, y: Color)
    ensures
        redmean(x, y) >= 0,
{
    let m = (x.r + y.r) / 2;
    lemma_square_bounds(x.r - y.r);
    lemma_square_bounds(x.g - y.g);
    lemma_square_bounds(x.b - y.b);
    lemma_term_bounds(512 + m, (x.r - y.r) * (x.r - y.r));
    lemma_term_bounds(767 - m, (x.b - y.b) * (x.b - y.b));
}

/// The distance is zero exactly when red, green and blue agree; alpha plays
/// no part.
pub proof fn lemma_distance_zero(x: Color, y: Color)
    ensures
        redmean(x, y) == 0 <==> (x.r == y.r && x.g == y.g && x.b == y.b),
{
    let m = (x.r + y.r) / 2;
    lemma_square_bounds(x.r - y.r);
    lemma_square_bounds(x.g - y.g);
    lemma_square_bounds(x.b - y.b);
    lemma_term_bounds(512 + m, (x.r - y.r) * (x.r - y.r));
    lemma_term_bounds(767 - m, (x.b - y.b) * (x.b - y.b));
}

/// The distance from `x` to `y` is the distance from `y` to `x`.
pub proof fn lemma_distance_symmetric(x: Color, y: Color)
    ensures
        redmean(x, y) == redmean(y, x),
{
    lemma_square_symmetric(x.r - y.r);
    lemma_square_symmetric(x.g - y.g);
    lemma_square_symmetric(x.b - y.b);
    assert(-(x.r - y.r) == y.r - x.r);
    assert(-(x.g - y.g) == y.g - x.g);
    assert(-(x.b - y.b) == y.b - x.b);
}

} // verus!
