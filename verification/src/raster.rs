//! Pictures as plain pixel buffers.

use crate::color::Color;
use crate::error::MosaicError;
use vstd::prelude::*;

verus! {

/// The pixel at column `x` of row `y` in a row-major buffer of the given width.
pub open spec fn cell(pixels: Seq<Color>, width: int, x: int, y: int) -> Color {
    pixels[y * width + x]
}

/// Whether column `cx`, row `cy` lies in the rectangle of the given size whose
/// top left corner is at column `x`, row `y`.
pub open spec fn in_rect(cx: int, cy: int, x: int, y: int, width: int, height: int) -> bool {
    x <= cx < x + width && y <= cy < y + height
}

/// A position inside a picture has an index inside its buffer.
pub proof fn lemma_index_in_bounds(width: int, height: int, x: int, y: int)
    by (nonlinear_arith)
    requires
        0 <= x < width,
        0 <= y < height,
    ensures
        0 <= y * width <= y * width + x < width * height,
{
}

/// Two different positions of a picture have different indices.
pub proof fn lemma_index_injective(width: int, x1: int, y1: int, x2: int, y2: int)
    by (nonlinear_arith)
    requires
        0 <= x1 < width,
        0 <= x2 < width,
        y1 * width + x1 == y2 * width + x2,
    ensures
        x1 == x2,
        y1 == y2,
{
}

/// The pixels as bytes: four for each pixel, red, green, blue, alpha.
pub open spec fn flatten(pixels: Seq<Color>) -> Seq<u8> {
    Seq::new(
        4 * pixels.len(),
        |i: int|
            if i % 4 == 0 {
                pixels[i / 4].r
            } else if i % 4 == 1 {
                pixels[i / 4].g
            } else if i % 4 == 2 {
                pixels[i / 4].b
            } else {
                pixels[i / 4].a
            },
    )
}

/// The pixels that the bytes spell, four bytes for each; up to three bytes
/// left over at the end are ignored.
pub open spec fn unflatten(bytes: Seq<u8>) -> Seq<Color> {
    Seq::new(
        (bytes.len() / 4) as nat,
        |i: int|
            Color { r: bytes[4 * i], g: bytes[4 * i + 1], b: bytes[4 * i + 2], a: bytes[4 * i + 3] },
    )
}

/// Pixels written as bytes and read back are the same pixels.
pub proof fn lemma_unflatten_flatten(pixels: Seq<Color>)
    ensures
        unflatten(flatten(pixels)) == pixels,
{
    assert(unflatten(flatten(pixels)) =~= pixels);
}

/// A picture: `width * height` colours, row by row from the top.
#[derive(Clone, Debug)]
pub struct Raster {
    width: u32,
    height: u32,
    pixels: Vec<Color>,
}

impl View for Raster {
    type V = Seq<Color>;

    /// The pixels, row by row.
    closed spec fn view(&self) -> Seq<Color> {
        self.pixels@
    }
}

impl Raster {
    /// The number of columns.
    pub closed spec fn spec_width(&self) -> u32 {
        self.width
    }

    /// The number of rows.
    pub closed spec fn spec_height(&self) -> u32 {
        self.height
    }

    /// The buffer holds exactly one colour for each position.
    pub open spec fn wf(&self) -> bool {
        self@.len() == self.spec_width() * self.spec_height()
    }

    /// The colour at column `x`, row `y`.
    pub open spec fn at(&self, x: int, y: int) -> Color {
        cell(self@, self.spec_width() as int, x, y)
    }

    /// Whether column `x`, row `y` is a position of this picture.
    pub open spec fn contains(&self, x: int, y: int) -> bool {
        0 <= x < self.spec_width() && 0 <= y < self.spec_height()
    }

    /// A picture of the given size, every pixel transparent black.
    pub fn new(width: u32, height: u32) -> (img: Raster)
        requires
            width * height <= usize::MAX,
        ensures
            img.wf(),
            img.spec_width() == width,
            img.spec_height() == height,
            forall|i: int| 0 <= i < img@.len() ==> img@[i] == (Color { r: 0, g: 0, b: 0, a: 0 }),
    {
        let n: usize = (width as usize) * (height as usize);
        let mut pixels: Vec<Color> = Vec::with_capacity(n);
        let mut i: usize = 0;
        while i < n
            invariant
                i <= n,
                pixels@.len() == i,
                forall|k: int| 0 <= k < i ==> pixels@[k] == (Color { r: 0, g: 0, b: 0, a: 0 }),
            decreases n - i,
        {
            pixels.push(Color { r: 0, g: 0, b: 0, a: 0 });
            i += 1;
        }
        Raster { width, height, pixels }
    }

    /// The picture of the given size with the given pixels, if there is one
    /// pixel for each position.
    pub fn from_pixels(width: u32, height: u32, pixels: Vec<Color>) -> (img: Option<Raster>)
        ensures
            img is Some <==> pixels@.len() == width * height,
            img matches Some(r) ==> r.wf() && r.spec_width() == width && r.spec_height() == height
                && r@ == pixels@,
    {
        assert(width * height <= 0xffff_ffff * 0xffff_ffff) by (nonlinear_arith)
            requires
                0 <= width <= 0xffff_ffff,
                0 <= height <= 0xffff_ffff,
        ;
        let n: u64 = (width as u64) * (height as u64);
        if pixels.len() as u64 == n {
            Some(Raster { width, height, pixels })
        } else {
            None
        }
    }

    /// The number of columns.
    #[verifier::when_used_as_spec(spec_width)]
    pub fn width(&self) -> (w: u32)
        ensures
            w == self.spec_width(),
    {
        self.width
    }

    /// The number of rows.
    #[verifier::when_used_as_spec(spec_height)]
    pub fn height(&self) -> (h: u32)
        ensures
            h == self.spec_height(),
    {
        self.height
    }

    /// The pixels, row by row.
    pub fn pixels(&self) -> (p: &Vec<Color>)
        ensures
            p@ == self@,
    {
        &self.pixels
    }

    /// The pixels as bytes, see [`flatten`].
    pub fn to_bytes(&self) -> (bytes: Vec<u8>)
        requires
            4 * self@.len() <= usize::MAX,
        ensures
            bytes@ == flatten(self@),
    {
        let n = self.pixels.len();
        let mut bytes: Vec<u8> = Vec::with_capacity(4 * n);
        let mut i: usize = 0;
        while i < n
            invariant
                i <= n,
                n == self.pixels@.len(),
                bytes@ == flatten(self.pixels@.take(i as int)),
            decreases n - i,
        {
            let p = self.pixels[i];
            bytes.push(p.r);
            bytes.push(p.g);
            bytes.push(p.b);
            bytes.push(p.a);
            assert(bytes@ =~= flatten(self.pixels@.take(i + 1)));
            i += 1;
        }
        assert(self.pixels@.take(n as int) == self.pixels@);
        bytes
    }

    /// The picture of the given size that the bytes spell, see [`unflatten`],
    /// if there are four bytes for each position.
    pub fn from_bytes(width: u32, height: u32, bytes: &Vec<u8>) -> (img: Option<Raster>)
        ensures
            img is Some <==> bytes@.len() == 4 * (width * height),
            img matches Some(r) ==> r.wf() && r.spec_width() == width && r.spec_height() == height
                && r@ == unflatten(bytes@),
    {
        assert(width * height <= 0xffff_ffff * 0xffff_ffff) by (nonlinear_arith)
            requires
                0 <= width <= 0xffff_ffff,
                0 <= height <= 0xffff_ffff,
        ;
        let n: u128 = (width as u128) * (height as u128);
        if bytes.len() as u128 != 4 * n {
            return None;
        }
        let count: usize = bytes.len() / 4;
        let mut pixels: Vec<Color> = Vec::with_capacity(count);
        let mut i: usize = 0;
        while i < count
            invariant
                i <= count,
                bytes@.len() == 4 * count,
                4 * count <= usize::MAX,
                pixels@ == unflatten(bytes@).take(i as int),
            decreases count - i,
        {
            let c = Color {
                r: bytes[4 * i],
                g: bytes[4 * i + 1],
                b: bytes[4 * i + 2],
                a: bytes[4 * i + 3],
            };
            pixels.push(c);
            assert(pixels@ =~= unflatten(bytes@).take(i + 1));
            i += 1;
        }
        assert(unflatten(bytes@).take(count as int) == unflatten(bytes@));
        Some(Raster { width, height, pixels })
    }

    /// The colour at column `x`, row `y`, if that is a position of the picture.
    pub fn get_pixel(&self, x: u32, y: u32) -> (c: Option<Color>)
        requires
            self.wf(),
        ensures
            c == if self.contains(x as int, y as int) {
                Some(self.at(x as int, y as int))
            } else {
                None
            },
    {
        if x < self.width && y < self.height {
            proof {
                lemma_index_in_bounds(self.width as int, self.height as int, x as int, y as int);
                assert(self.pixels.len() == self.pixels@.len());
            }
            Some(self.pixels[(y as usize) * (self.width as usize) + (x as usize)])
        } else {
            None
        }
    }

    /// Copies `other` into this picture with its top left corner at column
    /// `x`, row `y`.  Where `other` does not fit there, nothing is copied.
    pub fn copy_from(&mut self, other: &Raster, x: u32, y: u32) -> (res: Result<(), MosaicError>)
        requires
            old(self).wf(),
            other.wf(),
        ensures
            final(self).wf(),
            final(self).spec_width() == old(self).spec_width(),
            final(self).spec_height() == old(self).spec_height(),
            res is Ok <==> x + other.spec_width() <= old(self).spec_width() && y
                + other.spec_height() <= old(self).spec_height(),
            res is Err ==> res == Err::<(), MosaicError>(MosaicError::DimensionMismatch)
                && *final(self) == *old(self),
            res is Ok ==> forall|cx: int, cy: int|
                old(self).contains(cx, cy) ==> #[trigger] final(self).at(cx, cy) == if in_rect(
                    cx,
                    cy,
                    x as int,
                    y as int,
                    other.spec_width() as int,
                    other.spec_height() as int,
                ) {
                    other.at(cx - x, cy - y)
                } else {
                    old(self).at(cx, cy)
                },
    {
        let ow = other.width;
        let oh = other.height;
        if x as u64 + ow as u64 > self.width as u64 || y as u64 + oh as u64 > self.height as u64 {
            return Err(MosaicError::DimensionMismatch);
        }
        let w = self.width;
        let h = self.height;
        let mut row: u32 = 0;
        while row < oh
            invariant
                row <= oh,
                ow == other.width,
                oh == other.height,
                w == self.width,
                h == self.height,
                w == old(self).width,
                h == old(self).height,
                x + ow <= w,
                y + oh <= h,
                self.wf(),
                other.wf(),
                forall|cx: int, cy: int|
                    0 <= cx < w && 0 <= cy < h ==> #[trigger] cell(self.pixels@, w as int, cx, cy)
                        == if in_rect(cx, cy, x as int, y as int, ow as int, row as int) {
                        cell(other.pixels@, ow as int, cx - x, cy - y)
                    } else {
                        cell(old(self).pixels@, w as int, cx, cy)
                    },
            decreases oh - row,
        {
            let mut col: u32 = 0;
            while col < ow
                invariant
                    row < oh,
                    col <= ow,
                    ow == other.width,
                    oh == other.height,
                    w == self.width,
                    h == self.height,
                    w == old(self).width,
                    h == old(self).height,
                    x + ow <= w,
                    y + oh <= h,
                    self.wf(),
                    other.wf(),
                    forall|cx: int, cy: int|
                        0 <= cx < w && 0 <= cy < h ==> #[trigger] cell(
                            self.pixels@,
                            w as int,
                            cx,
                            cy,
                        ) == if in_rect(cx, cy, x as int, y as int, ow as int, row as int) || (cy
                            == y + row && x <= cx < x + col) {
                            cell(other.pixels@, ow as int, cx - x, cy - y)
                        } else {
                            cell(old(self).pixels@, w as int, cx, cy)
                        },
                decreases ow - col,
            {
                proof {
                    lemma_index_in_bounds(ow as int, oh as int, col as int, row as int);
                    lemma_index_in_bounds(w as int, h as int, x + col, y + row);
                    assert(self.pixels.len() == self.pixels@.len());
                    assert(other.pixels.len() == other.pixels@.len());
                }
                let src: usize = (row as usize) * (ow as usize) + (col as usize);
                let dst: usize = ((y + row) as usize) * (w as usize) + ((x + col) as usize);
                let c = other.pixels[src];
                let ghost before = self.pixels@;
                self.pixels.set(dst, c);
                proof {
                    assert forall|cx: int, cy: int| 0 <= cx < w && 0 <= cy < h implies #[trigger] cell(
                        self.pixels@,
                        w as int,
                        cx,
                        cy,
                    ) == if in_rect(cx, cy, x as int, y as int, ow as int, row as int) || (cy == y
                        + row && x <= cx < x + col + 1) {
                        cell(other.pixels@, ow as int, cx - x, cy - y)
                    } else {
                        cell(old(self).pixels@, w as int, cx, cy)
                    } by {
                        lemma_index_in_bounds(w as int, h as int, cx, cy);
                        if cy * w + cx == dst as int {
                            lemma_index_injective(w as int, cx, cy, x + col, y + row);
                        } else {
                            assert(cell(self.pixels@, w as int, cx, cy) == cell(
                                before,
                                w as int,
                                cx,
                                cy,
                            ));
                        }
                    }
                }
                col += 1;
            }
            row += 1;
        }
        Ok(())
    }
}

} // verus!
