//! Scaling pictures down, done by the `image` crate.
//!
//! How the pixels of the smaller picture are computed is not written out
//! here: what the `image` crate gives is named, and the contracts say which
//! picture was handed over and what size comes back.
//!
//! The `image` crate adds up the source pixels that go into one pixel of the
//! result in 32 bits, and allocates the result at once.  Both set limits to
//! what may be asked of it; [`scalable_exact`] and [`scalable_within`] state
//! them, and [`can_thumbnail_exact`], [`can_thumbnail`] and [`can_fit`] test
//! them.

use crate::raster::{flatten, unflatten, Raster};
use vstd::prelude::*;

verus! {

/// The RGBA bytes that `image::DynamicImage::thumbnail_exact` gives for the
/// RGBA picture of the given bytes and size, scaled to the new size.
pub uninterp spec fn thumbnail_exact_bytes(
    bytes: Seq<u8>,
    width: u32,
    height: u32,
    new_width: u32,
    new_height: u32,
) -> Seq<u8>;

/// The width, the height and the RGBA bytes that
/// `image::DynamicImage::thumbnail` gives for the RGBA picture of the given
/// bytes and size, scaled to fit within the given bounds.
pub uninterp spec fn thumbnail_bytes(
    bytes: Seq<u8>,
    width: u32,
    height: u32,
    max_width: u32,
    max_height: u32,
) -> (u32, u32, Seq<u8>);

/// `n`, or 1 where `n` is 0.
pub open spec fn at_least_one(n: u32) -> int {
    if n == 0 {
        1
    } else {
        n as int
    }
}

/// A limit to the number of source pixels along one axis that go into one
/// pixel of the result, where `length` source pixels are spread over so many
/// result pixels that `quotient` come to each.  The window of source pixels
/// is worked out in single precision floats: one part in 2^20 of the length
/// and three pixels more allow for their rounding.
pub open spec fn span(quotient: int, length: u32) -> int {
    quotient + length / 0x10_0000 + 3
}

/// Whether the sums over the source pixels that go into one pixel of the
/// result stay within 32 bits when a picture of the given size is scaled to
/// exactly the new size.  Each of the pixels adds at most 255, and half
/// their number is added for rounding.
pub open spec fn exact_sums_fit(width: u32, height: u32, new_width: u32, new_height: u32) -> bool {
    new_width == 0 || new_height == 0 || 256 * (span((width / new_width) as int, width) * span(
        (height / new_height) as int,
        height,
    )) <= u32::MAX
}

/// The larger of two numbers.
pub open spec fn larger(a: int, b: int) -> int {
    if a >= b {
        a
    } else {
        b
    }
}

/// Whether the sums over the source pixels that go into one pixel of the
/// result stay within 32 bits when a picture of the given size is scaled to
/// fit within the given bounds.  The result is at least half as large, along
/// either axis, as the tighter of the two bounds allows, or one pixel; with
/// a bound of zero it is a single pixel, into which the whole picture goes.
pub open spec fn within_sums_fit(width: u32, height: u32, max_width: u32, max_height: u32) -> bool {
    if max_width == 0 || max_height == 0 {
        256 * (width * height) <= u32::MAX
    } else {
        let q = larger((width / max_width) as int, (height / max_height) as int);
        256 * (span(2 * q + 2, width) * span(2 * q + 2, height)) <= u32::MAX
    }
}

/// Whether the picture can be scaled to exactly the new size on this
/// machine: its bytes and those of the result can be held, and the sums
/// stay within 32 bits.
pub open spec fn scalable_exact(source: Raster, new_width: u32, new_height: u32) -> bool {
    &&& 4 * source@.len() <= usize::MAX
    &&& 4 * (new_width * new_height) <= isize::MAX
    &&& exact_sums_fit(source.spec_width(), source.spec_height(), new_width, new_height)
}

/// Whether the picture can be scaled to fit within the bounds on this
/// machine: its bytes and those of the result can be held, and the sums
/// stay within 32 bits.
pub open spec fn scalable_within(source: Raster, max_width: u32, max_height: u32) -> bool {
    &&& 4 * source@.len() <= usize::MAX
    &&& 4 * (at_least_one(max_width) * at_least_one(max_height)) <= isize::MAX
    &&& within_sums_fit(source.spec_width(), source.spec_height(), max_width, max_height)
}

/// Whether the picture can be scaled to a square of the given side or, where
/// proportions are to be kept, to fit within it.
pub open spec fn fittable(source: Raster, side: u32, keep_aspect_ratio: bool) -> bool {
    if keep_aspect_ratio {
        scalable_within(source, side, side)
    } else {
        scalable_exact(source, side, side)
    }
}

/// Trusted: `image::ImageBuffer::from_raw`, then
/// `image::DynamicImage::thumbnail_exact` on the RGBA picture so made.
///
/// Claimed of them: a picture is made exactly when there are at least four
/// bytes for each position; the result is the named one, and it has four
/// bytes for each position of the new size.  The new size is bounded because
/// the buffer for it is allocated at once, and the source against the new
/// size because the pixels that go into one pixel of the result are added up
/// in 32 bits.
#[verifier::external_body]
fn scale_exact(bytes: Vec<u8>, width: u32, height: u32, new_width: u32, new_height: u32) -> (out:
    Option<Vec<u8>>)
    requires
        4 * (new_width * new_height) <= isize::MAX,
        exact_sums_fit(width, height, new_width, new_height),
    ensures
        out is Some <==> bytes@.len() >= 4 * (width * height),
        out matches Some(v) ==> v@ == thumbnail_exact_bytes(
            bytes@,
            width,
            height,
            new_width,
            new_height,
        ) && v@.len() == 4 * (new_width * new_height),
{
    let source = image::RgbaImage::from_raw(width, height, bytes)?;
    let scaled = image::DynamicImage::ImageRgba8(source).thumbnail_exact(new_width, new_height);
    Some(scaled.into_rgba8().into_raw())
}

/// Trusted: `image::ImageBuffer::from_raw`, then
/// `image::DynamicImage::thumbnail` on the RGBA picture so made.
///
/// Claimed of them: a picture is made exactly when there are at least four
/// bytes for each position; the result is the named one; it is at least one
/// pixel wide and high and, but for that, fits within the bounds; and it has
/// four bytes for each position of the size that came back.  The bounds are
/// limited because the result is allocated at once, and the source against
/// the bounds because the pixels that go into one pixel of the result are
/// added up in 32 bits.
#[verifier::external_body]
fn scale_within(bytes: Vec<u8>, width: u32, height: u32, max_width: u32, max_height: u32) -> (out:
    Option<(u32, u32, Vec<u8>)>)
    requires
        4 * (at_least_one(max_width) * at_least_one(max_height)) <= isize::MAX,
        within_sums_fit(width, height, max_width, max_height),
    ensures
        out is Some <==> bytes@.len() >= 4 * (width * height),
        out matches Some(t) ==> (t.0, t.1, t.2@) == thumbnail_bytes(
            bytes@,
            width,
            height,
            max_width,
            max_height,
        ) && t.2@.len() == 4 * (t.0 * t.1) && 1 <= t.0 <= at_least_one(max_width) && 1 <= t.1
            <= at_least_one(max_height),
{
    let source = image::RgbaImage::from_raw(width, height, bytes)?;
    let scaled = image::DynamicImage::ImageRgba8(source).thumbnail(max_width, max_height);
    let scaled = scaled.into_rgba8();
    Some((scaled.width(), scaled.height(), scaled.into_raw()))
}

/// `quotient + length / 2^20 + 3`, see [`span`].
fn span_of(quotient: u64, length: u32) -> (s: u128)
    requires
        quotient <= 0x2_0000_0000,
    ensures
        s == span(quotient as int, length),
        s <= 0x2_0000_2000,
{
    quotient as u128 + (length / 0x10_0000) as u128 + 3
}

/// Whether `256 * (a * b)` is within 32 bits.
fn sums_fit(a: u128, b: u128) -> (ok: bool)
    requires
        a <= 0x2_0000_2000,
        b <= 0x2_0000_2000,
    ensures
        ok <==> 256 * (a * b) <= u32::MAX,
{
    assert(a * b <= 0x2_0000_2000 * 0x2_0000_2000) by (nonlinear_arith)
        requires
            0 <= a <= 0x2_0000_2000,
            0 <= b <= 0x2_0000_2000,
    ;
    256 * (a * b) <= u32::MAX as u128
}

/// Whether four bytes for each of `width * height` pixels are no more than
/// `limit`.
fn bytes_fit(width: u128, height: u128, limit: u128) -> (ok: bool)
    requires
        width <= u32::MAX,
        height <= u32::MAX,
    ensures
        ok <==> 4 * (width * height) <= limit,
{
    assert(width * height <= 0xffff_ffff * 0xffff_ffff) by (nonlinear_arith)
        requires
            0 <= width <= 0xffff_ffff,
            0 <= height <= 0xffff_ffff,
    ;
    4 * (width * height) <= limit
}

/// Whether the picture can be scaled to exactly the new size, see
/// [`scalable_exact`].
pub fn can_thumbnail_exact(source: &Raster, new_width: u32, new_height: u32) -> (ok: bool)
    requires
        source.wf(),
    ensures
        ok == scalable_exact(*source, new_width, new_height),
{
    let width = source.width();
    let height = source.height();
    if !bytes_fit(width as u128, height as u128, usize::MAX as u128) {
        return false;
    }
    if !bytes_fit(new_width as u128, new_height as u128, isize::MAX as u128) {
        return false;
    }
    if new_width == 0 || new_height == 0 {
        return true;
    }
    sums_fit(
        span_of((width / new_width) as u64, width),
        span_of((height / new_height) as u64, height),
    )
}

/// Whether the picture can be scaled to fit within the bounds, see
/// [`scalable_within`].
pub fn can_thumbnail(source: &Raster, max_width: u32, max_height: u32) -> (ok: bool)
    requires
        source.wf(),
    ensures
        ok == scalable_within(*source, max_width, max_height),
{
    let width = source.width();
    let height = source.height();
    if !bytes_fit(width as u128, height as u128, usize::MAX as u128) {
        return false;
    }
    let least_width: u32 = if max_width == 0 {
        1
    } else {
        max_width
    };
    let least_height: u32 = if max_height == 0 {
        1
    } else {
        max_height
    };
    if !bytes_fit(least_width as u128, least_height as u128, isize::MAX as u128) {
        return false;
    }
    if max_width == 0 || max_height == 0 {
        assert(width * height <= 0xffff_ffff * 0xffff_ffff) by (nonlinear_arith)
            requires
                0 <= width <= 0xffff_ffff,
                0 <= height <= 0xffff_ffff,
        ;
        return 256 * ((width as u128) * (height as u128)) <= u32::MAX as u128;
    }
    let across = (width / max_width) as u64;
    let down = (height / max_height) as u64;
    let q: u64 = if across >= down {
        across
    } else {
        down
    };
    sums_fit(span_of(2 * q + 2, width), span_of(2 * q + 2, height))
}

/// Whether the picture can be scaled as [`fit`] would, see [`fittable`].
pub fn can_fit(source: &Raster, side: u32, keep_aspect_ratio: bool) -> (ok: bool)
    requires
        source.wf(),
    ensures
        ok == fittable(*source, side, keep_aspect_ratio),
{
    if keep_aspect_ratio {
        can_thumbnail(source, side, side)
    } else {
        can_thumbnail_exact(source, side, side)
    }
}

/// The picture scaled to exactly the new size, whatever its proportions.
pub fn thumbnail_exact(source: &Raster, new_width: u32, new_height: u32) -> (out: Raster)
    requires
        source.wf(),
        scalable_exact(*source, new_width, new_height),
    ensures
        out.wf(),
        out.spec_width() == new_width,
        out.spec_height() == new_height,
        out@ == unflatten(
            thumbnail_exact_bytes(
                flatten(source@),
                source.spec_width(),
                source.spec_height(),
                new_width,
                new_height,
            ),
        ),
{
    let bytes = source.to_bytes();
    let scaled = scale_exact(bytes, source.width(), source.height(), new_width, new_height);
    Raster::from_bytes(new_width, new_height, &scaled.unwrap()).unwrap()
}

/// The picture scaled, proportions kept, to fit within the given bounds.
pub fn thumbnail(source: &Raster, max_width: u32, max_height: u32) -> (out: Raster)
    requires
        source.wf(),
        scalable_within(*source, max_width, max_height),
    ensures
        out.wf(),
        ({
            let named = thumbnail_bytes(
                flatten(source@),
                source.spec_width(),
                source.spec_height(),
                max_width,
                max_height,
            );
            out.spec_width() == named.0 && out.spec_height() == named.1 && out@ == unflatten(
                named.2,
            )
        }),
        1 <= out.spec_width() <= at_least_one(max_width),
        1 <= out.spec_height() <= at_least_one(max_height),
{
    let bytes = source.to_bytes();
    let scaled = scale_within(bytes, source.width(), source.height(), max_width, max_height);
    let (width, height, data) = scaled.unwrap();
    Raster::from_bytes(width, height, &data).unwrap()
}

/// The picture scaled to a square of the given side or, where proportions
/// are to be kept, to fit within that square.
pub fn fit(source: &Raster, side: u32, keep_aspect_ratio: bool) -> (out: Raster)
    requires
        source.wf(),
        fittable(*source, side, keep_aspect_ratio),
    ensures
        out.wf(),
        ({
            let named = thumbnail_bytes(
                flatten(source@),
                source.spec_width(),
                source.spec_height(),
                side,
                side,
            );
            keep_aspect_ratio ==> out.spec_width() == named.0 && out.spec_height() == named.1
                && out@ == unflatten(named.2)
        }),
        !keep_aspect_ratio ==> out.spec_width() == side && out.spec_height() == side && out@
            == unflatten(
            thumbnail_exact_bytes(
                flatten(source@),
                source.spec_width(),
                source.spec_height(),
                side,
                side,
            ),
        ),
        out.spec_width() <= at_least_one(side),
        out.spec_height() <= at_least_one(side),
{
    if keep_aspect_ratio {
        thumbnail(source, side, side)
    } else {
        thumbnail_exact(source, side, side)
    }
}

} // verus!
