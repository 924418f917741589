//! From a picture and a catalog of tiles to the mosaic.

use crate::catalog::{is_nearest, nearest, pick_image_for_pixel, TileCatalog};
use crate::color::{lemma_pack_injective, spec_pack, Color};
use crate::error::MosaicError;
use crate::raster::{in_rect, lemma_index_in_bounds, Raster};
use crate::reduce::{distinct, distinct_colors, lemma_distinct};
use crate::tile::Tile;
use std::collections::HashMap;
use vstd::arithmetic::div_mod::{lemma_fundamental_div_mod, lemma_fundamental_div_mod_converse};
use vstd::prelude::*;

verus! {

broadcast use vstd::std_specs::hash::group_hash_axioms;

/// A position `c` along one axis lies in cell `x`, the cells being `side`
/// wide, exactly when `c / side` is `x`; its offset in the cell is then
/// `c % side`.
pub proof fn lemma_cell_of(c: int, side: int, x: int)
    requires
        side > 0,
    ensures
        (x * side <= c < x * side + side) <==> c / side == x,
        c / side == x ==> c % side == c - x * side,
{
    lemma_fundamental_div_mod(c, side);
    if x * side <= c < x * side + side {
        lemma_fundamental_div_mod_converse(c, side, x, c - x * side);
    }
    if c / side == x {
        assert(side * x == x * side) by (nonlinear_arith);
    }
}

/// The cells of two different pixels share no position of the canvas.
pub proof fn lemma_cells_disjoint(x1: int, y1: int, x2: int, y2: int, side: int, cx: int, cy: int)
    requires
        side >= 0,
        x1 != x2 || y1 != y2,
    ensures
        !(in_rect(cx, cy, x1 * side, y1 * side, side, side) && in_rect(
            cx,
            cy,
            x2 * side,
            y2 * side,
            side,
            side,
        )),
{
    if side > 0 {
        lemma_cell_of(cx, side, x1);
        lemma_cell_of(cx, side, x2);
        lemma_cell_of(cy, side, y1);
        lemma_cell_of(cy, side, y2);
    }
}

proof fn lemma_cell_fits(x: int, w: int, side: int)
    by (nonlinear_arith)
    requires
        0 <= x < w,
        0 <= side,
    ensures
        0 <= x * side,
        x * side + side <= w * side,
{
}

proof fn lemma_cell_in_picture(c: int, w: int, side: int)
    requires
        0 <= c < w * side,
        0 <= w,
        0 < side,
    ensures
        0 <= c / side < w,
        0 <= c % side < side,
{
    lemma_fundamental_div_mod(c, side);
    let q = c / side;
    assert(0 <= c % side < side);
    assert(q < w) by (nonlinear_arith)
        requires
            side * q + (c % side) < w * side,
            0 <= c % side,
            0 < side,
    ;
    assert(0 <= q) by (nonlinear_arith)
        requires
            0 <= side * q + (c % side),
            c % side < side,
            0 < side,
    ;
}

/// Whether the colour has a tile of the catalog assigned.
pub open spec fn assigned(map: Map<u32, usize>, c: Color, tiles: int) -> bool {
    map.contains_key(spec_pack(c)) && map[spec_pack(c)] < tiles
}

/// Whether every colour of the picture has a tile of the catalog assigned.
pub open spec fn covers(map: Map<u32, usize>, image: Raster, tiles: int) -> bool {
    forall|x: int, y: int| image.contains(x, y) ==> assigned(map, #[trigger] image.at(x, y), tiles)
}

/// Whether a canvas for the picture, `side` pixels for each of its pixels in
/// either direction, is within what the machine can hold.
pub open spec fn canvas_fits(image: Raster, side: u32) -> bool {
    &&& image.spec_width() * side <= u32::MAX
    &&& image.spec_height() * side <= u32::MAX
    &&& (image.spec_width() * side) * (image.spec_height() * side) <= usize::MAX
}

/// Whether the canvas is the picture with each pixel replaced by the tile
/// that `choice` gives for the pixel's colour: the canvas is tile side times
/// as wide and as high as the picture, and the cell of each pixel holds the
/// tile's pixels unchanged.
pub open spec fn is_tiling(
    canvas: Raster,
    image: Raster,
    catalog: TileCatalog,
    choice: spec_fn(Color) -> int,
) -> bool {
    let side = catalog.spec_tile_side() as int;
    &&& canvas.wf()
    &&& canvas.spec_width() == image.spec_width() * side
    &&& canvas.spec_height() == image.spec_height() * side
    &&& forall|cx: int, cy: int|
        canvas.contains(cx, cy) ==> #[trigger] canvas.at(cx, cy) == catalog@[choice(
            image.at(cx / side, cy / side),
        )].spec_image().at(cx % side, cy % side)
}

/// Whether the canvas is the picture with each pixel replaced by the tile
/// that the map assigns to the pixel's colour.
pub open spec fn is_composed(
    canvas: Raster,
    image: Raster,
    map: Map<u32, usize>,
    catalog: TileCatalog,
) -> bool {
    is_tiling(canvas, image, catalog, |c: Color| map[spec_pack(c)] as int)
}

/// Whether the canvas is the mosaic of the picture: each pixel replaced by
/// the tile nearest to the pixel's colour.
pub open spec fn is_mosaic(canvas: Raster, image: Raster, catalog: TileCatalog) -> bool {
    is_tiling(canvas, image, catalog, |c: Color| nearest(catalog@, c))
}

/// Whether cell (`px`, `py`) comes before cell (`x`, `y`), row by row.
pub open spec fn cell_done(px: int, py: int, x: int, y: int) -> bool {
    py < y || (py == y && px < x)
}

/// Whether a canvas for the picture can be held, see [`canvas_fits`].
pub fn can_hold_canvas(image: &Raster, side: u32) -> (ok: bool)
    ensures
        ok == canvas_fits(*image, side),
{
    let w = image.width();
    let h = image.height();
    assert(w * side <= 0xffff_ffff * 0xffff_ffff && h * side <= 0xffff_ffff * 0xffff_ffff)
        by (nonlinear_arith)
        requires
            0 <= w <= 0xffff_ffff,
            0 <= h <= 0xffff_ffff,
            0 <= side <= 0xffff_ffff,
    ;
    let cw: u64 = (w as u64) * (side as u64);
    let ch: u64 = (h as u64) * (side as u64);
    if cw > u32::MAX as u64 || ch > u32::MAX as u64 {
        return false;
    }
    assert(cw * ch <= 0xffff_ffff * 0xffff_ffff) by (nonlinear_arith)
        requires
            0 <= cw <= 0xffff_ffff,
            0 <= ch <= 0xffff_ffff,
    ;
    (cw as u128) * (ch as u128) <= usize::MAX as u128
}

/// For each of the colours the position of the tile nearest to it, by the
/// colour's key.  Where there is no tile, no colour gets one.
pub fn match_colors(colors: &Vec<Color>, tiles: &Vec<Tile>) -> (map: HashMap<u32, usize>)
    ensures
        forall|c: Color|
            map@.contains_key(#[trigger] spec_pack(c)) <==> (tiles@.len() > 0 && colors@.contains(c)),
        forall|c: Color|
            map@.contains_key(#[trigger] spec_pack(c)) ==> is_nearest(
                tiles@,
                c,
                map@[spec_pack(c)] as int,
            ) && map@[spec_pack(c)] == nearest(tiles@, c),
{
    let mut map: HashMap<u32, usize> = HashMap::new();
    let n = colors.len();
    let mut i: usize = 0;
    while i < n
        invariant
            i <= n,
            n == colors@.len(),
            forall|c: Color|
                map@.contains_key(#[trigger] spec_pack(c)) <==> (tiles@.len() > 0
                    && colors@.take(i as int).contains(c)),
            forall|c: Color|
                map@.contains_key(#[trigger] spec_pack(c)) ==> is_nearest(
                    tiles@,
                    c,
                    map@[spec_pack(c)] as int,
                ) && map@[spec_pack(c)] == nearest(tiles@, c),
        decreases n - i,
    {
        let color = colors[i];
        let ghost before = map@;
        match pick_image_for_pixel(color, tiles) {
            Some(best) => {
                map.insert(color.pack(), best);
            },
            None => {},
        }
        proof {
            let earlier = colors@.take(i as int);
            let now = colors@.take(i + 1);
            assert(now.drop_last() == earlier);
            assert(now.last() == color);
            assert forall|c: Color|
                map@.contains_key(#[trigger] spec_pack(c)) <==> (tiles@.len() > 0 && now.contains(
                    c,
                )) by {
                if spec_pack(c) == spec_pack(color) {
                    lemma_pack_injective(c, color);
                    assert(now[i as int] == c);
                } else {
                    if earlier.contains(c) {
                        let j = choose|j: int| 0 <= j < earlier.len() && earlier[j] == c;
                        assert(now[j] == c);
                    }
                    if now.contains(c) {
                        let j = choose|j: int| 0 <= j < now.len() && now[j] == c;
                        assert(earlier[j] == c);
                    }
                }
            }
            assert forall|c: Color| map@.contains_key(#[trigger] spec_pack(c)) implies is_nearest(
                tiles@,
                c,
                map@[spec_pack(c)] as int,
            ) && map@[spec_pack(c)] == nearest(tiles@, c) by {
                if spec_pack(c) == spec_pack(color) {
                    lemma_pack_injective(c, color);
                } else {
                    assert(before.contains_key(spec_pack(c)));
                }
            }
        }
        i += 1;
    }
    assert(colors@.take(n as int) == colors@);
    map
}

/// The canvas on which each pixel of the picture is replaced by the tile
/// that the map assigns to the pixel's colour, the tile copied unchanged
/// into the pixel's cell.  There is no canvas where it would be beyond what
/// the machine can hold, nor where a colour of the picture has no tile of
/// the catalog assigned.
pub fn compose(image: &Raster, color_to_tile: &HashMap<u32, usize>, catalog: &TileCatalog) -> (res:
    Result<Raster, MosaicError>)
    requires
        image.wf(),
        catalog.wf(),
    ensures
        res matches Err(MosaicError::TooLarge) <==> !canvas_fits(*image, catalog.spec_tile_side()),
        res matches Err(MosaicError::MissingTile) <==> canvas_fits(
            *image,
            catalog.spec_tile_side(),
        ) && !covers(color_to_tile@, *image, catalog@.len() as int),
        res is Err ==> res matches Err(MosaicError::TooLarge) || res matches Err(
            MosaicError::MissingTile,
        ),
        res matches Ok(canvas) ==> is_composed(canvas, *image, color_to_tile@, *catalog),
{
    let side = catalog.tile_side();
    let w = image.width();
    let h = image.height();
    if !can_hold_canvas(image, side) {
        return Err(MosaicError::TooLarge);
    }
    let tiles = catalog.tiles();
    let mut canvas = Raster::new(w * side, h * side);
    let ghost map = color_to_tile@;
    let ghost choice = |c: Color| map[spec_pack(c)] as int;
    let mut y: u32 = 0;
    while y < h
        invariant
            y <= h,
            image.wf(),
            catalog.wf(),
            canvas_fits(*image, side),
            side == catalog.spec_tile_side(),
            w == image.spec_width(),
            h == image.spec_height(),
            tiles@ == catalog@,
            map == color_to_tile@,
            choice == (|c: Color| map[spec_pack(c)] as int),
            canvas.wf(),
            canvas.spec_width() == w * side,
            canvas.spec_height() == h * side,
            forall|px: int, py: int|
                image.contains(px, py) && cell_done(px, py, 0, y as int) ==> assigned(
                    map,
                    #[trigger] image.at(px, py),
                    tiles@.len() as int,
                ),
            forall|cx: int, cy: int|
                canvas.contains(cx, cy) && cell_done(cx / (side as int), cy / (side as int), 0, y as int)
                    ==> #[trigger] canvas.at(cx, cy) == catalog@[choice(
                    image.at(cx / (side as int), cy / (side as int)),
                )].spec_image().at(cx % (side as int), cy % (side as int)),
        decreases h - y,
    {
        let mut x: u32 = 0;
        while x < w
            invariant
                y < h,
                x <= w,
                image.wf(),
                catalog.wf(),
                canvas_fits(*image, side),
                side == catalog.spec_tile_side(),
                w == image.spec_width(),
                h == image.spec_height(),
                tiles@ == catalog@,
                map == color_to_tile@,
                choice == (|c: Color| map[spec_pack(c)] as int),
                canvas.wf(),
                canvas.spec_width() == w * side,
                canvas.spec_height() == h * side,
                forall|px: int, py: int|
                    image.contains(px, py) && cell_done(px, py, x as int, y as int) ==> assigned(
                        map,
                        #[trigger] image.at(px, py),
                        tiles@.len() as int,
                    ),
                forall|cx: int, cy: int|
                    canvas.contains(cx, cy) && cell_done(
                        cx / (side as int),
                        cy / (side as int),
                        x as int,
                        y as int,
                    ) ==> #[trigger] canvas.at(cx, cy) == catalog@[choice(
                        image.at(cx / (side as int), cy / (side as int)),
                    )].spec_image().at(cx % (side as int), cy % (side as int)),
            decreases w - x,
        {
            let pixel = image.get_pixel(x, y).unwrap();
            let found = color_to_tile.get(&pixel.pack());
            if found.is_none() {
                assert(!assigned(map, image.at(x as int, y as int), tiles@.len() as int));
                return Err(MosaicError::MissingTile);
            }
            let index = *found.unwrap();
            if index >= tiles.len() {
                assert(!assigned(map, image.at(x as int, y as int), tiles@.len() as int));
                return Err(MosaicError::MissingTile);
            }
            let tile = &tiles[index];
            assert(TileCatalog::fits(catalog@[index as int], side));
            proof {
                lemma_cell_fits(x as int, w as int, side as int);
                lemma_cell_fits(y as int, h as int, side as int);
            }
            let ghost before = canvas;
            let copied = canvas.copy_from(tile.image(), x * side, y * side);
            assert(copied is Ok);
            proof {
                let s = side as int;
                assert forall|cx: int, cy: int|
                    canvas.contains(cx, cy) && cell_done(cx / s, cy / s, x + 1, y as int) implies #[trigger] canvas.at(
                    cx,
                    cy,
                ) == catalog@[choice(image.at(cx / s, cy / s))].spec_image().at(cx % s, cy % s) by {
                    assert(s > 0) by (nonlinear_arith)
                        requires
                            0 <= cx < w * s,
                            0 <= s,
                            0 <= w,
                    ;
                    lemma_cell_of(cx, s, x as int);
                    lemma_cell_of(cy, s, y as int);
                    assert(before.contains(cx, cy));
                    if in_rect(cx, cy, x * side, y * side, s, s) {
                        assert(cx / s == x && cy / s == y);
                    } else {
                        assert(canvas.at(cx, cy) == before.at(cx, cy));
                        assert(cell_done(cx / s, cy / s, x as int, y as int));
                    }
                }
            }
            x += 1;
        }
        proof {
            let s = side as int;
            assert forall|cx: int, cy: int|
                canvas.contains(cx, cy) && cell_done(cx / s, cy / s, 0, y + 1) implies cell_done(
                cx / s,
                cy / s,
                w as int,
                y as int,
            ) by {
                assert(s > 0) by (nonlinear_arith)
                    requires
                        0 <= cx < w * s,
                        0 <= s,
                        0 <= w,
                ;
                lemma_cell_in_picture(cx, w as int, s);
            }
        }
        y += 1;
    }
    proof {
        assert forall|cx: int, cy: int| canvas.contains(cx, cy) implies cell_done(
            cx / (side as int),
            cy / (side as int),
            0,
            h as int,
        ) by {
            assert(side > 0) by (nonlinear_arith)
                requires
                    0 <= cx < w * side,
                    0 <= side,
                    0 <= w,
            ;
            lemma_cell_in_picture(cy, h as int, side as int);
        }
    }
    Ok(canvas)
}

/// The mosaic of the picture: each pixel replaced by the tile of the catalog
/// whose colour is nearest to the pixel's, the first of several equally
/// near.  Without a tile in the catalog there is no mosaic, nor where the
/// canvas would be beyond what the machine can hold.
pub fn build_mosaic(image: &Raster, catalog: &TileCatalog) -> (res: Result<Raster, MosaicError>)
    requires
        image.wf(),
        catalog.wf(),
    ensures
        res matches Err(MosaicError::EmptyCatalog) <==> catalog@.len() == 0,
        res matches Err(MosaicError::TooLarge) <==> catalog@.len() > 0 && !canvas_fits(
            *image,
            catalog.spec_tile_side(),
        ),
        res is Err ==> res matches Err(MosaicError::EmptyCatalog) || res matches Err(
            MosaicError::TooLarge,
        ),
        res matches Ok(canvas) ==> is_mosaic(canvas, *image, *catalog),
{
    if catalog.is_empty() {
        return Err(MosaicError::EmptyCatalog);
    }
    let colors = distinct_colors(image);
    let color_to_tile = match_colors(&colors, catalog.tiles());
    proof {
        lemma_distinct(image@);
        assert forall|x: int, y: int| image.contains(x, y) implies assigned(
            color_to_tile@,
            #[trigger] image.at(x, y),
            catalog@.len() as int,
        ) by {
            lemma_index_in_bounds(image.spec_width() as int, image.spec_height() as int, x, y);
            let c = image.at(x, y);
            assert(image@[y * image.spec_width() + x] == c);
            assert(image@.contains(c));
            assert(distinct(image@).contains(c));
            assert(color_to_tile@.contains_key(spec_pack(c)));
        }
    }
    let res = compose(image, &color_to_tile, catalog);
    proof {
        if res is Ok {
            let canvas = res->Ok_0;
            let side = catalog.spec_tile_side() as int;
            assert forall|cx: int, cy: int| canvas.contains(cx, cy) implies #[trigger] canvas.at(
                cx,
                cy,
            ) == catalog@[nearest(catalog@, image.at(cx / side, cy / side))].spec_image().at(
                cx % side,
                cy % side,
            ) by {
                assert(side > 0) by (nonlinear_arith)
                    requires
                        0 <= cx < image.spec_width() * side,
                        0 <= side,
                        0 <= image.spec_width(),
                ;
                lemma_cell_in_picture(cx, image.spec_width() as int, side);
                lemma_cell_in_picture(cy, image.spec_height() as int, side);
                let c = image.at(cx / side, cy / side);
                assert(image.contains(cx / side, cy / side));
                assert(assigned(color_to_tile@, c, catalog@.len() as int));
                assert(color_to_tile@.contains_key(spec_pack(c)));
            }
        }
    }
    res
}

/// A picture and a catalog have one mosaic: two canvases that are both the
/// mosaic of the same picture with the same catalog agree in size and in
/// every pixel.
pub proof fn lemma_mosaic_unique(a: Raster, b: Raster, image: Raster, catalog: TileCatalog)
    requires
        is_mosaic(a, image, catalog),
        is_mosaic(b, image, catalog),
    ensures
        a.spec_width() == b.spec_width(),
        a.spec_height() == b.spec_height(),
        a@ == b@,
{
    let w = a.spec_width() as int;
    let h = a.spec_height() as int;
    assert(a@.len() == b@.len());
    assert forall|i: int| 0 <= i < a@.len() implies a@[i] == b@[i] by {
        assert(w > 0) by (nonlinear_arith)
            requires
                0 <= i < w * h,
                0 <= w,
                0 <= h,
        ;
        lemma_fundamental_div_mod(i, w);
        assert(w * h == h * w) by (nonlinear_arith);
        lemma_cell_in_picture(i, h, w);
        let x = i % w;
        let y = i / w;
        assert(y * w + x == i) by (nonlinear_arith)
            requires
                i == w * y + x,
        ;
        assert(a.contains(x, y) && b.contains(x, y));
        assert(a.at(x, y) == a@[i]);
        assert(b.at(x, y) == b@[i]);
    }
    assert(a@ =~= b@);
}

/// The mosaic of a picture of one colour shows one tile throughout: the
/// tile nearest to that colour, in every cell.
pub proof fn lemma_mosaic_of_solid(canvas: Raster, image: Raster, catalog: TileCatalog, c: Color)
    requires
        image.wf(),
        forall|i: int| 0 <= i < image@.len() ==> image@[i] == c,
        is_mosaic(canvas, image, catalog),
    ensures
        forall|cx: int, cy: int|
            canvas.contains(cx, cy) ==> #[trigger] canvas.at(cx, cy) == catalog@[nearest(
                catalog@,
                c,
            )].spec_image().at(
                cx % (catalog.spec_tile_side() as int),
                cy % (catalog.spec_tile_side() as int),
            ),
{
    let side = catalog.spec_tile_side() as int;
    assert forall|cx: int, cy: int| canvas.contains(cx, cy) implies #[trigger] canvas.at(cx, cy)
        == catalog@[nearest(catalog@, c)].spec_image().at(cx % side, cy % side) by {
        assert(side > 0) by (nonlinear_arith)
            requires
                0 <= cx < image.spec_width() * side,
                0 <= side,
                0 <= image.spec_width(),
        ;
        lemma_cell_in_picture(cx, image.spec_width() as int, side);
        lemma_cell_in_picture(cy, image.spec_height() as int, side);
        lemma_index_in_bounds(
            image.spec_width() as int,
            image.spec_height() as int,
            cx / side,
            cy / side,
        );
        assert(image.at(cx / side, cy / side) == c);
    }
}

} // verus!
