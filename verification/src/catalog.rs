//! The catalog of tiles, and the search for the tile nearest to a colour.

use crate::color::{distance, redmean, Color};
use crate::error::MosaicError;
use crate::raster::{flatten, unflatten, Raster};
use crate::resize::{can_thumbnail_exact, scalable_exact, thumbnail_exact, thumbnail_exact_bytes};
use crate::tile::Tile;
use rayon::iter::{IndexedParallelIterator, IntoParallelRefIterator, ParallelIterator};
use vstd::prelude::*;

verus! {

/// Whether tile `i` is the one nearest to the pixel: no tile is nearer, and
/// every tile before it is farther.
pub open spec fn is_nearest(tiles: Seq<Tile>, pixel: Color, i: int) -> bool {
    &&& 0 <= i < tiles.len()
    &&& forall|j: int|
        0 <= j < tiles.len() ==> redmean(tiles[i].spec_color(), pixel) <= redmean(
            #[trigger] tiles[j].spec_color(),
            pixel,
        )
    &&& forall|j: int|
        0 <= j < i ==> redmean(tiles[i].spec_color(), pixel) < redmean(
            #[trigger] tiles[j].spec_color(),
            pixel,
        )
}

/// The position of the tile nearest to the pixel, where there is a tile.
pub open spec fn nearest(tiles: Seq<Tile>, pixel: Color) -> int {
    choose|i: int| is_nearest(tiles, pixel, i)
}

/// Whether tile `i` comes before tile `j` when tiles are ordered by their
/// distance to the pixel and, where that is the same, by position.
pub open spec fn ranks_before(tiles: Seq<Tile>, pixel: Color, i: int, j: int) -> bool {
    let di = redmean(tiles[i].spec_color(), pixel);
    let dj = redmean(tiles[j].spec_color(), pixel);
    di < dj || (di == dj && i <= j)
}

/// At most one tile is the nearest.
pub proof fn lemma_nearest_unique(tiles: Seq<Tile>, pixel: Color, i: int, j: int)
    requires
        is_nearest(tiles, pixel, i),
        is_nearest(tiles, pixel, j),
    ensures
        i == j,
        nearest(tiles, pixel) == i,
{
    if i < j {
        assert(redmean(tiles[j].spec_color(), pixel) < redmean(tiles[i].spec_color(), pixel));
        assert(redmean(tiles[i].spec_color(), pixel) <= redmean(tiles[j].spec_color(), pixel));
    } else if j < i {
        assert(redmean(tiles[i].spec_color(), pixel) < redmean(tiles[j].spec_color(), pixel));
        assert(redmean(tiles[j].spec_color(), pixel) <= redmean(tiles[i].spec_color(), pixel));
    }
    let k = nearest(tiles, pixel);
    assert(is_nearest(tiles, pixel, k));
    if i < k {
        assert(redmean(tiles[k].spec_color(), pixel) < redmean(tiles[i].spec_color(), pixel));
        assert(redmean(tiles[i].spec_color(), pixel) <= redmean(tiles[k].spec_color(), pixel));
    } else if k < i {
        assert(redmean(tiles[i].spec_color(), pixel) < redmean(tiles[k].spec_color(), pixel));
        assert(redmean(tiles[k].spec_color(), pixel) <= redmean(tiles[i].spec_color(), pixel));
    }
}

/// Of two tiles with the same colour, the later one is never the nearest,
/// whatever the pixel.
pub proof fn lemma_earlier_tile_wins(tiles: Seq<Tile>, pixel: Color, i: int, j: int)
    requires
        0 <= i < j < tiles.len(),
        tiles[i].spec_color() == tiles[j].spec_color(),
    ensures
        !is_nearest(tiles, pixel, j),
{
    if is_nearest(tiles, pixel, j) {
        assert(redmean(tiles[j].spec_color(), pixel) < redmean(tiles[i].spec_color(), pixel));
    }
}

/// The key by which the tiles are ordered for a pixel: the distance of the
/// tile's colour to the pixel, then the tile's position.
pub fn rank(index: usize, tile: &Tile, pixel: Color) -> (key: (i64, usize))
    ensures
        key.0 == redmean(tile.spec_color(), pixel),
        key.1 == index,
{
    (distance(tile.color(), pixel), index)
}

/// Trusted: `rayon`'s `par_iter`, `enumerate` and `min_by_key` on the tiles,
/// each tile keyed by [`rank`].
///
/// Claimed of them: nothing comes back exactly when there is no tile;
/// otherwise the position of a tile whose key is the least, the keys being
/// pairs of integers in their usual order, first component first.
#[verifier::external_body]
fn min_by_rank(tiles: &Vec<Tile>, pixel: Color) -> (best: Option<usize>)
    ensures
        best is None <==> tiles@.len() == 0,
        best matches Some(i) ==> i < tiles@.len() && forall|j: int|
            0 <= j < tiles@.len() ==> #[trigger] ranks_before(tiles@, pixel, i as int, j),
{
    tiles.par_iter().enumerate().min_by_key(|item| rank(item.0, item.1, pixel)).map(|item| item.0)
}

/// The position of the tile whose colour is nearest to the pixel; of several
/// equally near, the first.  Nothing where there is no tile.
pub fn pick_image_for_pixel(pixel: Color, tiles: &Vec<Tile>) -> (best: Option<usize>)
    ensures
        best is None <==> tiles@.len() == 0,
        best matches Some(i) ==> is_nearest(tiles@, pixel, i as int) && i == nearest(tiles@, pixel),
{
    let best = min_by_rank(tiles, pixel);
    proof {
        if let Some(i) = best {
            assert forall|j: int| 0 <= j < tiles@.len() implies redmean(
                tiles@[i as int].spec_color(),
                pixel,
            ) <= redmean(#[trigger] tiles@[j].spec_color(), pixel) by {
                assert(ranks_before(tiles@, pixel, i as int, j));
            }
            assert forall|j: int| 0 <= j < i implies redmean(tiles@[i as int].spec_color(), pixel)
                < redmean(#[trigger] tiles@[j].spec_color(), pixel) by {
                assert(ranks_before(tiles@, pixel, i as int, j));
            }
            lemma_nearest_unique(tiles@, pixel, i as int, i as int);
        }
    }
    best
}

/// Where there is a tile, one of them is the nearest to any pixel.
pub proof fn lemma_nearest_exists(tiles: Seq<Tile>, pixel: Color)
    requires
        tiles.len() > 0,
    ensures
        is_nearest(tiles, pixel, nearest(tiles, pixel)),
    decreases tiles.len(),
{
    if tiles.len() == 1 {
        assert(is_nearest(tiles, pixel, 0));
    } else {
        let rest = tiles.drop_last();
        lemma_nearest_exists(rest, pixel);
        let k = nearest(rest, pixel);
        let last = tiles.len() - 1;
        assert forall|j: int| 0 <= j < rest.len() implies rest[j] == tiles[j] by {}
        if redmean(tiles[last].spec_color(), pixel) < redmean(tiles[k].spec_color(), pixel) {
            assert forall|j: int| 0 <= j < tiles.len() implies redmean(
                tiles[last].spec_color(),
                pixel,
            ) <= redmean(#[trigger] tiles[j].spec_color(), pixel) by {
                if j < last {
                    assert(redmean(rest[k].spec_color(), pixel) <= redmean(
                        rest[j].spec_color(),
                        pixel,
                    ));
                }
            }
            assert forall|j: int| 0 <= j < last implies redmean(tiles[last].spec_color(), pixel)
                < redmean(#[trigger] tiles[j].spec_color(), pixel) by {
                assert(redmean(rest[k].spec_color(), pixel) <= redmean(
                    rest[j].spec_color(),
                    pixel,
                ));
            }
            assert(is_nearest(tiles, pixel, last));
        } else {
            assert forall|j: int| 0 <= j < tiles.len() implies redmean(
                tiles[k].spec_color(),
                pixel,
            ) <= redmean(#[trigger] tiles[j].spec_color(), pixel) by {
                if j < last {
                    assert(redmean(rest[k].spec_color(), pixel) <= redmean(
                        rest[j].spec_color(),
                        pixel,
                    ));
                }
            }
            assert forall|j: int| 0 <= j < k implies redmean(tiles[k].spec_color(), pixel)
                < redmean(#[trigger] tiles[j].spec_color(), pixel) by {
                assert(redmean(rest[k].spec_color(), pixel) < redmean(
                    rest[j].spec_color(),
                    pixel,
                ));
            }
            assert(is_nearest(tiles, pixel, k));
        }
    }
}

/// The pixels of the tile that a picture gives: the picture scaled to a
/// square of the given side.
pub open spec fn tile_pixels(source: Raster, side: u32) -> Seq<Color> {
    unflatten(
        thumbnail_exact_bytes(
            flatten(source@),
            source.spec_width(),
            source.spec_height(),
            side,
            side,
        ),
    )
}

/// The pixels of the tiles that the pictures give, in the pictures' order;
/// where a picture is missing, there is no tile for it.
pub open spec fn loaded(decoded: Seq<Option<Raster>>, side: u32) -> Seq<Seq<Color>>
    decreases decoded.len(),
{
    if decoded.len() == 0 {
        Seq::empty()
    } else {
        let rest = loaded(decoded.drop_last(), side);
        match decoded.last() {
            Some(source) => rest.push(tile_pixels(source, side)),
            None => rest,
        }
    }
}

/// Tiles of one size, in a fixed order.
#[derive(Debug)]
pub struct TileCatalog {
    tiles: Vec<Tile>,
    tile_side: u32,
}

impl View for TileCatalog {
    type V = Seq<Tile>;

    /// The tiles, in order.
    closed spec fn view(&self) -> Seq<Tile> {
        self.tiles@
    }
}

impl TileCatalog {
    /// The side of every tile, in pixels.
    pub closed spec fn spec_tile_side(&self) -> u32 {
        self.tile_side
    }

    /// Whether the tile is well formed and square with the given side.
    pub open spec fn fits(tile: Tile, side: u32) -> bool {
        tile.wf() && tile.spec_image().spec_width() == side && tile.spec_image().spec_height()
            == side
    }

    /// Every tile is well formed and has the catalog's size.
    pub open spec fn wf(&self) -> bool {
        forall|i: int| 0 <= i < self@.len() ==> Self::fits(#[trigger] self@[i], self.spec_tile_side())
    }

    /// A catalog without tiles, for tiles of the given side.
    pub fn new(tile_side: u32) -> (catalog: TileCatalog)
        ensures
            catalog.wf(),
            catalog@.len() == 0,
            catalog.spec_tile_side() == tile_side,
    {
        TileCatalog { tiles: Vec::new(), tile_side }
    }

    /// Adds the tile at the end, unless it has another size than the
    /// catalog's.
    pub fn push(&mut self, tile: Tile) -> (res: Result<(), MosaicError>)
        requires
            old(self).wf(),
            tile.wf(),
        ensures
            final(self).wf(),
            final(self).spec_tile_side() == old(self).spec_tile_side(),
            res is Ok <==> Self::fits(tile, old(self).spec_tile_side()),
            res is Ok ==> final(self)@ == old(self)@.push(tile),
            res is Err ==> res == Err::<(), MosaicError>(MosaicError::DimensionMismatch)
                && final(self)@ == old(self)@,
    {
        if tile.image().width() == self.tile_side && tile.image().height() == self.tile_side {
            self.tiles.push(tile);
            proof {
                assert forall|i: int| 0 <= i < self@.len() implies Self::fits(
                    #[trigger] self@[i],
                    self.spec_tile_side(),
                ) by {
                    if i < old(self)@.len() {
                        assert(self@[i] == old(self)@[i]);
                    }
                }
            }
            Ok(())
        } else {
            Err(MosaicError::DimensionMismatch)
        }
    }

    /// The side of every tile, in pixels.
    #[verifier::when_used_as_spec(spec_tile_side)]
    pub fn tile_side(&self) -> (side: u32)
        ensures
            side == self.spec_tile_side(),
    {
        self.tile_side
    }

    /// The tiles, in order.
    pub fn tiles(&self) -> (tiles: &Vec<Tile>)
        ensures
            tiles@ == self@,
    {
        &self.tiles
    }

    /// The number of tiles.
    pub fn len(&self) -> (n: usize)
        ensures
            n == self@.len(),
    {
        self.tiles.len()
    }

    /// Whether there is no tile.
    pub fn is_empty(&self) -> (b: bool)
        ensures
            b <==> self@.len() == 0,
    {
        self.tiles.len() == 0
    }
}

/// The tiles that are there, in order.
pub open spec fn present(tiles: Seq<Option<Tile>>) -> Seq<Tile>
    decreases tiles.len(),
{
    if tiles.len() == 0 {
        Seq::empty()
    } else {
        let rest = present(tiles.drop_last());
        match tiles.last() {
            Some(tile) => rest.push(tile),
            None => rest,
        }
    }
}

/// The tile that a picture gives: the picture scaled to a square of the
/// given side, with the colour that represents the scaled pixels.  Nothing
/// where the picture cannot be scaled on this machine.
pub fn load_tile(source: &Raster, tile_side: u32) -> (tile: Option<Tile>)
    requires
        source.wf(),
    ensures
        tile is Some <==> scalable_exact(*source, tile_side, tile_side),
        tile matches Some(t) ==> TileCatalog::fits(t, tile_side) && t.spec_image()@ == tile_pixels(
            *source,
            tile_side,
        ),
{
    if can_thumbnail_exact(source, tile_side, tile_side) {
        Some(Tile::new(thumbnail_exact(source, tile_side, tile_side)))
    } else {
        None
    }
}

/// The catalog of the tiles that are there, in order.  Without a tile there
/// is no catalog.
pub fn catalog_of(tiles: Vec<Option<Tile>>, tile_side: u32) -> (res: Result<
    TileCatalog,
    MosaicError,
>)
    requires
        forall|i: int|
            0 <= i < tiles@.len() ==> (#[trigger] tiles@[i] matches Some(t) ==> TileCatalog::fits(
                t,
                tile_side,
            )),
    ensures
        res is Err <==> present(tiles@).len() == 0,
        res is Err ==> res matches Err(MosaicError::EmptyCatalog),
        res matches Ok(catalog) ==> catalog.wf() && catalog.spec_tile_side() == tile_side
            && catalog@ == present(tiles@),
{
    let mut catalog = TileCatalog::new(tile_side);
    let ghost all = tiles@;
    for entry in it: tiles.into_iter()
        invariant
            it.seq() == all,
            forall|i: int|
                0 <= i < all.len() ==> (#[trigger] all[i] matches Some(t) ==> TileCatalog::fits(
                    t,
                    tile_side,
                )),
            catalog.wf(),
            catalog.spec_tile_side() == tile_side,
            catalog@ == present(all.take(it.index() as int)),
    {
        proof {
            let i = it.index() as int;
            assert(all.take(i + 1).drop_last() == all.take(i));
            assert(all.take(i + 1).last() == all[i]);
            assert(entry == all[i]);
        }
        match entry {
            Some(tile) => {
                let pushed = catalog.push(tile);
                assert(pushed is Ok);
            },
            None => {},
        }
    }
    assert(all.take(all.len() as int) == all);
    if catalog.is_empty() {
        Err(MosaicError::EmptyCatalog)
    } else {
        Ok(catalog)
    }
}

/// Whether each of the pictures that are there can be scaled to a square of
/// the given side on this machine.
pub open spec fn all_scalable(decoded: Seq<Option<Raster>>, side: u32) -> bool {
    forall|i: int|
        0 <= i < decoded.len() ==> (#[trigger] decoded[i] matches Some(source) ==> scalable_exact(
            source,
            side,
            side,
        ))
}

/// The catalog of the tiles that the pictures give, each scaled to a square
/// of the given side.  A missing picture, one that could not be read, gives
/// no tile; where no picture is left, there is no catalog.  Nor is there one
/// where a picture cannot be scaled on this machine.
pub fn load_images(decoded: Vec<Option<Raster>>, tile_side: u32) -> (res: Result<
    TileCatalog,
    MosaicError,
>)
    requires
        forall|i: int|
            0 <= i < decoded@.len() ==> (#[trigger] decoded@[i] matches Some(source)
                ==> source.wf()),
    ensures
        res matches Err(MosaicError::TooLarge) <==> !all_scalable(decoded@, tile_side),
        res matches Err(MosaicError::EmptyCatalog) <==> all_scalable(decoded@, tile_side) && loaded(
            decoded@,
            tile_side,
        ).len() == 0,
        res is Err ==> res matches Err(MosaicError::TooLarge) || res matches Err(
            MosaicError::EmptyCatalog,
        ),
        res matches Ok(catalog) ==> {
            &&& catalog.wf()
            &&& catalog.spec_tile_side() == tile_side
            &&& catalog@.len() == loaded(decoded@, tile_side).len()
            &&& forall|i: int|
                0 <= i < catalog@.len() ==> (#[trigger] catalog@[i]).spec_image()@ == loaded(
                    decoded@,
                    tile_side,
                )[i]
        },
{
    let mut tiles: Vec<Option<Tile>> = Vec::new();
    let n = decoded.len();
    let mut i: usize = 0;
    while i < n
        invariant
            i <= n,
            n == decoded@.len(),
            forall|k: int|
                0 <= k < decoded@.len() ==> (#[trigger] decoded@[k] matches Some(source)
                    ==> source.wf()),
            all_scalable(decoded@.take(i as int), tile_side),
            forall|k: int|
                0 <= k < tiles@.len() ==> (#[trigger] tiles@[k] matches Some(t)
                    ==> TileCatalog::fits(t, tile_side)),
            present(tiles@).len() == loaded(decoded@.take(i as int), tile_side).len(),
            forall|k: int|
                0 <= k < present(tiles@).len() ==> (#[trigger] present(tiles@)[k]).spec_image()@
                    == loaded(decoded@.take(i as int), tile_side)[k],
        decreases n - i,
    {
        proof {
            assert(decoded@.take(i + 1).drop_last() == decoded@.take(i as int));
            assert(decoded@.take(i + 1).last() == decoded@[i as int]);
        }
        let ghost before = tiles@;
        match &decoded[i] {
            Some(source) => {
                match load_tile(source, tile_side) {
                    Some(tile) => {
                        tiles.push(Some(tile));
                    },
                    None => {
                        assert(!all_scalable(decoded@, tile_side));
                        return Err(MosaicError::TooLarge);
                    },
                }
            },
            None => {
                tiles.push(None);
            },
        }
        proof {
            assert(tiles@.drop_last() == before);
            assert forall|k: int| 0 <= k < i + 1 implies (#[trigger] decoded@.take(i + 1)[k] matches Some(
                source,
            ) ==> scalable_exact(source, tile_side, tile_side)) by {
                if k < i {
                    assert(decoded@.take(i as int)[k] == decoded@.take(i + 1)[k]);
                }
            }
        }
        i += 1;
    }
    proof {
        assert(decoded@.take(n as int) == decoded@);
    }
    catalog_of(tiles, tile_side)
}

} // verus!
