use photo_mosaic::catalog::TileCatalog;
use photo_mosaic::color::Color;
use photo_mosaic::compose::{build_mosaic, compose, match_colors};
use photo_mosaic::error::MosaicError;
use photo_mosaic::raster::Raster;
use photo_mosaic::reduce::distinct_colors;
use photo_mosaic::tile::Tile;
use std::collections::HashMap;

const RED: Color = Color { r: 255, g: 0, b: 0, a: 255 };
const BLUE: Color = Color { r: 0, g: 0, b: 255, a: 255 };
const REDDISH: Color = Color { r: 250, g: 10, b: 5, a: 255 };
const BLUISH: Color = Color { r: 5, g: 10, b: 250, a: 255 };

fn solid(side: u32, c: Color) -> Raster {
    Raster::from_pixels(side, side, vec![c; (side * side) as usize]).unwrap()
}

fn two_tiles() -> TileCatalog {
    let mut catalog = TileCatalog::new(2);
    catalog.push(Tile::new(solid(2, REDDISH))).unwrap();
    catalog.push(Tile::new(solid(2, BLUISH))).unwrap();
    catalog
}

/// Two tiles whose pixels differ from place to place.
fn patterned() -> TileCatalog {
    let mut catalog = TileCatalog::new(2);
    let dark = (0..4u8).map(|i| Color::new(i, i, i, 255)).collect();
    let light = (0..4u8).map(|i| Color::new(250 + i, 250 + i, 250 + i, 255)).collect();
    catalog.push(Tile::new(Raster::from_pixels(2, 2, dark).unwrap())).unwrap();
    catalog.push(Tile::new(Raster::from_pixels(2, 2, light).unwrap())).unwrap();
    catalog
}

#[test]
fn distinct_colors_in_order_of_first_occurrence() {
    let a = Color::new(1, 1, 1, 1);
    let b = Color::new(2, 2, 2, 2);
    let c = Color::new(1, 1, 1, 2);
    let image = Raster::from_pixels(3, 2, vec![b, a, b, c, a, b]).unwrap();
    assert_eq!(distinct_colors(&image), vec![b, a, c]);
    assert_eq!(distinct_colors(&Raster::new(0, 0)), Vec::new());
}

#[test]
fn solid_image_has_one_distinct_color() {
    let image = solid(5, RED);
    assert_eq!(distinct_colors(&image), vec![RED]);
}

#[test]
fn match_colors_maps_each_colour_to_its_nearest_tile() {
    let catalog = two_tiles();
    let map = match_colors(&vec![RED, BLUE, REDDISH], catalog.tiles());
    assert_eq!(map.len(), 3);
    assert_eq!(map.get(&RED.pack()), Some(&0));
    assert_eq!(map.get(&BLUE.pack()), Some(&1));
    assert_eq!(map.get(&REDDISH.pack()), Some(&0));
    assert!(match_colors(&vec![RED, BLUE], &Vec::new()).is_empty());
}

#[test]
fn end_to_end_two_by_one() {
    let image = Raster::from_pixels(2, 1, vec![RED, BLUE]).unwrap();
    let canvas = build_mosaic(&image, &two_tiles()).unwrap();
    assert_eq!((canvas.width(), canvas.height()), (4, 2));
    let expected = vec![
        REDDISH, REDDISH, BLUISH, BLUISH,
        REDDISH, REDDISH, BLUISH, BLUISH,
    ];
    assert_eq!(canvas.pixels(), &expected);
}

#[test]
fn tiles_are_copied_pixel_by_pixel() {
    let black = Color::new(0, 0, 0, 255);
    let white = Color::new(255, 255, 255, 255);
    let image = Raster::from_pixels(2, 2, vec![white, black, black, white]).unwrap();
    let canvas = build_mosaic(&image, &patterned()).unwrap();
    assert_eq!((canvas.width(), canvas.height()), (4, 4));
    let d = |i: u8| Color::new(i, i, i, 255);
    let l = |i: u8| Color::new(250 + i, 250 + i, 250 + i, 255);
    let expected = vec![
        l(0), l(1), d(0), d(1),
        l(2), l(3), d(2), d(3),
        d(0), d(1), l(0), l(1),
        d(2), d(3), l(2), l(3),
    ];
    assert_eq!(canvas.pixels(), &expected);
}

#[test]
fn solid_image_is_tiled_with_one_tile() {
    let image = solid(3, BLUE);
    let canvas = build_mosaic(&image, &two_tiles()).unwrap();
    assert_eq!((canvas.width(), canvas.height()), (6, 6));
    assert_eq!(canvas.pixels(), &vec![BLUISH; 36]);
}

#[test]
fn same_input_gives_the_same_canvas() {
    let pixels = (0..12u32).map(|i| Color::new((i * 23) as u8, (i * 5) as u8, (255 - i * 20) as u8, 255)).collect();
    let image = Raster::from_pixels(4, 3, pixels).unwrap();
    let catalog = patterned();
    let first = build_mosaic(&image, &catalog).unwrap();
    let second = build_mosaic(&image, &catalog).unwrap();
    assert_eq!(first.pixels(), second.pixels());
    assert_eq!(first.to_bytes(), second.to_bytes());
    assert_eq!((first.width(), first.height()), (second.width(), second.height()));
}

#[test]
fn empty_catalog_gives_no_mosaic() {
    let image = Raster::from_pixels(2, 1, vec![RED, BLUE]).unwrap();
    assert_eq!(build_mosaic(&image, &TileCatalog::new(2)).err(), Some(MosaicError::EmptyCatalog));
    assert_eq!(
        build_mosaic(&Raster::new(0, 0), &TileCatalog::new(2)).err(),
        Some(MosaicError::EmptyCatalog)
    );
}

#[test]
fn empty_image_gives_an_empty_mosaic() {
    let canvas = build_mosaic(&Raster::new(0, 0), &two_tiles()).unwrap();
    assert_eq!((canvas.width(), canvas.height()), (0, 0));
    assert!(canvas.pixels().is_empty());
}

#[test]
fn compose_follows_the_map() {
    let image = Raster::from_pixels(2, 1, vec![RED, BLUE]).unwrap();
    let mut map = HashMap::new();
    // on purpose not the nearest tiles
    map.insert(RED.pack(), 1usize);
    map.insert(BLUE.pack(), 0usize);
    let canvas = compose(&image, &map, &two_tiles()).unwrap();
    let expected = vec![
        BLUISH, BLUISH, REDDISH, REDDISH,
        BLUISH, BLUISH, REDDISH, REDDISH,
    ];
    assert_eq!(canvas.pixels(), &expected);
}

#[test]
fn compose_fails_on_a_colour_without_tile() {
    let image = Raster::from_pixels(2, 1, vec![RED, BLUE]).unwrap();
    let mut map = HashMap::new();
    map.insert(RED.pack(), 0usize);
    assert_eq!(compose(&image, &map, &two_tiles()).err(), Some(MosaicError::MissingTile));
    map.insert(BLUE.pack(), 2usize);
    assert_eq!(compose(&image, &map, &two_tiles()).err(), Some(MosaicError::MissingTile));
    map.insert(BLUE.pack(), 1usize);
    assert!(compose(&image, &map, &two_tiles()).is_ok());
}

#[test]
fn cells_do_not_overlap() {
    // each pixel has a colour and a tile of its own; on the canvas every
    // position of a pixel's cell must hold that pixel's tile, so that no
    // later copy has written into an earlier cell
    let side = 3u32;
    let (w, h) = (4u32, 2u32);
    let mut catalog = TileCatalog::new(side);
    let mut map = HashMap::new();
    let mut pixels = Vec::new();
    for i in 0..(w * h) as u8 {
        let own = Color::new(i, 100, 200, 255);
        let marks = (0..(side * side) as u8).map(|k| Color::new(i, k, 0, 255)).collect();
        catalog.push(Tile::new(Raster::from_pixels(side, side, marks).unwrap())).unwrap();
        map.insert(own.pack(), i as usize);
        pixels.push(own);
    }
    let image = Raster::from_pixels(w, h, pixels).unwrap();
    let canvas = compose(&image, &map, &catalog).unwrap();
    assert_eq!((canvas.width(), canvas.height()), (w * side, h * side));
    for cy in 0..h * side {
        for cx in 0..w * side {
            let cell = (cy / side) * w + cx / side;
            let within = (cy % side) * side + cx % side;
            assert_eq!(canvas.get_pixel(cx, cy), Some(Color::new(cell as u8, within as u8, 0, 255)));
        }
    }
}

#[test]
fn copies_into_different_cells_leave_each_other_alone() {
    let side = 2u32;
    let mut canvas = Raster::new(3 * side, 2 * side);
    let mut order = vec![(2u32, 1u32), (0, 0), (1, 1), (2, 0), (0, 1), (1, 0)];
    for (x, y) in order.clone() {
        let mark = Color::new(x as u8, y as u8, 9, 255);
        canvas.copy_from(&solid(side, mark), x * side, y * side).unwrap();
    }
    order.reverse();
    for (x, y) in order {
        for dy in 0..side {
            for dx in 0..side {
                let seen = canvas.get_pixel(x * side + dx, y * side + dy);
                assert_eq!(seen, Some(Color::new(x as u8, y as u8, 9, 255)));
            }
        }
    }
}

#[test]
fn canvas_beyond_the_machine_is_refused() {
    let image = Raster::from_pixels(2, 1, vec![RED, BLUE]).unwrap();
    let map = HashMap::new();
    assert_eq!(
        compose(&image, &map, &TileCatalog::new(u32::MAX)).err(),
        Some(MosaicError::TooLarge)
    );
    // an empty catalog is reported first
    assert_eq!(
        build_mosaic(&image, &TileCatalog::new(u32::MAX)).err(),
        Some(MosaicError::EmptyCatalog)
    );
}
