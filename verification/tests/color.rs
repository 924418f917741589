use photo_mosaic::color::{distance, Color};
use photo_mosaic::error::MosaicError;
use photo_mosaic::tile::{average_color, Tile};
use photo_mosaic::raster::Raster;

fn rgba(r: u8, g: u8, b: u8, a: u8) -> Color {
    Color::new(r, g, b, a)
}

#[test]
fn color_new_keeps_channels() {
    let c = Color::new(1, 2, 3, 4);
    assert_eq!((c.r, c.g, c.b, c.a), (1, 2, 3, 4));
}

#[test]
fn pack_puts_red_highest() {
    assert_eq!(rgba(0x12, 0x34, 0x56, 0x78).pack(), 0x1234_5678);
    assert_eq!(rgba(0, 0, 0, 0).pack(), 0);
    assert_eq!(rgba(255, 255, 255, 255).pack(), u32::MAX);
    assert_ne!(rgba(1, 0, 0, 0).pack(), rgba(0, 1, 0, 0).pack());
}

#[test]
fn distance_exact_values() {
    assert_eq!(distance(rgba(255, 0, 0, 255), rgba(250, 10, 5, 255)), 524);
    assert_eq!(distance(rgba(0, 0, 0, 0), rgba(255, 255, 255, 255)), 584970);
    assert_eq!(distance(rgba(255, 0, 0, 255), rgba(5, 10, 250, 255)), 312655);
    assert_eq!(distance(rgba(10, 20, 30, 0), rgba(13, 20, 30, 9)), 18);
}

#[test]
fn distance_weights_each_channel() {
    let black = rgba(0, 0, 0, 0);
    assert_eq!(distance(black, rgba(1, 0, 0, 0)), 2);
    assert_eq!(distance(black, rgba(0, 1, 0, 0)), 4);
    assert_eq!(distance(black, rgba(0, 0, 1, 0)), 2);
    assert_eq!(distance(rgba(255, 0, 0, 0), rgba(254, 0, 0, 0)), 2);
    assert_eq!(distance(rgba(255, 0, 255, 0), rgba(255, 0, 254, 0)), 2);
}

#[test]
fn distance_is_symmetric() {
    let samples = [
        rgba(0, 0, 0, 0),
        rgba(255, 255, 255, 255),
        rgba(250, 10, 5, 255),
        rgba(5, 10, 250, 255),
        rgba(17, 200, 99, 3),
    ];
    for x in samples {
        for y in samples {
            assert_eq!(distance(x, y), distance(y, x));
        }
    }
}

#[test]
fn distance_is_zero_only_for_equal_rgb() {
    let samples = [
        rgba(0, 0, 0, 0),
        rgba(0, 0, 0, 77),
        rgba(1, 0, 0, 0),
        rgba(0, 1, 0, 0),
        rgba(0, 0, 1, 0),
        rgba(255, 255, 255, 255),
    ];
    for x in samples {
        for y in samples {
            let same = x.r == y.r && x.g == y.g && x.b == y.b;
            assert_eq!(distance(x, y) == 0, same);
            assert!(distance(x, y) >= 0);
        }
    }
}

#[test]
fn distance_ignores_alpha() {
    assert_eq!(distance(rgba(9, 8, 7, 0), rgba(9, 8, 7, 255)), 0);
    assert_eq!(
        distance(rgba(255, 0, 0, 1), rgba(250, 10, 5, 200)),
        distance(rgba(255, 0, 0, 255), rgba(250, 10, 5, 255))
    );
}

#[test]
fn average_of_nothing_is_transparent_black() {
    assert_eq!(average_color(&Vec::new()), rgba(0, 0, 0, 0));
}

#[test]
fn average_of_one_colour_is_that_colour() {
    let pixels = vec![rgba(250, 10, 5, 255); 4];
    assert_eq!(average_color(&pixels), rgba(250, 10, 5, 255));
    let pixels = vec![rgba(255, 255, 255, 255); 7];
    assert_eq!(average_color(&pixels), rgba(255, 255, 255, 255));
}

#[test]
fn average_is_root_mean_square_rounded_down() {
    let pixels = vec![rgba(3, 0, 10, 1), rgba(4, 255, 20, 1)];
    // red: sqrt(25 / 2) = 3.5..; green: sqrt(65025 / 2) = 180.3..;
    // blue: sqrt(500 / 2) = 15.8..; alpha: 1
    assert_eq!(average_color(&pixels), rgba(3, 180, 15, 1));
    let pixels = vec![rgba(10, 1, 200, 0), rgba(20, 1, 100, 0), rgba(30, 1, 50, 0), rgba(40, 2, 50, 0)];
    // red: sqrt(3000 / 4) = 27.3..; green: sqrt(7 / 4) = 1.3..;
    // blue: sqrt(55000 / 4) = 117.2..
    assert_eq!(average_color(&pixels), rgba(27, 1, 117, 0));
}

#[test]
fn tile_colour_is_average_of_its_pixels() {
    let pixels = vec![rgba(200, 0, 0, 255), rgba(100, 0, 0, 255), rgba(50, 0, 0, 255), rgba(0, 0, 0, 255)];
    let image = Raster::from_pixels(2, 2, pixels.clone()).unwrap();
    let tile = Tile::new(image);
    assert_eq!(tile.color(), average_color(&pixels));
    // sqrt((40000 + 10000 + 2500) / 4) = 114.5..
    assert_eq!(tile.color(), rgba(114, 0, 0, 255));
    assert_eq!(tile.image().pixels(), &pixels);
}

#[test]
fn error_messages() {
    assert_eq!(MosaicError::EmptyCatalog.message(), "no usable tile image was found");
    assert_eq!(MosaicError::MissingTile.message(), "a colour of the image has no tile assigned");
    assert_eq!(
        MosaicError::DimensionMismatch.message(),
        "an image does not fit at the given position"
    );
    assert_eq!(MosaicError::TooLarge.message(), "an image is too large");
}
