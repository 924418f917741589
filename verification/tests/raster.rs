use photo_mosaic::color::Color;
use photo_mosaic::error::MosaicError;
use photo_mosaic::raster::Raster;
use photo_mosaic::resize::{can_fit, can_thumbnail, can_thumbnail_exact, fit, thumbnail, thumbnail_exact};

fn grey(v: u8) -> Color {
    Color::new(v, v, v, 255)
}

fn numbered(width: u32, height: u32) -> Raster {
    let pixels = (0..width * height).map(|i| grey(i as u8)).collect();
    Raster::from_pixels(width, height, pixels).unwrap()
}

#[test]
fn new_raster_is_transparent_black() {
    let img = Raster::new(3, 2);
    assert_eq!(img.width(), 3);
    assert_eq!(img.height(), 2);
    assert_eq!(img.pixels(), &vec![Color::new(0, 0, 0, 0); 6]);
    assert_eq!(Raster::new(0, 5).pixels().len(), 0);
}

#[test]
fn from_pixels_wants_one_pixel_per_position() {
    assert!(Raster::from_pixels(2, 2, vec![grey(1); 4]).is_some());
    assert!(Raster::from_pixels(2, 2, vec![grey(1); 3]).is_none());
    assert!(Raster::from_pixels(2, 2, vec![grey(1); 5]).is_none());
    assert!(Raster::from_pixels(0, 7, Vec::new()).is_some());
    assert!(Raster::from_pixels(u32::MAX, u32::MAX, Vec::new()).is_none());
}

#[test]
fn get_pixel_reads_row_by_row() {
    let img = numbered(3, 2);
    assert_eq!(img.get_pixel(0, 0), Some(grey(0)));
    assert_eq!(img.get_pixel(2, 0), Some(grey(2)));
    assert_eq!(img.get_pixel(0, 1), Some(grey(3)));
    assert_eq!(img.get_pixel(2, 1), Some(grey(5)));
    assert_eq!(img.get_pixel(3, 0), None);
    assert_eq!(img.get_pixel(0, 2), None);
}

#[test]
fn bytes_round_trip() {
    let pixels = vec![Color::new(1, 2, 3, 4), Color::new(5, 6, 7, 8)];
    let img = Raster::from_pixels(2, 1, pixels.clone()).unwrap();
    let bytes = img.to_bytes();
    assert_eq!(bytes, vec![1, 2, 3, 4, 5, 6, 7, 8]);
    let back = Raster::from_bytes(2, 1, &bytes).unwrap();
    assert_eq!(back.pixels(), &pixels);
    assert_eq!((back.width(), back.height()), (2, 1));
    assert!(Raster::from_bytes(2, 1, &vec![0; 7]).is_none());
    assert!(Raster::from_bytes(1, 1, &vec![0; 8]).is_none());
}

#[test]
fn copy_from_writes_only_the_rectangle() {
    let mut canvas = Raster::new(4, 3);
    let patch = numbered(2, 2);
    assert_eq!(canvas.copy_from(&patch, 1, 1), Ok(()));
    let z = Color::new(0, 0, 0, 0);
    let expected = vec![
        z, z, z, z,
        z, grey(0), grey(1), z,
        z, grey(2), grey(3), z,
    ];
    assert_eq!(canvas.pixels(), &expected);
    assert_eq!((canvas.width(), canvas.height()), (4, 3));
}

#[test]
fn copy_from_refuses_what_does_not_fit() {
    let mut canvas = Raster::new(4, 3);
    let patch = numbered(2, 2);
    assert_eq!(canvas.copy_from(&patch, 3, 0), Err(MosaicError::DimensionMismatch));
    assert_eq!(canvas.copy_from(&patch, 0, 2), Err(MosaicError::DimensionMismatch));
    assert_eq!(canvas.copy_from(&patch, u32::MAX, 0), Err(MosaicError::DimensionMismatch));
    assert_eq!(canvas.pixels(), &vec![Color::new(0, 0, 0, 0); 12]);
    assert_eq!(canvas.copy_from(&patch, 2, 1), Ok(()));
}

#[test]
fn thumbnail_exact_averages_blocks() {
    let pixels = vec![
        Color::new(0, 10, 7, 255),
        Color::new(0, 20, 7, 255),
        Color::new(255, 30, 7, 255),
        Color::new(255, 40, 7, 255),
    ];
    let img = Raster::from_pixels(2, 2, pixels).unwrap();
    let small = thumbnail_exact(&img, 1, 1);
    assert_eq!((small.width(), small.height()), (1, 1));
    assert_eq!(small.pixels(), &vec![Color::new(128, 25, 7, 255)]);
}

#[test]
fn thumbnail_exact_gives_the_size_asked_for() {
    let img = numbered(6, 4);
    let small = thumbnail_exact(&img, 3, 2);
    assert_eq!((small.width(), small.height()), (3, 2));
    assert_eq!(small.pixels().len(), 6);
    let stretched = thumbnail_exact(&img, 2, 5);
    assert_eq!((stretched.width(), stretched.height()), (2, 5));
    let none = thumbnail_exact(&img, 0, 0);
    assert_eq!(none.pixels().len(), 0);
}

#[test]
fn thumbnail_keeps_proportions() {
    let img = Raster::from_pixels(4, 2, vec![grey(90); 8]).unwrap();
    let small = thumbnail(&img, 2, 2);
    assert_eq!((small.width(), small.height()), (2, 1));
    assert_eq!(small.pixels(), &vec![grey(90); 2]);
}

#[test]
fn thumbnail_stays_within_bounds() {
    let img = numbered(5, 3);
    let small = thumbnail(&img, 2, 2);
    assert_eq!((small.width(), small.height()), (2, 1));
    let tall = thumbnail(&numbered(3, 9), 6, 6);
    assert_eq!((tall.width(), tall.height()), (2, 6));
    let least = thumbnail(&img, 0, 0);
    assert_eq!((least.width(), least.height()), (1, 1));
}

#[test]
fn fit_follows_the_aspect_switch() {
    let img = Raster::from_pixels(4, 2, vec![grey(90); 8]).unwrap();
    let kept = fit(&img, 2, true);
    assert_eq!((kept.width(), kept.height()), (2, 1));
    let exact = fit(&img, 2, false);
    assert_eq!((exact.width(), exact.height()), (2, 2));
    assert_eq!(exact.pixels(), &vec![grey(90); 4]);
}

#[test]
fn ordinary_pictures_can_be_scaled() {
    let img = numbered(6, 4);
    assert!(can_thumbnail_exact(&img, 3, 2));
    assert!(can_thumbnail_exact(&img, 0, 0));
    assert!(can_thumbnail_exact(&img, 26, 26));
    assert!(can_thumbnail(&img, 2, 2));
    assert!(can_thumbnail(&img, 0, 0));
    assert!(can_fit(&img, 128, true));
    assert!(can_fit(&img, 128, false));
}

#[test]
fn too_many_pixels_for_one_result_pixel_cannot_be_scaled() {
    // 4.2 million pixels into one: with 255 in a channel their sum, times
    // the three columns more that are allowed for, is beyond 32 bits
    let long = Raster::new(1, 4_200_000);
    assert!(!can_thumbnail_exact(&long, 1, 1));
    assert!(can_thumbnail_exact(&long, 1, 2));
    assert!(!can_thumbnail(&long, 1, 1));
    assert!(!can_fit(&long, 1, false));
    assert!(!can_fit(&long, 1, true));
    // a zero bound asks for a single pixel: the whole picture goes into it
    assert!(can_thumbnail(&long, 0, 0));
    assert!(!can_thumbnail(&Raster::new(4, 4_200_000), 0, 0));
}

#[test]
fn a_result_too_large_to_allocate_cannot_be_asked_for() {
    let img = numbered(2, 2);
    assert!(!can_thumbnail_exact(&img, u32::MAX, u32::MAX));
    assert!(!can_thumbnail(&img, u32::MAX, u32::MAX));
}

#[test]
fn scaled_long_picture_is_averaged() {
    let long = Raster::from_pixels(1, 100_000, vec![grey(255); 100_000]).unwrap();
    assert!(can_thumbnail_exact(&long, 1, 1));
    let small = thumbnail_exact(&long, 1, 1);
    assert_eq!(small.pixels(), &vec![grey(255)]);
}
