use trmnl::bmp_encoder::{size_fits, Coord};
use trmnl::render::BmpWrapper;

#[test]
fn bounding_box_is_the_scaled_down_size() {
    assert_eq!(BmpWrapper::new_with_scale(800, 480, 3).bounding_box_size(), (266, 160));
    assert_eq!(BmpWrapper::new_with_scale(8, 4, 2).bounding_box_size(), (4, 2));
}

#[test]
fn a_logical_pixel_fills_an_inverted_block() {
    let mut display = BmpWrapper::new_with_scale(8, 4, 2);
    display.draw_scaled(vec![(Coord { x: 0, y: 0 }, false), (Coord { x: 3, y: 1 }, true)]);
    let bytes = display.data().unwrap();
    assert_eq!(bytes.len(), 62 + 16);
    // Rows are stored bottom-up, one byte plus three padding bytes each.
    assert_eq!(bytes[62], 0);
    assert_eq!(bytes[66], 0);
    assert_eq!(bytes[70], 0b1100_0000);
    assert_eq!(bytes[74], 0b1100_0000);
}

#[test]
fn a_lit_pixel_clears_its_block() {
    let mut display = BmpWrapper::new_with_scale(8, 4, 2);
    display.draw_scaled(vec![(Coord { x: 1, y: 1 }, false)]);
    display.draw_scaled(vec![(Coord { x: 1, y: 1 }, true)]);
    let bytes = display.data().unwrap();
    assert!(bytes[62..].iter().all(|b| *b == 0));
}

#[test]
fn blocks_that_overflow_do_not_fit() {
    let display = BmpWrapper::new_with_scale(800, 480, 3);
    assert!(display.fits(Coord { x: 0, y: 0 }));
    assert!(display.fits(Coord { x: 265, y: 159 }));
    assert!(display.fits(Coord { x: 10, y: 1_000_000 }));
    assert!(!display.fits(Coord { x: 0x5555_5555, y: 0 }));
    assert!(!display.fits(Coord { x: u32::MAX, y: 0 }));
    assert!(!display.fits(Coord { x: 0, y: 2_000_000 }));
}

#[test]
fn image_sizes_that_fit_in_a_bmp_file() {
    assert!(size_fits(800, 480, 1));
    assert!(size_fits(u32::MAX, 2, 1));
    assert!(!size_fits(u32::MAX, 9, 1));
    assert!(size_fits(1 << 31, 1, 1));
    assert!(!size_fits(1 << 31, 1, 2));
}
