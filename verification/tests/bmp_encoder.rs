use trmnl::bmp_encoder::{
    BmpDibHeader, BmpHeader, Coord, Header, Image, Pixel, WriteData, HEADER_SIZE, U1,
};

#[test]
fn bmp_header_size() {
    assert_eq!(std::mem::size_of::<BmpHeader>(), 12);
}

#[test]
fn dib_header_size() {
    assert_eq!(std::mem::size_of::<BmpDibHeader>(), 40);
}

#[test]
fn header_size_is_62() {
    // 2 (BM) + 12 (BmpHeader) + 40 (DibHeader) + 8 (ColorPalette) = 62
    assert_eq!(HEADER_SIZE, 62);
}

#[test]
fn it_writes_2_bytes() {
    let mut buf = Vec::new();
    (Header::default().write_into(&mut buf).unwrap());
    assert_eq!(buf.len(), 2)
}

#[test]
fn it_writes_bits_1() {
    let mut buf = vec![255, 255];
    U1::index_mut(&mut buf, 9, false);
    assert_eq!(buf, vec![255, 191]);
}

#[test]
fn it_writes_bits_2() {
    let mut buf = vec![255, 255];
    U1::index_mut(&mut buf, 8, false);
    assert_eq!(buf, vec![255, 127]);
}

#[test]
fn it_writes_bits_3() {
    let mut buf = vec![255, 255];
    U1::index_mut(&mut buf, 0, false);
    assert_eq!(buf, vec![127, 255]);
}

#[test]
fn temp() {
    assert_eq!(255 >> 1, 127);
}

#[test]
fn it_writes_bits_4() {
    let mut buf = vec![255, 255];
    U1::index_mut(&mut buf, 1, false);
    assert_eq!(buf, vec![191, 255]);
}

#[test]
fn it_writes_bits_5() {
    let mut buf = vec![255, 255];
    U1::index_mut(&mut buf, 7, false);
    assert_eq!(buf, vec![254, 255]);
}

#[test]
fn it_should_not_be_homogeneous() {
    let mut i = Image::<U1>::new(800, 480);
    i.draw_pixels(
        (0..800)
            .flat_map(|x| (0..480).map(move |y| (Coord { x, y }, x % 2 == 0)))
            .collect::<Vec<_>>(),
    );
    let bytes = i.image_bytes().unwrap();
    assert!(!bytes[54..].iter().all(|b| b == &0));
    assert!(!bytes[54..].iter().all(|b| b == &u8::MAX));
}

fn le32(bytes: &[u8], at: usize) -> u32 {
    u32::from_le_bytes([bytes[at], bytes[at + 1], bytes[at + 2], bytes[at + 3]])
}

#[test]
fn index_mut_sets_a_bit_and_reads_back() {
    let mut buf = vec![0u8, 0u8];
    assert_eq!(U1::index_mut(&mut buf, 10, true), Some(()));
    assert_eq!(buf, vec![0, 0b0010_0000]);
    assert_eq!(U1::index_mut(&mut buf, 10, false), Some(()));
    assert_eq!(buf, vec![0, 0]);
}

#[test]
fn index_mut_past_the_end_changes_nothing() {
    let mut buf = vec![0u8, 0u8];
    assert_eq!(U1::index_mut(&mut buf, 16, true), None);
    assert_eq!(buf, vec![0, 0]);
}

#[test]
fn headers_write_their_fixed_lengths() {
    let mut buf = Vec::new();
    BmpHeader::new(8).write_into(&mut buf).unwrap();
    assert_eq!(buf, vec![70, 0, 0, 0, 0, 0, 0, 0, 62, 0, 0, 0]);
    let mut buf = Vec::new();
    BmpDibHeader::new(1, 10, 2).write_into(&mut buf).unwrap();
    assert_eq!(buf.len(), 40);
    assert_eq!(le32(&buf, 20), 8);
}

#[test]
fn file_layout_of_a_small_image() {
    // 10 pixels need 2 bytes per row, padded to 4; 2 rows give 8 data bytes.
    let img = Image::<U1>::new(10, 2);
    assert_eq!(img.dimensions(), (10, 2));
    let bytes = img.image_bytes().unwrap();
    assert_eq!(bytes.len(), 70);
    assert_eq!(&bytes[0..2], b"BM");
    assert_eq!(le32(&bytes, 2), 70);
    assert_eq!(le32(&bytes, 10), 62);
    assert_eq!(le32(&bytes, 14), 40);
    assert_eq!(le32(&bytes, 18), 10);
    assert_eq!(le32(&bytes, 22), 2);
    assert_eq!(&bytes[26..30], &[1, 0, 1, 0]);
    assert_eq!(le32(&bytes, 30), 0);
    assert_eq!(le32(&bytes, 34), 8);
    assert_eq!(le32(&bytes, 38), 1000);
    assert_eq!(le32(&bytes, 42), 1000);
    assert_eq!(le32(&bytes, 46), 2);
    assert_eq!(le32(&bytes, 50), 2);
    assert_eq!(&bytes[54..62], &[0, 0, 0, 0, 255, 255, 255, 0]);
    assert!(bytes[62..].iter().all(|b| *b == 0));
}

#[test]
fn rows_are_stored_bottom_up() {
    let mut img = Image::<U1>::new(16, 2);
    img.draw_pixels(vec![(Coord { x: 0, y: 0 }, true), (Coord { x: 14, y: 1 }, true)]);
    let bytes = img.image_bytes().unwrap();
    // Row 1 is written first: pixel 14 is bit 1 of its second byte.
    assert_eq!(&bytes[62..66], &[0, 0b0000_0010, 0, 0]);
    // Row 0 follows: pixel 0 is the top bit of its first byte.
    assert_eq!(&bytes[66..70], &[0b1000_0000, 0, 0, 0]);
}

#[test]
fn pixels_are_numbered_row_by_row_over_the_packed_bits() {
    // With a width that is not a multiple of eight, pixel (x, y) is bit y * width + x
    // of the packed data, so (9, 1) is bit 19: the first byte of the second row.
    let mut img = Image::<U1>::new(10, 2);
    img.draw_pixels(vec![(Coord { x: 9, y: 1 }, true)]);
    let bytes = img.image_bytes().unwrap();
    assert_eq!(&bytes[62..66], &[0b0001_0000, 0, 0, 0]);
    assert_eq!(&bytes[66..70], &[0, 0, 0, 0]);
}

#[test]
fn the_last_drawn_value_wins() {
    let mut img = Image::<U1>::new(8, 1);
    img.draw_pixels(vec![
        (Coord { x: 3, y: 0 }, true),
        (Coord { x: 3, y: 0 }, false),
        (Coord { x: 4, y: 0 }, true),
    ]);
    let bytes = img.image_bytes().unwrap();
    assert_eq!(bytes[62], 0b0000_1000);
}

#[test]
fn pixels_past_the_data_are_skipped() {
    let mut img = Image::<U1>::new(8, 1);
    img.draw_pixels(vec![(Coord { x: 0, y: 5 }, true)]);
    let bytes = img.image_bytes().unwrap();
    assert_eq!(bytes.len(), 66);
    assert!(bytes[62..].iter().all(|b| *b == 0));
}

#[test]
fn data_size_matches_the_stored_rows() {
    for width in [1u32, 7, 8, 9, 31, 32, 33, 100, 800] {
        let img = Image::<U1>::new(width, 3);
        let bytes = img.image_bytes().unwrap();
        assert_eq!(le32(&bytes, 34) as usize, bytes.len() - 62);
        assert_eq!(le32(&bytes, 2) as usize, bytes.len());
        assert_eq!((bytes.len() - 62) % 12, 0);
    }
}

#[test]
fn drawing_keeps_the_size_and_the_header() {
    let mut img = Image::<U1>::new(37, 5);
    let first = img.image_bytes().unwrap();
    img.draw_pixels(vec![(Coord { x: 0, y: 0 }, true), (Coord { x: 36, y: 4 }, true)]);
    img.draw_pixels(vec![(Coord { x: 0, y: 0 }, false), (Coord { x: 100, y: 100 }, true)]);
    assert_eq!(img.dimensions(), (37, 5));
    let b = img.image_bytes().unwrap();
    assert_eq!(b.len(), 62 + 5 * ((37 + 31) / 32 * 4));
    assert_eq!(b.len(), first.len());
    assert_eq!(&b[0..2], b"BM");
    assert_eq!(le32(&b, 2) as usize, b.len());
    assert_eq!(le32(&b, 10), 62);
    assert_eq!(le32(&b, 18), 37);
    assert_eq!(le32(&b, 22), 5);
    assert_eq!(&b[28..30], &[1, 0]);
    assert_eq!(le32(&b, 34) as usize, b.len() - 62);
    assert_eq!(&b[54..62], &[0, 0, 0, 0, 255, 255, 255, 0]);
    assert_eq!(b, img.image_bytes().unwrap());
    assert_ne!(b, first);
}

#[test]
fn packed_rows_are_padded_to_four_bytes() {
    let data = trmnl::bmp_encoder::ImageData::<U1>::new(13, 3);
    assert_eq!(data.final_size(), 12);
    let data = trmnl::bmp_encoder::ImageData::<U1>::new(32, 2);
    assert_eq!(data.final_size(), 8);
    let data = trmnl::bmp_encoder::ImageData::<U1>::new(33, 1);
    assert_eq!(data.final_size(), 8);
}
