use flight_tracker::tile::decode_tile;

#[test]
fn decode_tile_yields_raw_rgba_pixels() {
    let mut img = image::RgbaImage::new(2, 1);
    img.put_pixel(0, 0, image::Rgba([255, 0, 0, 255]));
    img.put_pixel(1, 0, image::Rgba([0, 255, 0, 128]));
    let mut bytes: Vec<u8> = Vec::new();
    img.write_to(&mut std::io::Cursor::new(&mut bytes), image::ImageFormat::Png).unwrap();

    let decoded = decode_tile(&bytes).expect("a png must decode");
    assert_eq!(decoded.width, 2);
    assert_eq!(decoded.height, 1);
    assert_eq!(decoded.rgba, vec![255, 0, 0, 255, 0, 255, 0, 128]);
}

#[test]
fn decode_tile_rejects_garbage() {
    assert!(decode_tile(&[1, 2, 3, 4]).is_none());
    assert!(decode_tile(&[]).is_none());
}
