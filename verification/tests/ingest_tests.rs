use paletter::color::Rgb24;
use paletter::decode_to_rgb24;
use paletter::rgba_to_colors;

#[test]
fn rgba_buffer_is_packed_and_filtered() {
    let bytes = vec![
        1, 2, 3, 255, // kept
        4, 5, 6, 9, // dropped below the threshold
        7, 8, 9, 10, // kept at the threshold
        11, 12, // trailing incomplete pixel, dropped
    ];
    let colors = rgba_to_colors(&bytes, 10);
    assert_eq!(colors, vec![Rgb24::new(1, 2, 3), Rgb24::new(7, 8, 9)]);

    let all = rgba_to_colors(&bytes, 0);
    assert_eq!(
        all,
        vec![Rgb24::new(1, 2, 3), Rgb24::new(4, 5, 6), Rgb24::new(7, 8, 9)]
    );
}

#[test]
fn decoding_a_png_yields_its_pixels() {
    // A 2x2 RGBA image with one transparent pixel, encoded to PNG in memory.
    let raw: Vec<u8> = vec![
        10, 20, 30, 255, //
        40, 50, 60, 255, //
        70, 80, 90, 0, //
        200, 210, 220, 255,
    ];
    let img = image::RgbaImage::from_raw(2, 2, raw).unwrap();
    let mut encoded = std::io::Cursor::new(Vec::new());
    img.write_to(&mut encoded, image::ImageFormat::Png).unwrap();
    let bytes = encoded.into_inner();

    // The decoded pixels are not the encoded bytes handed back unchanged.
    let colors = decode_to_rgb24(&bytes, 0).unwrap();
    assert_eq!(
        colors,
        vec![
            Rgb24::new(10, 20, 30),
            Rgb24::new(40, 50, 60),
            Rgb24::new(70, 80, 90),
            Rgb24::new(200, 210, 220)
        ]
    );

    // The transparent pixel falls below a positive alpha threshold.
    let colors = decode_to_rgb24(&bytes, 1).unwrap();
    assert_eq!(
        colors,
        vec![
            Rgb24::new(10, 20, 30),
            Rgb24::new(40, 50, 60),
            Rgb24::new(200, 210, 220)
        ]
    );
}

#[test]
fn undecodable_bytes_yield_nothing() {
    let garbage = vec![0u8, 1, 2, 3, 4, 5, 6, 7];
    assert!(decode_to_rgb24(&garbage, 0).is_none());
    assert!(decode_to_rgb24(&Vec::new(), 0).is_none());
}
