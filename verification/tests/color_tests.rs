use paletter::color::Hsv;
use paletter::color::RGBChannel;
use paletter::color::Rgb24;

#[test]
fn max_channel_delta() {
    let colors = vec![
        Rgb24::new(89, 226, 133),
        Rgb24::new(124, 168, 127),
        Rgb24::new(193, 63, 57),
        Rgb24::new(161, 246, 173),
        Rgb24::new(87, 168, 222),
        Rgb24::new(226, 51, 166),
        Rgb24::new(46, 185, 177),
    ];

    assert_eq!(Rgb24::max_channel_delta(&colors), (RGBChannel::Green, 195));

    let colors = vec![
        Rgb24::new(89, 226, 133),
        Rgb24::new(188, 71, 241),
        Rgb24::new(241, 252, 78),
        Rgb24::new(87, 168, 222),
        Rgb24::new(226, 51, 166),
        Rgb24::new(46, 185, 177),
        Rgb24::new(6, 158, 1),
        Rgb24::new(214, 187, 235),
        Rgb24::new(66, 153, 255),
        Rgb24::new(162, 104, 164),
        Rgb24::new(124, 168, 127),
        Rgb24::new(193, 63, 57),
        Rgb24::new(161, 246, 173),
        Rgb24::new(86, 110, 209),
        Rgb24::new(7, 118, 33),
        Rgb24::new(212, 183, 182),
        Rgb24::new(152, 187, 115),
        Rgb24::new(29, 214, 37),
        Rgb24::new(14, 125, 147),
        Rgb24::new(224, 141, 239),
    ];

    assert_eq!(Rgb24::max_channel_delta(&colors), (RGBChannel::Blue, 254));
}

#[test]
fn average() {
    let colors = vec![
        Rgb24::new(216, 126, 83),
        Rgb24::new(87, 73, 32),
        Rgb24::new(48, 84, 50),
        Rgb24::new(80, 92, 233),
        Rgb24::new(42, 166, 15),
        Rgb24::new(57, 177, 182),
        Rgb24::new(238, 15, 176),
    ];

    assert_eq!(Rgb24::average(&colors), Rgb24::new(110, 105, 110));

    let colors = vec![
        Rgb24::new(80, 92, 233),
        Rgb24::new(42, 166, 15),
        Rgb24::new(57, 177, 182),
        Rgb24::new(160, 251, 201),
        Rgb24::new(93, 47, 225),
        Rgb24::new(78, 231, 132),
        Rgb24::new(55, 212, 194),
        Rgb24::new(238, 15, 176),
        Rgb24::new(118, 136, 206),
        Rgb24::new(52, 114, 141),
        Rgb24::new(216, 126, 83),
        Rgb24::new(87, 73, 32),
        Rgb24::new(48, 84, 50),
        Rgb24::new(140, 21, 246),
        Rgb24::new(125, 53, 60),
        Rgb24::new(44, 37, 23),
        Rgb24::new(246, 198, 85),
        Rgb24::new(171, 119, 34),
        Rgb24::new(96, 140, 65),
        Rgb24::new(130, 251, 129),
    ];

    assert_eq!(Rgb24::average(&colors), Rgb24::new(114, 127, 126));
}

#[test]
fn make_hsv() {
    let color = Rgb24::new(2, 117, 186);
    let hsv = Hsv::new(101, 99, 73);
    assert_eq!(hsv, color.make_hsv());

    let color = Rgb24::new(106, 152, 243);
    let hsv = Hsv::new(110, 56, 95);
    assert_eq!(hsv, color.make_hsv());

    let color = Rgb24::new(145, 34, 121);
    let hsv = Hsv::new(156, 77, 57);
    assert_eq!(hsv, color.make_hsv());

    let color = Rgb24::new(204, 114, 97);
    let hsv = Hsv::new(5, 52, 80);
    assert_eq!(hsv, color.make_hsv());

    let color = Rgb24::new(110, 181, 114);
    let hsv = Hsv::new(62, 39, 71);
    assert_eq!(hsv, color.make_hsv());
}

#[test]
fn level_handle() {
    let color = Rgb24::new(73, 153, 101);
    // 0b01001001
    // 0b10011001
    // 0b01100101

    assert_eq!(color.level_index(0), 2);
    assert_eq!(color.level_index(1), 5);
    assert_eq!(color.level_index(2), 1);
    assert_eq!(color.level_index(3), 2);
    assert_eq!(color.level_index(4), 6);
    assert_eq!(color.level_index(5), 1);
    assert_eq!(color.level_index(6), 0);
    assert_eq!(color.level_index(7), 7);
}

#[test]
fn max_channel_delta_single_color_ties_to_blue() {
    assert_eq!(
        Rgb24::max_channel_delta(&[Rgb24::new(73, 153, 101)]),
        (RGBChannel::Blue, 0)
    );
    assert_eq!(Rgb24::max_channel_delta(&[Rgb24::new(0, 0, 0)]), (RGBChannel::Blue, 0));
    assert_eq!(
        Rgb24::max_channel_delta(&[Rgb24::new(255, 255, 255)]),
        (RGBChannel::Blue, 0)
    );
}

#[test]
fn level_indices_identify_the_color() {
    let a = Rgb24::new(73, 153, 101);
    let b = Rgb24::new(73, 153, 100);
    let c = Rgb24::new(201, 153, 101);
    let differs = |x: Rgb24, y: Rgb24| (0..8).any(|l| x.level_index(l) != y.level_index(l));
    assert!(differs(a, b));
    assert!(differs(a, c));
    assert!(differs(b, c));
    assert!(!differs(a, Rgb24::new(73, 153, 101)));
}

#[test]
fn to_hex_string_is_uppercase_and_padded() {
    assert_eq!(Rgb24::new(15, 163, 200).to_hex_string(), "#0FA3C8");
    assert_eq!(Rgb24::new(0, 0, 0).to_hex_string(), "#000000");
    assert_eq!(Rgb24::new(255, 255, 255).to_hex_string(), "#FFFFFF");
}

#[test]
fn channel_to_usize() {
    assert_eq!(RGBChannel::Red.to_usize(), 0);
    assert_eq!(RGBChannel::Green.to_usize(), 1);
    assert_eq!(RGBChannel::Blue.to_usize(), 2);
}

#[test]
fn min_max_are_channel_wise() {
    let a = Rgb24::new(10, 200, 30);
    let b = Rgb24::new(20, 100, 30);
    assert_eq!(Rgb24::min(&a, &b), Rgb24::new(10, 100, 30));
    assert_eq!(Rgb24::max(&a, &b), Rgb24::new(20, 200, 30));
}

#[test]
fn radix_sort_is_stable_by_channel() {
    let mut colors = vec![
        Rgb24::new(5, 1, 0),
        Rgb24::new(3, 2, 0),
        Rgb24::new(5, 3, 0),
        Rgb24::new(1, 4, 0),
        Rgb24::new(3, 5, 0),
    ];
    let n = colors.len();
    Rgb24::radix_sort(&mut colors, RGBChannel::Red, 0, n);
    let expected = vec![
        Rgb24::new(1, 4, 0),
        Rgb24::new(3, 2, 0),
        Rgb24::new(3, 5, 0),
        Rgb24::new(5, 1, 0),
        Rgb24::new(5, 3, 0),
    ];
    assert_eq!(colors, expected);

    // Only the requested range is sorted.
    let mut colors = vec![Rgb24::new(9, 0, 0), Rgb24::new(2, 0, 0), Rgb24::new(1, 0, 0)];
    Rgb24::radix_sort(&mut colors, RGBChannel::Red, 1, 3);
    assert_eq!(
        colors,
        vec![Rgb24::new(9, 0, 0), Rgb24::new(1, 0, 0), Rgb24::new(2, 0, 0)]
    );
}

#[test]
fn hsv_order_on_triples() {
    let x = Rgb24::new(2, 117, 186);
    let y = Rgb24::new(204, 114, 97);
    // y projects to hue 5, x to hue 101, so y sorts first.
    assert!(paletter::color::le_by_hsv(&y, &x));
    assert!(!paletter::color::le_by_hsv(&x, &y));
    // Reflexive on equal triples.
    assert!(paletter::color::le_by_hsv(&x, &x));
}

#[test]
fn distinct_colors_with_one_projection_compare_equal() {
    // Black and the darkest grey both project to HSV (0, 0, 0).
    let a = Rgb24::new(0, 0, 0);
    let b = Rgb24::new(1, 1, 1);
    assert_ne!(a, b);
    assert_eq!(a.make_hsv(), b.make_hsv());
    assert!(paletter::color::le_by_hsv(&a, &b));
    assert!(paletter::color::le_by_hsv(&b, &a));
}

#[test]
fn sort_by_hsv_sorts_and_keeps_the_colors() {
    let mut palette = vec![
        Rgb24::new(204, 114, 97),
        Rgb24::new(2, 117, 186),
        Rgb24::new(110, 181, 114),
        Rgb24::new(145, 34, 121),
    ];
    paletter::color::sort_by_hsv(&mut palette);
    // Hues: 5, 62, 101, 156.
    let expected = vec![
        Rgb24::new(204, 114, 97),
        Rgb24::new(110, 181, 114),
        Rgb24::new(2, 117, 186),
        Rgb24::new(145, 34, 121),
    ];
    assert_eq!(palette, expected);
}

#[test]
fn sort_by_hsv_is_stable() {
    // Black and the darkest grey share one HSV triple; the sort must keep
    // their input order.
    let mut palette = vec![Rgb24::new(1, 1, 1), Rgb24::new(204, 114, 97), Rgb24::new(0, 0, 0)];
    paletter::color::sort_by_hsv(&mut palette);
    assert_eq!(
        palette,
        vec![Rgb24::new(1, 1, 1), Rgb24::new(0, 0, 0), Rgb24::new(204, 114, 97)]
    );
}
