use paletter::color::RGBChannel;
use paletter::color::Rgb24;
use paletter::solve;
use paletter::Method;

fn fixture() -> Vec<Rgb24> {
    vec![
        Rgb24::new(254, 182, 47),
        Rgb24::new(147, 190, 63),
        Rgb24::new(144, 129, 150),
        Rgb24::new(247, 200, 162),
        Rgb24::new(209, 78, 31),
        Rgb24::new(205, 70, 224),
        Rgb24::new(169, 152, 157),
        Rgb24::new(5, 13, 222),
        Rgb24::new(78, 208, 20),
        Rgb24::new(98, 205, 81),
        Rgb24::new(196, 126, 248),
        Rgb24::new(240, 61, 100),
        Rgb24::new(85, 254, 97),
        Rgb24::new(191, 236, 235),
        Rgb24::new(47, 56, 6),
        Rgb24::new(81, 67, 179),
        Rgb24::new(172, 69, 24),
        Rgb24::new(181, 63, 74),
        Rgb24::new(95, 229, 108),
        Rgb24::new(154, 248, 89),
    ]
}

fn palette_of_8() -> Vec<Rgb24> {
    vec![
        Rgb24::new(47, 56, 6),
        Rgb24::new(147, 190, 63),
        Rgb24::new(5, 13, 222),
        Rgb24::new(113, 98, 165),
        Rgb24::new(102, 229, 79),
        Rgb24::new(211, 91, 55),
        Rgb24::new(201, 98, 236),
        Rgb24::new(202, 196, 185),
    ]
}

fn palette_of_16() -> Vec<Rgb24> {
    vec![
        Rgb24::new(47, 56, 6),
        Rgb24::new(147, 190, 63),
        Rgb24::new(5, 13, 222),
        Rgb24::new(81, 67, 179),
        Rgb24::new(144, 129, 150),
        Rgb24::new(88, 207, 51),
        Rgb24::new(85, 254, 97),
        Rgb24::new(125, 239, 99),
        Rgb24::new(211, 62, 87),
        Rgb24::new(172, 69, 24),
        Rgb24::new(209, 78, 31),
        Rgb24::new(254, 182, 47),
        Rgb24::new(201, 98, 236),
        Rgb24::new(169, 152, 157),
        Rgb24::new(247, 200, 162),
        Rgb24::new(191, 236, 235),
    ]
}

#[test]
fn median_cut_median_cut() {
    let colors = fixture();
    assert_eq!(palette_of_8(), paletter::median_cut::median_cut(colors.to_vec(), 8));
    assert_eq!(palette_of_16(), paletter::median_cut::median_cut(colors.to_vec(), 16));
}

#[test]
fn quantize_median_cut() {
    let colors = fixture();
    assert_eq!(palette_of_8(), paletter::quantize::median_cut(colors.to_vec(), 8));
    assert_eq!(palette_of_16(), paletter::quantize::median_cut(colors.to_vec(), 16));
}

#[test]
fn solve_median_cut_yields_requested_size() {
    for k in 1..=20 {
        let palette = solve(Method::MedianCut, fixture(), k);
        assert_eq!(palette.len(), k.min(20));
    }
}

#[test]
fn solve_returns_input_when_palette_has_room() {
    let colors = fixture();
    assert_eq!(solve(Method::MedianCut, colors.to_vec(), 20), colors);
    assert_eq!(solve(Method::MedianCut, colors.to_vec(), 50), colors);
    assert_eq!(solve(Method::Octree, colors.to_vec(), 20), colors);
    assert_eq!(paletter::quantize::median_cut(colors.to_vec(), 20), colors);
}

#[test]
fn median_cut_palette_stays_in_hull() {
    let colors = fixture();
    let mut lo = [255u8; 3];
    let mut hi = [0u8; 3];
    for c in &colors {
        let ch = [c.r(), c.g(), c.b()];
        for i in 0..3 {
            lo[i] = lo[i].min(ch[i]);
            hi[i] = hi[i].max(ch[i]);
        }
    }
    for k in [1, 3, 8, 16] {
        for c in solve(Method::MedianCut, colors.to_vec(), k) {
            let ch = [c.r(), c.g(), c.b()];
            for i in 0..3 {
                assert!(lo[i] <= ch[i] && ch[i] <= hi[i]);
            }
        }
    }
}

#[test]
fn median_cut_is_permutation_invariant_on_tie_free_input() {
    let colors = fixture();
    let mut permuted = colors.to_vec();
    permuted.reverse();
    permuted.swap(0, 7);
    permuted.swap(3, 11);
    assert_eq!(
        paletter::median_cut::median_cut(colors, 8),
        paletter::median_cut::median_cut(permuted, 8)
    );
}

#[test]
fn single_bucket_is_overall_average() {
    let colors = vec![
        Rgb24::new(216, 126, 83),
        Rgb24::new(87, 73, 32),
        Rgb24::new(48, 84, 50),
        Rgb24::new(80, 92, 233),
        Rgb24::new(42, 166, 15),
        Rgb24::new(57, 177, 182),
        Rgb24::new(238, 15, 176),
    ];
    let mean = Rgb24::average(&colors);
    assert_eq!(paletter::median_cut::median_cut(colors, 1), vec![mean]);
    assert_eq!(mean, Rgb24::new(110, 105, 110));
}

#[test]
fn uniform_input_gives_copies_of_the_color() {
    let c = Rgb24::new(12, 200, 99);
    let colors = vec![c; 8];
    assert_eq!(
        paletter::median_cut::median_cut(colors.to_vec(), 3),
        vec![c, c, c]
    );
    assert_eq!(paletter::octree::octree(&colors, 4), vec![c]);
}

#[test]
fn uniform_input_with_a_tight_palette_pads_with_black() {
    // Five copies cannot be split four ways at midpoints without leaving an
    // empty bucket; the empty bucket emits black.
    let c = Rgb24::new(12, 200, 99);
    assert_eq!(
        paletter::median_cut::median_cut(vec![c; 5], 4),
        vec![Rgb24::new(0, 0, 0), c, c, c]
    );
}

#[test]
fn bucket_new_keeps_its_fields() {
    let b = paletter::median_cut::Bucket::new(4, RGBChannel::Green, 17);
    assert_eq!(b.offset, 4);
    assert_eq!(b.delta, 17);
    assert!(matches!(b.channel, RGBChannel::Green));
    let b = paletter::quantize::Bucket::new(9, RGBChannel::Red, 3);
    assert_eq!(b.offset, 9);
    assert_eq!(b.delta, 3);
    assert!(matches!(b.channel, RGBChannel::Red));
}
