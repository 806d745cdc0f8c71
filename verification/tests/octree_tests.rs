use paletter::color::Rgb24;
use paletter::octree::octree;
use paletter::octree::Octant;
use paletter::octree::Octree;
use paletter::octree::EMPTY;

#[test]
fn octree_solve() {
    let data = vec![
        Rgb24::new(0, 0, 0),
        Rgb24::new(53, 52, 12),
        Rgb24::new(201, 210, 204),
        Rgb24::new(55, 51, 13),
        Rgb24::new(221, 210, 204),
        Rgb24::new(201, 223, 199),
        Rgb24::new(201, 102, 204),
        Rgb24::new(23, 56, 124),
        Rgb24::new(43, 126, 241),
        Rgb24::new(24, 16, 123),
        Rgb24::new(23, 55, 101),
        Rgb24::new(2, 15, 0),
        Rgb24::new(2, 102, 150),
        Rgb24::new(200, 201, 201),
        Rgb24::new(100, 100, 100),
        Rgb24::new(0, 0, 200),
        Rgb24::new(255, 255, 255),
    ];

    let palette = octree(&data, 1);
    let expected = vec![
        Rgb24::new(35, 43, 59),
        Rgb24::new(215, 219, 212),
        Rgb24::new(201, 102, 204),
        Rgb24::new(15, 76, 197),
    ];
    assert_eq!(palette, expected);
    let palette = octree(&data, 2);
    assert_eq!(palette, expected);
    let palette = octree(&data, 3);
    assert_eq!(palette, expected);
    let palette = octree(&data, 4);
    assert_eq!(palette, expected);

    let palette = octree(&data, 5);
    let expected = vec![
        Rgb24::new(35, 43, 59),
        Rgb24::new(215, 219, 212),
        Rgb24::new(201, 102, 204),
        Rgb24::new(43, 126, 241),
        Rgb24::new(2, 102, 150),
        Rgb24::new(0, 0, 200),
    ];
    assert_eq!(palette, expected);
}

#[test]
fn octree_starts_with_the_root_branch() {
    let tree = Octree::new();
    assert_eq!(tree.len(), 1);
    assert!(!tree.is_empty());
}

#[test]
fn octree_never_grows_past_the_distinct_colors() {
    let data = vec![
        Rgb24::new(1, 2, 3),
        Rgb24::new(1, 2, 3),
        Rgb24::new(9, 9, 9),
        Rgb24::new(9, 9, 9),
        Rgb24::new(200, 0, 0),
    ];
    // Three distinct colors: for any size the palette holds at most three.
    for k in 1..=6 {
        let palette = octree(&data, k);
        assert!(1 <= palette.len() && palette.len() <= 3);
    }
    // With room for every distinct color, the palette is their exact set.
    let palette = octree(&data, 3);
    assert_eq!(
        palette,
        vec![Rgb24::new(1, 2, 3), Rgb24::new(9, 9, 9), Rgb24::new(200, 0, 0)]
    );
}

#[test]
fn octant_children_are_set_and_counted() {
    let mut o = Octant::new_branch();
    assert_eq!(o.child_count(), 0);
    assert!(!o.child_exists(3));
    o.set_child(3, 42);
    assert!(o.child_exists(3));
    assert_eq!(o.child(3), Some(42));
    assert_eq!(o.child(0), Some(EMPTY));
    o.set_child(5, 7);
    assert_eq!(o.child_count(), 2);

    let mut leaf = Octant::new_leaf(1, 10, 20, 30);
    assert_eq!(leaf.child(3), None);
    assert!(!leaf.child_exists(3));
    leaf.set_child(3, 42);
    assert_eq!(leaf.child_count(), 0);
}

#[test]
fn octant_accumulates_and_averages() {
    let mut leaf = Octant::new_leaf(1, 10, 20, 30);
    leaf.add_color(&Rgb24::new(20, 40, 61));
    assert_eq!(leaf.make_rgb24(), Some(Rgb24::new(15, 30, 45)));

    let mut branch = Octant::new_branch();
    branch.add_color(&Rgb24::new(20, 40, 61));
    assert_eq!(branch.make_rgb24(), None);

    let erased = Octant::new_leaf(0, 0, 0, 0);
    assert_eq!(erased.make_rgb24(), None);
}

#[test]
fn octree_build_then_reduce_to_one_prefix_group() {
    // Two colors in one octant path prefix and one far away.
    let data = vec![Rgb24::new(10, 10, 10), Rgb24::new(10, 10, 11), Rgb24::new(250, 250, 250)];
    let mut tree = Octree::new();
    tree.build(&data);
    let palette = tree.into_palette(2);
    assert_eq!(palette, vec![Rgb24::new(10, 10, 10), Rgb24::new(250, 250, 250)]);
}
