use space_views::grouping::{compare_keys, group_by_path_prefix, longest_path};
use space_views::layout::{
    desired_aspect_ratio, is_wider_than, layout_spaces, split_spaces_at, Canvas, LayoutSplit, Ratio,
    SplitFraction,
};
use space_views::natural::Natural;
use space_views::panel::{copy_range, Size2, SpaceMakeInfo};
use space_views::path::{ObjPath, Order, PathComp};
use space_views::space_view_id::SpaceViewId;

fn path(text: &str) -> ObjPath {
    let mut components = Vec::new();
    for name in text.split('/') {
        if !name.is_empty() {
            components.push(PathComp::from_str(name));
        }
    }
    ObjPath::new(components)
}

fn panel3d(id: u128, p: &str) -> SpaceMakeInfo {
    SpaceMakeInfo { id: SpaceViewId(id), path: path(p), size2d: None }
}

fn panel2d(id: u128, p: &str, width: u32, height: u32) -> SpaceMakeInfo {
    SpaceMakeInfo { id: SpaceViewId(id), path: path(p), size2d: Some(Size2 { width, height }) }
}

fn canvas(width: u64, height: u64) -> Canvas {
    Canvas::new(width, height)
}

fn number(x: u64) -> Natural {
    Natural::from_u64(x)
}

fn ratio(num: u64, den: u64) -> Ratio {
    Ratio { num: number(num), den: number(den) }
}

/// Whether the ratio is exactly the fraction `num / den` as written, not
/// only equal to it in value.
fn is_fraction(r: &Option<Ratio>, num: u64, den: u64) -> bool {
    match r {
        Some(r) => r.num.equals(&number(num)) && r.den.equals(&number(den)),
        None => false,
    }
}

/// Writes a layout as text: `7` for a leaf with id 7, `LR(1/3)[..|..]` and
/// `TB(1/3)[..|..]` for splits.
fn show(layout: &LayoutSplit) -> String {
    match layout {
        LayoutSplit::Leaf(info) => format!("{}", info.id.0),
        LayoutSplit::LeftRight(a, t, b) => {
            format!("LR({}/{})[{}|{}]", t.index, t.total, show(a), show(b))
        }
        LayoutSplit::TopBottom(a, t, b) => {
            format!("TB({}/{})[{}|{}]", t.index, t.total, show(a), show(b))
        }
    }
}

/// The same, with every leaf written as `_`.
fn shape(layout: &LayoutSplit) -> String {
    match layout {
        LayoutSplit::Leaf(_) => "_".to_string(),
        LayoutSplit::LeftRight(a, t, b) => {
            format!("LR({}/{})[{}|{}]", t.index, t.total, shape(a), shape(b))
        }
        LayoutSplit::TopBottom(a, t, b) => {
            format!("TB({}/{})[{}|{}]", t.index, t.total, shape(a), shape(b))
        }
    }
}

fn ids(groups: &[Vec<SpaceMakeInfo>]) -> Vec<Vec<u128>> {
    groups.iter().map(|g| g.iter().map(|s| s.id.0).collect()).collect()
}

#[test]
fn one_panel_is_a_leaf() {
    let layout = layout_spaces(canvas(800, 600), vec![panel3d(5, "/world")]);
    assert_eq!(show(&layout), "5");
    assert_eq!(layout.leaf_count(), 1);
    assert_eq!(layout.first_leaf().id, SpaceViewId(5));
}

#[test]
fn tie_of_aspect_ratios_splits_top_bottom() {
    let layout =
        layout_spaces(canvas(1600, 900), vec![panel3d(1, "/world/a"), panel3d(2, "/world/b")]);
    assert_eq!(show(&layout), "TB(1/2)[1|2]");
    assert!(matches!(layout, LayoutSplit::TopBottom(..)));
}

#[test]
fn wider_canvas_splits_left_right() {
    let layout =
        layout_spaces(canvas(1601, 900), vec![panel3d(1, "/world/a"), panel3d(2, "/world/b")]);
    assert_eq!(show(&layout), "LR(1/2)[1|2]");
}

#[test]
fn narrower_canvas_splits_top_bottom() {
    let layout =
        layout_spaces(canvas(1599, 900), vec![panel3d(1, "/world/a"), panel3d(2, "/world/b")]);
    assert_eq!(show(&layout), "TB(1/2)[1|2]");
}

#[test]
fn canvas_without_height_splits_left_right() {
    let layout = layout_spaces(canvas(10, 0), vec![panel3d(1, "/a"), panel3d(2, "/b")]);
    assert_eq!(show(&layout), "LR(1/2)[1|2]");
    let layout = layout_spaces(canvas(0, 0), vec![panel3d(1, "/a"), panel3d(2, "/b")]);
    assert_eq!(show(&layout), "TB(1/2)[1|2]");
}

#[test]
fn kinds_are_kept_apart() {
    let layout = layout_spaces(
        canvas(1920, 1080),
        vec![
            panel2d(1, "/image/left", 640, 480),
            panel3d(2, "/world"),
            panel2d(3, "/image/right", 640, 480),
            panel3d(4, "/other"),
        ],
    );
    // 1920/1080 against the mean of 640/480: wider, so left-right; the two
    // 3D panels first. Each half is half as wide: 960/1080 is narrower than
    // 16/9 and narrower than 4/3, so both halves split top-bottom.
    assert_eq!(show(&layout), "LR(2/4)[TB(1/2)[4|2]|TB(1/2)[1|3]]");
    let leaves = layout.leaf_ids();
    assert_eq!(leaves, vec![SpaceViewId(4), SpaceViewId(2), SpaceViewId(1), SpaceViewId(3)]);
}

#[test]
fn layout_leaves_are_the_panels() {
    let panels = vec![
        panel3d(10, "/a/x"),
        panel3d(11, "/b/y"),
        panel3d(12, "/a/z"),
        panel3d(13, "/c"),
        panel3d(14, "/b/w"),
    ];
    let layout = layout_spaces(canvas(1000, 1000), panels);
    let mut leaves: Vec<u128> = layout.leaf_ids().iter().map(|id| id.0).collect();
    assert_eq!(layout.leaf_count(), 5);
    leaves.sort();
    assert_eq!(leaves, vec![10, 11, 12, 13, 14]);
}

#[test]
fn panels_with_a_common_prefix_stay_together() {
    let layout = layout_spaces(
        canvas(2000, 1000),
        vec![panel3d(1, "/b/z"), panel3d(2, "/a/x"), panel3d(3, "/a/y")],
    );
    // Groups at depth 0: a = [2, 3], b = [1]; boundaries 2 and 3; 2 of 3 is
    // nearest to the middle. 2000/1000 is wider than 16/9: left-right. The
    // left part is 1333 wide, narrower than 16/9 for a height of 1000.
    assert_eq!(show(&layout), "LR(2/3)[TB(1/2)[2|3]|1]");
}

#[test]
fn split_is_the_group_boundary_nearest_to_the_middle() {
    // Sizes 1 and 3: boundaries 1 and 4 of 4. The canvas shrinks to 100 by
    // 75 and then to 100 by 50, which is wider than 16/9.
    let layout = layout_spaces(
        canvas(100, 100),
        vec![panel3d(1, "/b/p"), panel3d(2, "/b/q"), panel3d(3, "/a"), panel3d(4, "/b/r")],
    );
    assert_eq!(show(&layout), "TB(1/4)[3|TB(1/3)[1|LR(1/2)[2|4]]]");
    // Sizes 2, 2, 2: boundaries 2 and 4 are equally near; the earlier wins.
    let layout = layout_spaces(
        canvas(100, 100),
        vec![
            panel3d(1, "/a/p"),
            panel3d(2, "/b/p"),
            panel3d(3, "/c/p"),
            panel3d(4, "/a/q"),
            panel3d(5, "/b/q"),
            panel3d(6, "/c/q"),
        ],
    );
    assert_eq!(show(&layout), "TB(2/6)[LR(1/2)[1|4]|TB(2/4)[LR(1/2)[2|5]|LR(1/2)[3|6]]]");
}

#[test]
fn identical_paths_are_split_one_by_one() {
    let layout = layout_spaces(
        canvas(100, 100),
        vec![panel3d(1, "/w"), panel3d(2, "/w"), panel3d(3, "/w")],
    );
    // Every panel is its own group: boundaries 1, 2, 3 of 3; 1 and 2 are
    // equally near the middle, the earlier wins.
    assert_eq!(show(&layout), "TB(1/3)[1|TB(1/2)[2|3]]");
}

#[test]
fn shape_does_not_depend_on_the_order() {
    let make = |order: &[usize]| {
        let all = [
            ("/a/x", 1u128),
            ("/a/y", 2),
            ("/b", 3),
            ("/c/d/e", 4),
            ("/c/d/f", 5),
            ("/c/g", 6),
            ("/a/x", 7),
        ];
        order.iter().map(|&i| panel3d(all[i].1, all[i].0)).collect::<Vec<_>>()
    };
    let first = layout_spaces(canvas(1280, 720), make(&[0, 1, 2, 3, 4, 5, 6]));
    let second = layout_spaces(canvas(1280, 720), make(&[6, 5, 4, 3, 2, 1, 0]));
    let third = layout_spaces(canvas(1280, 720), make(&[3, 0, 6, 2, 5, 1, 4]));
    assert_eq!(shape(&first), shape(&second));
    assert_eq!(shape(&first), shape(&third));
    let sorted = |l: &LayoutSplit| {
        let mut v: Vec<u128> = l.leaf_ids().iter().map(|id| id.0).collect();
        v.sort();
        v
    };
    assert_eq!(sorted(&first), vec![1, 2, 3, 4, 5, 6, 7]);
    assert_eq!(sorted(&second), sorted(&first));
    assert_eq!(sorted(&third), sorted(&first));
}

#[test]
fn split_spaces_at_scales_the_canvas() {
    // 3000 wide at 1/3: the first part is 1000 wide and, at a height of
    // 1000, narrower than 16/9; the second is 2000 wide and wider.
    let layout = split_spaces_at(
        canvas(3000, 1000),
        vec![panel3d(1, "/a"), panel3d(2, "/b/x"), panel3d(3, "/b/y")],
        1,
    );
    assert_eq!(show(&layout), "LR(1/3)[1|LR(1/2)[2|3]]");
    // 1000 wide and 3000 high: top-bottom; the second part is 2000 high.
    let layout = split_spaces_at(
        canvas(1000, 3000),
        vec![panel3d(1, "/a"), panel3d(2, "/b/x"), panel3d(3, "/b/y")],
        1,
    );
    assert_eq!(show(&layout), "TB(1/3)[1|TB(1/2)[2|3]]");
    match layout {
        LayoutSplit::TopBottom(_, t, _) => assert_eq!(t, SplitFraction { index: 1, total: 3 }),
        _ => panic!("expected a top-bottom split"),
    }
}

#[test]
fn desired_aspect_ratio_is_the_exact_mean() {
    assert!(desired_aspect_ratio(&vec![]).is_none());
    assert!(desired_aspect_ratio(&vec![panel3d(1, "/a")]).is_none());
    assert!(is_fraction(&desired_aspect_ratio(&vec![panel2d(1, "/a", 1600, 900)]), 1600, 900));
    // 2/1 and 1/1: the sum is 15000/5000, the mean 15000/10000.
    assert!(is_fraction(
        &desired_aspect_ratio(&vec![
            panel2d(1, "/a", 200, 100),
            panel3d(2, "/b"),
            panel2d(3, "/c", 50, 50)
        ]),
        15000,
        10000
    ));
    // A size without height has no aspect ratio.
    assert!(desired_aspect_ratio(&vec![panel2d(1, "/a", 200, 0)]).is_none());
    assert!(is_fraction(
        &desired_aspect_ratio(&vec![panel2d(1, "/a", 200, 0), panel2d(2, "/b", 0, 10)]),
        0,
        10
    ));
    assert!(is_fraction(
        &desired_aspect_ratio(&vec![panel2d(1, "/a", u32::MAX, 1)]),
        4294967295,
        1
    ));
    // Three times 1/3 is a mean of 1/3, with nothing lost.
    let thirds = vec![panel2d(1, "/a", 1, 3), panel2d(2, "/b", 1, 3), panel2d(3, "/c", 1, 3)];
    let mean = desired_aspect_ratio(&thirds).unwrap();
    assert!(!is_wider_than(&canvas(1, 3), &mean));
    assert!(is_wider_than(&canvas(1_000_001, 3_000_000), &mean));
    assert!(!is_wider_than(&canvas(999_999, 3_000_000), &mean));
}

#[test]
fn a_canvas_shaped_like_the_content_is_a_tie() {
    let layout = split_spaces_at(
        canvas(100, 300),
        vec![panel2d(1, "/a", 100, 300), panel2d(2, "/b", 100, 300)],
        1,
    );
    assert_eq!(show(&layout), "TB(1/2)[1|2]");
    let layout = layout_spaces(
        canvas(1600, 900),
        vec![panel2d(1, "/a", 1600, 900), panel2d(2, "/b", 1600, 900)],
    );
    assert_eq!(show(&layout), "TB(1/2)[1|2]");
    // The least bit wider, and the split is left-right.
    let layout = layout_spaces(
        canvas(1601, 900),
        vec![panel2d(1, "/a", 1600, 900), panel2d(2, "/b", 1600, 900)],
    );
    assert_eq!(show(&layout), "LR(1/2)[1|2]");
}

#[test]
fn the_share_of_a_part_is_not_rounded() {
    // Half of 33 by 9 is 16.5 by 9, which is wider than 16 by 9.
    let layout = layout_spaces(
        canvas(33, 9),
        vec![panel3d(1, "/a/x"), panel3d(2, "/a/y"), panel3d(3, "/b/x"), panel3d(4, "/b/y")],
    );
    assert_eq!(show(&layout), "LR(2/4)[LR(1/2)[1|2]|LR(1/2)[3|4]]");
    // Half of 32 by 9 is 16 by 9: a tie.
    let layout = layout_spaces(
        canvas(32, 9),
        vec![panel3d(1, "/a/x"), panel3d(2, "/a/y"), panel3d(3, "/b/x"), panel3d(4, "/b/y")],
    );
    assert_eq!(show(&layout), "LR(2/4)[TB(1/2)[1|2]|TB(1/2)[3|4]]");
    let part = canvas(33, 9).first_part(true, 2, 4);
    assert!(part.width.equals(&number(66)) && part.height.equals(&number(36)));
    let part = canvas(33, 9).second_part(true, 1, 4);
    assert!(part.width.equals(&number(99)) && part.height.equals(&number(36)));
    let part = canvas(33, 9).first_part(false, 1, 4);
    assert!(part.width.equals(&number(132)) && part.height.equals(&number(9)));
    let part = canvas(33, 9).second_part(false, 1, 4);
    assert!(part.width.equals(&number(132)) && part.height.equals(&number(27)));
    let same = canvas(7, 5).duplicate();
    assert!(same.width.equals(&number(7)) && same.height.equals(&number(5)));
}

#[test]
fn many_large_sizes_are_compared_exactly() {
    // Forty images of four by three thousand million points: the products
    // of their heights have more than a thousand bits.
    let images: Vec<SpaceMakeInfo> =
        (0..40).map(|i| panel2d(i, "/image", 4_000_000_000, 3_000_000_000)).collect();
    let mean = desired_aspect_ratio(&images).unwrap();
    assert!(!is_wider_than(&canvas(4, 3), &mean));
    assert!(!is_wider_than(&canvas(3_999_999_999, 3_000_000_000), &mean));
    assert!(is_wider_than(&canvas(4_000_000_001, 3_000_000_000), &mean));
    let layout = layout_spaces(canvas(4, 3), images);
    assert!(matches!(layout, LayoutSplit::TopBottom(..)));
    assert_eq!(layout.leaf_count(), 40);
}

#[test]
fn canvas_from_binary_numbers() {
    // 1.5 by 0.75 is 3 * 2^-1 by 3 * 2^-2, that is 3 * 2 by 3.
    let shape = Canvas::with_binary_scale(3, 1, 3, 0);
    assert!(shape.width.equals(&number(6)) && shape.height.equals(&number(3)));
    assert!(is_wider_than(&shape, &ratio(16, 9)));
    let big = Canvas::with_binary_scale(1, 200, 1, 199);
    assert!(is_wider_than(&big, &ratio(16, 9)));
    assert!(!is_wider_than(&big, &ratio(2, 1)));
    let sized = Canvas::from_size(Size2 { width: 16, height: 9 });
    assert!(!is_wider_than(&sized, &ratio(16, 9)));
}

#[test]
fn natural_numbers_of_any_size() {
    let max = number(u64::MAX);
    // (B - 1)^2 + (B - 1) == (B - 1) * B, where B is 2^64.
    let left = max.times(&max).plus(&max);
    let right = max.times_small(1 << 32).times_small(1 << 32);
    assert!(left.equals(&right));
    assert!(!left.is_greater_than(&right));
    assert!(left.plus(&number(1)).is_greater_than(&right));
    assert!(right.is_greater_than(&max.times(&max)));
    assert!(number(0).times(&left).equals(&number(0)));
    assert!(left.times_small(0).equals(&number(0)));
    assert!(number(6).times(&number(7)).equals(&number(42)));
    assert!(number(u64::MAX).plus(&number(1)).is_greater_than(&number(u64::MAX)));
    assert!(!number(5).is_greater_than(&number(5)));
    assert!(number(5).duplicate().equals(&number(5)));
    // 3^100 computed in two ways.
    let mut by_small = number(1);
    for _ in 0..100 {
        by_small = by_small.times_small(3);
    }
    let mut fifty = number(1);
    for _ in 0..50 {
        fifty = fifty.times(&number(3));
    }
    assert!(fifty.times(&fifty).equals(&by_small));
    assert!(by_small.is_greater_than(&fifty));
}

#[test]
fn known_content_shape_decides_the_direction() {
    // Two square images on a canvas of 3 by 2: wider than 1/1.
    let layout = layout_spaces(
        canvas(300, 200),
        vec![panel2d(1, "/a", 100, 100), panel2d(2, "/b", 100, 100)],
    );
    assert_eq!(show(&layout), "LR(1/2)[1|2]");
    // Two wide images on the same canvas: not wider than 2/1.
    let layout = layout_spaces(
        canvas(300, 200),
        vec![panel2d(1, "/a", 200, 100), panel2d(2, "/b", 200, 100)],
    );
    assert_eq!(show(&layout), "TB(1/2)[1|2]");
}

#[test]
fn wider_than_compares_exactly() {
    assert!(!is_wider_than(&canvas(1600, 900), &ratio(16, 9)));
    assert!(is_wider_than(&canvas(1601, 900), &ratio(16, 9)));
    assert!(!is_wider_than(&canvas(1599, 900), &ratio(16, 9)));
    assert!(is_wider_than(&canvas(u64::MAX, 1), &ratio(u64::MAX - 1, 1)));
    assert!(!is_wider_than(&canvas(u64::MAX, 1), &ratio(u64::MAX, 1)));
    assert!(!is_wider_than(&canvas(1, u64::MAX), &ratio(u64::MAX, u64::MAX)));
    assert!(is_wider_than(&canvas(1, 0), &ratio(5, 1)));
    assert!(!is_wider_than(&canvas(0, 0), &ratio(5, 1)));
}

#[test]
fn groups_follow_the_first_differing_component() {
    let panels = vec![
        panel3d(1, "/world/b/x"),
        panel3d(2, "/world/a"),
        panel3d(3, "/world/b/y"),
        panel3d(4, "/world"),
        panel3d(5, "/world/a/z"),
    ];
    // All share `world`; at depth 1 the keys are: none, a, b.
    let groups = group_by_path_prefix(&panels);
    assert_eq!(ids(&groups), vec![vec![4], vec![2, 5], vec![1, 3]]);
}

#[test]
fn groups_of_few_or_equal_panels() {
    assert_eq!(ids(&group_by_path_prefix(&vec![])), vec![Vec::<u128>::new()]);
    assert_eq!(ids(&group_by_path_prefix(&vec![panel3d(1, "/a")])), vec![vec![1]]);
    let same = vec![panel3d(1, "/a/b"), panel3d(2, "/a/b"), panel3d(3, "/a/b")];
    assert_eq!(ids(&group_by_path_prefix(&same)), vec![vec![1], vec![2], vec![3]]);
    let roots = vec![panel3d(1, "/b"), panel3d(2, "/a"), panel3d(3, "/b")];
    assert_eq!(ids(&group_by_path_prefix(&roots)), vec![vec![2], vec![1, 3]]);
}

#[test]
fn keys_compare_with_missing_component_first() {
    let a = path("/x/a");
    let b = path("/x/b");
    let short = path("/x");
    assert_eq!(compare_keys(&a, &b, 0), Order::Equal);
    assert_eq!(compare_keys(&a, &b, 1), Order::Less);
    assert_eq!(compare_keys(&b, &a, 1), Order::Greater);
    assert_eq!(compare_keys(&short, &a, 1), Order::Less);
    assert_eq!(compare_keys(&a, &short, 1), Order::Greater);
    assert_eq!(compare_keys(&short, &short, 1), Order::Equal);
    assert_eq!(compare_keys(&a, &b, 2), Order::Equal);
    assert_eq!(longest_path(&vec![panel3d(1, "/a"), panel3d(2, "/a/b/c"), panel3d(3, "/d/e")]), 3);
    assert_eq!(longest_path(&vec![]), 0);
}

#[test]
fn leaf_accessors() {
    let layout = layout_spaces(
        canvas(2000, 1000),
        vec![panel3d(1, "/b/z"), panel3d(2, "/a/x"), panel3d(3, "/a/y")],
    );
    assert_eq!(layout.leaf_count(), 3);
    assert_eq!(layout.first_leaf().id, SpaceViewId(2));
    assert_eq!(layout.find_leaf(SpaceViewId(2)), Some(0));
    assert_eq!(layout.find_leaf(SpaceViewId(3)), Some(1));
    assert_eq!(layout.find_leaf(SpaceViewId(1)), Some(2));
    assert_eq!(layout.find_leaf(SpaceViewId(9)), None);
    let mut out = vec![SpaceViewId(0)];
    layout.collect_leaf_ids(&mut out);
    assert_eq!(out, vec![SpaceViewId(0), SpaceViewId(2), SpaceViewId(3), SpaceViewId(1)]);
}

#[test]
fn copy_range_copies_in_order() {
    let panels = vec![panel3d(1, "/a"), panel2d(2, "/b", 3, 4), panel3d(3, "/c")];
    let part = copy_range(&panels, 1, 3);
    assert_eq!(part.len(), 2);
    assert_eq!(part[0].id, SpaceViewId(2));
    assert_eq!(part[0].size2d, Some(Size2 { width: 3, height: 4 }));
    assert!(part[0].is_2d());
    assert!(!part[1].is_2d());
    assert!(copy_range(&panels, 2, 2).is_empty());
}

#[test]
fn random_ids_are_version_4_uuids() {
    let a = SpaceViewId::random();
    let b = SpaceViewId::random();
    let mask: u128 = 0x0000_0000_0000_f000_c000_0000_0000_0000;
    assert_eq!(a.as_u128() & mask, 0x0000_0000_0000_4000_8000_0000_0000_0000);
    assert_eq!(b.as_u128() & mask, 0x0000_0000_0000_4000_8000_0000_0000_0000);
    assert_ne!(a, b);
    assert_eq!(SpaceViewId::from_u128(7).as_u128(), 7);
}

#[test]
fn order_matters_only_where_one_space_has_content_of_two_sizes() {
    // Three views of the same space, one square and two wide. All paths are
    // the same, so the panels are split in the order given, and the second
    // part wants another shape depending on which panels it gets.
    let square = |id| panel2d(id, "/p", 100, 100);
    let wide = |id| panel2d(id, "/p", 400, 100);
    let first = layout_spaces(canvas(400, 200), vec![square(1), wide(2), wide(3)]);
    let second = layout_spaces(canvas(400, 200), vec![wide(2), wide(3), square(1)]);
    assert_eq!(shape(&first), "TB(1/3)[_|TB(1/2)[_|_]]");
    assert_eq!(shape(&second), "TB(1/3)[_|LR(1/2)[_|_]]");
    // With one size per space the order does not matter.
    let first = layout_spaces(canvas(400, 200), vec![wide(1), wide(2), wide(3)]);
    let second = layout_spaces(canvas(400, 200), vec![wide(3), wide(1), wide(2)]);
    assert_eq!(shape(&first), shape(&second));
}
