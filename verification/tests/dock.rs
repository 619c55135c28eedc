use egui_dock::{NodeIndex, TabIndex, Tree};
use space_views::dock::{first_tab, focus_tab, num_tabs};
use space_views::layout::{layout_spaces, Canvas, LayoutSplit};
use space_views::panel::SpaceMakeInfo;
use space_views::path::{ObjPath, PathComp};
use space_views::space_view_id::SpaceViewId;

fn id(n: u128) -> SpaceViewId {
    SpaceViewId(n)
}

/// Root split left-right: the left leaf holds 1 and 2, the right one is split
/// again into a leaf with 3 above a leaf with 4 and 5.
fn sample_tree() -> Tree<SpaceViewId> {
    let mut tree = Tree::new(vec![id(1), id(2)]);
    let [_left, right] = tree.split_right(NodeIndex::root(), 0.5, vec![id(3)]);
    tree.split_below(right, 0.5, vec![id(4), id(5)]);
    tree
}

#[test]
fn num_tabs_counts_all_leaves() {
    assert_eq!(num_tabs(&Tree::new(vec![])), 0);
    assert_eq!(num_tabs(&Tree::new(vec![id(1)])), 1);
    let tree = sample_tree();
    assert_eq!(num_tabs(&tree), 5);
    assert_eq!(num_tabs(&tree), tree.num_tabs());
    let empty: Tree<SpaceViewId> = Tree::default();
    assert_eq!(num_tabs(&empty), 0);
}

#[test]
fn first_tab_is_that_of_the_first_leaf_in_node_order() {
    assert_eq!(first_tab(&Tree::new(vec![])), None);
    assert_eq!(first_tab(&Tree::new(vec![id(9), id(8)])), Some(id(9)));
    // The nodes are: split, leaf [1, 2], split, (empty, empty), leaf [3],
    // leaf [4, 5].
    assert_eq!(first_tab(&sample_tree()), Some(id(1)));
    // After a split above, the new leaf is the right child in node order.
    let mut tree = Tree::new(vec![id(1)]);
    tree.split_above(NodeIndex::root(), 0.5, vec![id(2)]);
    assert_eq!(first_tab(&tree), Some(id(2)));
    let empty: Tree<SpaceViewId> = Tree::default();
    assert_eq!(first_tab(&empty), None);
}

#[test]
fn focus_tab_focuses_the_leaf_and_activates_the_tab() {
    let mut tree = sample_tree();
    focus_tab(&mut tree, &id(5));
    let (node, tab) = tree.find_tab(&id(5)).unwrap();
    assert_eq!(tab, TabIndex(1));
    assert_eq!(tree.focused_leaf(), Some(node));
    assert_eq!(tree.leaf(node).unwrap().active, TabIndex(1));
    assert_eq!(num_tabs(&tree), 5);

    focus_tab(&mut tree, &id(2));
    let (node, tab) = tree.find_tab(&id(2)).unwrap();
    assert_eq!(tab, TabIndex(1));
    assert_eq!(tree.focused_leaf(), Some(node));
    assert_eq!(tree.leaf(node).unwrap().active, TabIndex(1));
    // The leaf of 5 keeps its active tab.
    let (other, _) = tree.find_tab(&id(5)).unwrap();
    assert_eq!(tree.leaf(other).unwrap().active, TabIndex(1));
}

#[test]
fn focus_tab_leaves_a_tree_without_the_tab_alone() {
    let mut tree = sample_tree();
    focus_tab(&mut tree, &id(3));
    let focused = tree.focused_leaf();
    focus_tab(&mut tree, &id(77));
    assert_eq!(tree.focused_leaf(), focused);
    assert_eq!(num_tabs(&tree), 5);
    assert_eq!(first_tab(&tree), Some(id(1)));
}

/// Builds the dock tree of a layout: every node starts with the first panel
/// of its part and is split until each leaf holds one panel.
fn dock_tree(split: &LayoutSplit) -> Tree<SpaceViewId> {
    fn fill(tree: &mut Tree<SpaceViewId>, node: NodeIndex, split: &LayoutSplit) {
        match split {
            LayoutSplit::LeftRight(a, t, b) => {
                let fraction = t.index as f32 / t.total as f32;
                let [old, new] = tree.split_right(node, fraction, vec![b.first_leaf().id]);
                fill(tree, old, a);
                fill(tree, new, b);
            }
            LayoutSplit::TopBottom(a, t, b) => {
                let fraction = t.index as f32 / t.total as f32;
                let [old, new] = tree.split_below(node, fraction, vec![b.first_leaf().id]);
                fill(tree, old, a);
                fill(tree, new, b);
            }
            LayoutSplit::Leaf(_) => {}
        }
    }
    let mut tree = Tree::new(vec![split.first_leaf().id]);
    fill(&mut tree, NodeIndex::root(), split);
    tree
}

#[test]
fn a_layout_becomes_a_dock_tree_with_the_same_tabs() {
    let panels: Vec<SpaceMakeInfo> = ["/a/x", "/a/y", "/b", "/c/d", "/c/e", "/c/f", "/g"]
        .iter()
        .enumerate()
        .map(|(i, p)| SpaceMakeInfo {
            id: id(i as u128 + 1),
            path: ObjPath::new(p.split('/').filter(|n| !n.is_empty()).map(PathComp::from_str).collect()),
            size2d: None,
        })
        .collect();
    let layout = layout_spaces(Canvas::new(1920, 1080), panels);
    let tree = dock_tree(&layout);
    assert_eq!(num_tabs(&tree), layout.leaf_count());
    assert_eq!(num_tabs(&tree), 7);
    let mut tabs: Vec<SpaceViewId> = tree.tabs().copied().collect();
    tabs.sort();
    let mut leaves = layout.leaf_ids();
    leaves.sort();
    assert_eq!(tabs, leaves);
    for leaf in layout.leaf_ids() {
        let (node, tab) = tree.find_tab(&leaf).unwrap();
        assert_eq!(tab, TabIndex(0));
        assert_eq!(tree.leaf(node).unwrap().tabs.len(), 1);
    }
    assert!(first_tab(&tree).is_some());
}
