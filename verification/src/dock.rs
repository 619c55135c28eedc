//! Questions to a dock tree of space views.
//!
//! The dock tree is the one of the `egui_dock` crate, which draws the views
//! side by side and lets the user rearrange them. Nothing here is proved of
//! that crate: the functions marked as trusted state what its source shows.

use crate::space_view_id::SpaceViewId;
use egui_dock::Tree;
use vstd::prelude::*;

verus! {

/// `egui_dock::Tree`, a binary tree of nodes held in an array; its leaves
/// hold tabs. Opaque to the verifier.
#[verifier::external_type_specification]
#[verifier::external_body]
#[verifier::reject_recursive_types(Tab)]
pub struct ExTree<Tab>(egui_dock::Tree<Tab>);

/// The nodes of the tree in the order of `Tree::iter`: for a leaf its tabs,
/// and `None` for a node of any other kind.
pub uninterp spec fn dock_nodes(tree: Tree<SpaceViewId>) -> Seq<Option<Seq<SpaceViewId>>>;

/// The node that `Tree::focused_leaf` reports as focused, if any.
pub uninterp spec fn dock_focused(tree: Tree<SpaceViewId>) -> Option<usize>;

/// For each node of the tree, the index of its active tab.
pub uninterp spec fn dock_active(tree: Tree<SpaceViewId>) -> Seq<usize>;

/// The tabs of each node, as sequences.
pub open spec fn node_views(nodes: Seq<Option<Vec<SpaceViewId>>>) -> Seq<Option<Seq<SpaceViewId>>> {
    Seq::new(
        nodes.len(),
        |i: int|
            match nodes[i] {
                Some(tabs) => Some(tabs@),
                None => None,
            },
    )
}

/// Whether the tab is at position `t` of the leaf at node `n`.
pub open spec fn tab_at(nodes: Seq<Option<Seq<SpaceViewId>>>, tab: SpaceViewId, n: int, t: int) -> bool {
    &&& 0 <= n < nodes.len()
    &&& nodes[n].is_some()
    &&& 0 <= t < nodes[n].unwrap().len()
    &&& nodes[n].unwrap()[t] == tab
}

/// Whether `(n, t)` is the first place of the tab: no earlier node holds it,
/// and in node `n` no earlier position does.
pub open spec fn first_tab_place(nodes: Seq<Option<Seq<SpaceViewId>>>, tab: SpaceViewId, n: int, t: int) -> bool {
    &&& tab_at(nodes, tab, n, t)
    &&& forall|m: int, s: int| 0 <= m < n ==> !tab_at(nodes, tab, m, s)
    &&& forall|s: int| 0 <= s < t ==> !tab_at(nodes, tab, n, s)
}

/// Hands out the tabs of each node, by `Tree::iter` and `Node::tabs`.
///
/// Trusted: the result is `dock_nodes` by the meaning of that name, and the
/// two other names have one entry per node.
#[verifier::external_body]
pub(crate) fn dock_node_tabs(tree: &Tree<SpaceViewId>) -> (r: Vec<Option<Vec<SpaceViewId>>>)
    ensures
        node_views(r@) == dock_nodes(*tree),
        dock_active(*tree).len() == r@.len(),
{
    tree.iter().map(|node| node.tabs().map(|tabs| tabs.to_vec())).collect()
}

/// Looks for a tab with `Tree::find_tab`.
///
/// Trusted: `find_tab` walks the nodes in order and the tabs of each leaf in
/// order and returns the first place at which the tab is found.
#[verifier::external_body]
pub(crate) fn dock_find_tab(tree: &Tree<SpaceViewId>, tab: &SpaceViewId) -> (r: Option<(usize, usize)>)
    ensures
        match r {
            Some((n, t)) => first_tab_place(dock_nodes(*tree), *tab, n as int, t as int),
            None => forall|n: int, t: int| !tab_at(dock_nodes(*tree), *tab, n, t),
        },
{
    tree.find_tab(tab).map(|(node, tab)| (node.0, tab.0))
}

/// Moves the focus with `Tree::set_focused_node`.
///
/// Trusted: the focus goes to the node if it is a leaf and is removed
/// otherwise; tabs and active tabs stay as they are.
#[verifier::external_body]
pub(crate) fn dock_set_focused_node(tree: &mut Tree<SpaceViewId>, node: usize)
    ensures
        dock_nodes(*final(tree)) == dock_nodes(*old(tree)),
        dock_active(*final(tree)) == dock_active(*old(tree)),
        dock_focused(*final(tree)) == if node < dock_nodes(*old(tree)).len() && dock_nodes(
            *old(tree),
        )[node as int].is_some() {
            Some(node)
        } else {
            None
        },
{
    tree.set_focused_node(egui_dock::NodeIndex(node));
}

/// Makes a tab the active one of its node with `Tree::set_active_tab`, and
/// says whether that succeeded.
///
/// Trusted: it succeeds where the node is a leaf and has a tab at that
/// index, and then only the active tab of that node changes; otherwise
/// nothing changes.
#[verifier::external_body]
pub(crate) fn dock_set_active_tab(tree: &mut Tree<SpaceViewId>, node: usize, tab: usize) -> (r: bool)
    ensures
        dock_nodes(*final(tree)) == dock_nodes(*old(tree)),
        dock_focused(*final(tree)) == dock_focused(*old(tree)),
        r == (node < dock_nodes(*old(tree)).len() && dock_nodes(*old(tree))[node as int].is_some() && tab
            < dock_nodes(*old(tree))[node as int].unwrap().len()),
        dock_active(*final(tree)) == if r {
            dock_active(*old(tree)).update(node as int, tab)
        } else {
            dock_active(*old(tree))
        },
{
    tree.set_active_tab(egui_dock::NodeIndex(node), egui_dock::TabIndex(tab)).is_ok()
}

/// Number of tabs in the first `n` nodes.
pub open spec fn tabs_upto(nodes: Seq<Option<Seq<SpaceViewId>>>, n: int) -> nat
    decreases n,
{
    if n <= 0 {
        0
    } else {
        tabs_upto(nodes, n - 1) + match nodes[n - 1] {
            Some(tabs) => tabs.len(),
            None => 0,
        }
    }
}

/// Number of tabs in all leaves.
pub open spec fn total_tabs(nodes: Seq<Option<Seq<SpaceViewId>>>) -> nat {
    tabs_upto(nodes, nodes.len() as int)
}

/// The first tab of the first leaf that has one.
pub open spec fn first_tab_of(nodes: Seq<Option<Seq<SpaceViewId>>>, from: int) -> Option<SpaceViewId>
    decreases nodes.len() - from,
{
    if from < 0 || from >= nodes.len() {
        None
    } else if nodes[from].is_some() && nodes[from].unwrap().len() > 0 {
        Some(nodes[from].unwrap()[0])
    } else {
        first_tab_of(nodes, from + 1)
    }
}

proof fn lemma_tabs_upto_bound(nodes: Seq<Option<Vec<SpaceViewId>>>, n: int)
    requires
        0 <= n <= nodes.len(),
    ensures
        tabs_upto(node_views(nodes), n) <= n * usize::MAX,
    decreases n,
{
    if n > 0 {
        lemma_tabs_upto_bound(nodes, n - 1);
        assert((n - 1) * usize::MAX + usize::MAX == n * usize::MAX) by (nonlinear_arith);
        if nodes[n - 1].is_some() {
            let tabs = nodes[n - 1].unwrap();
            assert(node_views(nodes)[n - 1] == Some(tabs@));
            assert(tabs@.len() == tabs.len());
        }
    }
}

/// Counts the tabs of the tree. A count beyond the largest `usize` comes back
/// as the largest `usize`.
pub fn num_tabs(tree: &Tree<SpaceViewId>) -> (r: usize)
    ensures
        r == if total_tabs(dock_nodes(*tree)) <= usize::MAX {
            total_tabs(dock_nodes(*tree))
        } else {
            usize::MAX as nat
        },
{
    let nodes = dock_node_tabs(tree);
    let mut count: u128 = 0;
    let mut i: usize = 0;
    while i < nodes.len()
        invariant
            i <= nodes@.len(),
            count == tabs_upto(node_views(nodes@), i as int),
        decreases nodes@.len() - i,
    {
        proof {
            lemma_tabs_upto_bound(nodes@, i as int);
            assert(i * usize::MAX <= 0xffff_ffff_ffff_ffff * 0xffff_ffff_ffff_ffff) by (nonlinear_arith)
                requires
                    0 <= i <= 0xffff_ffff_ffff_ffff,
                    0 <= usize::MAX <= 0xffff_ffff_ffff_ffff,
            ;
        }
        assert(node_views(nodes@)[i as int] == match nodes@[i as int] {
            Some(tabs) => Some(tabs@),
            None => None,
        });
        match &nodes[i] {
            Some(tabs) => {
                count = count + tabs.len() as u128;
            },
            None => {},
        }
        i += 1;
    }
    if count <= usize::MAX as u128 {
        count as usize
    } else {
        usize::MAX
    }
}

/// The first tab of the tree: that of the first leaf, in the order of the
/// nodes, that has any.
pub fn first_tab(tree: &Tree<SpaceViewId>) -> (r: Option<SpaceViewId>)
    ensures
        r == first_tab_of(dock_nodes(*tree), 0),
{
    let nodes = dock_node_tabs(tree);
    let mut i: usize = 0;
    while i < nodes.len()
        invariant
            i <= nodes@.len(),
            node_views(nodes@) == dock_nodes(*tree),
            first_tab_of(node_views(nodes@), 0) == first_tab_of(node_views(nodes@), i as int),
        decreases nodes@.len() - i,
    {
        assert(node_views(nodes@)[i as int] == match nodes@[i as int] {
            Some(tabs) => Some(tabs@),
            None => None,
        });
        match &nodes[i] {
            Some(tabs) => {
                if tabs.len() > 0 {
                    return Some(tabs[0]);
                }
            },
            None => {},
        }
        i += 1;
    }
    None
}

/// Brings a tab to the front: its leaf gets the focus and the tab becomes the
/// active one of the leaf. A tree without the tab stays as it is.
pub fn focus_tab(tree: &mut Tree<SpaceViewId>, tab: &SpaceViewId)
    ensures
        dock_nodes(*final(tree)) == dock_nodes(*old(tree)),
        (forall|n: int, t: int| !tab_at(dock_nodes(*old(tree)), *tab, n, t)) ==> dock_focused(*final(tree))
            == dock_focused(*old(tree)) && dock_active(*final(tree)) == dock_active(*old(tree)),
        forall|n: int, t: int|
            first_tab_place(dock_nodes(*old(tree)), *tab, n, t) ==> dock_focused(*final(tree)) == Some(
                n as usize,
            ) && dock_active(*final(tree)) == dock_active(*old(tree)).update(n, t as usize),
{
    match dock_find_tab(tree, tab) {
        Some((node_index, tab_index)) => {
            let ghost nodes = dock_nodes(*tree);
            dock_set_focused_node(tree, node_index);
            dock_set_active_tab(tree, node_index, tab_index);
            assert forall|n: int, t: int| first_tab_place(nodes, *tab, n, t) implies n == node_index && t
                == tab_index by {
                if n < node_index {
                    assert(!tab_at(nodes, *tab, n, t));
                } else if n > node_index {
                    assert(!tab_at(nodes, *tab, node_index as int, tab_index as int));
                } else if t < tab_index {
                    assert(!tab_at(nodes, *tab, n, t));
                } else if t > tab_index {
                    assert(!tab_at(nodes, *tab, node_index as int, tab_index as int));
                }
            }
            assert(tab_at(nodes, *tab, node_index as int, tab_index as int));
        },
        None => {},
    }
}

} // verus!
