//! The shape of a layout does not depend on the order of the panels.
//!
//! Which splits are made, in which direction and at which fraction, depends
//! only on how many panels there are of each path and content size. This
//! holds as long as panels that show the same space agree on the size of its
//! content; where all panels show the same space they are split in the order
//! given, which then only decides which of them lands at which leaf.

use crate::grouping::{
    group_keys, group_of, grouped, key_at, lemma_group_keys, lemma_grouped, lemma_groups_prefix,
    lemma_singletons, lemma_sorted_keys_unique, max_path_len, singletons, split_depth,
};
use crate::layout::{
    best_boundary, boundary, is_mixed, layout_of, lemma_boundary_step, lemma_split_choice,
    add_ratio, first_canvas, not_2d_part, ratio_count, ratio_sum, second_canvas, split_index,
    split_layout, split_order, wanted_ratio, wider_than, CanvasView, LayoutView, RatioView,
    SplitFraction,
};
use crate::panel::{is_2d, Size2, SpaceMakeInfoView};
use crate::seq_facts::{
    lemma_filter_perm, lemma_filter_same, lemma_map_perm, lemma_perm_step, lemma_weight_sum_perm,
    weight_sum,
};
use vstd::multiset::group_multiset_axioms;
use vstd::prelude::*;

verus! {

/// What the layout looks at in a panel: the path of its space and the size of
/// its content. The id plays no part.
pub struct PanelKind {
    pub path: Seq<Seq<u8>>,
    pub size2d: Option<Size2>,
}

/// The kind of a panel.
pub open spec fn kind_of(e: SpaceMakeInfoView) -> PanelKind {
    PanelKind { path: e.path, size2d: e.size2d }
}

/// The kinds of the panels, in order.
pub open spec fn kinds(s: Seq<SpaceMakeInfoView>) -> Seq<PanelKind> {
    s.map_values(|e: SpaceMakeInfoView| kind_of(e))
}

/// The two lists hold the same kinds of panels, each kind equally often.
pub open spec fn same_kinds(a: Seq<SpaceMakeInfoView>, b: Seq<SpaceMakeInfoView>) -> bool {
    kinds(a).to_multiset() == kinds(b).to_multiset()
}

/// Panels that show the same space agree on the size of its content.
pub open spec fn one_size_per_path(a: Seq<SpaceMakeInfoView>) -> bool {
    forall|i: int, j: int|
        0 <= i < a.len() && 0 <= j < a.len() && (#[trigger] a[i]).path == (#[trigger] a[j]).path
            ==> a[i].size2d == a[j].size2d
}

/// A layout without the panels at its leaves.
pub enum LayoutShape {
    LeftRight(Box<LayoutShape>, SplitFraction, Box<LayoutShape>),
    TopBottom(Box<LayoutShape>, SplitFraction, Box<LayoutShape>),
    Leaf,
}

/// The shape of a layout: its splits, with direction and fraction.
pub open spec fn shape_of(layout: LayoutView) -> LayoutShape
    decreases layout,
{
    match layout {
        LayoutView::LeftRight(a, t, b) => LayoutShape::LeftRight(
            Box::new(shape_of(*a)),
            t,
            Box::new(shape_of(*b)),
        ),
        LayoutView::TopBottom(a, t, b) => LayoutShape::TopBottom(
            Box::new(shape_of(*a)),
            t,
            Box::new(shape_of(*b)),
        ),
        LayoutView::Leaf(_) => LayoutShape::Leaf,
    }
}

/// Lists with the same panels hold the same kinds.
proof fn lemma_same_panels_same_kinds(a: Seq<SpaceMakeInfoView>, b: Seq<SpaceMakeInfoView>)
    requires
        a.to_multiset() == b.to_multiset(),
    ensures
        same_kinds(a, b),
{
    lemma_map_perm(a, b, |e: SpaceMakeInfoView| kind_of(e));
}

/// Lists with the same kinds are equally long, and each kind in one occurs in
/// the other.
proof fn lemma_kind_member(a: Seq<SpaceMakeInfoView>, b: Seq<SpaceMakeInfoView>, i: int) -> (j: int)
    requires
        same_kinds(a, b),
        0 <= i < a.len(),
    ensures
        0 <= j < b.len(),
        kind_of(b[j]) == kind_of(a[i]),
        a.len() == b.len(),
{
    let ka = kinds(a);
    let kb = kinds(b);
    ka.to_multiset_ensures();
    kb.to_multiset_ensures();
    assert(ka[i] == kind_of(a[i]));
    assert(ka.contains(ka[i]));
    assert(kb.to_multiset().count(ka[i]) > 0);
    assert(kb.contains(ka[i]));
    let j = choose|j: int| 0 <= j < kb.len() && kb[j] == ka[i];
    j
}

proof fn lemma_same_kinds_len(a: Seq<SpaceMakeInfoView>, b: Seq<SpaceMakeInfoView>)
    requires
        same_kinds(a, b),
    ensures
        a.len() == b.len(),
{
    kinds(a).to_multiset_ensures();
    kinds(b).to_multiset_ensures();
}

/// Filtering panels by a property of their kind is filtering their kinds.
proof fn lemma_kinds_filter(
    a: Seq<SpaceMakeInfoView>,
    q: spec_fn(SpaceMakeInfoView) -> bool,
    p: spec_fn(PanelKind) -> bool,
)
    requires
        forall|e: SpaceMakeInfoView| q(e) == p(kind_of(e)),
    ensures
        kinds(a.filter(q)) == kinds(a).filter(p),
    decreases a.len(),
{
    reveal(Seq::filter);
    if a.len() == 0 {
        assert(kinds(a.filter(q)) =~= kinds(a).filter(p));
    } else {
        lemma_kinds_filter(a.drop_last(), q, p);
        assert(kinds(a).drop_last() =~= kinds(a.drop_last()));
        assert(kinds(a).last() == kind_of(a.last()));
        if q(a.last()) {
            assert(kinds(a.drop_last().filter(q).push(a.last())) =~= kinds(a.drop_last().filter(q)).push(
                kind_of(a.last()),
            ));
        }
    }
}

/// Lists with the same kinds still have the same kinds after both are
/// filtered by a property of the kind.
proof fn lemma_filter_same_kinds(
    a: Seq<SpaceMakeInfoView>,
    b: Seq<SpaceMakeInfoView>,
    q: spec_fn(SpaceMakeInfoView) -> bool,
    p: spec_fn(PanelKind) -> bool,
)
    requires
        same_kinds(a, b),
        forall|e: SpaceMakeInfoView| q(e) == p(kind_of(e)),
    ensures
        same_kinds(a.filter(q), b.filter(q)),
        a.filter(q).len() == b.filter(q).len(),
{
    lemma_kinds_filter(a, q, p);
    lemma_kinds_filter(b, q, p);
    lemma_filter_perm(kinds(a), kinds(b), p);
    lemma_same_kinds_len(a.filter(q), b.filter(q));
}

/// Whether panels of this kind have a usable aspect ratio.
pub open spec fn kind_has_ratio(k: PanelKind) -> bool {
    k.size2d.is_some() && k.size2d.unwrap().height > 0
}

/// What a kind adds to the number of aspect ratios.
pub open spec fn count_weight(k: PanelKind) -> nat {
    if kind_has_ratio(k) {
        1
    } else {
        0
    }
}

/// The fraction `sum` with the ratio of the kind added, where it has one.
pub open spec fn with_kind_ratio(sum: RatioView, k: PanelKind) -> RatioView {
    if kind_has_ratio(k) {
        add_ratio(sum, k.size2d.unwrap())
    } else {
        sum
    }
}

/// The sum of the aspect ratios of the kinds, as an exact fraction.
pub open spec fn kind_ratio_sum(ks: Seq<PanelKind>) -> RatioView
    decreases ks.len(),
{
    if ks.len() == 0 {
        RatioView { num: 0, den: 1 }
    } else {
        with_kind_ratio(kind_ratio_sum(ks.drop_last()), ks.last())
    }
}

proof fn lemma_ratio_as_kinds(a: Seq<SpaceMakeInfoView>)
    ensures
        ratio_sum(a) == kind_ratio_sum(kinds(a)),
        ratio_count(a) == weight_sum(kinds(a), |k: PanelKind| count_weight(k)),
    decreases a.len(),
{
    if a.len() > 0 {
        lemma_ratio_as_kinds(a.drop_last());
        assert(kinds(a).drop_last() =~= kinds(a.drop_last()));
        assert(kinds(a).last() == kind_of(a.last()));
    }
}

/// Adding two ratios to a fraction gives the same fraction in either order.
proof fn lemma_ratio_order(sum: RatioView, x: PanelKind, y: PanelKind)
    ensures
        with_kind_ratio(with_kind_ratio(sum, x), y) == with_kind_ratio(with_kind_ratio(sum, y), x),
{
    if kind_has_ratio(x) && kind_has_ratio(y) {
        let n = sum.num;
        let d = sum.den;
        let wx = x.size2d.unwrap().width as nat;
        let hx = x.size2d.unwrap().height as nat;
        let wy = y.size2d.unwrap().width as nat;
        let hy = y.size2d.unwrap().height as nat;
        assert((n * hx + wx * d) * hy + wy * (d * hx) == (n * hy + wy * d) * hx + wx * (d * hy))
            by (nonlinear_arith);
        assert(d * hx * hy == d * hy * hx) by (nonlinear_arith);
    }
}

/// The sum of the ratios is the sum without one kind, with that kind added.
proof fn lemma_kind_ratio_remove(ks: Seq<PanelKind>, i: int)
    requires
        0 <= i < ks.len(),
    ensures
        kind_ratio_sum(ks) == with_kind_ratio(kind_ratio_sum(ks.remove(i)), ks[i]),
    decreases ks.len(),
{
    if i == ks.len() - 1 {
        assert(ks.remove(i) =~= ks.drop_last());
    } else {
        let front = ks.drop_last();
        lemma_kind_ratio_remove(front, i);
        assert(ks.remove(i).drop_last() =~= front.remove(i));
        assert(ks.remove(i).last() == ks.last());
        lemma_ratio_order(kind_ratio_sum(front.remove(i)), ks[i], ks.last());
    }
}

/// The sum of the ratios does not depend on the order of the kinds.
proof fn lemma_kind_ratio_perm(s: Seq<PanelKind>, t: Seq<PanelKind>)
    requires
        s.to_multiset() == t.to_multiset(),
    ensures
        kind_ratio_sum(s) == kind_ratio_sum(t),
    decreases s.len(),
{
    s.to_multiset_ensures();
    t.to_multiset_ensures();
    if s.len() > 0 {
        let i = lemma_perm_step(s, t);
        lemma_kind_ratio_perm(s.drop_last(), t.remove(i));
        lemma_kind_ratio_remove(t, i);
    }
}

/// Lists with the same kinds want the same aspect ratio.
proof fn lemma_same_ratio(a: Seq<SpaceMakeInfoView>, b: Seq<SpaceMakeInfoView>)
    requires
        same_kinds(a, b),
    ensures
        wanted_ratio(a) == wanted_ratio(b),
{
    lemma_ratio_as_kinds(a);
    lemma_ratio_as_kinds(b);
    lemma_kind_ratio_perm(kinds(a), kinds(b));
    lemma_weight_sum_perm(kinds(a), kinds(b), |k: PanelKind| count_weight(k));
}

/// No path is longer than the longest, and some path is that long.
proof fn lemma_max_path_len(a: Seq<SpaceMakeInfoView>)
    ensures
        forall|i: int| 0 <= i < a.len() ==> (#[trigger] a[i]).path.len() <= max_path_len(a),
        a.len() > 0 ==> exists|i: int| 0 <= i < a.len() && (#[trigger] a[i]).path.len() == max_path_len(a),
        a.len() == 0 ==> max_path_len(a) == 0,
    decreases a.len(),
{
    if a.len() > 0 {
        let front = a.drop_last();
        lemma_max_path_len(front);
        assert forall|i: int| 0 <= i < a.len() implies (#[trigger] a[i]).path.len() <= max_path_len(a) by {
            if i < front.len() {
                assert(front[i] == a[i]);
            }
        }
        if a.last().path.len() > max_path_len(front) || front.len() == 0 {
            assert(a[a.len() - 1].path.len() == max_path_len(a));
        } else {
            let i = choose|i: int| 0 <= i < front.len() && (#[trigger] front[i]).path.len() == max_path_len(
                front,
            );
            assert(a[i] == front[i]);
        }
    }
}

/// Lists with the same kinds have the same longest path length.
proof fn lemma_same_max_len(a: Seq<SpaceMakeInfoView>, b: Seq<SpaceMakeInfoView>)
    requires
        same_kinds(a, b),
    ensures
        max_path_len(a) == max_path_len(b),
{
    lemma_max_path_len(a);
    lemma_max_path_len(b);
    lemma_same_kinds_len(a, b);
    if a.len() > 0 {
        let i = choose|i: int| 0 <= i < a.len() && (#[trigger] a[i]).path.len() == max_path_len(a);
        let j = lemma_kind_member(a, b, i);
        assert(b[j].path == a[i].path);
        let j2 = choose|j2: int| 0 <= j2 < b.len() && (#[trigger] b[j2]).path.len() == max_path_len(b);
        let i2 = lemma_kind_member(b, a, j2);
        assert(a[i2].path == b[j2].path);
    }
}

/// Lists with the same kinds have the same keys at every depth.
proof fn lemma_same_keys(a: Seq<SpaceMakeInfoView>, b: Seq<SpaceMakeInfoView>, d: int)
    requires
        same_kinds(a, b),
    ensures
        group_keys(a, d) == group_keys(b, d),
{
    lemma_group_keys(a, d);
    lemma_group_keys(b, d);
    let ka = group_keys(a, d);
    let kb = group_keys(b, d);
    assert forall|x: Option<Seq<u8>>| ka.contains(x) <==> kb.contains(x) by {
        if ka.contains(x) {
            let i = choose|i: int| 0 <= i < a.len() && key_at(#[trigger] a[i].path, d) == x;
            let j = lemma_kind_member(a, b, i);
            assert(key_at(b[j].path, d) == x);
        }
        if kb.contains(x) {
            let j = choose|j: int| 0 <= j < b.len() && key_at(#[trigger] b[j].path, d) == x;
            let i = lemma_kind_member(b, a, j);
            assert(key_at(a[i].path, d) == x);
        }
    }
    lemma_sorted_keys_unique(ka, kb);
}

/// Lists with the same kinds are grouped at the same depth.
proof fn lemma_same_split_depth(a: Seq<SpaceMakeInfoView>, b: Seq<SpaceMakeInfoView>, d: int)
    requires
        same_kinds(a, b),
    ensures
        split_depth(a, d) == split_depth(b, d),
    decreases max_path_len(a) - d,
{
    lemma_same_max_len(a, b);
    lemma_same_keys(a, b, d);
    if d < 0 || d >= max_path_len(a) {
    } else if group_keys(a, d).len() > 1 {
    } else {
        lemma_same_split_depth(a, b, d + 1);
    }
}

/// Lists with the same kinds have, under each key, groups with the same
/// kinds.
proof fn lemma_same_group(
    a: Seq<SpaceMakeInfoView>,
    b: Seq<SpaceMakeInfoView>,
    d: int,
    k: Option<Seq<u8>>,
)
    requires
        same_kinds(a, b),
    ensures
        same_kinds(group_of(a, d, k), group_of(b, d, k)),
        group_of(a, d, k).len() == group_of(b, d, k).len(),
{
    let q = |e: SpaceMakeInfoView| key_at(e.path, d) == k;
    let p = |kind: PanelKind| key_at(kind.path, d) == k;
    lemma_filter_same_kinds(a, b, q, p);
    lemma_filter_same(a, q, |e: SpaceMakeInfoView| key_at(e.path, d) == k);
    lemma_filter_same(b, q, |e: SpaceMakeInfoView| key_at(e.path, d) == k);
}

/// Groups of equal sizes have equal boundaries.
proof fn lemma_same_boundaries(
    ga: Seq<Seq<SpaceMakeInfoView>>,
    gb: Seq<Seq<SpaceMakeInfoView>>,
    j: int,
)
    requires
        ga.len() == gb.len(),
        0 <= j <= ga.len(),
        forall|t: int| 0 <= t < ga.len() ==> (#[trigger] ga[t]).len() == (#[trigger] gb[t]).len(),
    ensures
        boundary(ga, j) == boundary(gb, j),
    decreases j,
{
    if j == 0 {
        assert(ga.take(0) =~= Seq::<Seq<SpaceMakeInfoView>>::empty());
        assert(gb.take(0) =~= Seq::<Seq<SpaceMakeInfoView>>::empty());
    } else {
        lemma_same_boundaries(ga, gb, j - 1);
        lemma_boundary_step(ga, j - 1);
        lemma_boundary_step(gb, j - 1);
    }
}

/// Groups of equal sizes have the same best boundary, and it is one of the
/// boundaries.
proof fn lemma_same_best(ga: Seq<Seq<SpaceMakeInfoView>>, gb: Seq<Seq<SpaceMakeInfoView>>, j: int) -> (t:
    int)
    requires
        ga.len() == gb.len(),
        0 <= j <= ga.len(),
        forall|t: int| 0 <= t < ga.len() ==> (#[trigger] ga[t]).len() == (#[trigger] gb[t]).len(),
    ensures
        best_boundary(ga, j) == best_boundary(gb, j),
        0 <= t <= j,
        best_boundary(ga, j) == boundary(ga, t),
        best_boundary(gb, j) == boundary(gb, t),
    decreases j,
{
    lemma_same_boundaries(ga, gb, ga.len() as int);
    assert(ga.take(ga.len() as int) =~= ga);
    assert(gb.take(gb.len() as int) =~= gb);
    if j == 0 {
        assert(ga.take(0) =~= Seq::<Seq<SpaceMakeInfoView>>::empty());
        assert(gb.take(0) =~= Seq::<Seq<SpaceMakeInfoView>>::empty());
        0
    } else {
        let t = lemma_same_best(ga, gb, j - 1);
        lemma_same_boundaries(ga, gb, j);
        lemma_same_boundaries(ga, gb, t);
        if best_boundary(ga, j) == best_boundary(ga, j - 1) {
            t
        } else {
            j
        }
    }
}

/// The panels up to a boundary are the panels of the groups before it.
proof fn lemma_flatten_take(g: Seq<Seq<SpaceMakeInfoView>>, t: int)
    requires
        0 <= t <= g.len(),
    ensures
        g.flatten().take(boundary(g, t)) == g.take(t).flatten(),
        g.flatten().skip(boundary(g, t)) == g.skip(t).flatten(),
{
    assert(g =~= g.take(t) + g.skip(t));
    vstd::seq_lib::lemma_flatten_concat(g.take(t), g.skip(t));
    let x = g.take(t).flatten();
    let y = g.skip(t).flatten();
    assert((x + y).take(x.len() as int) =~= x);
    assert((x + y).skip(x.len() as int) =~= y);
}

/// Where two lists have the same kinds and so have their first `k` panels,
/// the remaining panels have the same kinds too.
proof fn lemma_rest_same_kinds(a: Seq<SpaceMakeInfoView>, b: Seq<SpaceMakeInfoView>, k: int)
    requires
        same_kinds(a, b),
        0 <= k <= a.len(),
        same_kinds(a.take(k), b.take(k)),
    ensures
        same_kinds(a.skip(k), b.skip(k)),
{
    broadcast use group_multiset_axioms;

    lemma_same_kinds_len(a, b);
    assert(kinds(a) =~= kinds(a.take(k)) + kinds(a.skip(k)));
    assert(kinds(b) =~= kinds(b.take(k)) + kinds(b.skip(k)));
    vstd::seq_lib::lemma_multiset_commutative(kinds(a.take(k)), kinds(a.skip(k)));
    vstd::seq_lib::lemma_multiset_commutative(kinds(b.take(k)), kinds(b.skip(k)));
    assert forall|x: PanelKind|
        kinds(a.skip(k)).to_multiset().count(x) == kinds(b.skip(k)).to_multiset().count(x) by {
        assert(kinds(a).to_multiset().count(x) == kinds(a.take(k)).to_multiset().count(x) + kinds(
            a.skip(k),
        ).to_multiset().count(x));
        assert(kinds(b).to_multiset().count(x) == kinds(b.take(k)).to_multiset().count(x) + kinds(
            b.skip(k),
        ).to_multiset().count(x));
    }
    assert(kinds(a.skip(k)).to_multiset() =~= kinds(b.skip(k)).to_multiset());
}

/// Panels taken from a list in which each path has one size again have one
/// size for each path.
proof fn lemma_part_one_size(a: Seq<SpaceMakeInfoView>, x: Seq<SpaceMakeInfoView>)
    requires
        one_size_per_path(a),
        forall|i: int| 0 <= i < x.len() ==> a.contains(#[trigger] x[i]),
    ensures
        one_size_per_path(x),
{
    assert forall|i: int, j: int|
        0 <= i < x.len() && 0 <= j < x.len() && (#[trigger] x[i]).path == (#[trigger] x[j]).path implies x[i].size2d
        == x[j].size2d by {
        assert(a.contains(x[i]));
        assert(a.contains(x[j]));
        let s = choose|s: int| 0 <= s < a.len() && a[s] == x[i];
        let t = choose|t: int| 0 <= t < a.len() && a[t] == x[j];
        assert(a[s].path == a[t].path);
    }
}

/// With every panel in a group of its own, the boundaries are the positions.
proof fn lemma_singleton_boundary(a: Seq<SpaceMakeInfoView>, j: int)
    requires
        0 <= j <= a.len(),
    ensures
        boundary(singletons(a), j) == j,
    decreases j,
{
    if j == 0 {
        assert(singletons(a).take(0) =~= Seq::<Seq<SpaceMakeInfoView>>::empty());
    } else {
        lemma_singleton_boundary(a, j - 1);
        lemma_boundary_step(singletons(a), j - 1);
    }
}

/// A depth at which more than one key occurs is found by the search for the
/// shallowest such depth.
proof fn lemma_split_depth_found(a: Seq<SpaceMakeInfoView>, from: int, d: int)
    requires
        0 <= from <= d < max_path_len(a),
        group_keys(a, d).len() > 1,
    ensures
        split_depth(a, from).is_some(),
    decreases d - from,
{
    if group_keys(a, from).len() > 1 {
    } else {
        lemma_split_depth_found(a, from + 1, d);
    }
}

/// Where no depth splits the panels, all panels have the same path.
proof fn lemma_no_split_same_paths(a: Seq<SpaceMakeInfoView>, i: int, j: int)
    requires
        split_depth(a, 0).is_none(),
        0 <= i < a.len(),
        0 <= j < a.len(),
    ensures
        a[i].path == a[j].path,
{
    let p = a[i].path;
    let q = a[j].path;
    if p != q {
        lemma_max_path_len(a);
        // A depth at which the two paths differ.
        let d: int = if p.len() != q.len() {
            if p.len() < q.len() {
                p.len() as int
            } else {
                q.len() as int
            }
        } else {
            if forall|t: int| 0 <= t < p.len() ==> p[t] == q[t] {
                assert(p =~= q);
                0
            } else {
                choose|t: int| 0 <= t < p.len() && p[t] != q[t]
            }
        };
        assert(key_at(p, d) != key_at(q, d));
        assert(0 <= d < max_path_len(a));
        lemma_group_keys(a, d);
        let ks = group_keys(a, d);
        assert(ks.contains(key_at(a[i].path, d)));
        assert(ks.contains(key_at(a[j].path, d)));
        let s = choose|s: int| 0 <= s < ks.len() && ks[s] == key_at(p, d);
        let t = choose|t: int| 0 <= t < ks.len() && ks[t] == key_at(q, d);
        assert(s != t);
        lemma_split_depth_found(a, 0, d);
    }
}

/// Where all panels have the same path and each path has one size, the first
/// `k` panels of two lists with the same kinds have the same kinds.
proof fn lemma_same_paths_take(a: Seq<SpaceMakeInfoView>, b: Seq<SpaceMakeInfoView>, k: int)
    requires
        same_kinds(a, b),
        one_size_per_path(a),
        forall|i: int, j: int| 0 <= i < a.len() && 0 <= j < a.len() ==> (#[trigger] a[i]).path == (
        #[trigger] a[j]).path,
        0 <= k <= a.len(),
    ensures
        same_kinds(a.take(k), b.take(k)),
{
    lemma_same_kinds_len(a, b);
    assert forall|t: int| 0 <= t < k implies kinds(a.take(k))[t] == kinds(b.take(k))[t] by {
        let i = lemma_kind_member(b, a, t);
        assert(a[i].path == a[t].path);
        assert(a[i].size2d == a[t].size2d);
    }
    assert(kinds(a.take(k)) =~= kinds(b.take(k)));
}

/// Two lists with the same kinds are split at the same index, and the panels
/// before the split have the same kinds in both.
proof fn lemma_split_same(a: Seq<SpaceMakeInfoView>, b: Seq<SpaceMakeInfoView>)
    requires
        a.len() >= 2,
        same_kinds(a, b),
        one_size_per_path(a),
    ensures
        split_index(a) == split_index(b),
        same_kinds(split_order(a), split_order(b)),
        same_kinds(split_order(a).take(split_index(a)), split_order(b).take(split_index(b))),
{
    lemma_same_kinds_len(a, b);
    lemma_split_choice(a);
    lemma_split_choice(b);
    let oa = split_order(a);
    let ob = split_order(b);
    lemma_same_panels_same_kinds(oa, a);
    lemma_same_panels_same_kinds(ob, b);
    let deep = |e: SpaceMakeInfoView| !is_2d(e);
    let deep_kind = |k: PanelKind| !k.size2d.is_some();
    lemma_filter_same_kinds(a, b, deep, deep_kind);
    lemma_filter_same(a, deep, |e: SpaceMakeInfoView| !is_2d(e));
    lemma_filter_same(b, deep, |e: SpaceMakeInfoView| !is_2d(e));
    assert(not_2d_part(a) == a.filter(deep));
    assert(not_2d_part(b) == b.filter(deep));
    assert(is_mixed(a) == is_mixed(b));
    if is_mixed(a) {
        let k = split_index(a);
        assert(oa.take(k) =~= not_2d_part(a));
        assert(ob.take(k) =~= not_2d_part(b));
    } else {
        lemma_same_split_depth(a, b, 0);
        lemma_grouped(a);
        lemma_grouped(b);
        let ga = grouped(a);
        let gb = grouped(b);
        match split_depth(a, 0) {
            Some(d) => {
                lemma_same_keys(a, b, d);
                let ks = group_keys(a, d);
                assert forall|t: int| 0 <= t < ga.len() implies (#[trigger] ga[t]).len() == (
                #[trigger] gb[t]).len() by {
                    lemma_same_group(a, b, d, ks[t]);
                }
                let t = lemma_same_best(ga, gb, ga.len() as int);
                lemma_flatten_take(ga, t);
                lemma_flatten_take(gb, t);
                lemma_groups_prefix(a, d, t);
                lemma_groups_prefix(b, d, t);
                let first = ks.take(t);
                let among = |e: SpaceMakeInfoView| first.contains(key_at(e.path, d));
                let among_kind = |k: PanelKind| first.contains(key_at(k.path, d));
                lemma_filter_same_kinds(a, b, among, among_kind);
                lemma_filter_same(
                    a,
                    among,
                    |e: SpaceMakeInfoView| group_keys(a, d).take(t).contains(key_at(e.path, d)),
                );
                lemma_filter_same(
                    b,
                    among,
                    |e: SpaceMakeInfoView| group_keys(b, d).take(t).contains(key_at(e.path, d)),
                );
                lemma_same_panels_same_kinds(ga.take(t).flatten(), a.filter(among));
                lemma_same_panels_same_kinds(gb.take(t).flatten(), b.filter(among));
            },
            None => {
                assert forall|t: int| 0 <= t < ga.len() implies (#[trigger] ga[t]).len() == (
                #[trigger] gb[t]).len() by {
                }
                let t = lemma_same_best(ga, gb, ga.len() as int);
                lemma_singleton_boundary(a, t);
                lemma_singleton_boundary(b, t);
                lemma_singletons(a);
                lemma_singletons(b);
                assert forall|i: int, j: int| 0 <= i < a.len() && 0 <= j < a.len() implies (
                #[trigger] a[i]).path == (#[trigger] a[j]).path by {
                    lemma_no_split_same_paths(a, i, j);
                }
                lemma_same_paths_take(a, b, t);
            },
        }
    }
}

/// The shape of a layout depends only on the kinds of the panels, not on
/// their order or their ids: two lists that hold the same kinds of panels
/// equally often, in which panels of the same space agree on the size of
/// their content, are laid out with the same splits, in the same directions
/// and at the same fractions.
pub proof fn lemma_layout_shape(size: CanvasView, a: Seq<SpaceMakeInfoView>, b: Seq<SpaceMakeInfoView>)
    requires
        a.len() >= 1,
        same_kinds(a, b),
        one_size_per_path(a),
    ensures
        shape_of(layout_of(size, a)) == shape_of(layout_of(size, b)),
    decreases a.len(),
{
    lemma_same_kinds_len(a, b);
    if a.len() >= 2 {
        lemma_split_choice(a);
        lemma_split_choice(b);
        lemma_split_same(a, b);
        let oa = split_order(a);
        let ob = split_order(b);
        let k = split_index(a);
        let n = oa.len() as int;
        lemma_rest_same_kinds(oa, ob, k);
        lemma_same_ratio(oa, ob);
        oa.to_multiset_ensures();
        a.to_multiset_ensures();
        assert forall|i: int| 0 <= i < oa.take(k).len() implies a.contains(#[trigger] oa.take(k)[i]) by {
            assert(oa.contains(oa[i]));
            assert(a.to_multiset().count(oa[i]) > 0);
        }
        assert forall|i: int| 0 <= i < oa.skip(k).len() implies a.contains(#[trigger] oa.skip(k)[i]) by {
            assert(oa.contains(oa[i + k]));
            assert(a.to_multiset().count(oa[i + k]) > 0);
        }
        lemma_part_one_size(a, oa.take(k));
        lemma_part_one_size(a, oa.skip(k));
        assert(layout_of(size, a) == split_layout(size, oa, k));
        assert(layout_of(size, b) == split_layout(size, ob, k));
        let wide = wider_than(size, wanted_ratio(oa));
        lemma_layout_shape(first_canvas(size, wide, k as nat, oa.len()), oa.take(k), ob.take(k));
        lemma_layout_shape(second_canvas(size, wide, k as nat, oa.len()), oa.skip(k), ob.skip(k));
    }
}

/// Laying out the same panels in another order gives a layout of the same
/// shape with the same panels at its leaves, as long as panels of the same
/// space agree on the size of their content.
pub proof fn lemma_layout_order_independent(
    size: CanvasView,
    a: Seq<SpaceMakeInfoView>,
    b: Seq<SpaceMakeInfoView>,
)
    requires
        a.len() >= 1,
        a.to_multiset() == b.to_multiset(),
        one_size_per_path(a),
    ensures
        shape_of(layout_of(size, a)) == shape_of(layout_of(size, b)),
        crate::layout::leaves(layout_of(size, a)).to_multiset() == crate::layout::leaves(
            layout_of(size, b),
        ).to_multiset(),
{
    lemma_same_panels_same_kinds(a, b);
    lemma_layout_shape(size, a, b);
    a.to_multiset_ensures();
    b.to_multiset_ensures();
    crate::layout::lemma_layout_leaves(size, a);
    crate::layout::lemma_layout_leaves(size, b);
}

} // verus!
