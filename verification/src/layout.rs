//! Automatic layout of panels as a tree of splits.
//!
//! The panels are split in two until every part holds one panel. Panels with
//! two-dimensional content are kept apart from the others; beyond that,
//! panels whose spaces share a path prefix stay together. Each split is made
//! left-right or top-bottom, whichever suits the shape of the canvas and of
//! the content better.
//!
//! Shapes are compared as exact fractions of natural numbers, with nothing
//! rounded, so that every decision is exact: a canvas exactly as wide as the
//! panels want is a tie, whatever the sizes.

use crate::grouping::{group_by_path_prefix, grouped, lemma_grouped};
use crate::natural::Natural;
use crate::panel::{group_views, is_2d, panel_views, Size2, SpaceMakeInfo, SpaceMakeInfoView};
use vstd::prelude::*;

verus! {

/// Where a split divides its area: after `index` of `total` equal parts.
#[derive(Clone, Copy, Debug, PartialEq, Eq, Structural)]
pub struct SplitFraction {
    pub index: usize,
    pub total: usize,
}

/// An aspect ratio, width over height, as the quotient `num / den`.
#[derive(Debug)]
pub struct Ratio {
    pub num: Natural,
    pub den: Natural,
}

/// Mathematical content of a `Ratio`.
pub struct RatioView {
    pub num: nat,
    pub den: nat,
}

impl View for Ratio {
    type V = RatioView;

    open spec fn view(&self) -> RatioView {
        RatioView { num: self.num@, den: self.den@ }
    }
}

/// The shape of a canvas: its width and its height, up to a common factor.
///
/// Only the proportion of the two counts for the layout, so the share of a
/// canvas that a part of a split gets is held without dividing: a third of
/// the width is the same shape as the whole width with three times the
/// height.
#[derive(Debug)]
pub struct Canvas {
    pub width: Natural,
    pub height: Natural,
}

/// Mathematical content of a `Canvas`.
pub struct CanvasView {
    pub width: nat,
    pub height: nat,
}

impl View for Canvas {
    type V = CanvasView;

    open spec fn view(&self) -> CanvasView {
        CanvasView { width: self.width@, height: self.height@ }
    }
}

/// A binary tree of splits with one panel at each leaf.
#[derive(Debug)]
pub enum LayoutSplit {
    /// The first part to the left of the second.
    LeftRight(Box<LayoutSplit>, SplitFraction, Box<LayoutSplit>),
    /// The first part above the second.
    TopBottom(Box<LayoutSplit>, SplitFraction, Box<LayoutSplit>),
    /// A single panel.
    Leaf(SpaceMakeInfo),
}

/// Mathematical content of a `LayoutSplit`.
pub enum LayoutView {
    LeftRight(Box<LayoutView>, SplitFraction, Box<LayoutView>),
    TopBottom(Box<LayoutView>, SplitFraction, Box<LayoutView>),
    Leaf(SpaceMakeInfoView),
}

impl View for LayoutSplit {
    type V = LayoutView;

    open spec fn view(&self) -> LayoutView
        decreases self,
    {
        match self {
            LayoutSplit::LeftRight(a, t, b) => LayoutView::LeftRight(Box::new((**a)@), *t, Box::new((**b)@)),
            LayoutSplit::TopBottom(a, t, b) => LayoutView::TopBottom(Box::new((**a)@), *t, Box::new((**b)@)),
            LayoutSplit::Leaf(info) => LayoutView::Leaf(info@),
        }
    }
}

/// Two to the power `n`.
pub open spec fn pow2(n: nat) -> nat
    decreases n,
{
    if n == 0 {
        1
    } else {
        2 * pow2((n - 1) as nat)
    }
}

/// The shape of a canvas of the given size.
pub open spec fn canvas_of(size: Size2) -> CanvasView {
    CanvasView { width: size.width as nat, height: size.height as nat }
}

/// The ratio used where no panel has content of a known shape: 16 to 9.
pub open spec fn default_ratio() -> RatioView {
    RatioView { num: 16, den: 9 }
}

/// Whether the panel has content with a usable aspect ratio: its size is
/// known and its height is not zero.
pub open spec fn has_ratio(e: SpaceMakeInfoView) -> bool {
    e.size2d.is_some() && e.size2d.unwrap().height > 0
}

/// The fraction `sum` with the ratio of a size of height above zero added:
/// `num / den + width / height`, brought to the denominator `den * height`.
pub open spec fn add_ratio(sum: RatioView, size: Size2) -> RatioView {
    RatioView {
        num: sum.num * size.height as nat + size.width as nat * sum.den,
        den: sum.den * size.height as nat,
    }
}

/// The sum of the aspect ratios of the panels that have one, as an exact
/// fraction. Its denominator is the product of the heights, its numerator
/// the sum of each width times all the other heights.
pub open spec fn ratio_sum(entries: Seq<SpaceMakeInfoView>) -> RatioView
    decreases entries.len(),
{
    if entries.len() == 0 {
        RatioView { num: 0, den: 1 }
    } else if has_ratio(entries.last()) {
        add_ratio(ratio_sum(entries.drop_last()), entries.last().size2d.unwrap())
    } else {
        ratio_sum(entries.drop_last())
    }
}

/// Number of panels that have a usable aspect ratio.
pub open spec fn ratio_count(entries: Seq<SpaceMakeInfoView>) -> nat
    decreases entries.len(),
{
    if entries.len() == 0 {
        0
    } else if has_ratio(entries.last()) {
        ratio_count(entries.drop_last()) + 1
    } else {
        ratio_count(entries.drop_last())
    }
}

/// The mean aspect ratio of the panels that have one, as an exact fraction:
/// their sum over their number. `None` where no panel has one.
pub open spec fn mean_ratio(entries: Seq<SpaceMakeInfoView>) -> Option<RatioView> {
    if ratio_count(entries) == 0 {
        None
    } else {
        Some(
            RatioView {
                num: ratio_sum(entries).num,
                den: ratio_sum(entries).den * ratio_count(entries),
            },
        )
    }
}

/// The aspect ratio that a split of these panels aims for.
pub open spec fn wanted_ratio(entries: Seq<SpaceMakeInfoView>) -> RatioView {
    match mean_ratio(entries) {
        Some(r) => r,
        None => default_ratio(),
    }
}

/// Whether the canvas is strictly wider, for its height, than the ratio:
/// `width / height > num / den`, compared without dividing.
pub open spec fn wider_than(canvas: CanvasView, ratio: RatioView) -> bool {
    canvas.width * ratio.den > ratio.num * canvas.height
}

/// The shape of the first part of a split after `index` of `total` panels:
/// that share of the width where the split is left-right, and of the height
/// where it is top-bottom; the other dimension stays.
pub open spec fn first_canvas(canvas: CanvasView, wide: bool, index: nat, total: nat) -> CanvasView {
    if wide {
        CanvasView { width: canvas.width * index, height: canvas.height * total }
    } else {
        CanvasView { width: canvas.width * total, height: canvas.height * index }
    }
}

/// The shape of the second part of a split after `index` of `total` panels:
/// what the first part leaves.
pub open spec fn second_canvas(canvas: CanvasView, wide: bool, index: nat, total: nat) -> CanvasView {
    first_canvas(canvas, wide, (total - index) as nat, total)
}

/// The ratio as mathematical content, where there is one.
pub open spec fn ratio_view(ratio: Option<Ratio>) -> Option<RatioView> {
    match ratio {
        Some(r) => Some(r@),
        None => None,
    }
}

impl Canvas {
    /// The shape of a canvas `width` wide and `height` high.
    pub fn new(width: u64, height: u64) -> (r: Canvas)
        ensures
            r@ == (CanvasView { width: width as nat, height: height as nat }),
    {
        Canvas { width: Natural::from_u64(width), height: Natural::from_u64(height) }
    }

    /// The shape of a canvas of the given size.
    pub fn from_size(size: Size2) -> (r: Canvas)
        ensures
            r@ == canvas_of(size),
    {
        Canvas::new(size.width as u64, size.height as u64)
    }

    /// The shape of a canvas whose width is `width` times two to the power
    /// `width_shift`, and whose height is `height` times two to the power
    /// `height_shift`: what a pair of binary floating-point numbers holds.
    pub fn with_binary_scale(width: u64, width_shift: u32, height: u64, height_shift: u32) -> (r: Canvas)
        ensures
            r@ == (CanvasView {
                width: width as nat * pow2(width_shift as nat),
                height: height as nat * pow2(height_shift as nat),
            }),
    {
        Canvas { width: times_pow2(width, width_shift), height: times_pow2(height, height_shift) }
    }

    /// A copy of the shape.
    pub fn duplicate(&self) -> (r: Canvas)
        ensures
            r@ == self@,
    {
        Canvas { width: self.width.duplicate(), height: self.height.duplicate() }
    }

    /// The shape of the first part of a split of this canvas.
    pub fn first_part(&self, wide: bool, index: usize, total: usize) -> (r: Canvas)
        ensures
            r@ == first_canvas(self@, wide, index as nat, total as nat),
    {
        if wide {
            Canvas {
                width: self.width.times_small(index as u64),
                height: self.height.times_small(total as u64),
            }
        } else {
            Canvas {
                width: self.width.times_small(total as u64),
                height: self.height.times_small(index as u64),
            }
        }
    }

    /// The shape of the second part of a split of this canvas.
    pub fn second_part(&self, wide: bool, index: usize, total: usize) -> (r: Canvas)
        requires
            index <= total,
        ensures
            r@ == second_canvas(self@, wide, index as nat, total as nat),
    {
        self.first_part(wide, total - index, total)
    }
}

/// The number `x` times two to the power `shift`.
fn times_pow2(x: u64, shift: u32) -> (r: Natural)
    ensures
        r@ == x as nat * pow2(shift as nat),
{
    let mut out = Natural::from_u64(x);
    let mut i: u32 = 0;
    proof {
        assert(x as nat * pow2(0) == x) by (nonlinear_arith)
            requires
                pow2(0) == 1,
        ;
    }
    while i < shift
        invariant
            i <= shift,
            out@ == x as nat * pow2(i as nat),
        decreases shift - i,
    {
        proof {
            let p = pow2(i as nat);
            assert(x as nat * p * 2 == x as nat * (2 * p)) by (nonlinear_arith);
        }
        out = out.times_small(2);
        i += 1;
    }
    out
}

/// The mean aspect ratio of the panels whose content has a known size and a
/// height above zero, as an exact fraction; `None` where there is no such
/// panel.
pub fn desired_aspect_ratio(spaces: &Vec<SpaceMakeInfo>) -> (r: Option<Ratio>)
    ensures
        ratio_view(r) == mean_ratio(panel_views(spaces@)),
{
    let ghost entries = panel_views(spaces@);
    let mut sum = Natural::from_u64(0);
    let mut den = Natural::from_u64(1);
    let mut num: usize = 0;
    let mut i: usize = 0;
    assert(entries.take(0) =~= Seq::<SpaceMakeInfoView>::empty());
    while i < spaces.len()
        invariant
            i <= spaces@.len(),
            entries == panel_views(spaces@),
            sum@ == ratio_sum(entries.take(i as int)).num,
            den@ == ratio_sum(entries.take(i as int)).den,
            num == ratio_count(entries.take(i as int)),
            num <= i,
        decreases spaces@.len() - i,
    {
        proof {
            assert(entries.take(i as int + 1).drop_last() =~= entries.take(i as int));
            assert(entries.take(i as int + 1).last() == entries[i as int]);
        }
        match spaces[i].size2d {
            Some(size) => {
                if size.height > 0 {
                    let widened = den.times_small(size.width as u64);
                    sum = sum.times_small(size.height as u64).plus(&widened);
                    den = den.times_small(size.height as u64);
                    num = num + 1;
                    proof {
                        let before = ratio_sum(entries.take(i as int));
                        assert(size.width as nat * before.den == before.den * size.width as nat)
                            by (nonlinear_arith);
                    }
                }
            },
            None => {},
        }
        i += 1;
    }
    proof {
        assert(entries.take(spaces@.len() as int) =~= entries);
    }
    if num != 0 {
        Some(Ratio { num: sum, den: den.times_small(num as u64) })
    } else {
        None
    }
}

/// Whether the canvas is strictly wider, for its height, than the ratio.
pub fn is_wider_than(size: &Canvas, ratio: &Ratio) -> (r: bool)
    ensures
        r == wider_than(size@, ratio@),
{
    let left = size.width.times(&ratio.den);
    let right = ratio.num.times(&size.height);
    left.is_greater_than(&right)
}

/// Number of panels in the first `j` groups.
pub open spec fn boundary(groups: Seq<Seq<SpaceMakeInfoView>>, j: int) -> int {
    groups.take(j).flatten().len() as int
}

/// How far a split after `c` of `n` panels is from the middle, in half
/// panels.
pub open spec fn off_middle(c: int, n: int) -> int {
    if 2 * c >= n {
        2 * c - n
    } else {
        n - 2 * c
    }
}

/// The best place to split among the ends of the first `j` groups: the one
/// nearest to the middle of all panels, the earlier one on a tie. A split
/// before the first panel stands in until a real one is found.
pub open spec fn best_boundary(groups: Seq<Seq<SpaceMakeInfoView>>, j: int) -> int
    decreases j,
{
    if j <= 0 {
        0
    } else {
        let best = best_boundary(groups, j - 1);
        let candidate = boundary(groups, j);
        let n = groups.flatten().len() as int;
        if off_middle(candidate, n) < off_middle(best, n) {
            candidate
        } else {
            best
        }
    }
}

/// The group boundary nearest to the middle of all panels.
pub open spec fn best_split(groups: Seq<Seq<SpaceMakeInfoView>>) -> int {
    best_boundary(groups, groups.len() as int)
}

/// The panels without two-dimensional content, in their order.
pub open spec fn not_2d_part(entries: Seq<SpaceMakeInfoView>) -> Seq<SpaceMakeInfoView> {
    entries.filter(|e: SpaceMakeInfoView| !is_2d(e))
}

/// The panels with two-dimensional content, in their order.
pub open spec fn is_2d_part(entries: Seq<SpaceMakeInfoView>) -> Seq<SpaceMakeInfoView> {
    entries.filter(|e: SpaceMakeInfoView| is_2d(e))
}

/// Whether the panels are of both kinds.
pub open spec fn is_mixed(entries: Seq<SpaceMakeInfoView>) -> bool {
    0 < not_2d_part(entries).len() < entries.len()
}

/// The order in which the panels are laid out before they are split in two:
/// by kind where they are of both kinds, else by group.
pub open spec fn split_order(entries: Seq<SpaceMakeInfoView>) -> Seq<SpaceMakeInfoView> {
    if is_mixed(entries) {
        not_2d_part(entries) + is_2d_part(entries)
    } else {
        grouped(entries).flatten()
    }
}

/// How many panels of `split_order` go to the first part: the ones without
/// two-dimensional content where the panels are of both kinds, else those up
/// to the group boundary nearest to the middle.
pub open spec fn split_index(entries: Seq<SpaceMakeInfoView>) -> int {
    if is_mixed(entries) {
        not_2d_part(entries).len() as int
    } else {
        best_split(grouped(entries))
    }
}

/// The next boundary lies one group further.
pub proof fn lemma_boundary_step(groups: Seq<Seq<SpaceMakeInfoView>>, j: int)
    requires
        0 <= j < groups.len(),
    ensures
        boundary(groups, j + 1) == boundary(groups, j) + groups[j].len(),
        groups.take(j + 1).flatten() == groups.take(j).flatten() + groups[j],
{
    assert(groups.take(j + 1) =~= groups.take(j).push(groups[j]));
    groups.take(j).lemma_flatten_push(groups[j]);
}

/// Boundaries grow with every group, from zero up to the number of panels.
pub proof fn lemma_boundary_bounds(groups: Seq<Seq<SpaceMakeInfoView>>, i: int, j: int)
    requires
        0 <= i <= j <= groups.len(),
        forall|t: int| 0 <= t < groups.len() ==> (#[trigger] groups[t]).len() > 0,
    ensures
        boundary(groups, j) - boundary(groups, i) >= j - i,
        boundary(groups, 0) == 0,
        boundary(groups, groups.len() as int) == groups.flatten().len(),
    decreases j - i,
{
    assert(groups.take(0) =~= Seq::<Seq<SpaceMakeInfoView>>::empty());
    assert(groups.take(groups.len() as int) =~= groups);
    if i < j {
        lemma_boundary_bounds(groups, i, j - 1);
        lemma_boundary_step(groups, j - 1);
    }
}

/// With two or more groups, none empty, the best boundary found after the
/// first group lies strictly inside the panels.
proof fn lemma_best_boundary(groups: Seq<Seq<SpaceMakeInfoView>>, j: int)
    requires
        groups.len() >= 2,
        1 <= j <= groups.len(),
        forall|t: int| 0 <= t < groups.len() ==> (#[trigger] groups[t]).len() > 0,
    ensures
        0 < best_boundary(groups, j) < groups.flatten().len(),
    decreases j,
{
    let n = groups.flatten().len() as int;
    let c = boundary(groups, j);
    lemma_boundary_bounds(groups, 0, j);
    lemma_boundary_bounds(groups, j, groups.len() as int);
    if j == 1 {
        assert(best_boundary(groups, 0) == 0);
        assert(0 < c < n);
    } else {
        lemma_best_boundary(groups, j - 1);
    }
}

/// Two or more panels are always split strictly inside: both parts get at
/// least one panel, and the parts together hold every panel exactly once.
pub proof fn lemma_split_choice(entries: Seq<SpaceMakeInfoView>)
    requires
        entries.len() >= 2,
    ensures
        split_order(entries).len() == entries.len(),
        split_order(entries).to_multiset() == entries.to_multiset(),
        0 < split_index(entries) < entries.len(),
{
    if is_mixed(entries) {
        crate::seq_facts::lemma_filter_partition(entries, |e: SpaceMakeInfoView| is_2d(e));
        crate::seq_facts::lemma_filter_same(
            entries,
            |x: SpaceMakeInfoView| !(|e: SpaceMakeInfoView| is_2d(e))(x),
            |e: SpaceMakeInfoView| !is_2d(e),
        );
        vstd::seq_lib::lemma_multiset_commutative(not_2d_part(entries), is_2d_part(entries));
        assert(split_order(entries).to_multiset() =~= entries.to_multiset());
    } else {
        lemma_grouped(entries);
        lemma_best_boundary(grouped(entries), grouped(entries).len() as int);
    }
}

/// The layout of the panels on a canvas of the given shape.
///
/// One panel is a leaf. More panels are put in `split_order` and split at
/// `split_index`; each part is laid out in turn on its share of the canvas.
pub open spec fn layout_of(canvas: CanvasView, entries: Seq<SpaceMakeInfoView>) -> LayoutView
    decreases entries.len(), 2int,
{
    if entries.len() < 2 {
        LayoutView::Leaf(entries[0])
    } else {
        proof {
            lemma_split_choice(entries);
        }
        split_layout(canvas, split_order(entries), split_index(entries))
    }
}

/// The layout that splits `order` after `index` panels.
///
/// The split is left-right where the canvas is strictly wider than the
/// aspect ratio wanted by the panels, and top-bottom otherwise, a tie
/// included. The first part gets the share `index / order.len()` of the
/// width, or of the height, and the second part the rest; the other
/// dimension stays.
pub open spec fn split_layout(canvas: CanvasView, order: Seq<SpaceMakeInfoView>, index: int) -> LayoutView
    decreases order.len(), 1int,
{
    if 0 < index < order.len() {
        let t = SplitFraction { index: index as usize, total: order.len() as usize };
        let first = layout_of_first(canvas, order, index);
        let second = layout_of_second(canvas, order, index);
        if wider_than(canvas, wanted_ratio(order)) {
            LayoutView::LeftRight(Box::new(first), t, Box::new(second))
        } else {
            LayoutView::TopBottom(Box::new(first), t, Box::new(second))
        }
    } else {
        LayoutView::Leaf(order[0])
    }
}

/// The first part of the split that `split_layout` makes.
pub open spec fn layout_of_first(canvas: CanvasView, order: Seq<SpaceMakeInfoView>, index: int) -> LayoutView
    decreases order.len(), 0int,
{
    if 0 < index < order.len() {
        layout_of(
            first_canvas(canvas, wider_than(canvas, wanted_ratio(order)), index as nat, order.len()),
            order.take(index),
        )
    } else {
        LayoutView::Leaf(order[0])
    }
}

/// The second part of the split that `split_layout` makes.
pub open spec fn layout_of_second(canvas: CanvasView, order: Seq<SpaceMakeInfoView>, index: int) -> LayoutView
    decreases order.len(), 0int,
{
    if 0 < index < order.len() {
        layout_of(
            second_canvas(canvas, wider_than(canvas, wanted_ratio(order)), index as nat, order.len()),
            order.skip(index),
        )
    } else {
        LayoutView::Leaf(order[0])
    }
}

/// The panels of `spaces` without two-dimensional content, then those with,
/// each kind in its order, and the number of the former.
fn sort_by_kind(spaces: &Vec<SpaceMakeInfo>) -> (r: (Vec<SpaceMakeInfo>, usize))
    ensures
        panel_views(r.0@) == not_2d_part(panel_views(spaces@)) + is_2d_part(panel_views(spaces@)),
        r.1 == not_2d_part(panel_views(spaces@)).len(),
        r.0@.len() == spaces@.len(),
{
    let ghost entries = panel_views(spaces@);
    let ghost flat = |e: SpaceMakeInfoView| is_2d(e);
    let ghost deep = |e: SpaceMakeInfoView| !is_2d(e);
    let n = spaces.len();
    let mut out: Vec<SpaceMakeInfo> = Vec::new();
    let mut i: usize = 0;
    proof {
        reveal(Seq::filter);
        assert(entries.take(0) =~= Seq::<SpaceMakeInfoView>::empty());
        assert(panel_views(out@) =~= entries.take(0).filter(deep));
    }
    while i < n
        invariant
            i <= n,
            n == spaces@.len(),
            entries == panel_views(spaces@),
            deep == (|e: SpaceMakeInfoView| !is_2d(e)),
            panel_views(out@) == entries.take(i as int).filter(deep),
        decreases n - i,
    {
        proof {
            assert(entries.take(i as int + 1).drop_last() =~= entries.take(i as int));
            assert(entries.take(i as int + 1).last() == entries[i as int]);
            reveal(Seq::filter);
        }
        let ghost before = out@;
        if !spaces[i].is_2d() {
            out.push(spaces[i].duplicate());
            assert(panel_views(out@) =~= panel_views(before).push(entries[i as int]));
        }
        i += 1;
    }
    assert(entries.take(n as int) =~= entries);
    let start_2d = out.len();
    let ghost first = out@;
    i = 0;
    proof {
        reveal(Seq::filter);
        assert(panel_views(out@) =~= panel_views(first) + entries.take(0).filter(flat));
    }
    while i < n
        invariant
            i <= n,
            n == spaces@.len(),
            entries == panel_views(spaces@),
            flat == (|e: SpaceMakeInfoView| is_2d(e)),
            panel_views(first) == not_2d_part(entries),
            start_2d == first.len(),
            panel_views(out@) == panel_views(first) + entries.take(i as int).filter(flat),
        decreases n - i,
    {
        proof {
            assert(entries.take(i as int + 1).drop_last() =~= entries.take(i as int));
            assert(entries.take(i as int + 1).last() == entries[i as int]);
            reveal(Seq::filter);
        }
        let ghost before = out@;
        if spaces[i].is_2d() {
            out.push(spaces[i].duplicate());
            assert(panel_views(out@) =~= panel_views(before).push(entries[i as int]));
        }
        i += 1;
    }
    proof {
        assert(entries.take(n as int) =~= entries);
        crate::seq_facts::lemma_filter_partition(entries, flat);
        crate::seq_facts::lemma_filter_same(
            entries,
            |x: SpaceMakeInfoView| !flat(x),
            |e: SpaceMakeInfoView| !is_2d(e),
        );
        assert(panel_views(out@).len() == out@.len());
    }
    (out, start_2d)
}

/// Lays the panels out on a canvas of the given shape.
///
/// The result is a tree of splits with exactly the given panels at its
/// leaves. The panels are consumed: the layout decides their order.
pub fn layout_spaces(size: Canvas, spaces: Vec<SpaceMakeInfo>) -> (r: LayoutSplit)
    requires
        spaces@.len() > 0,
    ensures
        r@ == layout_of(size@, panel_views(spaces@)),
        leaves(r@).to_multiset() == panel_views(spaces@).to_multiset(),
    decreases spaces@.len(), 1int,
{
    let ghost entries = panel_views(spaces@);
    proof {
        lemma_layout_leaves(size@, entries);
    }
    let n = spaces.len();
    if n == 1 {
        LayoutSplit::Leaf(spaces[0].duplicate())
    } else {
        proof {
            lemma_split_choice(entries);
        }
        let (sorted, start_2d) = sort_by_kind(&spaces);
        if 0 < start_2d && start_2d < n {
            split_spaces_at(size, sorted, start_2d)
        } else {
            // All panels are of one kind.
            let groups = group_by_path_prefix(&spaces);
            let ghost gs = group_views(groups@);
            proof {
                lemma_grouped(entries);
            }
            let mut best_split: usize = 0;
            let mut rearranged: Vec<SpaceMakeInfo> = Vec::new();
            let mut j: usize = 0;
            proof {
                assert(gs.take(0) =~= Seq::<Seq<SpaceMakeInfoView>>::empty());
                assert(panel_views(rearranged@) =~= gs.take(0).flatten());
            }
            while j < groups.len()
                invariant
                    j <= groups@.len(),
                    gs == group_views(groups@),
                    gs == grouped(entries),
                    n == gs.flatten().len(),
                    forall|t: int| 0 <= t < gs.len() ==> (#[trigger] gs[t]).len() > 0,
                    panel_views(rearranged@) == gs.take(j as int).flatten(),
                    best_split == best_boundary(gs, j as int),
                    best_split <= n,
                decreases groups@.len() - j,
            {
                proof {
                    lemma_boundary_step(gs, j as int);
                    lemma_boundary_bounds(gs, 0, j as int + 1);
                    lemma_boundary_bounds(gs, j as int + 1, gs.len() as int);
                }
                let group = &groups[j];
                let ghost start = rearranged@;
                let mut i: usize = 0;
                assert(panel_views(rearranged@) =~= panel_views(start) + panel_views(group@).take(0));
                while i < group.len()
                    invariant
                        i <= group@.len(),
                        panel_views(rearranged@) == panel_views(start) + panel_views(group@).take(
                            i as int,
                        ),
                    decreases group@.len() - i,
                {
                    let ghost before = rearranged@;
                    rearranged.push(group[i].duplicate());
                    assert(panel_views(rearranged@) =~= panel_views(before).push(group@[i as int]@));
                    assert(panel_views(group@).take(i as int + 1) =~= panel_views(group@).take(
                        i as int,
                    ).push(group@[i as int]@));
                    i += 1;
                }
                assert(panel_views(group@).take(group@.len() as int) =~= panel_views(group@));
                assert(panel_views(group@) == gs[j as int]);
                let split_candidate = rearranged.len();
                assert(split_candidate == boundary(gs, j as int + 1));
                if off_middle_of(split_candidate, n) < off_middle_of(best_split, n) {
                    best_split = split_candidate;
                }
                j += 1;
            }
            proof {
                assert(gs.take(gs.len() as int) =~= gs);
                lemma_best_boundary(gs, gs.len() as int);
            }
            split_spaces_at(size, rearranged, best_split)
        }
    }
}

/// How far a split after `c` of `n` panels is from the middle, in half
/// panels.
fn off_middle_of(c: usize, n: usize) -> (r: u128)
    requires
        c <= n,
    ensures
        r == off_middle(c as int, n as int),
{
    let twice: u128 = 2 * (c as u128);
    let whole: u128 = n as u128;
    if twice >= whole {
        twice - whole
    } else {
        whole - twice
    }
}

/// Splits the panels after the first `index` of them and lays out both
/// parts.
pub fn split_spaces_at(size: Canvas, spaces: Vec<SpaceMakeInfo>, index: usize) -> (r: LayoutSplit)
    requires
        0 < index < spaces@.len(),
    ensures
        r@ == split_layout(size@, panel_views(spaces@), index as int),
    decreases spaces@.len(), 0int,
{
    let ghost order = panel_views(spaces@);
    let n = spaces.len();
    let t = SplitFraction { index, total: n };
    let desired = match desired_aspect_ratio(&spaces) {
        Some(r) => r,
        None => Ratio { num: Natural::from_u64(16), den: Natural::from_u64(9) },
    };
    let wide = is_wider_than(&size, &desired);
    let mut first = spaces;
    let second = first.split_off(index);
    proof {
        assert(panel_views(first@) =~= order.take(index as int));
        assert(panel_views(second@) =~= order.skip(index as int));
    }
    let first_layout = layout_spaces(size.first_part(wide, index, n), first);
    let second_layout = layout_spaces(size.second_part(wide, index, n), second);
    if wide {
        LayoutSplit::LeftRight(Box::new(first_layout), t, Box::new(second_layout))
    } else {
        LayoutSplit::TopBottom(Box::new(first_layout), t, Box::new(second_layout))
    }
}

/// The panels at the leaves of a layout, from first to last.
pub open spec fn leaves(layout: LayoutView) -> Seq<SpaceMakeInfoView>
    decreases layout,
{
    match layout {
        LayoutView::LeftRight(a, _, b) => leaves(*a) + leaves(*b),
        LayoutView::TopBottom(a, _, b) => leaves(*a) + leaves(*b),
        LayoutView::Leaf(e) => seq![e],
    }
}

/// The ids of the given panels, in order.
pub open spec fn ids_of(entries: Seq<SpaceMakeInfoView>) -> Seq<crate::space_view_id::SpaceViewId> {
    Seq::new(entries.len(), |i: int| entries[i].id)
}

proof fn lemma_split_leaves(size: CanvasView, order: Seq<SpaceMakeInfoView>, index: int)
    requires
        0 < index < order.len(),
        leaves(layout_of_first(size, order, index)).to_multiset() == order.take(index).to_multiset(),
        leaves(layout_of_second(size, order, index)).to_multiset() == order.skip(index).to_multiset(),
    ensures
        leaves(split_layout(size, order, index)).to_multiset() == order.to_multiset(),
{
    let a = leaves(layout_of_first(size, order, index));
    let b = leaves(layout_of_second(size, order, index));
    vstd::seq_lib::lemma_multiset_commutative(a, b);
    vstd::seq_lib::lemma_multiset_commutative(order.take(index), order.skip(index));
    assert(order.take(index) + order.skip(index) =~= order);
    assert(leaves(split_layout(size, order, index)) == a + b);
}

/// The leaves of a layout are exactly the panels that were laid out: each
/// panel is at one leaf, and no leaf holds anything else.
pub proof fn lemma_layout_leaves(size: CanvasView, entries: Seq<SpaceMakeInfoView>)
    requires
        entries.len() >= 1,
    ensures
        leaves(layout_of(size, entries)).to_multiset() == entries.to_multiset(),
        leaves(layout_of(size, entries)).len() == entries.len(),
    decreases entries.len(),
{
    if entries.len() < 2 {
        assert(seq![entries[0]] =~= entries);
    } else {
        lemma_split_choice(entries);
        let order = split_order(entries);
        let index = split_index(entries);
        let wide = wider_than(size, wanted_ratio(order));
        lemma_layout_leaves(first_canvas(size, wide, index as nat, order.len()), order.take(index));
        lemma_layout_leaves(second_canvas(size, wide, index as nat, order.len()), order.skip(index));
        lemma_split_leaves(size, order, index);
    }
    leaves(layout_of(size, entries)).to_multiset_ensures();
    entries.to_multiset_ensures();
}

/// The ids at the leaves of a layout are the ids of the panels that were
/// laid out: none is missing, none is new, and where the panels have distinct
/// ids, so do the leaves.
pub proof fn lemma_layout_ids(size: CanvasView, entries: Seq<SpaceMakeInfoView>)
    requires
        entries.len() >= 1,
    ensures
        ids_of(leaves(layout_of(size, entries))).to_set() == ids_of(entries).to_set(),
        ids_of(leaves(layout_of(size, entries))).len() == ids_of(entries).len(),
        ids_of(entries).no_duplicates() ==> ids_of(leaves(layout_of(size, entries))).no_duplicates(),
{
    let out = leaves(layout_of(size, entries));
    lemma_layout_leaves(size, entries);
    out.to_multiset_ensures();
    entries.to_multiset_ensures();
    assert forall|id: crate::space_view_id::SpaceViewId| ids_of(out).contains(id) == ids_of(
        entries,
    ).contains(id) by {
        if ids_of(out).contains(id) {
            let i = choose|i: int| 0 <= i < ids_of(out).len() && ids_of(out)[i] == id;
            assert(out.contains(out[i]));
            assert(entries.to_multiset().count(out[i]) > 0);
            assert(entries.contains(out[i]));
            let j = choose|j: int| 0 <= j < entries.len() && entries[j] == out[i];
            assert(ids_of(entries)[j] == id);
        }
        if ids_of(entries).contains(id) {
            let i = choose|i: int| 0 <= i < ids_of(entries).len() && ids_of(entries)[i] == id;
            assert(entries.contains(entries[i]));
            assert(out.to_multiset().count(entries[i]) > 0);
            assert(out.contains(entries[i]));
            let j = choose|j: int| 0 <= j < out.len() && out[j] == entries[i];
            assert(ids_of(out)[j] == id);
        }
    }
    assert(ids_of(out).to_set() =~= ids_of(entries).to_set());
    if ids_of(entries).no_duplicates() {
        assert(entries.no_duplicates()) by {
            assert forall|i: int, j: int|
                0 <= i < entries.len() && 0 <= j < entries.len() && i != j implies entries[i]
                != entries[j] by {
                assert(ids_of(entries)[i] != ids_of(entries)[j]);
            }
        }
        entries.lemma_multiset_has_no_duplicates();
        out.lemma_multiset_has_no_duplicates_conv();
        assert forall|i: int, j: int|
            0 <= i < ids_of(out).len() && 0 <= j < ids_of(out).len() && i != j implies ids_of(out)[i]
            != ids_of(out)[j] by {
            if out[i].id == out[j].id {
                assert(out[i] != out[j]);
                assert(out.contains(out[i]));
                assert(out.contains(out[j]));
                assert(entries.to_multiset().count(out[i]) > 0);
                assert(entries.to_multiset().count(out[j]) > 0);
                assert(entries.contains(out[i]));
                assert(entries.contains(out[j]));
                let a = choose|a: int| 0 <= a < entries.len() && entries[a] == out[i];
                let b = choose|b: int| 0 <= b < entries.len() && entries[b] == out[j];
                assert(ids_of(entries)[a] == ids_of(entries)[b]);
            }
        }
    }
}

impl LayoutView {
    /// Whether the layout is a split rather than a single panel.
    pub open spec fn is_split(self) -> bool {
        !(self is Leaf)
    }

    /// The first part of a split: the left one, or the top one.
    pub open spec fn first_part(self) -> LayoutView {
        match self {
            LayoutView::LeftRight(a, _, _) => *a,
            LayoutView::TopBottom(a, _, _) => *a,
            LayoutView::Leaf(_) => self,
        }
    }

    /// The second part of a split: the right one, or the bottom one.
    pub open spec fn second_part(self) -> LayoutView {
        match self {
            LayoutView::LeftRight(_, _, b) => *b,
            LayoutView::TopBottom(_, _, b) => *b,
            LayoutView::Leaf(_) => self,
        }
    }
}

/// Where the panels are of both kinds, the first split keeps the kinds
/// apart: the leaves of its first part are the panels without
/// two-dimensional content, those of its second part the panels with it, so
/// that neither part holds both kinds.
pub proof fn lemma_mixed_kinds_apart(size: CanvasView, entries: Seq<SpaceMakeInfoView>)
    requires
        is_mixed(entries),
    ensures
        layout_of(size, entries).is_split(),
        leaves(layout_of(size, entries).first_part()).to_multiset() == not_2d_part(entries).to_multiset(),
        leaves(layout_of(size, entries).second_part()).to_multiset() == is_2d_part(
            entries,
        ).to_multiset(),
        forall|i: int|
            0 <= i < leaves(layout_of(size, entries).first_part()).len() ==> !is_2d(
                #[trigger] leaves(layout_of(size, entries).first_part())[i],
            ),
        forall|i: int|
            0 <= i < leaves(layout_of(size, entries).second_part()).len() ==> is_2d(
                #[trigger] leaves(layout_of(size, entries).second_part())[i],
            ),
{
    let deep = not_2d_part(entries);
    let flat = is_2d_part(entries);
    let order = split_order(entries);
    let index = split_index(entries);
    let n = order.len() as int;
    entries.lemma_filter_len(|e: SpaceMakeInfoView| !is_2d(e));
    lemma_split_choice(entries);
    assert(order.take(index) =~= deep);
    assert(order.skip(index) =~= flat);
    let whole = layout_of(size, entries);
    assert(whole == split_layout(size, order, index));
    let first = whole.first_part();
    let second = whole.second_part();
    assert(first == layout_of_first(size, order, index));
    assert(second == layout_of_second(size, order, index));
    let wide = wider_than(size, wanted_ratio(order));
    lemma_layout_leaves(first_canvas(size, wide, index as nat, order.len()), deep);
    lemma_layout_leaves(second_canvas(size, wide, index as nat, order.len()), flat);
    leaves(first).to_multiset_ensures();
    leaves(second).to_multiset_ensures();
    deep.to_multiset_ensures();
    flat.to_multiset_ensures();
    assert forall|i: int| 0 <= i < leaves(first).len() implies !is_2d(#[trigger] leaves(first)[i]) by {
        let x = leaves(first)[i];
        assert(leaves(first).contains(x));
        assert(deep.to_multiset().count(x) > 0);
        assert(deep.contains(x));
        let j = choose|j: int| 0 <= j < deep.len() && deep[j] == x;
        entries.lemma_filter_pred(|e: SpaceMakeInfoView| !is_2d(e), j);
    }
    assert forall|i: int| 0 <= i < leaves(second).len() implies is_2d(#[trigger] leaves(second)[i]) by {
        let x = leaves(second)[i];
        assert(leaves(second).contains(x));
        assert(flat.to_multiset().count(x) > 0);
        assert(flat.contains(x));
        let j = choose|j: int| 0 <= j < flat.len() && flat[j] == x;
        entries.lemma_filter_pred(|e: SpaceMakeInfoView| is_2d(e), j);
    }
}

impl LayoutSplit {
    /// Appends the ids of the panels at the leaves to `out`, first leaf
    /// first.
    pub fn collect_leaf_ids(&self, out: &mut Vec<crate::space_view_id::SpaceViewId>)
        ensures
            final(out)@ == old(out)@ + ids_of(leaves(self@)),
        decreases self,
    {
        match self {
            LayoutSplit::LeftRight(a, _, b) => {
                a.collect_leaf_ids(out);
                b.collect_leaf_ids(out);
                assert(ids_of(leaves((**a)@) + leaves((**b)@)) =~= ids_of(leaves((**a)@)) + ids_of(
                    leaves((**b)@),
                ));
                assert(out@ =~= old(out)@ + ids_of(leaves(self@)));
            },
            LayoutSplit::TopBottom(a, _, b) => {
                a.collect_leaf_ids(out);
                b.collect_leaf_ids(out);
                assert(ids_of(leaves((**a)@) + leaves((**b)@)) =~= ids_of(leaves((**a)@)) + ids_of(
                    leaves((**b)@),
                ));
                assert(out@ =~= old(out)@ + ids_of(leaves(self@)));
            },
            LayoutSplit::Leaf(info) => {
                out.push(info.id);
                assert(ids_of(seq![info@]) =~= seq![info.id]);
                assert(out@ =~= old(out)@ + ids_of(leaves(self@)));
            },
        }
    }

    /// The ids of the panels at the leaves, first leaf first.
    pub fn leaf_ids(&self) -> (r: Vec<crate::space_view_id::SpaceViewId>)
        ensures
            r@ == ids_of(leaves(self@)),
    {
        let mut out: Vec<crate::space_view_id::SpaceViewId> = Vec::new();
        self.collect_leaf_ids(&mut out);
        assert(out@ =~= ids_of(leaves(self@)));
        out
    }

    /// Number of leaves.
    pub fn leaf_count(&self) -> (r: usize)
        ensures
            r == leaves(self@).len(),
    {
        self.leaf_ids().len()
    }

    /// The panel at the first leaf: the leftmost, topmost one.
    pub fn first_leaf(&self) -> (r: &SpaceMakeInfo)
        ensures
            leaves(self@).len() > 0,
            r@ == leaves(self@)[0],
        decreases self,
    {
        match self {
            LayoutSplit::LeftRight(a, _, _) => a.first_leaf(),
            LayoutSplit::TopBottom(a, _, _) => a.first_leaf(),
            LayoutSplit::Leaf(info) => info,
        }
    }

    /// Position of the first leaf that holds the panel with the given id, if
    /// there is one.
    pub fn find_leaf(&self, id: crate::space_view_id::SpaceViewId) -> (r: Option<usize>)
        ensures
            r.is_some() == ids_of(leaves(self@)).contains(id),
            r.is_some() ==> r.unwrap() < leaves(self@).len() && leaves(self@)[r.unwrap() as int].id == id
                && forall|k: int| 0 <= k < r.unwrap() ==> (#[trigger] leaves(self@)[k]).id != id,
    {
        let ids = self.leaf_ids();
        let mut i: usize = 0;
        while i < ids.len()
            invariant
                i <= ids@.len(),
                ids@ == ids_of(leaves(self@)),
                forall|k: int| 0 <= k < i ==> ids@[k] != id,
            decreases ids@.len() - i,
        {
            if ids[i] == id {
                assert(ids_of(leaves(self@))[i as int] == id);
                assert forall|k: int| 0 <= k < i implies (#[trigger] leaves(self@)[k]).id != id by {
                    assert(ids@[k] == leaves(self@)[k].id);
                }
                return Some(i);
            }
            i += 1;
        }
        None
    }
}

/// A canvas that is exactly as wide, for its height, as the panels want is
/// split top-bottom: only a strictly wider canvas is split left-right.
pub proof fn lemma_tie_splits_top_bottom(size: CanvasView, order: Seq<SpaceMakeInfoView>, index: int)
    requires
        0 < index < order.len(),
        size.width * wanted_ratio(order).den == wanted_ratio(order).num * size.height,
    ensures
        split_layout(size, order, index) is TopBottom,
{
}

/// The sum of the ratios of panels that all have the shape `width` to
/// `height` is their number times that ratio.
proof fn lemma_same_shape_sum(entries: Seq<SpaceMakeInfoView>, width: nat, height: nat)
    requires
        forall|i: int|
            0 <= i < entries.len() && has_ratio(#[trigger] entries[i]) ==> entries[i].size2d.unwrap().width
                * height == width * entries[i].size2d.unwrap().height,
    ensures
        ratio_sum(entries).num * height == ratio_count(entries) * width * ratio_sum(entries).den,
    decreases entries.len(),
{
    if entries.len() == 0 {
        assert(0 * height == 0 * width * 1) by (nonlinear_arith);
    } else {
        let front = entries.drop_last();
        assert forall|i: int| 0 <= i < front.len() && has_ratio(#[trigger] front[i]) implies front[i].size2d.unwrap().width
            * height == width * front[i].size2d.unwrap().height by {
            assert(front[i] == entries[i]);
        }
        lemma_same_shape_sum(front, width, height);
        if has_ratio(entries.last()) {
            let e = entries[entries.len() - 1];
            let w = e.size2d.unwrap().width as nat;
            let h = e.size2d.unwrap().height as nat;
            let n = ratio_sum(front).num;
            let d = ratio_sum(front).den;
            let k = ratio_count(front);
            assert((n * h + w * d) * height == (k + 1) * width * (d * h)) by (nonlinear_arith)
                requires
                    n * height == k * width * d,
                    w * height == width * h,
            ;
        }
    }
}

/// A canvas of the very shape that every panel of known size has is a tie,
/// and so is split top-bottom, whatever the sizes are: the mean is taken
/// without rounding.
pub proof fn lemma_same_shape_splits_top_bottom(
    size: CanvasView,
    order: Seq<SpaceMakeInfoView>,
    index: int,
)
    requires
        0 < index < order.len(),
        ratio_count(order) > 0,
        forall|i: int|
            0 <= i < order.len() && has_ratio(#[trigger] order[i]) ==> order[i].size2d.unwrap().width
                * size.height == size.width * order[i].size2d.unwrap().height,
    ensures
        split_layout(size, order, index) is TopBottom,
{
    lemma_same_shape_sum(order, size.width, size.height);
    let n = ratio_sum(order).num;
    let d = ratio_sum(order).den;
    let k = ratio_count(order);
    assert(size.width * (d * k) == n * size.height) by (nonlinear_arith)
        requires
            n * size.height == k * size.width * d,
    ;
}

/// Panels without content of a known shape want the ratio 16 to 9.
pub proof fn lemma_default_ratio(entries: Seq<SpaceMakeInfoView>)
    requires
        forall|i: int| 0 <= i < entries.len() ==> !has_ratio(#[trigger] entries[i]),
    ensures
        wanted_ratio(entries) == default_ratio(),
    decreases entries.len(),
{
    lemma_no_ratio_count(entries);
}

proof fn lemma_no_ratio_count(entries: Seq<SpaceMakeInfoView>)
    requires
        forall|i: int| 0 <= i < entries.len() ==> !has_ratio(#[trigger] entries[i]),
    ensures
        ratio_count(entries) == 0,
    decreases entries.len(),
{
    if entries.len() > 0 {
        assert forall|i: int| 0 <= i < entries.drop_last().len() implies !has_ratio(
            #[trigger] entries.drop_last()[i],
        ) by {
            assert(entries.drop_last()[i] == entries[i]);
        }
        lemma_no_ratio_count(entries.drop_last());
        assert(!has_ratio(entries[entries.len() - 1]));
    }
}

} // verus!
