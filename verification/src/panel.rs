//! What the layout needs to know of a panel.

use crate::path::ObjPath;
use crate::space_view_id::SpaceViewId;
use vstd::prelude::*;

verus! {

/// A width and a height in whole points.
#[derive(Clone, Copy, Debug, PartialEq, Eq, Structural)]
pub struct Size2 {
    pub width: u32,
    pub height: u32,
}

/// One panel to lay out: which view it is, which space it shows, and the size
/// of its content where the content is two-dimensional and the size is known.
#[derive(Debug)]
pub struct SpaceMakeInfo {
    pub id: SpaceViewId,
    pub path: ObjPath,
    pub size2d: Option<Size2>,
}

/// Mathematical content of a `SpaceMakeInfo`.
pub struct SpaceMakeInfoView {
    pub id: SpaceViewId,
    pub path: Seq<Seq<u8>>,
    pub size2d: Option<Size2>,
}

impl View for SpaceMakeInfo {
    type V = SpaceMakeInfoView;

    open spec fn view(&self) -> SpaceMakeInfoView {
        SpaceMakeInfoView { id: self.id, path: self.path@, size2d: self.size2d }
    }
}

/// Whether the panel shows two-dimensional content of known size.
pub open spec fn is_2d(e: SpaceMakeInfoView) -> bool {
    e.size2d.is_some()
}

/// The panels that a list of `SpaceMakeInfo` values stands for.
pub open spec fn panel_views(s: Seq<SpaceMakeInfo>) -> Seq<SpaceMakeInfoView> {
    Seq::new(s.len(), |i: int| s[i]@)
}

/// The panels of each group in a list of groups.
pub open spec fn group_views(s: Seq<Vec<SpaceMakeInfo>>) -> Seq<Seq<SpaceMakeInfoView>> {
    Seq::new(s.len(), |i: int| panel_views(s[i]@))
}

impl SpaceMakeInfo {
    /// Whether the panel shows two-dimensional content of known size.
    pub fn is_2d(&self) -> (r: bool)
        ensures
            r == is_2d(self@),
    {
        self.size2d.is_some()
    }

    /// A fresh copy of this panel description.
    pub fn duplicate(&self) -> (r: SpaceMakeInfo)
        ensures
            r@ == self@,
    {
        SpaceMakeInfo { id: self.id, path: self.path.duplicate(), size2d: self.size2d }
    }
}

impl Clone for SpaceMakeInfo {
    fn clone(&self) -> (r: SpaceMakeInfo)
        ensures
            r@ == self@,
    {
        self.duplicate()
    }
}

/// A copy of the panels `from..to` of `spaces`, in order.
pub fn copy_range(spaces: &Vec<SpaceMakeInfo>, from: usize, to: usize) -> (r: Vec<SpaceMakeInfo>)
    requires
        from <= to <= spaces@.len(),
    ensures
        panel_views(r@) == panel_views(spaces@).subrange(from as int, to as int),
{
    let mut out: Vec<SpaceMakeInfo> = Vec::new();
    let mut i: usize = from;
    while i < to
        invariant
            from <= i <= to,
            to <= spaces@.len(),
            panel_views(out@) == panel_views(spaces@).subrange(from as int, i as int),
        decreases to - i,
    {
        let ghost before = out@;
        out.push(spaces[i].duplicate());
        assert(panel_views(out@) =~= panel_views(before).push(spaces@[i as int]@));
        assert(panel_views(spaces@).subrange(from as int, i as int + 1) =~= panel_views(
            spaces@,
        ).subrange(from as int, i as int).push(spaces@[i as int]@));
        i += 1;
    }
    out
}

} // verus!
