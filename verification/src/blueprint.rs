//! The blueprint: which space views exist, which are visible, and how they
//! are laid out.

use crate::id_map::IdMap;
use crate::layout::{
    layout_of, layout_spaces, leaves, Canvas, CanvasView, LayoutSplit, LayoutView,
};
use crate::panel::{panel_views, SpaceMakeInfo, SpaceMakeInfoView};
use crate::path::{path_views, ObjPath};
use crate::path_map::PathSet;
use crate::space_view::{fresh_view, SpaceView, SpaceViewModel};
use crate::space_view_id::{is_random_uuid, SpaceViewId};
use crate::spaces::{SpaceInfo, SpacesInfo};
use vstd::prelude::*;

verus! {

/// Is this space worthy of its own space view by default?
///
/// It is, unless it holds a single object of no known type: such an object is
/// probably there for its transform alone, so there is nothing to show.
pub open spec fn wants_default_view(space: SpaceInfo, typed_objects: Set<Seq<Seq<u8>>>) -> bool {
    !(space.objects.spec_paths().len() == 1 && !typed_objects.contains(space.objects.spec_paths()[0]))
}

/// Decides whether a space gets a view of its own by default, given the set
/// of objects that have a known type.
pub fn should_have_default_view(space_info: &SpaceInfo, typed_objects: &PathSet) -> (r: bool)
    requires
        space_info.wf(),
        typed_objects.wf(),
    ensures
        r == wants_default_view(*space_info, typed_objects@),
{
    if space_info.objects.len() == 1 {
        let obj = space_info.objects.path(0);
        if !typed_objects.contains(obj) {
            return false;
        }
    }
    true
}

/// The paths of the spaces among the first `n` that get a view by default.
pub open spec fn default_view_paths_upto(
    spaces: SpacesInfo,
    typed_objects: Set<Seq<Seq<u8>>>,
    n: int,
) -> Seq<Seq<Seq<u8>>>
    decreases n,
{
    if n <= 0 {
        Seq::empty()
    } else {
        let before = default_view_paths_upto(spaces, typed_objects, n - 1);
        if wants_default_view(spaces.spaces.spec_vals()[n - 1], typed_objects) {
            before.push(spaces.spaces.spec_keys()[n - 1])
        } else {
            before
        }
    }
}

/// The paths of all spaces that get a view by default, in path order.
pub open spec fn default_view_paths(spaces: SpacesInfo, typed_objects: Set<Seq<Seq<u8>>>) -> Seq<
    Seq<Seq<u8>>,
> {
    default_view_paths_upto(spaces, typed_objects, spaces.spaces.spec_keys().len() as int)
}

/// Lists the spaces that get a view by default, in path order.
pub fn spaces_with_default_view(spaces_info: &SpacesInfo, typed_objects: &PathSet) -> (r: Vec<ObjPath>)
    requires
        spaces_info.wf(),
        typed_objects.wf(),
    ensures
        path_views(r@) == default_view_paths(*spaces_info, typed_objects@),
{
    let mut out: Vec<ObjPath> = Vec::new();
    let n = spaces_info.spaces.len();
    let mut i: usize = 0;
    assert(path_views(out@) =~= default_view_paths_upto(*spaces_info, typed_objects@, 0));
    while i < n
        invariant
            i <= n,
            n == spaces_info.spaces.spec_keys().len(),
            spaces_info.wf(),
            typed_objects.wf(),
            path_views(out@) == default_view_paths_upto(*spaces_info, typed_objects@, i as int),
        decreases n - i,
    {
        let space_info = spaces_info.spaces.value(i);
        let ghost before = out@;
        if should_have_default_view(space_info, typed_objects) {
            out.push(spaces_info.spaces.key(i).duplicate());
            assert(path_views(out@) =~= path_views(before).push(spaces_info.spaces.spec_keys()[i as int]));
        }
        i += 1;
    }
    out
}

/// A layout kept for as long as the same views are visible.
#[derive(Debug)]
pub struct CachedLayout {
    /// Which views were visible when the layout was made.
    pub key: IdMap<bool>,
    /// The layout; `None` where no view was visible.
    pub tree: Option<LayoutSplit>,
}

/// Mathematical content of a `CachedLayout`.
pub struct CachedLayoutModel {
    pub key: Map<SpaceViewId, bool>,
    pub tree: Option<LayoutView>,
}

/// Mathematical content of a `ViewportBlueprint`.
pub struct ViewportModel {
    pub space_views: Map<SpaceViewId, SpaceViewModel>,
    pub visible: Map<SpaceViewId, bool>,
    pub layout: Option<CachedLayoutModel>,
    pub maximized: Option<SpaceViewId>,
}

/// The blueprint without any view.
pub open spec fn empty_viewport() -> ViewportModel {
    ViewportModel {
        space_views: Map::empty(),
        visible: Map::empty(),
        layout: None,
        maximized: None,
    }
}

/// The blueprint after a fresh, visible view of the space at `path` is stored
/// under `id`. Any layout made before is dropped.
pub open spec fn with_view(m: ViewportModel, id: SpaceViewId, path: Seq<Seq<u8>>) -> ViewportModel {
    ViewportModel {
        space_views: m.space_views.insert(id, fresh_view(path)),
        visible: m.visible.insert(id, true),
        layout: None,
        maximized: m.maximized,
    }
}

/// The blueprint after views of the spaces at `paths` are stored, one after
/// the other, under the ids at the same positions of `ids`.
pub open spec fn with_views(m: ViewportModel, paths: Seq<Seq<Seq<u8>>>, ids: Seq<SpaceViewId>) -> ViewportModel
    decreases paths.len(),
{
    if paths.len() == 0 || ids.len() != paths.len() {
        m
    } else {
        with_view(with_views(m, paths.drop_last(), ids.drop_last()), ids.last(), paths.last())
    }
}

/// Whether some view of the blueprint shows the space at `path`.
pub open spec fn shows_space(m: ViewportModel, path: Seq<Seq<u8>>) -> bool {
    exists|id: SpaceViewId| #[trigger] m.space_views.dom().contains(id) && m.space_views[id].space_path == path
}

/// Describes the layout and contents of the viewport panel.
#[derive(Debug)]
pub struct ViewportBlueprint {
    /// Where the space views are stored.
    space_views: IdMap<SpaceView>,
    /// Which views are visible.
    visible: IdMap<bool>,
    /// The layout of the visible views, once it has been made.
    layout: Option<CachedLayout>,
    /// Show one view as maximized?
    maximized: Option<SpaceViewId>,
}

/// The views of a map of space views, as mathematical content.
pub open spec fn view_models(views: IdMap<SpaceView>) -> Map<SpaceViewId, SpaceViewModel> {
    Map::new(|id: SpaceViewId| views@.dom().contains(id), |id: SpaceViewId| views@[id]@)
}

impl ViewportBlueprint {
    /// Both maps, and the key of the layout if there is one, are well formed.
    pub closed spec fn wf(&self) -> bool {
        &&& self.space_views.wf()
        &&& self.visible.wf()
        &&& self.layout.is_some() ==> self.layout.unwrap().key.wf()
    }

    /// The blueprint as plain mathematical data.
    pub closed spec fn view(&self) -> ViewportModel {
        ViewportModel {
            space_views: view_models(self.space_views),
            visible: self.visible@,
            layout: match self.layout {
                Some(cached) => Some(
                    CachedLayoutModel {
                        key: cached.key@,
                        tree: match cached.tree {
                            Some(tree) => Some(tree@),
                            None => None,
                        },
                    },
                ),
                None => None,
            },
            maximized: self.maximized,
        }
    }

    /// A blueprint without any view.
    pub fn empty() -> (r: ViewportBlueprint)
        ensures
            r.wf(),
            r@ == empty_viewport(),
    {
        let r = ViewportBlueprint {
            space_views: IdMap::new(),
            visible: IdMap::new(),
            layout: None,
            maximized: None,
        };
        assert(r@.space_views =~= Map::<SpaceViewId, SpaceViewModel>::empty());
        r
    }

    /// Stores a fresh, visible view of the space at `path` under `id`, in
    /// place of any view that had this id, and drops the layout.
    pub fn add_space_view_with_id(&mut self, id: SpaceViewId, path: &ObjPath)
        requires
            old(self).wf(),
        ensures
            final(self).wf(),
            final(self)@ == with_view(old(self)@, id, path@),
    {
        let view = SpaceView::from_path(path.duplicate());
        self.space_views.insert(id, view);
        self.visible.insert(id, true);
        self.layout = None;
        proof {
            assert(self@.space_views =~= old(self)@.space_views.insert(id, fresh_view(path@)));
        }
    }

    /// Adds a fresh, visible view of the space at `path` under a new random
    /// id and drops the layout.
    pub fn add_space_view(&mut self, path: &ObjPath)
        requires
            old(self).wf(),
        ensures
            final(self).wf(),
            exists|id: SpaceViewId| is_random_uuid(id.0) && final(self)@ == #[trigger] with_view(
                old(self)@,
                id,
                path@,
            ),
    {
        let space_view_id = SpaceViewId::random();
        self.add_space_view_with_id(space_view_id, path);
        assert(is_random_uuid(space_view_id.0) && self@ == with_view(old(self)@, space_view_id, path@));
    }
}

/// Draws `n` random ids.
pub fn random_ids(n: usize) -> (r: Vec<SpaceViewId>)
    ensures
        r@.len() == n,
        forall|i: int| 0 <= i < n ==> is_random_uuid((#[trigger] r@[i]).0),
{
    let mut ids: Vec<SpaceViewId> = Vec::new();
    let mut i: usize = 0;
    while i < n
        invariant
            i <= n,
            ids@.len() == i,
            forall|k: int| 0 <= k < i ==> is_random_uuid((#[trigger] ids@[k]).0),
        decreases n - i,
    {
        ids.push(SpaceViewId::random());
        i += 1;
    }
    ids
}

/// Of the given spaces, those that no view of the blueprint shows.
pub open spec fn spaces_without_view(m: ViewportModel, paths: Seq<Seq<Seq<u8>>>) -> Seq<Seq<Seq<u8>>> {
    paths.filter(|p: Seq<Seq<u8>>| !shows_space(m, p))
}

/// The blueprint at the start of a frame, when the given ids are used for
/// the views that are added: a blueprint without views is set up anew with a
/// view for every space that wants one; any other gets a view for each such
/// space that it does not show yet.
pub open spec fn frame_start(
    m: ViewportModel,
    wanted: Seq<Seq<Seq<u8>>>,
    ids: Seq<SpaceViewId>,
) -> ViewportModel {
    if m.space_views.dom() == Set::<SpaceViewId>::empty() {
        with_views(empty_viewport(), wanted, ids)
    } else {
        with_views(m, spaces_without_view(m, wanted), ids)
    }
}

/// How many views are added at the start of a frame.
pub open spec fn frame_start_count(m: ViewportModel, wanted: Seq<Seq<Seq<u8>>>) -> nat {
    if m.space_views.dom() == Set::<SpaceViewId>::empty() {
        wanted.len()
    } else {
        spaces_without_view(m, wanted).len()
    }
}

impl ViewportBlueprint {
    /// Stores fresh, visible views of the spaces at `paths`, one after the
    /// other, each under the id at the same position of `ids`.
    pub fn add_space_views(&mut self, paths: &Vec<ObjPath>, ids: &Vec<SpaceViewId>)
        requires
            old(self).wf(),
            paths@.len() == ids@.len(),
        ensures
            final(self).wf(),
            final(self)@ == with_views(old(self)@, path_views(paths@), ids@),
    {
        let ghost all = path_views(paths@);
        let mut i: usize = 0;
        proof {
            assert(all.take(0) =~= Seq::<Seq<Seq<u8>>>::empty());
        }
        while i < paths.len()
            invariant
                i <= paths@.len(),
                paths@.len() == ids@.len(),
                all == path_views(paths@),
                self.wf(),
                self@ == with_views(old(self)@, all.take(i as int), ids@.take(i as int)),
            decreases paths@.len() - i,
        {
            proof {
                assert(all.take(i as int + 1).drop_last() =~= all.take(i as int));
                assert(ids@.take(i as int + 1).drop_last() =~= ids@.take(i as int));
                assert(all.take(i as int + 1).last() == paths@[i as int]@);
                assert(ids@.take(i as int + 1).last() == ids@[i as int]);
            }
            self.add_space_view_with_id(ids[i], &paths[i]);
            i += 1;
        }
        proof {
            assert(all.take(paths@.len() as int) =~= all);
            assert(ids@.take(paths@.len() as int) =~= ids@);
        }
    }

    /// Create a default suggested blueprint: one fresh, visible view, under a
    /// random id, for every space that is worthy of one.
    pub fn new(spaces_info: &SpacesInfo, typed_objects: &PathSet) -> (r: ViewportBlueprint)
        requires
            spaces_info.wf(),
            typed_objects.wf(),
        ensures
            r.wf(),
            exists|ids: Seq<SpaceViewId>|
                ids.len() == default_view_paths(*spaces_info, typed_objects@).len() && (forall|i: int|
                    0 <= i < ids.len() ==> is_random_uuid((#[trigger] ids[i]).0)) && r@
                    == #[trigger] with_views(
                    empty_viewport(),
                    default_view_paths(*spaces_info, typed_objects@),
                    ids,
                ),
    {
        let paths = spaces_with_default_view(spaces_info, typed_objects);
        let ids = random_ids(paths.len());
        let mut blueprint = ViewportBlueprint::empty();
        blueprint.add_space_views(&paths, &ids);
        proof {
            let wanted = default_view_paths(*spaces_info, typed_objects@);
            assert(path_views(paths@).len() == paths@.len());
            assert(ids@.len() == wanted.len() && (forall|i: int|
                0 <= i < ids@.len() ==> is_random_uuid((#[trigger] ids@[i]).0)) && blueprint@
                == with_views(empty_viewport(), wanted, ids@));
        }
        blueprint
    }

    /// Number of space views.
    pub fn num_space_views(&self) -> (n: usize)
        requires
            self.wf(),
        ensures
            self@.space_views.dom().finite(),
            n == self@.space_views.dom().len(),
            (n == 0) == (self@.space_views.dom() == Set::<SpaceViewId>::empty()),
    {
        proof {
            assert(self@.space_views.dom() =~= self.space_views@.dom());
            if self.space_views.spec_keys().len() > 0 {
                crate::id_map::lemma_id_map_index(
                    self.space_views.spec_keys(),
                    self.space_views.spec_vals(),
                    0,
                );
                assert(self@.space_views.dom().contains(self.space_views.spec_keys()[0]));
            } else {
                assert(self@.space_views.dom() =~= Set::<SpaceViewId>::empty());
            }
        }
        self.space_views.len()
    }

    /// Whether some view shows the space at `space_path`.
    pub fn has_space(&self, space_path: &ObjPath) -> (r: bool)
        requires
            self.wf(),
        ensures
            r == shows_space(self@, space_path@),
    {
        let n = self.space_views.len();
        let mut i: usize = 0;
        while i < n
            invariant
                i <= n,
                n == self.space_views.spec_keys().len(),
                self.wf(),
                forall|k: int|
                    0 <= k < i ==> (#[trigger] self.space_views.spec_vals()[k]).space_path@
                        != space_path@,
            decreases n - i,
        {
            if self.space_views.value(i).space_path.equals(space_path) {
                proof {
                    let id = self.space_views.spec_keys()[i as int];
                    crate::id_map::lemma_id_map_index(
                        self.space_views.spec_keys(),
                        self.space_views.spec_vals(),
                        i as int,
                    );
                    assert(self@.space_views.dom().contains(id) && self@.space_views[id].space_path
                        == space_path@);
                }
                return true;
            }
            i += 1;
        }
        proof {
            if shows_space(self@, space_path@) {
                let id = choose|id: SpaceViewId| #[trigger]
                    self@.space_views.dom().contains(id) && self@.space_views[id].space_path
                        == space_path@;
                assert(self.space_views.spec_keys().contains(id));
                let k = self.space_views.spec_keys().index_of(id);
                assert(self.space_views.spec_keys()[k] == id);
                crate::id_map::lemma_id_map_index(
                    self.space_views.spec_keys(),
                    self.space_views.spec_vals(),
                    k,
                );
                assert(self.space_views.spec_vals()[k].space_path@ == space_path@);
            }
        }
        false
    }

    /// The spaces among `paths` that no view shows, in their order.
    pub fn spaces_missing_a_view(&self, paths: &Vec<ObjPath>) -> (r: Vec<ObjPath>)
        requires
            self.wf(),
        ensures
            path_views(r@) == spaces_without_view(self@, path_views(paths@)),
    {
        let ghost all = path_views(paths@);
        let ghost pred = |p: Seq<Seq<u8>>| !shows_space(self@, p);
        let mut out: Vec<ObjPath> = Vec::new();
        let mut i: usize = 0;
        proof {
            reveal(Seq::filter);
            assert(all.take(0) =~= Seq::<Seq<Seq<u8>>>::empty());
            assert(path_views(out@) =~= all.take(0).filter(pred));
        }
        while i < paths.len()
            invariant
                i <= paths@.len(),
                self.wf(),
                all == path_views(paths@),
                pred == (|p: Seq<Seq<u8>>| !shows_space(self@, p)),
                path_views(out@) == all.take(i as int).filter(pred),
            decreases paths@.len() - i,
        {
            proof {
                assert(all.take(i as int + 1).drop_last() =~= all.take(i as int));
                assert(all.take(i as int + 1).last() == paths@[i as int]@);
                reveal(Seq::filter);
            }
            let ghost before = out@;
            if !self.has_space(&paths[i]) {
                out.push(paths[i].duplicate());
                assert(path_views(out@) =~= path_views(before).push(paths@[i as int]@));
            }
            i += 1;
        }
        proof {
            assert(all.take(paths@.len() as int) =~= all);
        }
        out
    }

    /// Brings the blueprint up to date with the spaces at the start of a
    /// frame.
    ///
    /// A blueprint without views is replaced by the default one. Any other
    /// gets a view for each space that is worthy of one and that none of its
    /// views shows, maybe because new data has brought the space about.
    pub fn on_frame_start(&mut self, spaces_info: &SpacesInfo, typed_objects: &PathSet)
        requires
            old(self).wf(),
            spaces_info.wf(),
            typed_objects.wf(),
        ensures
            final(self).wf(),
            exists|ids: Seq<SpaceViewId>|
                ids.len() == frame_start_count(
                    old(self)@,
                    default_view_paths(*spaces_info, typed_objects@),
                ) && (forall|i: int| 0 <= i < ids.len() ==> is_random_uuid((#[trigger] ids[i]).0))
                    && final(self)@ == #[trigger] frame_start(
                    old(self)@,
                    default_view_paths(*spaces_info, typed_objects@),
                    ids,
                ),
    {
        let ghost wanted = default_view_paths(*spaces_info, typed_objects@);
        let paths = spaces_with_default_view(spaces_info, typed_objects);
        assert(path_views(paths@).len() == paths@.len());
        if self.num_space_views() == 0 {
            let ids = random_ids(paths.len());
            let mut blueprint = ViewportBlueprint::empty();
            blueprint.add_space_views(&paths, &ids);
            *self = blueprint;
            proof {
                assert(ids@.len() == frame_start_count(old(self)@, wanted) && (forall|i: int|
                    0 <= i < ids@.len() ==> is_random_uuid((#[trigger] ids@[i]).0)) && self@
                    == frame_start(old(self)@, wanted, ids@));
            }
        } else {
            let missing = self.spaces_missing_a_view(&paths);
            assert(path_views(missing@).len() == missing@.len());
            let ids = random_ids(missing.len());
            self.add_space_views(&missing, &ids);
            proof {
                assert(ids@.len() == frame_start_count(old(self)@, wanted) && (forall|i: int|
                    0 <= i < ids@.len() ==> is_random_uuid((#[trigger] ids@[i]).0)) && self@
                    == frame_start(old(self)@, wanted, ids@));
            }
        }
    }
}

/// Whether the view with the given id is to be shown.
pub open spec fn is_shown(visible: Map<SpaceViewId, bool>, id: SpaceViewId) -> bool {
    visible.dom().contains(id) && visible[id]
}

/// The panels for the visible views among the first `n`, in ascending order
/// of their ids. The size of their content is not known.
pub open spec fn visible_panels_upto(
    ids: Seq<SpaceViewId>,
    views: Seq<SpaceView>,
    visible: Map<SpaceViewId, bool>,
    n: int,
) -> Seq<SpaceMakeInfoView>
    decreases n,
{
    if n <= 0 {
        Seq::empty()
    } else {
        let before = visible_panels_upto(ids, views, visible, n - 1);
        if is_shown(visible, ids[n - 1]) {
            before.push(
                SpaceMakeInfoView { id: ids[n - 1], path: views[n - 1].space_path@, size2d: None },
            )
        } else {
            before
        }
    }
}

/// The panels for all visible views.
pub open spec fn visible_panels(space_views: IdMap<SpaceView>, visible: Map<SpaceViewId, bool>) -> Seq<
    SpaceMakeInfoView,
> {
    visible_panels_upto(
        space_views.spec_keys(),
        space_views.spec_vals(),
        visible,
        space_views.spec_keys().len() as int,
    )
}

/// The layout of the given panels, or `None` where there is no panel.
pub open spec fn layout_or_none(size: CanvasView, panels: Seq<SpaceMakeInfoView>) -> Option<LayoutView> {
    if panels.len() == 0 {
        None
    } else {
        Some(layout_of(size, panels))
    }
}

/// The layout as mathematical content, where there is one.
pub open spec fn tree_view(tree: Option<LayoutSplit>) -> Option<LayoutView> {
    match tree {
        Some(t) => Some(t@),
        None => None,
    }
}

/// Lists the panels of the visible views, in ascending order of their ids.
pub fn visible_space_make_infos(visible: &IdMap<bool>, space_views: &IdMap<SpaceView>) -> (r: Vec<
    SpaceMakeInfo,
>)
    requires
        visible.wf(),
        space_views.wf(),
    ensures
        panel_views(r@) == visible_panels(*space_views, visible@),
{
    let mut out: Vec<SpaceMakeInfo> = Vec::new();
    let n = space_views.len();
    let mut i: usize = 0;
    assert(panel_views(out@) =~= visible_panels_upto(
        space_views.spec_keys(),
        space_views.spec_vals(),
        visible@,
        0,
    ));
    while i < n
        invariant
            i <= n,
            n == space_views.spec_keys().len(),
            visible.wf(),
            space_views.wf(),
            panel_views(out@) == visible_panels_upto(
                space_views.spec_keys(),
                space_views.spec_vals(),
                visible@,
                i as int,
            ),
        decreases n - i,
    {
        let space_view_id = space_views.key(i);
        let shown = match visible.get(space_view_id) {
            Some(v) => *v,
            None => false,
        };
        let ghost before = out@;
        if shown {
            let info = SpaceMakeInfo {
                id: space_view_id,
                path: space_views.value(i).space_path.duplicate(),
                size2d: None,
            };
            out.push(info);
            assert(panel_views(out@) =~= panel_views(before).push(
                SpaceMakeInfoView {
                    id: space_view_id,
                    path: space_views.spec_vals()[i as int].space_path@,
                    size2d: None,
                },
            ));
        }
        i += 1;
    }
    out
}

/// Lays out the visible views on a canvas of the given shape; `None` where
/// no view is visible.
pub fn tree_from_space_views(
    available_size: &Canvas,
    visible: &IdMap<bool>,
    space_views: &IdMap<SpaceView>,
) -> (r: Option<LayoutSplit>)
    requires
        visible.wf(),
        space_views.wf(),
    ensures
        tree_view(r) == layout_or_none(available_size@, visible_panels(*space_views, visible@)),
{
    let space_make_infos = visible_space_make_infos(visible, space_views);
    assert(panel_views(space_make_infos@).len() == space_make_infos@.len());
    if space_make_infos.len() > 0 {
        Some(layout_spaces(available_size.duplicate(), space_make_infos))
    } else {
        None
    }
}

/// What the viewport shows.
#[derive(Clone, Copy, Debug, PartialEq, Eq, Structural)]
pub enum ViewportMode {
    /// Nothing: no view is visible.
    Empty,
    /// The one visible view, filling the viewport.
    Single(SpaceViewId),
    /// One view of several, maximized.
    Maximized(SpaceViewId),
    /// All visible views, side by side as laid out.
    Docked,
}

/// What the viewport shows for the given layout and maximized view.
pub open spec fn mode_of(tree: Option<LayoutView>, maximized: Option<SpaceViewId>) -> ViewportMode {
    match tree {
        None => ViewportMode::Empty,
        Some(t) => {
            if leaves(t).len() == 1 {
                ViewportMode::Single(leaves(t)[0].id)
            } else {
                match maximized {
                    Some(id) => ViewportMode::Maximized(id),
                    None => ViewportMode::Docked,
                }
            }
        },
    }
}

/// Decides what the viewport shows.
pub fn viewport_mode(tree: &Option<LayoutSplit>, maximized: Option<SpaceViewId>) -> (r: ViewportMode)
    ensures
        r == mode_of(tree_view(*tree), maximized),
{
    match tree {
        None => ViewportMode::Empty,
        Some(t) => {
            let first = t.first_leaf().id;
            if t.leaf_count() == 1 {
                ViewportMode::Single(first)
            } else {
                match maximized {
                    Some(id) => ViewportMode::Maximized(id),
                    None => ViewportMode::Docked,
                }
            }
        },
    }
}

/// The layout that is kept once the viewport has been laid out: the one kept
/// before where it was made for the same visible views, else a new one.
pub open spec fn kept_layout(m: ViewportModel, fresh: Option<LayoutView>) -> CachedLayoutModel {
    if m.layout.is_some() && m.layout.unwrap().key == m.visible {
        m.layout.unwrap()
    } else {
        CachedLayoutModel { key: m.visible, tree: fresh }
    }
}

/// The blueprint once the viewport has been laid out, where `fresh` is the
/// layout of the views that are visible now.
pub open spec fn with_layout(m: ViewportModel, fresh: Option<LayoutView>) -> ViewportModel {
    ViewportModel { layout: Some(kept_layout(m, fresh)), ..m }
}

impl ViewportBlueprint {
    /// The panels of the visible views, in ascending order of their ids.
    pub closed spec fn spec_panels(&self) -> Seq<SpaceMakeInfoView> {
        visible_panels(self.space_views, self.visible@)
    }

    /// The view stored under the given id, if any.
    pub fn get_space_view(&self, space_view: &SpaceViewId) -> (r: Option<&SpaceView>)
        requires
            self.wf(),
        ensures
            r.is_some() == self@.space_views.dom().contains(*space_view),
            r.is_some() ==> r.unwrap()@ == self@.space_views[*space_view],
    {
        self.space_views.get(*space_view)
    }

    /// The view stored under the given id, if any, for changing it in place.
    /// Nothing else in the blueprint changes.
    pub fn get_space_view_mut(&mut self, space_view: &SpaceViewId) -> (r: Option<&mut SpaceView>)
        requires
            old(self).wf(),
        ensures
            final(self).wf(),
            final(self)@.visible == old(self)@.visible,
            final(self)@.layout == old(self)@.layout,
            final(self)@.maximized == old(self)@.maximized,
            match r {
                Some(v) => old(self)@.space_views.dom().contains(*space_view) && v@ == old(
                    self,
                )@.space_views[*space_view] && final(self)@.space_views == old(self)@.space_views.insert(
                    *space_view,
                    final(v)@,
                ),
                None => !old(self)@.space_views.dom().contains(*space_view) && final(self)@.space_views
                    == old(self)@.space_views,
            },
    {
        let ghost before = self.space_views;
        proof {
            assert forall|after: IdMap<SpaceView>, v: SpaceView|
                after@ == #[trigger] before@.insert(*space_view, v) implies #[trigger] view_models(after)
                == view_models(before).insert(*space_view, v@) by {
                assert(view_models(after) =~= view_models(before).insert(*space_view, v@));
            }
            assert forall|after: IdMap<SpaceView>| after@ == before@ implies #[trigger] view_models(after)
                == view_models(before) by {
                assert(view_models(after) =~= view_models(before));
            }
        }
        self.space_views.get_mut(*space_view)
    }

    /// Whether the view with the given id is to be shown. A view without a
    /// setting is not.
    pub fn is_visible(&self, space_view: &SpaceViewId) -> (r: bool)
        requires
            self.wf(),
        ensures
            r == is_shown(self@.visible, *space_view),
    {
        match self.visible.get(*space_view) {
            Some(v) => *v,
            None => false,
        }
    }

    /// Shows or hides the view with the given id.
    pub fn set_visible(&mut self, space_view: &SpaceViewId, visible: bool)
        requires
            old(self).wf(),
        ensures
            final(self).wf(),
            final(self)@ == (ViewportModel {
                visible: old(self)@.visible.insert(*space_view, visible),
                ..old(self)@
            }),
    {
        self.visible.insert(*space_view, visible);
    }

    /// The visibility setting of the view with the given id; a view without
    /// a setting gets the setting "visible" first.
    pub fn visibility_entry(&mut self, space_view: &SpaceViewId) -> (r: bool)
        requires
            old(self).wf(),
        ensures
            final(self).wf(),
            r == if old(self)@.visible.dom().contains(*space_view) {
                old(self)@.visible[*space_view]
            } else {
                true
            },
            final(self)@ == (ViewportModel {
                visible: old(self)@.visible.insert(*space_view, r),
                ..old(self)@
            }),
    {
        let current = match self.visible.get(*space_view) {
            Some(v) => Some(*v),
            None => None,
        };
        match current {
            Some(v) => {
                assert(self@.visible =~= self@.visible.insert(*space_view, v));
                v
            },
            None => {
                self.visible.insert(*space_view, true);
                true
            },
        }
    }

    /// The view that is shown maximized, if any.
    pub fn maximized(&self) -> (r: Option<SpaceViewId>)
        ensures
            r == self@.maximized,
    {
        self.maximized
    }

    /// Shows the given view maximized, or all views side by side for `None`.
    pub fn set_maximized(&mut self, maximized: Option<SpaceViewId>)
        requires
            old(self).wf(),
        ensures
            final(self).wf(),
            final(self)@ == (ViewportModel { maximized, ..old(self)@ }),
    {
        self.maximized = maximized;
    }

    /// Makes sure that there is a layout for the views that are visible now.
    ///
    /// A layout that was made for the same visible views is kept, so that it
    /// stays as the user left it. Otherwise the visible views are laid out
    /// afresh on a canvas of the given shape.
    pub fn update_layout(&mut self, available_size: &Canvas)
        requires
            old(self).wf(),
        ensures
            final(self).wf(),
            final(self).spec_panels() == old(self).spec_panels(),
            final(self)@ == with_layout(
                old(self)@,
                layout_or_none(available_size@, old(self).spec_panels()),
            ),
    {
        let up_to_date = match &self.layout {
            Some(cached) => cached.key.same_as(&self.visible),
            None => false,
        };
        if !up_to_date {
            let tree = tree_from_space_views(available_size, &self.visible, &self.space_views);
            self.layout = Some(CachedLayout { key: self.visible.duplicate(), tree });
        }
    }

    /// The layout of the visible views, where one has been made.
    pub fn layout(&self) -> (r: Option<&CachedLayout>)
        ensures
            r.is_some() == self@.layout.is_some(),
            r.is_some() ==> r.unwrap().key@ == self@.layout.unwrap().key && tree_view(r.unwrap().tree)
                == self@.layout.unwrap().tree,
    {
        match &self.layout {
            Some(cached) => Some(cached),
            None => None,
        }
    }

    /// Decides what the viewport shows: nothing before a layout is made,
    /// else what the layout and the maximized view call for.
    pub fn mode(&self) -> (r: ViewportMode)
        ensures
            r == match self@.layout {
                Some(cached) => mode_of(cached.tree, self@.maximized),
                None => ViewportMode::Empty,
            },
    {
        match &self.layout {
            Some(cached) => viewport_mode(&cached.tree, self.maximized),
            None => ViewportMode::Empty,
        }
    }
}

/// Defines the layout of the whole viewer.
#[derive(Debug)]
pub struct Blueprint {
    pub viewport: ViewportBlueprint,
}

impl Blueprint {
    /// A blueprint without any view.
    pub fn empty() -> (r: Blueprint)
        ensures
            r.viewport.wf(),
            r.viewport@ == empty_viewport(),
    {
        Blueprint { viewport: ViewportBlueprint::empty() }
    }

    /// Prepares one frame: analyses the spaces, brings the views up to date
    /// with them, lays the visible views out, and decides what the viewport
    /// shows. Returns the spaces and that decision.
    pub fn blueprint_panel_and_viewport(
        &mut self,
        tree: &crate::object_tree::ObjectTree,
        transforms: &crate::path_map::PathMap<crate::transform::Transform>,
        coordinates: &crate::path_map::PathMap<crate::transform::ViewCoordinates>,
        typed_objects: &PathSet,
        available_size: &Canvas,
    ) -> (r: (SpacesInfo, ViewportMode))
        requires
            old(self).viewport.wf(),
            tree.wf(),
            transforms.wf(),
            coordinates.wf(),
            typed_objects.wf(),
        ensures
            final(self).viewport.wf(),
            r.0.wf(),
            r.0@ == crate::spaces::spaces_of(tree@, transforms@, coordinates@),
            final(self).viewport@.layout.is_some(),
            r.1 == mode_of(final(self).viewport@.layout.unwrap().tree, final(self).viewport@.maximized),
            exists|ids: Seq<SpaceViewId>|
                ids.len() == frame_start_count(
                    old(self).viewport@,
                    default_view_paths(r.0, typed_objects@),
                ) && final(self).viewport@ == with_layout(
                    #[trigger] frame_start(
                        old(self).viewport@,
                        default_view_paths(r.0, typed_objects@),
                        ids,
                    ),
                    layout_or_none(available_size@, final(self).viewport.spec_panels()),
                ),
    {
        let spaces_info = SpacesInfo::new(tree, transforms, coordinates);
        self.viewport.on_frame_start(&spaces_info, typed_objects);
        let ghost started = self.viewport@;
        self.viewport.update_layout(available_size);
        let mode = self.viewport.mode();
        proof {
            let wanted = default_view_paths(spaces_info, typed_objects@);
            let ids = choose|ids: Seq<SpaceViewId>|
                ids.len() == frame_start_count(old(self).viewport@, wanted) && (forall|i: int|
                    0 <= i < ids.len() ==> is_random_uuid((#[trigger] ids[i]).0)) && started
                    == #[trigger] frame_start(old(self).viewport@, wanted, ids);
            assert(ids.len() == frame_start_count(old(self).viewport@, wanted) && self.viewport@
                == with_layout(
                frame_start(old(self).viewport@, wanted, ids),
                layout_or_none(available_size@, self.viewport.spec_panels()),
            ));
        }
        (spaces_info, mode)
    }
}

/// Whether the panel stands for the `k`-th view, which is shown.
pub open spec fn is_panel_of(
    panel: SpaceMakeInfoView,
    ids: Seq<SpaceViewId>,
    views: Seq<SpaceView>,
    visible: Map<SpaceViewId, bool>,
    k: int,
) -> bool {
    &&& 0 <= k < ids.len()
    &&& ids[k] == panel.id
    &&& is_shown(visible, ids[k])
    &&& panel.path == views[k].space_path@
    &&& panel.size2d.is_none()
}

proof fn lemma_panel_origin(
    ids: Seq<SpaceViewId>,
    views: Seq<SpaceView>,
    visible: Map<SpaceViewId, bool>,
    n: int,
    i: int,
) -> (k: int)
    requires
        ids.len() == views.len(),
        0 <= n <= ids.len(),
        0 <= i < visible_panels_upto(ids, views, visible, n).len(),
    ensures
        k < n,
        is_panel_of(visible_panels_upto(ids, views, visible, n)[i], ids, views, visible, k),
    decreases n,
{
    let before = visible_panels_upto(ids, views, visible, n - 1);
    if i < before.len() {
        lemma_panel_origin(ids, views, visible, n - 1, i)
    } else {
        n - 1
    }
}

proof fn lemma_panel_exists(
    ids: Seq<SpaceViewId>,
    views: Seq<SpaceView>,
    visible: Map<SpaceViewId, bool>,
    n: int,
    k: int,
) -> (i: int)
    requires
        ids.len() == views.len(),
        0 <= k < n <= ids.len(),
        is_shown(visible, ids[k]),
    ensures
        0 <= i < visible_panels_upto(ids, views, visible, n).len(),
        visible_panels_upto(ids, views, visible, n)[i].id == ids[k],
    decreases n,
{
    let before = visible_panels_upto(ids, views, visible, n - 1);
    if k < n - 1 {
        lemma_panel_exists(ids, views, visible, n - 1, k)
    } else {
        before.len() as int
    }
}

proof fn lemma_panels_ascending(
    ids: Seq<SpaceViewId>,
    views: Seq<SpaceView>,
    visible: Map<SpaceViewId, bool>,
    n: int,
    i: int,
    j: int,
)
    requires
        crate::id_map::sorted_ids(ids),
        ids.len() == views.len(),
        0 <= n <= ids.len(),
        0 <= i < j < visible_panels_upto(ids, views, visible, n).len(),
    ensures
        visible_panels_upto(ids, views, visible, n)[i].id.0 < visible_panels_upto(
            ids,
            views,
            visible,
            n,
        )[j].id.0,
    decreases n,
{
    let before = visible_panels_upto(ids, views, visible, n - 1);
    if j < before.len() {
        lemma_panels_ascending(ids, views, visible, n - 1, i, j);
    } else {
        let k = lemma_panel_origin(ids, views, visible, n - 1, i);
        assert(ids[k].0 < ids[n - 1].0);
    }
}

impl ViewportBlueprint {
    /// What the panels of a blueprint are, in terms of its views: one panel
    /// for each view that is stored and shown, with the path of its space and
    /// no known content size, in ascending order of the ids.
    pub proof fn lemma_spec_panels(&self)
        requires
            self.wf(),
        ensures
            forall|i: int|
                0 <= i < self.spec_panels().len() ==> {
                    let panel = #[trigger] self.spec_panels()[i];
                    &&& self@.space_views.dom().contains(panel.id)
                    &&& is_shown(self@.visible, panel.id)
                    &&& panel.path == self@.space_views[panel.id].space_path
                    &&& panel.size2d.is_none()
                },
            forall|id: SpaceViewId|
                #[trigger] self@.space_views.dom().contains(id) && is_shown(self@.visible, id)
                    ==> exists|i: int|
                    0 <= i < self.spec_panels().len() && (#[trigger] self.spec_panels()[i]).id == id,
            forall|i: int, j: int|
                0 <= i < j < self.spec_panels().len() ==> (#[trigger] self.spec_panels()[i]).id.0 < (
                #[trigger] self.spec_panels()[j]).id.0,
    {
        let ids = self.space_views.spec_keys();
        let views = self.space_views.spec_vals();
        let visible = self.visible@;
        let panels = self.spec_panels();
        let n = ids.len() as int;
        assert forall|i: int| 0 <= i < panels.len() implies {
            let panel = #[trigger] panels[i];
            &&& self@.space_views.dom().contains(panel.id)
            &&& is_shown(self@.visible, panel.id)
            &&& panel.path == self@.space_views[panel.id].space_path
            &&& panel.size2d.is_none()
        } by {
            let k = lemma_panel_origin(ids, views, visible, n, i);
            crate::id_map::lemma_id_map_index(ids, views, k);
        }
        assert forall|id: SpaceViewId| #[trigger]
            self@.space_views.dom().contains(id) && is_shown(self@.visible, id) implies exists|i: int|
            0 <= i < panels.len() && (#[trigger] panels[i]).id == id by {
            assert(ids.contains(id));
            let k = ids.index_of(id);
            assert(0 <= k < ids.len() && ids[k] == id);
            let i = lemma_panel_exists(ids, views, visible, n, k);
            assert(0 <= i < panels.len() && panels[i].id == id);
        }
        assert forall|i: int, j: int| 0 <= i < j < panels.len() implies (#[trigger] panels[i]).id.0 < (
        #[trigger] panels[j]).id.0 by {
            lemma_panels_ascending(ids, views, visible, n, i, j);
        }
    }
}

impl ViewportBlueprint {
    /// The ids of all space views in the order in which the blueprint panel
    /// lists them: by the name of the view, views of the same name by id.
    pub fn space_view_ids_by_name(&self) -> (r: Vec<SpaceViewId>)
        requires
            self.wf(),
        ensures
            r@.len() == self@.space_views.dom().len(),
            forall|i: int| 0 <= i < r@.len() ==> self@.space_views.dom().contains(#[trigger] r@[i]),
            forall|id: SpaceViewId| self@.space_views.dom().contains(id) ==> r@.contains(id),
            forall|i: int, j: int|
                0 <= i < j < r@.len() ==> crate::sorting::name_le(
                    self@.space_views[#[trigger] r@[i]].name,
                    self@.space_views[#[trigger] r@[j]].name,
                ),
    {
        let ghost ids = self.space_views.spec_keys();
        let ghost views = self.space_views.spec_vals();
        let n = self.space_views.len();
        assert(self@.space_views.dom() =~= self.space_views@.dom());
        let mut entries: Vec<crate::sorting::NamedId> = Vec::new();
        let mut i: usize = 0;
        while i < n
            invariant
                i <= n,
                n == ids.len(),
                self.wf(),
                ids == self.space_views.spec_keys(),
                views == self.space_views.spec_vals(),
                entries@.len() == i,
                forall|k: int|
                    0 <= k < i ==> (#[trigger] entries@[k]).id == ids[k] && entries@[k].name@
                        == views[k].name@,
            decreases n - i,
        {
            let name = self.space_views.value(i).name.clone();
            entries.push(crate::sorting::NamedId { name, id: self.space_views.key(i) });
            i += 1;
        }
        let ghost unsorted = crate::sorting::named_views(entries@);
        let sorted = crate::sorting::sorted_by_name(entries);
        let ghost sorted_views = crate::sorting::named_views(sorted@);
        proof {
            // Every sorted entry is one of the entries, and the other way round.
            assert forall|k: int| 0 <= k < sorted_views.len() implies exists|s: int|
                0 <= s < n && ids[s] == (#[trigger] sorted_views[k]).id && views[s].name@
                    == sorted_views[k].name by {
                let e = sorted_views[k];
                let same = |x: crate::sorting::NamedIdView| x.name == e.name;
                sorted_views.lemma_filter_contains(same, k);
                assert(crate::sorting::with_name(sorted_views, e.name) == crate::sorting::with_name(
                    unsorted,
                    e.name,
                ));
                let f = unsorted.filter(same);
                assert(f.contains(e));
                unsorted.lemma_filter_contains_rev(same, e);
                assert(unsorted.contains(e));
                let s = choose|s: int| 0 <= s < unsorted.len() && unsorted[s] == e;
                assert(entries@[s]@ == e);
            }
            assert forall|s: int| 0 <= s < n implies exists|k: int|
                0 <= k < sorted_views.len() && (#[trigger] sorted_views[k]).id == #[trigger] ids[s] by {
                let e = unsorted[s];
                let same = |x: crate::sorting::NamedIdView| x.name == e.name;
                unsorted.lemma_filter_contains(same, s);
                assert(crate::sorting::with_name(sorted_views, e.name) == crate::sorting::with_name(
                    unsorted,
                    e.name,
                ));
                let f = sorted_views.filter(same);
                assert(f.contains(e));
                sorted_views.lemma_filter_contains_rev(same, e);
                let k = choose|k: int| 0 <= k < sorted_views.len() && sorted_views[k] == e;
                assert(sorted_views[k].id == ids[s]);
            }
        }
        let mut out: Vec<SpaceViewId> = Vec::new();
        let mut j: usize = 0;
        while j < sorted.len()
            invariant
                j <= sorted@.len(),
                out@.len() == j,
                forall|k: int| 0 <= k < j ==> (#[trigger] out@[k]) == sorted@[k].id,
            decreases sorted@.len() - j,
        {
            out.push(sorted[j].id);
            j += 1;
        }
        proof {
            assert forall|k: int| 0 <= k < out@.len() implies self@.space_views.dom().contains(
                #[trigger] out@[k],
            ) && self@.space_views[out@[k]].name == sorted_views[k].name by {
                let s = choose|s: int|
                    0 <= s < n && ids[s] == (#[trigger] sorted_views[k]).id && views[s].name@
                        == sorted_views[k].name;
                assert(ids[s] == sorted_views[k].id);
                crate::id_map::lemma_id_map_index(ids, views, s);
            }
            assert forall|id: SpaceViewId| self@.space_views.dom().contains(id) implies out@.contains(
                id,
            ) by {
                assert(ids.contains(id));
                let s = ids.index_of(id);
                assert(0 <= s < n && ids[s] == id);
                let k = choose|k: int| 0 <= k < sorted_views.len() && (#[trigger] sorted_views[k]).id == ids[s];
                assert(out@[k] == id);
            }
            assert forall|a: int, b: int| 0 <= a < b < out@.len() implies crate::sorting::name_le(
                self@.space_views[#[trigger] out@[a]].name,
                self@.space_views[#[trigger] out@[b]].name,
            ) by {
                assert(crate::sorting::name_le(sorted_views[a].name, sorted_views[b].name));
            }
        }
        out
    }
}

} // verus!
