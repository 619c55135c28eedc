//! A view of one space, and what it shows.

use crate::path::{path_text, ObjPath};
use crate::text::{lossy_decode, lossy_text};
use vstd::prelude::*;
use vstd::utf8::{decode_utf8, valid_utf8};

verus! {

/// The kinds of content that a space view can show.
#[derive(Clone, Copy, Debug, PartialEq, Eq, Structural)]
pub enum ViewCategory {
    TwoD,
    ThreeD,
    Tensor,
    Text,
}

impl Default for ViewCategory {
    fn default() -> (r: ViewCategory)
        ensures
            r == ViewCategory::ThreeD,
    {
        ViewCategory::ThreeD
    }
}

/// The kinds of logged objects.
#[derive(Clone, Copy, Debug, PartialEq, Eq, Structural)]
pub enum ObjectType {
    TextEntry,
    Image,
    Point2D,
    BBox2D,
    LineSegments2D,
    Point3D,
    Box3D,
    Path3D,
    LineSegments3D,
    Mesh3D,
    Arrow3D,
}

/// Whether objects of this type are shown whatever the current time is.
/// Only text entries are.
pub fn is_sticky_type(obj_type: &ObjectType) -> (r: bool)
    ensures
        r == (*obj_type == ObjectType::TextEntry),
{
    match obj_type {
        ObjectType::TextEntry => true,
        _ => false,
    }
}

/// Whether a lone image is better shown by the tensor viewer: it has more
/// than three dimensions, or three of which the last is longer than four and
/// so is no colour channel.
pub open spec fn is_multidim(num_images: int, shape: Seq<u64>) -> bool {
    num_images == 1 && (shape.len() > 3 || (shape.len() == 3 && shape[2] > 4))
}

/// Decides whether the objects of a view are one tensor that is no image.
///
/// `num_images` is the number of image objects in the view and `shape` holds
/// the size of each dimension of the first of them.
pub fn multidim_tensor(num_images: usize, shape: &Vec<u64>) -> (r: bool)
    ensures
        r == is_multidim(num_images as int, shape@),
{
    if num_images == 1 {
        shape.len() > 3 || (shape.len() == 3 && shape[2] > 4)
    } else {
        false
    }
}

/// The categories of content present in a view, in the order in which they
/// are offered.
pub open spec fn categories_of(has_2d: bool, has_3d: bool, has_tensor: bool, has_text: bool) -> Seq<
    ViewCategory,
> {
    (if has_2d {
        seq![ViewCategory::TwoD]
    } else {
        Seq::empty()
    }) + (if has_3d {
        seq![ViewCategory::ThreeD]
    } else {
        Seq::empty()
    }) + (if has_tensor {
        seq![ViewCategory::Tensor]
    } else {
        Seq::empty()
    }) + (if has_text {
        seq![ViewCategory::Text]
    } else {
        Seq::empty()
    })
}

/// Whether two-dimensional content counts: there is some, and it is not just
/// the one tensor that the tensor viewer shows.
pub open spec fn counts_as_2d(has_any_2d: bool, has_tensor: bool, num_objects: int) -> bool {
    has_any_2d && (!has_tensor || num_objects > 1)
}

/// Lists the categories of content that a view has to offer.
///
/// `num_objects` counts the objects that depend on the current time;
/// `has_tensor` says whether they are one tensor that is no image.
pub fn view_categories(
    has_any_2d: bool,
    num_objects: usize,
    has_tensor: bool,
    has_any_3d: bool,
    has_text: bool,
) -> (r: Vec<ViewCategory>)
    ensures
        r@ == categories_of(
            counts_as_2d(has_any_2d, has_tensor, num_objects as int),
            has_any_3d,
            has_tensor,
            has_text,
        ),
{
    let has_2d = has_any_2d && (!has_tensor || num_objects > 1);
    let mut categories: Vec<ViewCategory> = Vec::new();
    if has_2d {
        categories.push(ViewCategory::TwoD);
    }
    if has_any_3d {
        categories.push(ViewCategory::ThreeD);
    }
    if has_tensor {
        categories.push(ViewCategory::Tensor);
    }
    if has_text {
        categories.push(ViewCategory::Text);
    }
    assert(categories@ =~= categories_of(has_2d, has_any_3d, has_tensor, has_text));
    categories
}

/// Whether the ancestors of an object are all visible, so that its own
/// visibility can be changed.
///
/// `parent_visible` is the visibility that the parent path has once the
/// settings of its own ancestors are taken in, or `None` for a top-level
/// path.
pub fn ancestors_visible(view_is_visible: bool, parent_visible: Option<bool>) -> (r: bool)
    ensures
        r == (view_is_visible && (parent_visible.is_none() || parent_visible.unwrap())),
{
    view_is_visible && match parent_visible {
        None => true,
        Some(visible) => visible,
    }
}

/// The state that a visibility button shows: the setting itself where the
/// button is enabled, and off where it is not.
pub fn shown_visibility(enabled: bool, visible: bool) -> (r: bool)
    ensures
        r == (enabled && visible),
{
    if enabled {
        visible
    } else {
        false
    }
}

/// A view of a space.
#[derive(Debug)]
pub struct SpaceView {
    /// What the view is called: at first, its path written out.
    pub name: String,
    /// The path at which the space starts.
    pub space_path: ObjPath,
    /// Which category to show where the space has content of several.
    pub selected_category: ViewCategory,
}

/// Mathematical content of a `SpaceView`.
pub struct SpaceViewModel {
    pub name: Seq<char>,
    pub space_path: Seq<Seq<u8>>,
    pub selected_category: ViewCategory,
}

impl View for SpaceView {
    type V = SpaceViewModel;

    open spec fn view(&self) -> SpaceViewModel {
        SpaceViewModel {
            name: self.name@,
            space_path: self.space_path@,
            selected_category: self.selected_category,
        }
    }
}

/// The category that is shown when the given categories are on offer and
/// `selected` was chosen last: none where there is no content; the one on
/// offer where it is the only one; else the chosen one, or the first on
/// offer where the chosen one is not among them.
pub open spec fn shown_category(categories: Seq<ViewCategory>, selected: ViewCategory) -> Option<
    ViewCategory,
> {
    if categories.len() == 0 {
        None
    } else if categories.len() == 1 {
        Some(categories[0])
    } else if categories.contains(selected) {
        Some(selected)
    } else {
        Some(categories[0])
    }
}

/// The view that a space gets at first: named after its path, written out,
/// and set to show 3D content.
pub open spec fn fresh_view(space_path: Seq<Seq<u8>>) -> SpaceViewModel {
    SpaceViewModel {
        name: lossy_decode(path_text(space_path)),
        space_path,
        selected_category: ViewCategory::ThreeD,
    }
}

impl SpaceView {
    /// A view of the space that starts at `space_path`, named after the
    /// path and set to show 3D content.
    pub fn from_path(space_path: ObjPath) -> (r: SpaceView)
        ensures
            r@ == fresh_view(space_path@),
            valid_utf8(path_text(space_path@)) ==> r.name@ == decode_utf8(path_text(space_path@)),
    {
        let bytes = space_path.to_bytes();
        SpaceView { name: lossy_text(&bytes), space_path, selected_category: ViewCategory::ThreeD }
    }

    /// Decides which category of content to show, given those on offer.
    ///
    /// Where several are on offer and the selected one is not among them, the
    /// first on offer becomes the selected one. Otherwise the selection stays
    /// as it is.
    pub fn choose_category(&mut self, categories: &Vec<ViewCategory>) -> (r: Option<ViewCategory>)
        ensures
            r == shown_category(categories@, old(self).selected_category),
            final(self).name == old(self).name,
            final(self).space_path == old(self).space_path,
            final(self).selected_category == if categories@.len() >= 2 && !categories@.contains(
                old(self).selected_category,
            ) {
                categories@[0]
            } else {
                old(self).selected_category
            },
    {
        if categories.len() == 0 {
            None
        } else if categories.len() == 1 {
            Some(categories[0])
        } else {
            let mut found = false;
            let mut i: usize = 0;
            while i < categories.len()
                invariant
                    i <= categories@.len(),
                    found == exists|k: int| 0 <= k < i && categories@[k] == self.selected_category,
                decreases categories@.len() - i,
            {
                if categories[i] == self.selected_category {
                    found = true;
                }
                i += 1;
            }
            if !found {
                self.selected_category = categories[0];
            }
            Some(self.selected_category)
        }
    }
}

} // verus!
