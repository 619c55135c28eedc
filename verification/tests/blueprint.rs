use space_views::blueprint::{
    random_ids, should_have_default_view, spaces_with_default_view, tree_from_space_views,
    viewport_mode, visible_space_make_infos, Blueprint, ViewportBlueprint, ViewportMode,
};
use space_views::id_map::IdMap;
use space_views::layout::{Canvas, LayoutSplit};
use space_views::object_tree::ObjectTree;
use space_views::path::{ObjPath, PathComp};
use space_views::path_map::{PathMap, PathSet};
use space_views::space_view::{
    ancestors_visible, is_sticky_type, multidim_tensor, shown_visibility, view_categories,
    ObjectType, SpaceView, ViewCategory,
};
use space_views::space_view_id::SpaceViewId;
use space_views::spaces::SpacesInfo;
use space_views::transform::{Rigid3, Transform};

fn path(text: &str) -> ObjPath {
    let mut components = Vec::new();
    for name in text.split('/') {
        if !name.is_empty() {
            components.push(PathComp::from_str(name));
        }
    }
    ObjPath::new(components)
}

fn path_set(paths: &[&str]) -> PathSet {
    let mut set = PathSet::new();
    for p in paths {
        set.insert(path(p));
    }
    set
}

/// `/world` with a typed object, `/world/car` behind a rigid transform with
/// nothing but the transform, and `/world/car/cam` behind it with an image.
fn car_spaces() -> (ObjectTree, PathMap<Transform>, PathSet) {
    let mut tree = ObjectTree::new();
    tree.insert(&path("/world/points"));
    tree.insert(&path("/world/car/cam/image"));
    let mut tf = PathMap::new();
    tf.insert(path("/world/car"), Transform::Rigid3(Rigid3 { key: 1 }));
    tf.insert(path("/world/car/cam"), Transform::Unresolved);
    let typed = path_set(&["/world/points", "/world/car/cam/image"]);
    (tree, tf, typed)
}

fn shape(layout: &LayoutSplit) -> String {
    match layout {
        LayoutSplit::Leaf(_) => "_".to_string(),
        LayoutSplit::LeftRight(a, t, b) => {
            format!("LR({}/{})[{}|{}]", t.index, t.total, shape(a), shape(b))
        }
        LayoutSplit::TopBottom(a, t, b) => {
            format!("TB({}/{})[{}|{}]", t.index, t.total, shape(a), shape(b))
        }
    }
}

#[test]
fn space_view_is_named_after_its_path() {
    let view = SpaceView::from_path(path("/world/car"));
    assert_eq!(view.name, "/world/car");
    assert!(view.space_path.equals(&path("/world/car")));
    assert_eq!(view.selected_category, ViewCategory::ThreeD);
    assert_eq!(SpaceView::from_path(ObjPath::root()).name, "/");
    assert_eq!(path("/a/b").to_bytes(), b"/a/b".to_vec());
    let odd = ObjPath::new(vec![PathComp::new(vec![0xff, b'a'])]);
    assert_eq!(SpaceView::from_path(odd).name, "/\u{fffd}a");
    assert_eq!(ViewCategory::default(), ViewCategory::ThreeD);
}

#[test]
fn categories_follow_the_content() {
    assert_eq!(view_categories(false, 0, false, false, false), Vec::<ViewCategory>::new());
    assert_eq!(view_categories(true, 3, false, true, true), vec![
        ViewCategory::TwoD,
        ViewCategory::ThreeD,
        ViewCategory::Text
    ]);
    // A lone tensor is shown by the tensor viewer only.
    assert_eq!(view_categories(true, 1, true, false, false), vec![ViewCategory::Tensor]);
    // With more objects around, the 2D view is offered too.
    assert_eq!(view_categories(true, 2, true, false, false), vec![
        ViewCategory::TwoD,
        ViewCategory::Tensor
    ]);
    assert_eq!(view_categories(false, 5, false, true, false), vec![ViewCategory::ThreeD]);
}

#[test]
fn chosen_category_sticks_while_it_is_offered() {
    let mut view = SpaceView::from_path(path("/w"));
    assert_eq!(view.choose_category(&vec![]), None);
    assert_eq!(view.choose_category(&vec![ViewCategory::Text]), Some(ViewCategory::Text));
    assert_eq!(view.selected_category, ViewCategory::ThreeD);
    assert_eq!(
        view.choose_category(&vec![ViewCategory::TwoD, ViewCategory::ThreeD]),
        Some(ViewCategory::ThreeD)
    );
    assert_eq!(
        view.choose_category(&vec![ViewCategory::TwoD, ViewCategory::Text]),
        Some(ViewCategory::TwoD)
    );
    assert_eq!(view.selected_category, ViewCategory::TwoD);
    assert_eq!(view.name, "/w");
}

#[test]
fn tensors_that_are_no_images() {
    assert!(!multidim_tensor(1, &vec![480, 640]));
    assert!(!multidim_tensor(1, &vec![480, 640, 3]));
    assert!(!multidim_tensor(1, &vec![480, 640, 4]));
    assert!(multidim_tensor(1, &vec![480, 640, 5]));
    assert!(multidim_tensor(1, &vec![2, 3, 4, 5]));
    assert!(!multidim_tensor(2, &vec![2, 3, 4, 5]));
    assert!(!multidim_tensor(0, &vec![]));
}

#[test]
fn small_decisions() {
    assert!(is_sticky_type(&ObjectType::TextEntry));
    assert!(!is_sticky_type(&ObjectType::Image));
    assert!(!is_sticky_type(&ObjectType::Point3D));
    assert!(ancestors_visible(true, None));
    assert!(ancestors_visible(true, Some(true)));
    assert!(!ancestors_visible(true, Some(false)));
    assert!(!ancestors_visible(false, None));
    assert!(shown_visibility(true, true));
    assert!(!shown_visibility(true, false));
    assert!(!shown_visibility(false, true));
}

#[test]
fn spaces_of_a_lone_untyped_object_get_no_view() {
    let (tree, tf, typed) = car_spaces();
    let spaces = SpacesInfo::new(&tree, &tf, &PathMap::new());
    let world = spaces.spaces.get(&path("/world")).unwrap();
    let car = spaces.spaces.get(&path("/world/car")).unwrap();
    let cam = spaces.spaces.get(&path("/world/car/cam")).unwrap();
    assert!(should_have_default_view(world, &typed));
    assert!(!should_have_default_view(car, &typed));
    assert!(should_have_default_view(cam, &typed));
    // A lone object with a type is worth a view.
    assert!(should_have_default_view(car, &path_set(&["/world/car"])));
    let wanted = spaces_with_default_view(&spaces, &typed);
    assert_eq!(wanted.len(), 2);
    assert!(wanted[0].equals(&path("/world")));
    assert!(wanted[1].equals(&path("/world/car/cam")));
}

#[test]
fn default_blueprint_has_a_visible_view_per_space() {
    let (tree, tf, typed) = car_spaces();
    let spaces = SpacesInfo::new(&tree, &tf, &PathMap::new());
    let blueprint = ViewportBlueprint::new(&spaces, &typed);
    assert_eq!(blueprint.num_space_views(), 2);
    assert!(blueprint.has_space(&path("/world")));
    assert!(blueprint.has_space(&path("/world/car/cam")));
    assert!(!blueprint.has_space(&path("/world/car")));
    assert_eq!(blueprint.maximized(), None);
    assert!(blueprint.layout().is_none());
    assert_eq!(blueprint.mode(), ViewportMode::Empty);
}

#[test]
fn views_are_added_stored_and_changed() {
    let mut blueprint = ViewportBlueprint::empty();
    assert_eq!(blueprint.num_space_views(), 0);
    let a = SpaceViewId(10);
    let b = SpaceViewId(20);
    blueprint.add_space_view_with_id(b, &path("/b"));
    blueprint.add_space_view_with_id(a, &path("/a"));
    assert_eq!(blueprint.num_space_views(), 2);
    assert_eq!(blueprint.get_space_view(&a).unwrap().name, "/a");
    assert!(blueprint.get_space_view(&SpaceViewId(30)).is_none());
    assert!(blueprint.is_visible(&a));
    assert!(!blueprint.is_visible(&SpaceViewId(30)));

    blueprint.get_space_view_mut(&a).unwrap().name = "front".to_string();
    assert_eq!(blueprint.get_space_view(&a).unwrap().name, "front");
    assert_eq!(blueprint.get_space_view(&b).unwrap().name, "/b");
    assert!(blueprint.get_space_view_mut(&SpaceViewId(30)).is_none());

    // The same id again replaces the view.
    blueprint.add_space_view_with_id(a, &path("/c"));
    assert_eq!(blueprint.num_space_views(), 2);
    assert_eq!(blueprint.get_space_view(&a).unwrap().name, "/c");
    assert!(!blueprint.has_space(&path("/a")));

    blueprint.add_space_view(&path("/d"));
    assert_eq!(blueprint.num_space_views(), 3);
    assert!(blueprint.has_space(&path("/d")));

    blueprint.add_space_views(&vec![path("/e"), path("/f")], &vec![SpaceViewId(1), SpaceViewId(2)]);
    assert_eq!(blueprint.num_space_views(), 5);
    assert_eq!(blueprint.get_space_view(&SpaceViewId(2)).unwrap().name, "/f");
}

#[test]
fn visibility_settings() {
    let mut blueprint = ViewportBlueprint::empty();
    let a = SpaceViewId(1);
    blueprint.add_space_view_with_id(a, &path("/a"));
    blueprint.set_visible(&a, false);
    assert!(!blueprint.is_visible(&a));
    assert!(!blueprint.visibility_entry(&a));
    // A view without a setting gets the setting "visible".
    let b = SpaceViewId(2);
    assert!(!blueprint.is_visible(&b));
    assert!(blueprint.visibility_entry(&b));
    assert!(blueprint.is_visible(&b));
    blueprint.set_maximized(Some(a));
    assert_eq!(blueprint.maximized(), Some(a));
    blueprint.set_maximized(None);
    assert_eq!(blueprint.maximized(), None);
}

#[test]
fn frame_start_adds_views_for_new_spaces_only() {
    let (mut tree, tf, typed) = car_spaces();
    let spaces = SpacesInfo::new(&tree, &tf, &PathMap::new());
    let mut blueprint = ViewportBlueprint::empty();
    blueprint.on_frame_start(&spaces, &typed);
    assert_eq!(blueprint.num_space_views(), 2);
    blueprint.on_frame_start(&spaces, &typed);
    assert_eq!(blueprint.num_space_views(), 2);

    tree.insert(&path("/other/thing"));
    let typed = path_set(&["/world/points", "/world/car/cam/image", "/other/thing"]);
    let spaces = SpacesInfo::new(&tree, &tf, &PathMap::new());
    blueprint.on_frame_start(&spaces, &typed);
    assert_eq!(blueprint.num_space_views(), 3);
    assert!(blueprint.has_space(&path("/other")));

    let missing = blueprint.spaces_missing_a_view(&vec![path("/other"), path("/new"), path("/world")]);
    assert_eq!(missing.len(), 1);
    assert!(missing[0].equals(&path("/new")));
}

#[test]
fn only_visible_views_are_laid_out() {
    let mut views: IdMap<SpaceView> = IdMap::new();
    views.insert(SpaceViewId(3), SpaceView::from_path(path("/c")));
    views.insert(SpaceViewId(1), SpaceView::from_path(path("/a")));
    views.insert(SpaceViewId(2), SpaceView::from_path(path("/b")));
    let mut visible: IdMap<bool> = IdMap::new();
    visible.insert(SpaceViewId(1), true);
    visible.insert(SpaceViewId(2), false);
    visible.insert(SpaceViewId(3), true);
    visible.insert(SpaceViewId(9), true);
    let panels = visible_space_make_infos(&visible, &views);
    assert_eq!(panels.len(), 2);
    assert_eq!(panels[0].id, SpaceViewId(1));
    assert_eq!(panels[1].id, SpaceViewId(3));
    assert!(panels[1].path.equals(&path("/c")));
    assert_eq!(panels[0].size2d, None);

    let size = Canvas::new(1000, 500);
    let tree = tree_from_space_views(&size, &visible, &views).unwrap();
    assert_eq!(shape(&tree), "LR(1/2)[_|_]");
    assert_eq!(tree.leaf_ids(), vec![SpaceViewId(1), SpaceViewId(3)]);

    let none: IdMap<bool> = IdMap::new();
    assert!(tree_from_space_views(&size, &none, &views).is_none());
}

#[test]
fn layout_is_kept_while_the_same_views_are_visible() {
    let mut blueprint = ViewportBlueprint::empty();
    let a = SpaceViewId(1);
    let b = SpaceViewId(2);
    blueprint.add_space_view_with_id(a, &path("/a"));
    blueprint.add_space_view_with_id(b, &path("/b"));
    blueprint.update_layout(&Canvas::new(1000, 500));
    assert_eq!(shape(blueprint.layout().unwrap().tree.as_ref().unwrap()), "LR(1/2)[_|_]");
    assert_eq!(blueprint.mode(), ViewportMode::Docked);

    // Another canvas, same visible views: the layout stays.
    blueprint.update_layout(&Canvas::new(500, 1000));
    assert_eq!(shape(blueprint.layout().unwrap().tree.as_ref().unwrap()), "LR(1/2)[_|_]");

    blueprint.set_maximized(Some(b));
    assert_eq!(blueprint.mode(), ViewportMode::Maximized(b));

    // Hiding a view calls for a new layout.
    blueprint.set_visible(&a, false);
    blueprint.update_layout(&Canvas::new(500, 1000));
    assert_eq!(shape(blueprint.layout().unwrap().tree.as_ref().unwrap()), "_");
    assert_eq!(blueprint.mode(), ViewportMode::Single(b));

    blueprint.set_visible(&b, false);
    blueprint.update_layout(&Canvas::new(500, 1000));
    assert!(blueprint.layout().unwrap().tree.is_none());
    assert_eq!(blueprint.mode(), ViewportMode::Empty);

    // A new view drops the layout.
    blueprint.add_space_view_with_id(SpaceViewId(3), &path("/c"));
    assert!(blueprint.layout().is_none());
}

#[test]
fn viewport_mode_for_each_case() {
    assert_eq!(viewport_mode(&None, Some(SpaceViewId(1))), ViewportMode::Empty);
    let mut views: IdMap<SpaceView> = IdMap::new();
    let mut visible: IdMap<bool> = IdMap::new();
    views.insert(SpaceViewId(4), SpaceView::from_path(path("/a")));
    visible.insert(SpaceViewId(4), true);
    let size = Canvas::new(10, 10);
    let one = tree_from_space_views(&size, &visible, &views);
    assert_eq!(viewport_mode(&one, Some(SpaceViewId(9))), ViewportMode::Single(SpaceViewId(4)));
    views.insert(SpaceViewId(5), SpaceView::from_path(path("/b")));
    visible.insert(SpaceViewId(5), true);
    let two = tree_from_space_views(&size, &visible, &views);
    assert_eq!(viewport_mode(&two, Some(SpaceViewId(9))), ViewportMode::Maximized(SpaceViewId(9)));
    assert_eq!(viewport_mode(&two, None), ViewportMode::Docked);
}

#[test]
fn one_frame_from_tree_to_viewport() {
    let (tree, tf, typed) = car_spaces();
    let mut blueprint = Blueprint::empty();
    let size = Canvas::new(1600, 900);
    let (spaces, mode) =
        blueprint.blueprint_panel_and_viewport(&tree, &tf, &PathMap::new(), &typed, &size);
    assert_eq!(spaces.spaces.len(), 3);
    assert_eq!(mode, ViewportMode::Docked);
    assert_eq!(blueprint.viewport.num_space_views(), 2);
    let cached = blueprint.viewport.layout().unwrap();
    assert_eq!(shape(cached.tree.as_ref().unwrap()), "TB(1/2)[_|_]");
    assert_eq!(cached.key.len(), 2);
}

#[test]
fn views_are_listed_by_name() {
    let mut blueprint = ViewportBlueprint::empty();
    blueprint.add_space_view_with_id(SpaceViewId(1), &path("/zebra"));
    blueprint.add_space_view_with_id(SpaceViewId(2), &path("/apple"));
    blueprint.add_space_view_with_id(SpaceViewId(3), &path("/mango"));
    blueprint.add_space_view_with_id(SpaceViewId(4), &path("/apple"));
    assert_eq!(
        blueprint.space_view_ids_by_name(),
        vec![SpaceViewId(2), SpaceViewId(4), SpaceViewId(3), SpaceViewId(1)]
    );
    blueprint.get_space_view_mut(&SpaceViewId(1)).unwrap().name = "Zebra".to_string();
    assert_eq!(
        blueprint.space_view_ids_by_name(),
        vec![SpaceViewId(2), SpaceViewId(4), SpaceViewId(3), SpaceViewId(1)]
    );
    blueprint.get_space_view_mut(&SpaceViewId(1)).unwrap().name = "/Zebra".to_string();
    assert_eq!(
        blueprint.space_view_ids_by_name(),
        vec![SpaceViewId(1), SpaceViewId(2), SpaceViewId(4), SpaceViewId(3)]
    );
    assert!(ViewportBlueprint::empty().space_view_ids_by_name().is_empty());
}

#[test]
fn id_map_basics() {
    let mut m: IdMap<u8> = IdMap::new();
    assert!(m.is_empty());
    assert_eq!(m.insert(SpaceViewId(5), 50), None);
    assert_eq!(m.insert(SpaceViewId(2), 20), None);
    assert_eq!(m.insert(SpaceViewId(9), 90), None);
    assert_eq!(m.insert(SpaceViewId(5), 55), Some(50));
    assert_eq!(m.len(), 3);
    assert_eq!(m.key(0), SpaceViewId(2));
    assert_eq!(m.key(2), SpaceViewId(9));
    assert_eq!(*m.value(1), 55);
    assert_eq!(m.find(SpaceViewId(9)), Some(2));
    assert_eq!(m.find(SpaceViewId(3)), None);
    assert_eq!(m.get(SpaceViewId(2)), Some(&20));
    assert!(m.contains_key(SpaceViewId(5)));
    *m.get_mut(SpaceViewId(2)).unwrap() = 21;
    assert_eq!(m.get(SpaceViewId(2)), Some(&21));
    assert!(m.get_mut(SpaceViewId(1)).is_none());
    m.clear();
    assert!(m.is_empty());

    let mut a: IdMap<bool> = IdMap::new();
    a.insert(SpaceViewId(1), true);
    a.insert(SpaceViewId(2), false);
    let mut b = a.duplicate();
    assert!(a.same_as(&b));
    b.insert(SpaceViewId(2), true);
    assert!(!a.same_as(&b));
    b.insert(SpaceViewId(2), false);
    assert!(a.same_as(&b));
    b.insert(SpaceViewId(3), false);
    assert!(!a.same_as(&b));
    assert_eq!(random_ids(4).len(), 4);
    assert!(random_ids(0).is_empty());
}
