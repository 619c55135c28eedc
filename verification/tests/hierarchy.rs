use space_views::camera::space_cameras;
use space_views::object_tree::ObjectTree;
use space_views::path::{ObjPath, Order, PathComp};
use space_views::path_map::PathMap;
use space_views::spaces::{roots_with_transform, SpacesInfo};
use space_views::transform::{
    query_transform, query_view_coordinates, Pinhole, Rigid3, Transform, ViewCoordinates, ViewDir,
};

fn path(text: &str) -> ObjPath {
    let mut components = Vec::new();
    for name in text.split('/') {
        if !name.is_empty() {
            components.push(PathComp::from_str(name));
        }
    }
    ObjPath::new(components)
}

fn tree(paths: &[&str]) -> ObjectTree {
    let mut tree = ObjectTree::new();
    for p in paths {
        tree.insert(&path(p));
    }
    tree
}

fn transforms(entries: &[(&str, Transform)]) -> PathMap<Transform> {
    let mut map = PathMap::new();
    for (p, t) in entries {
        map.insert(path(p), *t);
    }
    map
}

fn same(a: &ObjPath, b: &ObjPath) -> bool {
    a.equals(b)
}

fn object_names(spaces: &SpacesInfo, root: &str) -> Vec<ObjPath> {
    let info = spaces.spaces.get(&path(root)).expect("space exists");
    (0..info.objects.len()).map(|i| info.objects.path(i).duplicate()).collect()
}

#[test]
fn paths_are_ordered_by_component_sequence() {
    assert_eq!(path("/a").compare(&path("/a/b")), Order::Less);
    assert_eq!(path("/a/b").compare(&path("/a")), Order::Greater);
    assert_eq!(path("/a/b").compare(&path("/a/b")), Order::Equal);
    assert_eq!(path("/a/b").compare(&path("/a/c")), Order::Less);
    assert_eq!(path("/ab").compare(&path("/b")), Order::Less);
    assert_eq!(path("/b").compare(&path("/a/z")), Order::Greater);
    assert_eq!(path("/a").compare(&path("/ab")), Order::Less);
    assert_eq!(ObjPath::root().compare(&path("/a")), Order::Less);
}

#[test]
fn path_parent_and_prefix() {
    let p = path("/world/car/cam");
    assert_eq!(p.len(), 3);
    assert!(same(&p.parent().unwrap(), &path("/world/car")));
    assert!(same(&p.prefix(1), &path("/world")));
    assert!(ObjPath::root().parent().is_none());
    assert!(path("/world").is_prefix_of(&p));
    assert!(p.is_prefix_of(&p));
    assert!(!p.is_prefix_of(&path("/world/car")));
    assert!(!path("/world/ca").is_prefix_of(&p));
    assert!(same(&path("/world").child(PathComp::from_str("car")), &path("/world/car")));
    assert_eq!(p.get(1).unwrap().name, b"car".to_vec());
    assert!(p.get(3).is_none());
}

#[test]
fn path_map_keeps_keys_sorted_and_unique() {
    let mut map: PathMap<u32> = PathMap::new();
    assert!(map.insert(path("/b"), 2).is_none());
    assert!(map.insert(path("/a/x"), 1).is_none());
    assert!(map.insert(path("/a"), 0).is_none());
    assert_eq!(map.insert(path("/b"), 20), Some(2));
    assert_eq!(map.len(), 3);
    assert!(same(map.key(0), &path("/a")));
    assert!(same(map.key(1), &path("/a/x")));
    assert!(same(map.key(2), &path("/b")));
    assert_eq!(*map.value(2), 20);
    assert_eq!(map.get(&path("/a/x")), Some(&1));
    assert_eq!(map.get(&path("/c")), None);
    assert_eq!(map.find(&path("/b")), Some(2));
    assert!(map.contains_key(&path("/a")));
    assert!(!map.contains_key(&path("/a/y")));
}

#[test]
fn tree_insert_adds_ancestors() {
    let t = tree(&["/world/car/cam", "/world/tree"]);
    assert_eq!(t.len(), 4);
    assert!(t.contains(&path("/world")));
    assert!(t.contains(&path("/world/car")));
    assert!(t.contains(&path("/world/car/cam")));
    assert!(t.contains(&path("/world/tree")));
    assert!(!t.contains(&path("/world/cam")));
    assert!(same(t.path(0), &path("/world")));
    assert!(same(t.path(3), &path("/world/tree")));
    assert_eq!(t.find(&path("/world/car")), Some(1));
}

#[test]
fn tree_children_in_order() {
    let t = tree(&["/world/tree", "/world/car/cam", "/other", "/world/car/wheel"]);
    let roots = t.children_of(&ObjPath::root());
    assert_eq!(roots.len(), 2);
    assert!(same(&roots[0], &path("/other")));
    assert!(same(&roots[1], &path("/world")));
    let kids = t.children_of(&path("/world"));
    assert_eq!(kids.len(), 2);
    assert!(same(&kids[0], &path("/world/car")));
    assert!(same(&kids[1], &path("/world/tree")));
    assert!(t.children_of(&path("/world/tree")).is_empty());
}

#[test]
fn query_transform_keeps_the_three_way_distinction() {
    let rigid = Transform::Rigid3(Rigid3 { key: 4 });
    assert_eq!(query_transform(false, None), None);
    assert_eq!(query_transform(false, Some(rigid)), None);
    assert_eq!(query_transform(true, None), Some(Transform::Unresolved));
    assert_eq!(query_transform(true, Some(rigid)), Some(rigid));
}

#[test]
fn query_view_coordinates_needs_time_and_history() {
    let c = ViewCoordinates { x: ViewDir::Right, y: ViewDir::Down, z: ViewDir::Forward };
    assert_eq!(query_view_coordinates(true, true, Some(c)), Some(c));
    assert_eq!(query_view_coordinates(false, true, Some(c)), None);
    assert_eq!(query_view_coordinates(true, false, Some(c)), None);
    assert_eq!(query_view_coordinates(true, true, None), None);
}

#[test]
fn end_to_end_car_camera() {
    let t = tree(&["/world/car/cam"]);
    let rigid = Transform::Rigid3(Rigid3 { key: 1 });
    let pinhole = Transform::Pinhole(Pinhole { key: 2 });
    let tf = transforms(&[("/world/car", rigid), ("/world/car/cam", pinhole)]);
    let coords: PathMap<ViewCoordinates> = PathMap::new();
    let spaces = SpacesInfo::new(&t, &tf, &coords);

    assert_eq!(spaces.spaces.len(), 3);
    assert!(same(spaces.spaces.key(0), &path("/world")));
    assert!(same(spaces.spaces.key(1), &path("/world/car")));
    assert!(same(spaces.spaces.key(2), &path("/world/car/cam")));

    let world = spaces.spaces.get(&path("/world")).unwrap();
    assert_eq!(world.child_spaces.len(), 1);
    assert_eq!(world.child_spaces.get(&path("/world/car")), Some(&rigid));
    assert!(world.parent.is_none());

    let car = spaces.spaces.get(&path("/world/car")).unwrap();
    assert_eq!(car.child_spaces.len(), 1);
    assert_eq!(car.child_spaces.get(&path("/world/car/cam")), Some(&pinhole));
    let (above, crossed) = car.parent.as_ref().unwrap();
    assert!(same(above, &path("/world")));
    assert_eq!(*crossed, rigid);

    let cameras = space_cameras(&spaces, world);
    assert_eq!(cameras.len(), 1);
    assert!(same(&cameras[0].camera_obj_path, &path("/world/car")));
    assert_eq!(cameras[0].pinhole, Some(Pinhole { key: 2 }));
    assert_eq!(cameras[0].world_from_camera, Rigid3 { key: 1 });
    assert!(same(cameras[0].target_space.as_ref().unwrap(), &path("/world/car/cam")));
    assert_eq!(cameras[0].camera_view_coordinates, None);
}

#[test]
fn spaces_partition_all_paths() {
    let t = tree(&["/a/b/c", "/a/d", "/a/b/e/f", "/g/h"]);
    let tf = transforms(&[
        ("/a/b", Transform::Unresolved),
        ("/a/b/e/f", Transform::Rigid3(Rigid3 { key: 9 })),
    ]);
    let coords: PathMap<ViewCoordinates> = PathMap::new();
    let spaces = SpacesInfo::new(&t, &tf, &coords);
    assert_eq!(spaces.spaces.len(), 4);

    let a = object_names(&spaces, "/a");
    assert_eq!(a.len(), 2);
    assert!(same(&a[0], &path("/a")));
    assert!(same(&a[1], &path("/a/d")));

    let b = object_names(&spaces, "/a/b");
    assert_eq!(b.len(), 3);
    assert!(same(&b[0], &path("/a/b")));
    assert!(same(&b[1], &path("/a/b/c")));
    assert!(same(&b[2], &path("/a/b/e")));

    let f = object_names(&spaces, "/a/b/e/f");
    assert_eq!(f.len(), 1);
    assert!(same(&f[0], &path("/a/b/e/f")));

    let g = object_names(&spaces, "/g");
    assert_eq!(g.len(), 2);

    let mut total = 0;
    for i in 0..spaces.spaces.len() {
        total += spaces.spaces.value(i).objects.len();
    }
    assert_eq!(total, t.len());

    let b_info = spaces.spaces.get(&path("/a/b")).unwrap();
    assert_eq!(b_info.child_spaces.len(), 1);
    assert!(same(b_info.child_spaces.key(0), &path("/a/b/e/f")));
    let (above, crossed) = b_info.parent.as_ref().unwrap();
    assert!(same(above, &path("/a")));
    assert_eq!(*crossed, Transform::Unresolved);
}

#[test]
fn unresolved_transform_still_cuts() {
    let t = tree(&["/world/thing"]);
    let tf = transforms(&[("/world/thing", Transform::Unresolved)]);
    let spaces = SpacesInfo::new(&t, &tf, &PathMap::new());
    assert_eq!(spaces.spaces.len(), 2);
    let world = object_names(&spaces, "/world");
    assert_eq!(world.len(), 1);
    assert!(same(&world[0], &path("/world")));
}

#[test]
fn root_with_transform_is_still_a_space() {
    let t = tree(&["/world/thing"]);
    let rigid = Transform::Rigid3(Rigid3 { key: 3 });
    let tf = transforms(&[("/world", rigid)]);
    let spaces = SpacesInfo::new(&t, &tf, &PathMap::new());
    assert_eq!(spaces.spaces.len(), 1);
    let world = spaces.spaces.get(&path("/world")).unwrap();
    assert_eq!(world.objects.len(), 2);
    assert_eq!(world.child_spaces.len(), 0);
    let (above, crossed) = world.parent.as_ref().unwrap();
    assert!(same(above, &path("/world")));
    assert_eq!(*crossed, rigid);

    let bad = roots_with_transform(&t, &tf);
    assert_eq!(bad.len(), 1);
    assert!(same(&bad[0], &path("/world")));
    assert!(roots_with_transform(&t, &PathMap::new()).is_empty());
}

#[test]
fn coordinates_are_read_at_the_space_root() {
    let t = tree(&["/world/car"]);
    let tf = transforms(&[("/world/car", Transform::Rigid3(Rigid3 { key: 1 }))]);
    let rdf = ViewCoordinates { x: ViewDir::Right, y: ViewDir::Down, z: ViewDir::Forward };
    let mut coords = PathMap::new();
    coords.insert(path("/world/car"), rdf);
    let spaces = SpacesInfo::new(&t, &tf, &coords);
    assert_eq!(spaces.spaces.get(&path("/world")).unwrap().coordinates, None);
    assert_eq!(spaces.spaces.get(&path("/world/car")).unwrap().coordinates, Some(rdf));
    let world = spaces.spaces.get(&path("/world")).unwrap();
    let cameras = space_cameras(&spaces, world);
    assert_eq!(cameras.len(), 1);
    assert_eq!(cameras[0].camera_view_coordinates, Some(rdf));
    assert_eq!(cameras[0].pinhole, None);
    assert!(cameras[0].target_space.is_none());
}

#[test]
fn two_pinholes_share_one_pose() {
    let t = tree(&["/world/rig/left", "/world/rig/right", "/world/rig/note"]);
    let tf = transforms(&[
        ("/world/rig", Transform::Rigid3(Rigid3 { key: 7 })),
        ("/world/rig/left", Transform::Pinhole(Pinhole { key: 1 })),
        ("/world/rig/right", Transform::Pinhole(Pinhole { key: 2 })),
        ("/world/rig/note", Transform::Unresolved),
    ]);
    let spaces = SpacesInfo::new(&t, &tf, &PathMap::new());
    let world = spaces.spaces.get(&path("/world")).unwrap();
    let cameras = space_cameras(&spaces, world);
    assert_eq!(cameras.len(), 2);
    assert_eq!(cameras[0].world_from_camera, Rigid3 { key: 7 });
    assert_eq!(cameras[1].world_from_camera, Rigid3 { key: 7 });
    assert!(same(cameras[0].target_space.as_ref().unwrap(), &path("/world/rig/left")));
    assert!(same(cameras[1].target_space.as_ref().unwrap(), &path("/world/rig/right")));
    assert_eq!(cameras[0].pinhole, Some(Pinhole { key: 1 }));
    assert_eq!(cameras[1].pinhole, Some(Pinhole { key: 2 }));
}

#[test]
fn non_rigid_children_are_no_cameras() {
    let t = tree(&["/world/a", "/world/b", "/world/c"]);
    let tf = transforms(&[
        ("/world/a", Transform::Unresolved),
        ("/world/b", Transform::Pinhole(Pinhole { key: 1 })),
    ]);
    let spaces = SpacesInfo::new(&t, &tf, &PathMap::new());
    let world = spaces.spaces.get(&path("/world")).unwrap();
    assert!(space_cameras(&spaces, world).is_empty());
}
