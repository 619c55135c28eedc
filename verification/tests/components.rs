use space_views::components;
use space_views::errors::DeserializationError;
use space_views::near_clip_plane::{ComponentColumn, NearClipPlane};
use space_views::object_tree::ObjectTree;
use space_views::path::{ObjPath, PathComp};
use space_views::path_map::{PathMap, PathSet};
use space_views::queries::{children_in_space, objects_to_query};
use space_views::space_view::ObjectType;
use space_views::spaces::SpacesInfo;
use space_views::testing::{
    AffixFuzzer1, AffixFuzzer19, AffixFuzzer5, AffixFuzzer7, AffixFuzzer8, ListParts, NumberParts,
};
use space_views::transform::Transform;
use std::borrow::Borrow;

fn path(text: &str) -> ObjPath {
    let mut components = Vec::new();
    for name in text.split('/') {
        if !name.is_empty() {
            components.push(PathComp::from_str(name));
        }
    }
    ObjPath::new(components)
}

fn path_set(paths: &[&str]) -> PathSet {
    let mut set = PathSet::new();
    for p in paths {
        set.insert(path(p));
    }
    set
}

fn item(key: u64) -> AffixFuzzer1 {
    AffixFuzzer1 { key }
}

fn column(name: &str, values: Vec<Option<u32>>) -> ComponentColumn {
    ComponentColumn {
        name: name.to_string(),
        values: values.into_iter().map(|v| v.map(|bits| components::NearClipPlane { bits })).collect(),
    }
}

#[test]
fn near_clip_plane_from_its_column() {
    let name = "rerun.blueprint.components.NearClipPlane";
    let plane = NearClipPlane::from_arrow_components(&vec![
        column("rerun.blueprint.components.NearClipPlaneIndicator", vec![]),
        column(name, vec![Some(7), Some(8)]),
    ]);
    assert_eq!(plane.unwrap().near_clip_plane.bits, 7);
    // Of two columns of the same name the last one counts.
    let plane = NearClipPlane::from_arrow_components(&vec![
        column(name, vec![Some(1)]),
        column(name, vec![Some(2)]),
    ]);
    assert_eq!(plane.unwrap().near_clip_plane.bits, 2);
}

#[test]
fn near_clip_plane_without_data_is_an_error() {
    let name = "rerun.blueprint.components.NearClipPlane";
    let missing = |r: Result<NearClipPlane, DeserializationError>| {
        matches!(r, Err(DeserializationError::MissingData))
    };
    assert!(missing(NearClipPlane::from_arrow_components(&vec![])));
    assert!(missing(NearClipPlane::from_arrow_components(&vec![column("other", vec![Some(1)])])));
    assert!(missing(NearClipPlane::from_arrow_components(&vec![column(name, vec![])])));
    assert!(missing(NearClipPlane::from_arrow_components(&vec![column(name, vec![None, Some(1)])])));
    assert!(missing(NearClipPlane::from_arrow_components(&vec![
        column(name, vec![Some(1)]),
        column(name, vec![]),
    ])));
}

#[test]
fn objects_are_sorted_into_timed_and_sticky() {
    let mut tree = ObjectTree::new();
    for p in ["/world/points", "/world/log", "/world/hidden", "/world/untyped", "/world/nodata"] {
        tree.insert(&path(p));
    }
    let spaces = SpacesInfo::new(&tree, &PathMap::<Transform>::new(), &PathMap::new());
    let world = spaces.spaces.get(&path("/world")).unwrap();
    let visible = path_set(&["/world", "/world/points", "/world/log", "/world/untyped", "/world/nodata"]);
    let stored = path_set(&["/world/points", "/world/log", "/world/hidden", "/world/untyped"]);
    let mut types = PathMap::new();
    types.insert(path("/world/points"), ObjectType::Point3D);
    types.insert(path("/world/log"), ObjectType::TextEntry);
    types.insert(path("/world/hidden"), ObjectType::Image);
    types.insert(path("/world/nodata"), ObjectType::Image);
    let queries = objects_to_query(world, &visible, &stored, &types);
    assert_eq!(queries.timed.len(), 1);
    assert!(queries.timed[0].equals(&path("/world/points")));
    assert_eq!(queries.sticky.len(), 1);
    assert!(queries.sticky[0].equals(&path("/world/log")));
}

#[test]
fn only_children_in_the_space_are_listed() {
    let mut tree = ObjectTree::new();
    for p in ["/world/a", "/world/b/c", "/world/d"] {
        tree.insert(&path(p));
    }
    let mut tf = PathMap::new();
    tf.insert(path("/world/b"), Transform::Unresolved);
    let spaces = SpacesInfo::new(&tree, &tf, &PathMap::new());
    let world = spaces.spaces.get(&path("/world")).unwrap();
    let kids = children_in_space(&tree, world, &path("/world"));
    assert_eq!(kids.len(), 2);
    assert!(kids[0].equals(&path("/world/a")));
    assert!(kids[1].equals(&path("/world/d")));
    let b = spaces.spaces.get(&path("/world/b")).unwrap();
    let kids = children_in_space(&tree, b, &path("/world/b"));
    assert_eq!(kids.len(), 1);
    assert!(kids[0].equals(&path("/world/b/c")));
    // Below `/world`, only `/world/b` itself lies in the space that starts there.
    let kids = children_in_space(&tree, b, &path("/world"));
    assert_eq!(kids.len(), 1);
    assert!(kids[0].equals(&path("/world/b")));
    assert!(children_in_space(&tree, b, &path("/world/a")).is_empty());
}

#[test]
fn affix_fuzzer19_wraps_its_datum() {
    let datum = AffixFuzzer5 { key: 3 };
    let wrapped = AffixFuzzer19::from(datum);
    assert_eq!(wrapped, AffixFuzzer19(datum));
    assert_eq!(wrapped.key, 3);
    let inner: &AffixFuzzer5 = wrapped.borrow();
    assert_eq!(*inner, datum);
    assert_eq!(*wrapped, datum);
    assert_eq!(AffixFuzzer19::name(), "rerun.testing.components.AffixFuzzer19");
}

#[test]
fn affix_fuzzer19_passes_its_data_on() {
    let a = AffixFuzzer5 { key: 1 };
    let b = AffixFuzzer5 { key: 2 };
    assert_eq!(
        AffixFuzzer19::try_to_arrow_opt(&vec![Some(AffixFuzzer19(a)), None, Some(AffixFuzzer19(b))]),
        vec![Some(a), None, Some(b)]
    );
    assert_eq!(
        AffixFuzzer19::try_from_arrow_opt(&vec![Some(a), Some(b)]),
        Ok(vec![Some(AffixFuzzer19(a)), Some(AffixFuzzer19(b))])
    );
    assert_eq!(
        AffixFuzzer19::try_from_arrow_opt(&vec![Some(a), None]),
        Err(DeserializationError::MissingData)
    );
    assert_eq!(AffixFuzzer19::try_from_arrow_opt(&vec![]), Ok(vec![]));
}

#[test]
fn affix_fuzzer8_splits_into_values_and_validity() {
    assert_eq!(AffixFuzzer8::name(), "rerun.testing.components.AffixFuzzer8");
    assert_eq!(AffixFuzzer8::default(), AffixFuzzer8(None));
    let all = vec![Some(AffixFuzzer8(Some(5))), Some(AffixFuzzer8(Some(6)))];
    assert_eq!(
        AffixFuzzer8::try_to_arrow_opt(&all),
        NumberParts { values: vec![5, 6], validity: None }
    );
    let some = vec![Some(AffixFuzzer8(Some(5))), None, Some(AffixFuzzer8(None))];
    assert_eq!(
        AffixFuzzer8::try_to_arrow_opt(&some),
        NumberParts { values: vec![5, 0, 0], validity: Some(vec![true, false, false]) }
    );
    assert_eq!(
        AffixFuzzer8::try_from_arrow_opt(&vec![Some(5), None]),
        vec![Some(AffixFuzzer8(Some(5))), Some(AffixFuzzer8(None))]
    );
    assert_eq!(AffixFuzzer8::try_to_arrow_opt(&vec![]), NumberParts { values: vec![], validity: None });
}

#[test]
fn affix_fuzzer7_lists_are_laid_end_to_end() {
    assert_eq!(AffixFuzzer7::name(), "rerun.testing.components.AffixFuzzer7");
    assert_eq!(AffixFuzzer7::default(), AffixFuzzer7(None));
    let data = vec![
        Some(AffixFuzzer7::from(Some(vec![item(1), item(2)]))),
        None,
        Some(AffixFuzzer7(Some(vec![]))),
        Some(AffixFuzzer7(None)),
        Some(AffixFuzzer7(Some(vec![item(3)]))),
    ];
    let parts = AffixFuzzer7::try_to_arrow_opt(&data);
    assert_eq!(
        parts,
        ListParts {
            offsets: vec![0, 2, 2, 2, 2, 3],
            values: vec![item(1), item(2), item(3)],
            validity: Some(vec![true, false, true, false, true]),
        }
    );
    let all = vec![Some(AffixFuzzer7(Some(vec![item(9)]))), Some(AffixFuzzer7(Some(vec![])))];
    assert_eq!(
        AffixFuzzer7::try_to_arrow_opt(&all),
        ListParts { offsets: vec![0, 1, 1], values: vec![item(9)], validity: None }
    );
    assert_eq!(
        AffixFuzzer7::try_to_arrow_opt(&vec![]),
        ListParts { offsets: vec![0], values: vec![], validity: None }
    );
}

#[test]
fn affix_fuzzer7_lists_are_read_back() {
    let values = vec![Some(item(1)), None, Some(item(3))];
    let out = AffixFuzzer7::try_from_arrow_opt(
        &vec![0, 2, 2, 3],
        &values,
        &Some(vec![true, false, true]),
    );
    assert_eq!(
        out,
        Ok(vec![
            Some(AffixFuzzer7(Some(vec![item(1), item(0)]))),
            Some(AffixFuzzer7(None)),
            Some(AffixFuzzer7(Some(vec![item(3)]))),
        ])
    );
    let out = AffixFuzzer7::try_from_arrow_opt(&vec![0, 2, 2, 3], &values, &None);
    assert_eq!(
        out,
        Ok(vec![
            Some(AffixFuzzer7(Some(vec![item(1), item(0)]))),
            Some(AffixFuzzer7(Some(vec![]))),
            Some(AffixFuzzer7(Some(vec![item(3)]))),
        ])
    );
    assert_eq!(AffixFuzzer7::try_from_arrow_opt(&vec![0], &vec![], &None), Ok(vec![]));
    // Offsets that start above zero are fine.
    assert_eq!(
        AffixFuzzer7::try_from_arrow_opt(&vec![1, 3], &values, &None),
        Ok(vec![Some(AffixFuzzer7(Some(vec![item(0), item(3)])))])
    );
}

#[test]
fn affix_fuzzer7_offsets_beyond_the_values_are_an_error() {
    let values = vec![Some(item(1)), Some(item(2))];
    assert_eq!(
        AffixFuzzer7::try_from_arrow_opt(&vec![0, 1, 3], &values, &None),
        Err(DeserializationError::OffsetSliceOutOfBounds { start: 1, end: 3, len: 2 })
    );
    // A null slot is not looked at.
    assert_eq!(
        AffixFuzzer7::try_from_arrow_opt(&vec![0, 1, 3], &values, &Some(vec![true, false])),
        Ok(vec![Some(AffixFuzzer7(Some(vec![item(1)]))), Some(AffixFuzzer7(None))])
    );
    // The first bad slot is the one reported.
    assert_eq!(
        AffixFuzzer7::try_from_arrow_opt(&vec![0, 5, 9], &values, &None),
        Err(DeserializationError::OffsetSliceOutOfBounds { start: 0, end: 5, len: 2 })
    );
}

#[test]
fn affix_fuzzer7_round_trip() {
    let data = vec![
        Some(AffixFuzzer7(Some(vec![item(4), item(5)]))),
        Some(AffixFuzzer7(None)),
        Some(AffixFuzzer7(Some(vec![item(6)]))),
    ];
    let parts = AffixFuzzer7::try_to_arrow_opt(&data);
    let values: Vec<Option<AffixFuzzer1>> = parts.values.iter().map(|v| Some(*v)).collect();
    assert_eq!(AffixFuzzer7::try_from_arrow_opt(&parts.offsets, &values, &parts.validity), Ok(data));
}
