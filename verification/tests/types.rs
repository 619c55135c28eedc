use space_views::components;
use space_views::errors::DeserializationError;
use space_views::keypoint_id::KeypointId;
use space_views::near_clip_plane::NearClipPlane;
use space_views::testing::{AffixFuzzer19, AffixFuzzer5, AffixFuzzer7, AffixFuzzer8};
use std::borrow::Cow;

#[test]
fn keypoint_ids_round_trip_through_arrow() {
    let data = vec![Some(KeypointId(7)), Some(KeypointId(0)), Some(KeypointId(65535))];
    let array = KeypointId::try_to_arrow_opt(&data);
    assert_eq!(array.array.len(), 3);
    assert_eq!(array.array.values().as_slice(), &[7u16, 0, 65535]);
    assert!(array.array.validity().is_none());
    assert_eq!(array.array.data_type(), &arrow2::datatypes::DataType::UInt16);
    assert_eq!(KeypointId::try_from_arrow_opt(&array), Ok(data));
}

#[test]
fn missing_keypoint_ids_become_null_slots() {
    let data = vec![Some(KeypointId(7)), None, Some(KeypointId(9))];
    let array = KeypointId::try_to_arrow_opt(&data);
    let slots: Vec<Option<u16>> = array.array.iter().map(|s| s.copied()).collect();
    assert_eq!(slots, vec![Some(7), None, Some(9)]);
    assert_eq!(array.array.validity().unwrap().unset_bits(), 1);
    assert_eq!(KeypointId::try_from_arrow_opt(&array), Err(DeserializationError::MissingData));
}

#[test]
fn keypoint_ids_from_slots() {
    assert_eq!(KeypointId::from_slots(&vec![]), Ok(vec![]));
    assert_eq!(
        KeypointId::from_slots(&vec![Some(1), Some(2)]),
        Ok(vec![Some(KeypointId(1)), Some(KeypointId(2))])
    );
    assert_eq!(
        KeypointId::from_slots(&vec![Some(1), None]),
        Err(DeserializationError::MissingData)
    );
    let empty = KeypointId::try_to_arrow_opt(&vec![]);
    assert_eq!(empty.array.len(), 0);
    assert_eq!(KeypointId::try_from_arrow_opt(&empty), Ok(vec![]));
}

#[test]
fn keypoint_id_basics() {
    assert_eq!(KeypointId::name(), "rerun.datatypes.KeypointId");
    assert_eq!(KeypointId::default(), KeypointId(0));
    assert!(KeypointId(1) < KeypointId(2));
    assert_eq!(KeypointId(3).0, 3);
}

#[test]
fn near_clip_plane_is_made_from_its_distance() {
    let bits = 0.1f32.to_bits();
    let plane = NearClipPlane::new(bits);
    assert_eq!(plane.near_clip_plane, components::NearClipPlane { bits });
    assert_eq!(f32::from_bits(plane.near_clip_plane.bits), 0.1);
    let again = NearClipPlane::new(plane.near_clip_plane);
    assert_eq!(again.near_clip_plane, plane.near_clip_plane);
    assert_eq!(components::NearClipPlane::from(5u32).bits, 5);
}

#[test]
fn near_clip_plane_describes_its_components() {
    assert_eq!(NearClipPlane::name(), "rerun.blueprint.archetypes.NearClipPlane");
    assert_eq!(NearClipPlane::display_name(), "Near clip plane");
    assert_eq!(components::NearClipPlane::name(), "rerun.blueprint.components.NearClipPlane");
    assert_eq!(NearClipPlane::NUM_COMPONENTS, 2);
    assert!(NearClipPlane::required_components().is_empty());
    let recommended = NearClipPlane::recommended_components();
    assert_eq!(recommended.len(), 1);
    assert_eq!(recommended[0].archetype_name, Some("rerun.blueprint.archetypes.NearClipPlane"));
    assert_eq!(recommended[0].component_name, "rerun.blueprint.components.NearClipPlaneIndicator");
    assert_eq!(recommended[0].archetype_field_name, None);
    let optional = NearClipPlane::optional_components();
    assert_eq!(optional.len(), 1);
    assert_eq!(optional[0].component_name, "rerun.blueprint.components.NearClipPlane");
    assert_eq!(optional[0].archetype_field_name, Some("near_clip_plane"));
    let all = NearClipPlane::all_components();
    assert_eq!(all.len(), 2);
    assert_eq!(all[0].component_name, recommended[0].component_name);
    assert_eq!(all[1].component_name, optional[0].component_name);
    let plane = NearClipPlane::new(1u32);
    assert_eq!(plane.heap_size_bytes(), 0);
    assert!(NearClipPlane::is_pod());
}

#[test]
fn components_convert_into_cow() {
    let id = KeypointId(4);
    let owned: Cow<'_, KeypointId> = id.into();
    assert!(matches!(owned, Cow::Owned(KeypointId(4))));
    let borrowed: Cow<'_, KeypointId> = (&id).into();
    assert!(matches!(borrowed, Cow::Borrowed(&KeypointId(4))));

    let wrapped = AffixFuzzer19(AffixFuzzer5 { key: 1 });
    let owned: Cow<'_, AffixFuzzer19> = wrapped.into();
    assert_eq!(owned.into_owned(), wrapped);
    let borrowed: Cow<'_, AffixFuzzer19> = (&wrapped).into();
    assert!(matches!(borrowed, Cow::Borrowed(_)));

    let list = AffixFuzzer7(Some(vec![]));
    let borrowed: Cow<'_, AffixFuzzer7> = (&list).into();
    assert_eq!(*borrowed, list);
    let owned: Cow<'_, AffixFuzzer7> = list.clone().into();
    assert_eq!(owned.into_owned(), list);

    let number = AffixFuzzer8(Some(3));
    let owned: Cow<'_, AffixFuzzer8> = number.into();
    assert_eq!(owned.into_owned(), number);
    let borrowed: Cow<'_, AffixFuzzer8> = (&number).into();
    assert_eq!(*borrowed, number);
}
