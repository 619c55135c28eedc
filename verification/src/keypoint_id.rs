//! Keypoint ids and their Arrow encoding.

use crate::arrow::{
    array_has_validity, array_slots, new_uint16_array, slots_of, uint16_array_slots, validity_view,
    UInt16Array,
};
use crate::errors::DeserializationError;
use std::borrow::Cow;
use vstd::prelude::*;
use vstd::std_specs::convert::FromSpecImpl;

verus! {

/// A 16-bit ID representing a type of semantic keypoint within a class.
///
/// Keypoint ids are only meaningful within the context of a class
/// description.
#[derive(Clone, Copy, Debug, PartialEq, Eq, PartialOrd, Ord, Hash, Structural)]
pub struct KeypointId(pub u16);

impl<'a> From<KeypointId> for Cow<'a, KeypointId> {
    fn from(value: KeypointId) -> (r: Cow<'a, KeypointId>) {
        Cow::Owned(value)
    }
}

impl<'a> FromSpecImpl<KeypointId> for Cow<'a, KeypointId> {
    open spec fn obeys_from_spec() -> bool {
        true
    }

    open spec fn from_spec(value: KeypointId) -> Cow<'a, KeypointId> {
        Cow::Owned(value)
    }
}

impl<'a> From<&'a KeypointId> for Cow<'a, KeypointId> {
    fn from(value: &'a KeypointId) -> (r: Cow<'a, KeypointId>) {
        Cow::Borrowed(value)
    }
}

impl<'a> FromSpecImpl<&'a KeypointId> for Cow<'a, KeypointId> {
    open spec fn obeys_from_spec() -> bool {
        true
    }

    open spec fn from_spec(value: &'a KeypointId) -> Cow<'a, KeypointId> {
        Cow::Borrowed(value)
    }
}

impl Default for KeypointId {
    fn default() -> (r: KeypointId)
        ensures
            r == KeypointId(0),
    {
        KeypointId(0)
    }
}

/// The slot that stands for an optional keypoint id.
pub open spec fn keypoint_slot(datum: Option<KeypointId>) -> Option<u16> {
    match datum {
        Some(id) => Some(id.0),
        None => None,
    }
}

/// The array slots that stand for a list of optional keypoint ids.
pub open spec fn keypoint_slots(data: Seq<Option<KeypointId>>) -> Seq<Option<u16>> {
    Seq::new(data.len(), |i: int| keypoint_slot(data[i]))
}

/// The keypoint ids that array slots stand for. A keypoint id cannot be null,
/// so a null slot is an error.
pub open spec fn keypoints_of(slots: Seq<Option<u16>>) -> Result<
    Seq<Option<KeypointId>>,
    DeserializationError,
> {
    if forall|i: int| 0 <= i < slots.len() ==> (#[trigger] slots[i]).is_some() {
        Ok(Seq::new(slots.len(), |i: int| Some(KeypointId(slots[i].unwrap()))))
    } else {
        Err(DeserializationError::MissingData)
    }
}

/// Keypoint ids that are all present are read back from their slots as they
/// were.
pub proof fn lemma_keypoints_round_trip(data: Seq<Option<KeypointId>>)
    requires
        forall|i: int| 0 <= i < data.len() ==> (#[trigger] data[i]).is_some(),
    ensures
        keypoints_of(keypoint_slots(data)) == Ok::<Seq<Option<KeypointId>>, DeserializationError>(data),
{
    let slots = keypoint_slots(data);
    assert forall|i: int| 0 <= i < slots.len() implies (#[trigger] slots[i]).is_some() by {
        assert(data[i].is_some());
    }
    assert(Seq::new(slots.len(), |i: int| Some(KeypointId(slots[i].unwrap()))) =~= data) by {
        assert forall|i: int| 0 <= i < data.len() implies Some(KeypointId(slots[i].unwrap()))
            == #[trigger] data[i] by {
            assert(data[i].is_some());
        }
    }
}

impl KeypointId {
    /// The fully qualified name of the datatype.
    pub fn name() -> (r: &'static str)
        ensures
            r@ == "rerun.datatypes.KeypointId"@,
    {
        "rerun.datatypes.KeypointId"
    }

    /// Encodes optional keypoint ids as an Arrow array of `UInt16`, one slot
    /// each: the id where there is one, a null slot where there is none.
    ///
    /// The array has a validity bitmap only where some id is missing.
    pub fn try_to_arrow_opt(data: &Vec<Option<KeypointId>>) -> (r: UInt16Array)
        ensures
            array_slots(r) == keypoint_slots(data@),
            array_has_validity(r) == exists|i: int| 0 <= i < data@.len() && (#[trigger] data@[i]).is_none(),
    {
        let mut values: Vec<u16> = Vec::new();
        let mut somes: Vec<bool> = Vec::new();
        let mut any_nones = false;
        let mut i: usize = 0;
        while i < data.len()
            invariant
                i <= data@.len(),
                values@.len() == i,
                somes@.len() == i,
                any_nones == exists|k: int| 0 <= k < i && (#[trigger] data@[k]).is_none(),
                forall|k: int| 0 <= k < i ==> (#[trigger] somes@[k]) == data@[k].is_some(),
                forall|k: int| 0 <= k < i && data@[k].is_some() ==> (#[trigger] values@[k]) == data@[k].unwrap().0,
            decreases data@.len() - i,
        {
            match data[i] {
                Some(id) => {
                    values.push(id.0);
                    somes.push(true);
                },
                None => {
                    values.push(0);
                    somes.push(false);
                    any_nones = true;
                },
            }
            i += 1;
        }
        let validity: Option<Vec<bool>> = if any_nones {
            Some(somes)
        } else {
            None
        };
        proof {
            assert(slots_of(values@, validity_view(validity)) =~= keypoint_slots(data@));
        }
        new_uint16_array(values, validity)
    }

    /// Reads the keypoint ids of an Arrow array of `UInt16` back, one per
    /// slot. A null slot is an error, since a keypoint id cannot be null.
    pub fn try_from_arrow_opt(arrow_data: &UInt16Array) -> (r: Result<
        Vec<Option<KeypointId>>,
        DeserializationError,
    >)
        ensures
            match r {
                Ok(ids) => keypoints_of(array_slots(*arrow_data)) == Ok::<
                    Seq<Option<KeypointId>>,
                    DeserializationError,
                >(ids@),
                Err(e) => keypoints_of(array_slots(*arrow_data)) == Err::<
                    Seq<Option<KeypointId>>,
                    DeserializationError,
                >(e),
            },
    {
        let slots = uint16_array_slots(arrow_data);
        Self::from_slots(&slots)
    }

    /// The keypoint ids that the given slots stand for.
    pub fn from_slots(slots: &Vec<Option<u16>>) -> (r: Result<Vec<Option<KeypointId>>, DeserializationError>)
        ensures
            match r {
                Ok(ids) => keypoints_of(slots@) == Ok::<Seq<Option<KeypointId>>, DeserializationError>(
                    ids@,
                ),
                Err(e) => keypoints_of(slots@) == Err::<Seq<Option<KeypointId>>, DeserializationError>(e),
            },
    {
        let mut out: Vec<Option<KeypointId>> = Vec::new();
        let mut i: usize = 0;
        while i < slots.len()
            invariant
                i <= slots@.len(),
                out@.len() == i,
                forall|k: int| 0 <= k < i ==> (#[trigger] slots@[k]).is_some(),
                forall|k: int| 0 <= k < i ==> (#[trigger] out@[k]) == Some(KeypointId(slots@[k].unwrap())),
            decreases slots@.len() - i,
        {
            match slots[i] {
                Some(v) => {
                    out.push(Some(KeypointId(v)));
                },
                None => {
                    assert(slots@[i as int].is_none());
                    return Err(DeserializationError::MissingData);
                },
            }
            i += 1;
        }
        assert(out@ =~= Seq::new(slots@.len(), |i: int| Some(KeypointId(slots@[i].unwrap()))));
        Ok(out)
    }
}

} // verus!
