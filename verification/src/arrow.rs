//! Arrow arrays of 16-bit unsigned integers.
//!
//! The arrays are those of the `arrow2` crate. Nothing here is proved of that
//! crate: the two functions below state what its source shows of building an
//! array and of walking one.

use arrow2::array::PrimitiveArray;
use vstd::prelude::*;

verus! {

/// An `arrow2::array::PrimitiveArray` of 16-bit unsigned integers: fixed-width
/// values with an optional validity bitmap. The verifier does not look inside.
#[verifier::external_body]
pub struct UInt16Array {
    pub array: PrimitiveArray<u16>,
}

/// What `PrimitiveArray::iter` yields for the array, slot by slot: the value
/// of a valid slot, `None` for a null slot.
pub uninterp spec fn array_slots(array: UInt16Array) -> Seq<Option<u16>>;

/// Whether the array carries a validity bitmap, as `PrimitiveArray::validity`
/// tells.
pub uninterp spec fn array_has_validity(array: UInt16Array) -> bool;

/// The slots of an array with the given values and validity: without a
/// validity every slot is valid, with one a slot is valid where its bit is
/// set.
pub open spec fn slots_of(values: Seq<u16>, validity: Option<Seq<bool>>) -> Seq<Option<u16>> {
    Seq::new(
        values.len(),
        |i: int|
            if validity.is_none() || validity.unwrap()[i] {
                Some(values[i])
            } else {
                None
            },
    )
}

/// The validity bits as a sequence, where there are any.
pub open spec fn validity_view(validity: Option<Vec<bool>>) -> Option<Seq<bool>> {
    match validity {
        Some(bits) => Some(bits@),
        None => None,
    }
}

/// Builds an array with `arrow2::array::PrimitiveArray::new`, of data type
/// `UInt16`, from the values and the validity bits.
///
/// Trusted: `new` stores both as given and panics only where a validity is
/// given whose length differs from that of the values, which `requires`
/// excludes; walking the array then yields `slots_of` the two, and the array
/// has a validity bitmap exactly if one was given.
#[verifier::external_body]
pub(crate) fn new_uint16_array(values: Vec<u16>, validity: Option<Vec<bool>>) -> (r: UInt16Array)
    requires
        validity.is_some() ==> validity.unwrap()@.len() == values@.len(),
    ensures
        array_slots(r) == slots_of(values@, validity_view(validity)),
        array_has_validity(r) == validity.is_some(),
{
    UInt16Array {
        array: PrimitiveArray::new(
            arrow2::datatypes::DataType::UInt16,
            values.into(),
            validity.map(arrow2::bitmap::Bitmap::from),
        ),
    }
}

/// Walks the array with `arrow2::array::PrimitiveArray::iter` and collects
/// what it yields, copying each value.
///
/// Trusted: the result is `array_slots` by the meaning of that name.
#[verifier::external_body]
pub(crate) fn uint16_array_slots(array: &UInt16Array) -> (r: Vec<Option<u16>>)
    ensures
        r@ == array_slots(*array),
{
    array.array.iter().map(|slot| slot.copied()).collect()
}

/// The offsets of lists with the given lengths, laid end to end: zero, then
/// the place where each list ends.
pub open spec fn offsets_of(lengths: Seq<usize>) -> Seq<int>
    decreases lengths.len(),
{
    if lengths.len() == 0 {
        seq![0int]
    } else {
        let before = offsets_of(lengths.drop_last());
        before.push(before.last() + lengths.last())
    }
}

/// The sum of the lengths.
pub open spec fn total_length(lengths: Seq<usize>) -> int {
    offsets_of(lengths).last()
}

/// The numbers of a list of 32-bit offsets.
pub open spec fn offset_values(offsets: Seq<i32>) -> Seq<int> {
    Seq::new(offsets.len(), |i: int| offsets[i] as int)
}

/// Computes list offsets with `arrow2::offset::Offsets::<i32>::try_from_lengths`.
///
/// Trusted: the offsets start at zero and each further one adds the next
/// length. The function fails, or in a debug build stops the program, only
/// where the sum of the lengths does not fit 32 bits with sign, which
/// `requires` excludes.
#[verifier::external_body]
pub(crate) fn offsets_from_lengths(lengths: &Vec<usize>) -> (r: Option<Vec<i32>>)
    requires
        total_length(lengths@) <= i32::MAX,
    ensures
        r.is_some(),
        offset_values(r.unwrap()@) == offsets_of(lengths@),
{
    arrow2::offset::Offsets::<i32>::try_from_lengths(lengths.iter().copied()).ok().map(
        |offsets| offsets.into_inner(),
    )
}

} // verus!
