//! Components that exist to exercise the Arrow encoding: an optional number,
//! an optional list of structs, and a struct around one field.

use crate::arrow::{
    offset_values, offsets_from_lengths, offsets_of, total_length,
};
use crate::errors::DeserializationError;
use std::borrow::Cow;
use vstd::prelude::*;
use vstd::std_specs::convert::{FromSpecImpl, IntoSpec};

verus! {

/// A datum with many fields, of which the encoding of lists needs none. It
/// is held by the key under which the caller keeps the fields.
#[derive(Clone, Copy, Debug, PartialEq, Eq, Structural)]
pub struct AffixFuzzer1 {
    pub key: u64,
}

impl Default for AffixFuzzer1 {
    fn default() -> (r: AffixFuzzer1)
        ensures
            r == (AffixFuzzer1 { key: 0 }),
    {
        AffixFuzzer1 { key: 0 }
    }
}

/// A datum around an optional union, held by the key under which the caller
/// keeps its content.
#[derive(Clone, Copy, Debug, PartialEq, Eq, Structural)]
pub struct AffixFuzzer5 {
    pub key: u64,
}

/// A component that wraps one datum.
#[derive(Clone, Copy, Debug, PartialEq, Eq, Structural)]
pub struct AffixFuzzer19(pub AffixFuzzer5);

/// The datum inside an optional component, if the component is present.
pub open spec fn datum_of(component: Option<AffixFuzzer19>) -> Option<AffixFuzzer5> {
    match component {
        Some(AffixFuzzer19(datum)) => Some(datum),
        None => None,
    }
}

/// The components around the given data. Every datum must be present: a
/// missing one makes the whole an error.
pub open spec fn components_of(data: Seq<Option<AffixFuzzer5>>) -> Result<
    Seq<Option<AffixFuzzer19>>,
    DeserializationError,
> {
    if forall|i: int| 0 <= i < data.len() ==> (#[trigger] data[i]).is_some() {
        Ok(Seq::new(data.len(), |i: int| Some(AffixFuzzer19(data[i].unwrap()))))
    } else {
        Err(DeserializationError::MissingData)
    }
}

impl AffixFuzzer19 {
    /// The fully qualified name of the component.
    pub fn name() -> (r: &'static str)
        ensures
            r@ == "rerun.testing.components.AffixFuzzer19"@,
    {
        "rerun.testing.components.AffixFuzzer19"
    }

    /// Takes the data out of optional components, for their encoding: one
    /// datum per component, none where the component is absent.
    pub fn try_to_arrow_opt(data: &Vec<Option<AffixFuzzer19>>) -> (r: Vec<Option<AffixFuzzer5>>)
        ensures
            r@.len() == data@.len(),
            forall|i: int| 0 <= i < data@.len() ==> (#[trigger] r@[i]) == datum_of(data@[i]),
    {
        let mut out: Vec<Option<AffixFuzzer5>> = Vec::new();
        let mut i: usize = 0;
        while i < data.len()
            invariant
                i <= data@.len(),
                out@.len() == i,
                forall|k: int| 0 <= k < i ==> (#[trigger] out@[k]) == datum_of(data@[k]),
            decreases data@.len() - i,
        {
            let datum = match data[i] {
                Some(AffixFuzzer19(d)) => Some(d),
                None => None,
            };
            out.push(datum);
            i += 1;
        }
        out
    }

    /// Wraps decoded data into components. A missing datum is an error,
    /// since the component cannot be without one.
    pub fn try_from_arrow_opt(data: &Vec<Option<AffixFuzzer5>>) -> (r: Result<
        Vec<Option<AffixFuzzer19>>,
        DeserializationError,
    >)
        ensures
            match r {
                Ok(out) => components_of(data@) == Ok::<Seq<Option<AffixFuzzer19>>, DeserializationError>(
                    out@,
                ),
                Err(e) => components_of(data@) == Err::<Seq<Option<AffixFuzzer19>>, DeserializationError>(
                    e,
                ),
            },
    {
        let mut out: Vec<Option<AffixFuzzer19>> = Vec::new();
        let mut i: usize = 0;
        while i < data.len()
            invariant
                i <= data@.len(),
                out@.len() == i,
                forall|k: int| 0 <= k < i ==> (#[trigger] data@[k]).is_some(),
                forall|k: int| 0 <= k < i ==> (#[trigger] out@[k]) == Some(AffixFuzzer19(data@[k].unwrap())),
            decreases data@.len() - i,
        {
            match data[i] {
                Some(v) => {
                    out.push(Some(AffixFuzzer19(v)));
                },
                None => {
                    assert(data@[i as int].is_none());
                    return Err(DeserializationError::MissingData);
                },
            }
            i += 1;
        }
        assert(out@ =~= Seq::new(data@.len(), |i: int| Some(AffixFuzzer19(data@[i].unwrap()))));
        Ok(out)
    }
}

impl<T: Into<AffixFuzzer5>> From<T> for AffixFuzzer19 {
    fn from(v: T) -> (r: AffixFuzzer19) {
        AffixFuzzer19(v.into())
    }
}

impl<T: Into<AffixFuzzer5>> FromSpecImpl<T> for AffixFuzzer19 {
    open spec fn obeys_from_spec() -> bool {
        T::obeys_into_spec()
    }

    open spec fn from_spec(v: T) -> AffixFuzzer19 {
        AffixFuzzer19(v.into_spec())
    }
}

impl std::borrow::Borrow<AffixFuzzer5> for AffixFuzzer19 {
    /// The datum inside the component.
    fn borrow(&self) -> &AffixFuzzer5
        returns
            &self.0,
    {
        &self.0
    }
}

impl std::ops::Deref for AffixFuzzer19 {
    type Target = AffixFuzzer5;

    fn deref(&self) -> (r: &AffixFuzzer5)
        ensures
            *r == self.0,
    {
        &self.0
    }
}

/// A component that holds an optional single-precision number, by its bit
/// pattern.
#[derive(Clone, Copy, Debug, PartialEq, Eq, Structural)]
pub struct AffixFuzzer8(pub Option<u32>);

impl Default for AffixFuzzer8 {
    fn default() -> (r: AffixFuzzer8)
        ensures
            r == AffixFuzzer8(None),
    {
        AffixFuzzer8(None)
    }
}

/// The slot that stands for an optional component with an optional number:
/// the number where both are present.
pub open spec fn number_slot(datum: Option<AffixFuzzer8>) -> Option<u32> {
    match datum {
        Some(AffixFuzzer8(Some(bits))) => Some(bits),
        _ => None,
    }
}

/// The values and the validity bits of an Arrow array of numbers: the values
/// with zero in null slots, and validity bits only where some slot is null.
#[derive(Debug, PartialEq)]
pub struct NumberParts {
    pub values: Vec<u32>,
    pub validity: Option<Vec<bool>>,
}

impl AffixFuzzer8 {
    /// The fully qualified name of the component.
    pub fn name() -> (r: &'static str)
        ensures
            r@ == "rerun.testing.components.AffixFuzzer8"@,
    {
        "rerun.testing.components.AffixFuzzer8"
    }

    /// Splits optional components into the values and the validity bits of
    /// an Arrow array.
    pub fn try_to_arrow_opt(data: &Vec<Option<AffixFuzzer8>>) -> (r: NumberParts)
        ensures
            r.values@.len() == data@.len(),
            forall|i: int|
                0 <= i < data@.len() ==> (#[trigger] r.values@[i]) == match number_slot(data@[i]) {
                    Some(bits) => bits,
                    None => 0,
                },
            r.validity.is_some() == exists|i: int|
                0 <= i < data@.len() && number_slot(#[trigger] data@[i]).is_none(),
            r.validity.is_some() ==> r.validity.unwrap()@.len() == data@.len() && forall|i: int|
                0 <= i < data@.len() ==> (#[trigger] r.validity.unwrap()@[i]) == number_slot(
                    data@[i],
                ).is_some(),
    {
        let mut values: Vec<u32> = Vec::new();
        let mut somes: Vec<bool> = Vec::new();
        let mut any_nones = false;
        let mut i: usize = 0;
        while i < data.len()
            invariant
                i <= data@.len(),
                values@.len() == i,
                somes@.len() == i,
                any_nones == exists|k: int| 0 <= k < i && number_slot(#[trigger] data@[k]).is_none(),
                forall|k: int| 0 <= k < i ==> (#[trigger] somes@[k]) == number_slot(data@[k]).is_some(),
                forall|k: int|
                    0 <= k < i ==> (#[trigger] values@[k]) == match number_slot(data@[k]) {
                        Some(bits) => bits,
                        None => 0,
                    },
            decreases data@.len() - i,
        {
            let slot: Option<u32> = match data[i] {
                Some(AffixFuzzer8(Some(bits))) => Some(bits),
                _ => None,
            };
            match slot {
                Some(bits) => {
                    values.push(bits);
                    somes.push(true);
                },
                None => {
                    values.push(0);
                    somes.push(false);
                    any_nones = true;
                },
            }
            i += 1;
        }
        let validity = if any_nones {
            Some(somes)
        } else {
            None
        };
        NumberParts { values, validity }
    }

    /// Reads components back from the slots of an Arrow array of numbers.
    /// A null slot is a component without a number.
    pub fn try_from_arrow_opt(slots: &Vec<Option<u32>>) -> (r: Vec<Option<AffixFuzzer8>>)
        ensures
            r@.len() == slots@.len(),
            forall|i: int| 0 <= i < slots@.len() ==> (#[trigger] r@[i]) == Some(AffixFuzzer8(slots@[i])),
    {
        let mut out: Vec<Option<AffixFuzzer8>> = Vec::new();
        let mut i: usize = 0;
        while i < slots.len()
            invariant
                i <= slots@.len(),
                out@.len() == i,
                forall|k: int| 0 <= k < i ==> (#[trigger] out@[k]) == Some(AffixFuzzer8(slots@[k])),
            decreases slots@.len() - i,
        {
            out.push(Some(AffixFuzzer8(slots[i])));
            i += 1;
        }
        out
    }
}

/// A component that holds an optional list of data.
#[derive(Debug, Default, PartialEq)]
pub struct AffixFuzzer7(pub Option<Vec<AffixFuzzer1>>);

impl Clone for AffixFuzzer7 {
    fn clone(&self) -> (r: AffixFuzzer7)
        ensures
            list_of(Some(r)) == list_of(Some(*self)),
    {
        match &self.0 {
            Some(list) => {
                let mut copy: Vec<AffixFuzzer1> = Vec::new();
                let mut i: usize = 0;
                while i < list.len()
                    invariant
                        i <= list@.len(),
                        copy@ == list@.take(i as int),
                    decreases list@.len() - i,
                {
                    copy.push(list[i]);
                    assert(list@.take(i as int + 1) =~= list@.take(i as int).push(list@[i as int]));
                    i += 1;
                }
                assert(list@.take(list@.len() as int) =~= list@);
                AffixFuzzer7(Some(copy))
            },
            None => AffixFuzzer7(None),
        }
    }
}

/// Mathematical content of an optional `AffixFuzzer7`: its list, if the
/// component is present and has one.
pub open spec fn list_of(datum: Option<AffixFuzzer7>) -> Option<Seq<AffixFuzzer1>> {
    match datum {
        Some(AffixFuzzer7(Some(list))) => Some(list@),
        _ => None,
    }
}

/// The lists of a sequence of optional components.
pub open spec fn lists_of(data: Seq<Option<AffixFuzzer7>>) -> Seq<Option<Seq<AffixFuzzer1>>> {
    Seq::new(data.len(), |i: int| list_of(data[i]))
}

/// The length of each list, zero where there is none.
pub open spec fn list_lengths(lists: Seq<Option<Seq<AffixFuzzer1>>>) -> Seq<usize> {
    Seq::new(
        lists.len(),
        |i: int|
            match lists[i] {
                Some(list) => list.len() as usize,
                None => 0usize,
            },
    )
}

/// All lists laid end to end.
pub open spec fn joined_lists(lists: Seq<Option<Seq<AffixFuzzer1>>>) -> Seq<AffixFuzzer1>
    decreases lists.len(),
{
    if lists.len() == 0 {
        Seq::empty()
    } else {
        joined_lists(lists.drop_last()) + match lists.last() {
            Some(list) => list,
            None => Seq::empty(),
        }
    }
}

/// The parts of an Arrow list array: where each list ends among the values,
/// the values of all lists laid end to end, and validity bits where some
/// list is absent.
#[derive(Debug, PartialEq)]
pub struct ListParts {
    pub offsets: Vec<i32>,
    pub values: Vec<AffixFuzzer1>,
    pub validity: Option<Vec<bool>>,
}

/// The list in one slot of a list array, or the error of reading it: a null
/// slot holds no list; a valid one holds the values between its two offsets,
/// a missing value counting as the default; offsets beyond the values are
/// an error.
pub open spec fn slot_list(
    offsets: Seq<i32>,
    values: Seq<Option<AffixFuzzer1>>,
    validity: Option<Seq<bool>>,
    i: int,
) -> Result<Option<Seq<AffixFuzzer1>>, DeserializationError> {
    if validity.is_some() && !validity.unwrap()[i] {
        Ok(None)
    } else if offsets[i + 1] > values.len() {
        Err(
            DeserializationError::OffsetSliceOutOfBounds {
                start: offsets[i] as usize,
                end: offsets[i + 1] as usize,
                len: values.len() as usize,
            },
        )
    } else {
        Ok(
            Some(
                Seq::new(
                    (offsets[i + 1] - offsets[i]) as nat,
                    |k: int|
                        match values[offsets[i] + k] {
                            Some(v) => v,
                            None => AffixFuzzer1 { key: 0 },
                        },
                ),
            ),
        )
    }
}

/// The offsets are those of some lists laid end to end: there is one, none is
/// negative, and they never descend.
pub open spec fn offsets_valid(offsets: Seq<i32>) -> bool {
    &&& offsets.len() >= 1
    &&& offsets[0] >= 0
    &&& forall|i: int| 0 <= i < offsets.len() - 1 ==> (#[trigger] offsets[i]) <= offsets[i + 1]
}

impl AffixFuzzer7 {
    /// The fully qualified name of the component.
    pub fn name() -> (r: &'static str)
        ensures
            r@ == "rerun.testing.components.AffixFuzzer7"@,
    {
        "rerun.testing.components.AffixFuzzer7"
    }

    /// The component with the given list, if any.
    pub fn from(v: Option<Vec<AffixFuzzer1>>) -> (r: AffixFuzzer7)
        ensures
            r.0 == v,
    {
        AffixFuzzer7(v)
    }

    /// Splits optional components into the parts of an Arrow list array.
    ///
    /// An absent component and a component without a list both become a null
    /// slot of length zero.
    pub fn try_to_arrow_opt(data: &Vec<Option<AffixFuzzer7>>) -> (r: ListParts)
        requires
            total_length(list_lengths(lists_of(data@))) <= i32::MAX,
        ensures
            offset_values(r.offsets@) == offsets_of(list_lengths(lists_of(data@))),
            r.values@ == joined_lists(lists_of(data@)),
            r.validity.is_some() == exists|i: int|
                0 <= i < data@.len() && list_of(#[trigger] data@[i]).is_none(),
            r.validity.is_some() ==> r.validity.unwrap()@.len() == data@.len() && forall|i: int|
                0 <= i < data@.len() ==> (#[trigger] r.validity.unwrap()@[i]) == list_of(
                    data@[i],
                ).is_some(),
    {
        let ghost lists = lists_of(data@);
        let mut somes: Vec<bool> = Vec::new();
        let mut lengths: Vec<usize> = Vec::new();
        let mut values: Vec<AffixFuzzer1> = Vec::new();
        let mut any_nones = false;
        let mut i: usize = 0;
        proof {
            assert(lists.take(0) =~= Seq::<Option<Seq<AffixFuzzer1>>>::empty());
            assert(lengths@ =~= list_lengths(lists.take(0)));
        }
        while i < data.len()
            invariant
                i <= data@.len(),
                lists == lists_of(data@),
                somes@.len() == i,
                lengths@ == list_lengths(lists.take(i as int)),
                values@ == joined_lists(lists.take(i as int)),
                any_nones == exists|k: int| 0 <= k < i && list_of(#[trigger] data@[k]).is_none(),
                forall|k: int| 0 <= k < i ==> (#[trigger] somes@[k]) == list_of(data@[k]).is_some(),
            decreases data@.len() - i,
        {
            proof {
                assert(lists.take(i as int + 1).drop_last() =~= lists.take(i as int));
                assert(lists.take(i as int + 1).last() == list_of(data@[i as int]));
            }
            match &data[i] {
                Some(AffixFuzzer7(Some(list))) => {
                    let ghost start = values@;
                    let mut k: usize = 0;
                    while k < list.len()
                        invariant
                            k <= list@.len(),
                            values@ == start + list@.take(k as int),
                        decreases list@.len() - k,
                    {
                        values.push(list[k]);
                        assert(list@.take(k as int + 1) =~= list@.take(k as int).push(list@[k as int]));
                        k += 1;
                    }
                    assert(list@.take(list@.len() as int) =~= list@);
                    somes.push(true);
                    lengths.push(list.len());
                },
                _ => {
                    assert(values@ =~= values@ + Seq::<AffixFuzzer1>::empty());
                    somes.push(false);
                    lengths.push(0);
                    any_nones = true;
                },
            }
            assert(lengths@ =~= list_lengths(lists.take(i as int + 1)));
            i += 1;
        }
        proof {
            assert(lists.take(data@.len() as int) =~= lists);
        }
        let offsets = offsets_from_lengths(&lengths).unwrap();
        let validity = if any_nones {
            Some(somes)
        } else {
            None
        };
        ListParts { offsets, values, validity }
    }

    /// Reads components back from the parts of an Arrow list array: one per
    /// slot, with the list of the slot or, for a null slot, without a list.
    /// The first slot whose offsets reach beyond the values is an error.
    pub fn try_from_arrow_opt(
        offsets: &Vec<i32>,
        values: &Vec<Option<AffixFuzzer1>>,
        validity: &Option<Vec<bool>>,
    ) -> (r: Result<Vec<Option<AffixFuzzer7>>, DeserializationError>)
        requires
            offsets_valid(offsets@),
            validity.is_some() ==> validity.unwrap()@.len() == offsets@.len() - 1,
        ensures
            match r {
                Ok(out) => out@.len() == offsets@.len() - 1 && forall|i: int|
                    0 <= i < out@.len() ==> slot_list(
                        offsets@,
                        values@,
                        crate::arrow::validity_view(*validity),
                        i,
                    ) == Ok::<Option<Seq<AffixFuzzer1>>, DeserializationError>(
                        list_of(#[trigger] out@[i]),
                    ) && out@[i].is_some(),
                Err(e) => exists|i: int|
                    0 <= i < offsets@.len() - 1 && #[trigger] slot_list(
                        offsets@,
                        values@,
                        crate::arrow::validity_view(*validity),
                        i,
                    ) == Err::<Option<Seq<AffixFuzzer1>>, DeserializationError>(e) && forall|k: int|
                        0 <= k < i ==> (#[trigger] slot_list(
                            offsets@,
                            values@,
                            crate::arrow::validity_view(*validity),
                            k,
                        )).is_ok(),
            },
    {
        let ghost bits = crate::arrow::validity_view(*validity);
        let n = offsets.len() - 1;
        let mut out: Vec<Option<AffixFuzzer7>> = Vec::new();
        let mut i: usize = 0;
        while i < n
            invariant
                i <= n,
                n == offsets@.len() - 1,
                offsets_valid(offsets@),
                bits == crate::arrow::validity_view(*validity),
                validity.is_some() ==> validity.unwrap()@.len() == n,
                out@.len() == i,
                forall|k: int|
                    0 <= k < i ==> slot_list(offsets@, values@, bits, k) == Ok::<
                        Option<Seq<AffixFuzzer1>>,
                        DeserializationError,
                    >(list_of(#[trigger] out@[k])) && out@[k].is_some(),
            decreases n - i,
        {
            let valid = match validity {
                Some(v) => v[i],
                None => true,
            };
            proof {
                lemma_offsets_ordered(offsets@, 0, i as int);
                lemma_offsets_ordered(offsets@, i as int, i as int + 1);
            }
            if valid {
                let start = offsets[i] as usize;
                let end = offsets[i + 1] as usize;
                if end > values.len() {
                    let e = DeserializationError::OffsetSliceOutOfBounds {
                        start,
                        end,
                        len: values.len(),
                    };
                    proof {
                        assert(slot_list(offsets@, values@, bits, i as int) == Err::<
                            Option<Seq<AffixFuzzer1>>,
                            DeserializationError,
                        >(e));
                        assert forall|k: int| 0 <= k < i implies (#[trigger] slot_list(
                            offsets@,
                            values@,
                            bits,
                            k,
                        )).is_ok() by {
                            assert(slot_list(offsets@, values@, bits, k) == Ok::<
                                Option<Seq<AffixFuzzer1>>,
                                DeserializationError,
                            >(list_of(out@[k])));
                        }
                    }
                    return Err(e);
                }
                let mut list: Vec<AffixFuzzer1> = Vec::new();
                let mut k: usize = start;
                while k < end
                    invariant
                        start <= k <= end,
                        end <= values@.len(),
                        list@.len() == k - start,
                        forall|t: int|
                            0 <= t < k - start ==> (#[trigger] list@[t]) == match values@[start + t] {
                                Some(v) => v,
                                None => AffixFuzzer1 { key: 0 },
                            },
                    decreases end - k,
                {
                    let v = match values[k] {
                        Some(v) => v,
                        None => AffixFuzzer1 { key: 0 },
                    };
                    list.push(v);
                    k += 1;
                }
                proof {
                    let want = slot_list(offsets@, values@, bits, i as int);
                    assert(want.is_ok() && want.unwrap().is_some());
                    assert(want.unwrap().unwrap() =~= list@);
                }
                out.push(Some(AffixFuzzer7(Some(list))));
            } else {
                out.push(Some(AffixFuzzer7(None)));
            }
            i += 1;
        }
        Ok(out)
    }
}

/// Valid offsets never descend, however far apart.
proof fn lemma_offsets_ordered(offsets: Seq<i32>, i: int, j: int)
    requires
        offsets_valid(offsets),
        0 <= i <= j < offsets.len(),
    ensures
        0 <= offsets[i] <= offsets[j],
    decreases j,
{
    if j > 0 {
        if i < j {
            lemma_offsets_ordered(offsets, i, j - 1);
            assert(offsets[j - 1] <= offsets[j - 1 + 1]);
        } else {
            lemma_offsets_ordered(offsets, 0, j - 1);
            assert(offsets[j - 1] <= offsets[j - 1 + 1]);
        }
    }
}

impl<'a> From<AffixFuzzer19> for Cow<'a, AffixFuzzer19> {
    fn from(value: AffixFuzzer19) -> (r: Cow<'a, AffixFuzzer19>) {
        Cow::Owned(value)
    }
}

impl<'a> FromSpecImpl<AffixFuzzer19> for Cow<'a, AffixFuzzer19> {
    open spec fn obeys_from_spec() -> bool {
        true
    }

    open spec fn from_spec(value: AffixFuzzer19) -> Cow<'a, AffixFuzzer19> {
        Cow::Owned(value)
    }
}

impl<'a> From<&'a AffixFuzzer19> for Cow<'a, AffixFuzzer19> {
    fn from(value: &'a AffixFuzzer19) -> (r: Cow<'a, AffixFuzzer19>) {
        Cow::Borrowed(value)
    }
}

impl<'a> FromSpecImpl<&'a AffixFuzzer19> for Cow<'a, AffixFuzzer19> {
    open spec fn obeys_from_spec() -> bool {
        true
    }

    open spec fn from_spec(value: &'a AffixFuzzer19) -> Cow<'a, AffixFuzzer19> {
        Cow::Borrowed(value)
    }
}

impl<'a> From<AffixFuzzer7> for Cow<'a, AffixFuzzer7> {
    fn from(value: AffixFuzzer7) -> (r: Cow<'a, AffixFuzzer7>) {
        Cow::Owned(value)
    }
}

impl<'a> FromSpecImpl<AffixFuzzer7> for Cow<'a, AffixFuzzer7> {
    open spec fn obeys_from_spec() -> bool {
        true
    }

    open spec fn from_spec(value: AffixFuzzer7) -> Cow<'a, AffixFuzzer7> {
        Cow::Owned(value)
    }
}

impl<'a> From<&'a AffixFuzzer7> for Cow<'a, AffixFuzzer7> {
    fn from(value: &'a AffixFuzzer7) -> (r: Cow<'a, AffixFuzzer7>) {
        Cow::Borrowed(value)
    }
}

impl<'a> FromSpecImpl<&'a AffixFuzzer7> for Cow<'a, AffixFuzzer7> {
    open spec fn obeys_from_spec() -> bool {
        true
    }

    open spec fn from_spec(value: &'a AffixFuzzer7) -> Cow<'a, AffixFuzzer7> {
        Cow::Borrowed(value)
    }
}

impl<'a> From<AffixFuzzer8> for Cow<'a, AffixFuzzer8> {
    fn from(value: AffixFuzzer8) -> (r: Cow<'a, AffixFuzzer8>) {
        Cow::Owned(value)
    }
}

impl<'a> FromSpecImpl<AffixFuzzer8> for Cow<'a, AffixFuzzer8> {
    open spec fn obeys_from_spec() -> bool {
        true
    }

    open spec fn from_spec(value: AffixFuzzer8) -> Cow<'a, AffixFuzzer8> {
        Cow::Owned(value)
    }
}

impl<'a> From<&'a AffixFuzzer8> for Cow<'a, AffixFuzzer8> {
    fn from(value: &'a AffixFuzzer8) -> (r: Cow<'a, AffixFuzzer8>) {
        Cow::Borrowed(value)
    }
}

impl<'a> FromSpecImpl<&'a AffixFuzzer8> for Cow<'a, AffixFuzzer8> {
    open spec fn obeys_from_spec() -> bool {
        true
    }

    open spec fn from_spec(value: &'a AffixFuzzer8) -> Cow<'a, AffixFuzzer8> {
        Cow::Borrowed(value)
    }
}

} // verus!
