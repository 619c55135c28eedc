//! Space views in the order of their names.

use crate::path::bytes_lt;
use crate::space_view_id::SpaceViewId;
use itertools::Itertools;
use vstd::prelude::*;
use vstd::utf8::encode_utf8;

verus! {

/// A space view id together with the name of the view.
#[derive(Debug)]
pub struct NamedId {
    pub name: String,
    pub id: SpaceViewId,
}

/// Mathematical content of a `NamedId`.
pub struct NamedIdView {
    pub name: Seq<char>,
    pub id: SpaceViewId,
}

impl View for NamedId {
    type V = NamedIdView;

    open spec fn view(&self) -> NamedIdView {
        NamedIdView { name: self.name@, id: self.id }
    }
}

/// The entries that a list of `NamedId` values stands for.
pub open spec fn named_views(s: Seq<NamedId>) -> Seq<NamedIdView> {
    Seq::new(s.len(), |i: int| s[i]@)
}

/// The first name does not come after the second: names are ordered as
/// strings are, by the bytes of their UTF-8 encoding.
pub open spec fn name_le(a: Seq<char>, b: Seq<char>) -> bool {
    !bytes_lt(encode_utf8(b), encode_utf8(a))
}

/// The names never descend along the list.
pub open spec fn names_ascending(s: Seq<NamedIdView>) -> bool {
    forall|i: int, j: int| 0 <= i < j < s.len() ==> name_le((#[trigger] s[i]).name, (#[trigger] s[j]).name)
}

/// The entries with the given name, in their order.
pub open spec fn with_name(s: Seq<NamedIdView>, name: Seq<char>) -> Seq<NamedIdView> {
    s.filter(|e: NamedIdView| e.name == name)
}

/// Sorts the entries by name with `Itertools::sorted_by_key` of the
/// `itertools` crate.
///
/// Trusted: the result holds the same entries in ascending order of their
/// names, as strings compare, and the sort is stable: entries of the same
/// name keep their order.
#[verifier::external_body]
pub(crate) fn sorted_by_name(entries: Vec<NamedId>) -> (r: Vec<NamedId>)
    ensures
        r@.len() == entries@.len(),
        names_ascending(named_views(r@)),
        forall|name: Seq<char>| #[trigger]
            with_name(named_views(r@), name) == with_name(named_views(entries@), name),
{
    entries.into_iter().sorted_by_key(|e| e.name.clone()).collect_vec()
}

} // verus!
