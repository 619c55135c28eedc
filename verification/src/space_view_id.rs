//! Identity of a space view.

use vstd::prelude::*;

verus! {

/// The bits of a UUID that hold its version and its variant.
pub open spec fn version_and_variant(bits: u128) -> u128 {
    bits & 0x0000_0000_0000_f000_c000_0000_0000_0000u128
}

/// Whether the 128 bits are laid out as a version 4 UUID of the usual variant.
pub open spec fn is_random_uuid(bits: u128) -> bool {
    version_and_variant(bits) == 0x0000_0000_0000_4000_8000_0000_0000_0000u128
}

/// A unique id for each space view: the 128 bits of a UUID.
#[derive(Clone, Copy, Debug, PartialEq, Eq, Hash, PartialOrd, Ord, Structural)]
pub struct SpaceViewId(pub u128);

impl SpaceViewId {
    /// A fresh id from `uuid::Uuid::new_v4`, as the integer that
    /// `uuid::Uuid::as_u128` gives for it.
    ///
    /// Trusted: the id is random, so nothing ties it to earlier ids; all that
    /// is claimed is that the version and variant bits are those of a version
    /// 4 UUID, which `new_v4` sets by masking.
    #[verifier::external_body]
    pub fn random() -> (r: SpaceViewId)
        ensures
            is_random_uuid(r.0),
    {
        SpaceViewId(uuid::Uuid::new_v4().as_u128())
    }

    /// The id with the given bits.
    pub fn from_u128(bits: u128) -> (r: SpaceViewId)
        ensures
            r.0 == bits,
    {
        SpaceViewId(bits)
    }

    /// The bits of the id.
    pub fn as_u128(&self) -> (bits: u128)
        ensures
            bits == self.0,
    {
        self.0
    }
}

} // verus!
