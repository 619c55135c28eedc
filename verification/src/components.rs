//! Blueprint components.

use vstd::prelude::*;
use vstd::std_specs::convert::FromSpecImpl;

verus! {

/// Distance to the near clip plane in 3D scene units.
///
/// The distance is a single-precision number, held here by its bit pattern;
/// nothing in this crate computes with it.
#[derive(Clone, Copy, Debug, PartialEq, Eq, Structural)]
pub struct NearClipPlane {
    pub bits: u32,
}

impl From<u32> for NearClipPlane {
    fn from(bits: u32) -> (r: NearClipPlane) {
        NearClipPlane { bits }
    }
}

impl FromSpecImpl<u32> for NearClipPlane {
    open spec fn obeys_from_spec() -> bool {
        true
    }

    open spec fn from_spec(bits: u32) -> NearClipPlane {
        NearClipPlane { bits }
    }
}

impl NearClipPlane {
    /// The fully qualified name of the component.
    pub fn name() -> (r: &'static str)
        ensures
            r@ == "rerun.blueprint.components.NearClipPlane"@,
    {
        "rerun.blueprint.components.NearClipPlane"
    }

    /// Bytes that the value owns on the heap: none.
    pub fn heap_size_bytes(&self) -> (r: u64)
        ensures
            r == 0,
    {
        0
    }

    /// Whether the value is plain data without pointers: it is.
    pub fn is_pod() -> (r: bool)
        ensures
            r,
    {
        true
    }
}

} // verus!
