//! Transforms between spaces, and the axis convention of a space.
//!
//! The numeric content of a pose or of camera intrinsics plays no part in how
//! the hierarchy is cut, so a transform carries only the key under which the
//! caller keeps that content.

use vstd::prelude::*;

verus! {

/// A rigid pose from a child space to its parent space, by the key of its
/// rotation and translation in the caller's table of poses.
#[derive(Clone, Copy, Debug, PartialEq, Eq, Structural)]
pub struct Rigid3 {
    pub key: u64,
}

/// Camera projection intrinsics, by their key in the caller's table.
#[derive(Clone, Copy, Debug, PartialEq, Eq, Structural)]
pub struct Pinhole {
    pub key: u64,
}

/// What is stored at a path that starts a new space.
///
/// A path with no transform at all stays in its parent's space; that case is
/// the absence of a `Transform`, not a variant of it.
#[derive(Clone, Copy, Debug, PartialEq, Eq, Structural)]
pub enum Transform {
    /// A transform is logged for this path, but none applies at the query
    /// time. The path still starts a space of its own.
    Unresolved,
    /// A rigid pose relating the child space to its parent.
    Rigid3(Rigid3),
    /// A projection from a 3D camera space onto an image plane.
    Pinhole(Pinhole),
}

/// One of the six directions an axis can point in.
#[derive(Clone, Copy, Debug, PartialEq, Eq, Structural)]
pub enum ViewDir {
    Up,
    Down,
    Right,
    Left,
    Forward,
    Back,
}

/// The directions in which the x, y and z axes of a space point.
#[derive(Clone, Copy, Debug, PartialEq, Eq, Structural)]
pub struct ViewCoordinates {
    pub x: ViewDir,
    pub y: ViewDir,
    pub z: ViewDir,
}

/// The transform that holds at a path at the query time.
///
/// `has_history` says whether any transform was ever logged for the path;
/// `latest` is the newest one at or before the query time, if there is a
/// query time and such a value.
pub open spec fn resolved_transform(has_history: bool, latest: Option<Transform>) -> Option<Transform> {
    if !has_history {
        None
    } else if latest.is_some() {
        latest
    } else {
        Some(Transform::Unresolved)
    }
}

/// Decides what transform a path carries at the query time.
///
/// A path without any logged transform carries none and stays in its parent's
/// space. A path with a logged transform always carries one: the latest value
/// where there is one, and `Unresolved` otherwise, so that the cut in the
/// hierarchy does not come and go with the query time.
pub fn query_transform(has_history: bool, latest: Option<Transform>) -> (r: Option<Transform>)
    ensures
        r == resolved_transform(has_history, latest),
{
    if !has_history {
        None
    } else {
        match latest {
            Some(t) => Some(t),
            None => Some(Transform::Unresolved),
        }
    }
}

/// Decides what axis convention a path carries at the query time.
///
/// There is one only if a query time is set, a convention was logged for the
/// path, and a value exists at or before the query time.
pub fn query_view_coordinates(
    has_query_time: bool,
    has_history: bool,
    latest: Option<ViewCoordinates>,
) -> (r: Option<ViewCoordinates>)
    ensures
        r == if has_query_time && has_history {
            latest
        } else {
            None
        },
{
    if has_query_time && has_history {
        latest
    } else {
        None
    }
}

} // verus!
