//! Cameras found in the transform hierarchy.
//!
//! A space reached from the viewed space by a rigid transform is a camera
//! position. Each pinhole projection directly below such a space makes it a
//! full camera that looks into the projected space.

use crate::path::ObjPath;
use crate::spaces::{SpaceInfo, SpacesInfo};
use crate::transform::{Pinhole, Rigid3, Transform, ViewCoordinates};
use vstd::prelude::*;

verus! {

/// A camera embedded in a space.
#[derive(Debug)]
pub struct SpaceCamera {
    /// The path at which the camera's own space starts.
    pub camera_obj_path: ObjPath,
    /// The axis convention of the camera's own space, if known.
    pub camera_view_coordinates: Option<ViewCoordinates>,
    /// The pose of the camera in the viewed space.
    pub world_from_camera: Rigid3,
    /// The projection, where the camera has one.
    pub pinhole: Option<Pinhole>,
    /// The space the camera projects into, where it has a projection.
    pub target_space: Option<ObjPath>,
}

/// Mathematical content of a `SpaceCamera`.
pub struct SpaceCameraView {
    pub camera_obj_path: Seq<Seq<u8>>,
    pub camera_view_coordinates: Option<ViewCoordinates>,
    pub world_from_camera: Rigid3,
    pub pinhole: Option<Pinhole>,
    pub target_space: Option<Seq<Seq<u8>>>,
}

impl View for SpaceCamera {
    type V = SpaceCameraView;

    open spec fn view(&self) -> SpaceCameraView {
        SpaceCameraView {
            camera_obj_path: self.camera_obj_path@,
            camera_view_coordinates: self.camera_view_coordinates,
            world_from_camera: self.world_from_camera,
            pinhole: self.pinhole,
            target_space: match self.target_space {
                Some(path) => Some(path@),
                None => None,
            },
        }
    }
}

/// The cameras that a list of `SpaceCamera` values stands for.
pub open spec fn camera_views(s: Seq<SpaceCamera>) -> Seq<SpaceCameraView> {
    Seq::new(s.len(), |i: int| s[i]@)
}

/// A camera position without projection.
pub open spec fn bare_camera(
    child: Seq<Seq<u8>>,
    coordinates: Option<ViewCoordinates>,
    pose: Rigid3,
) -> SpaceCameraView {
    SpaceCameraView {
        camera_obj_path: child,
        camera_view_coordinates: coordinates,
        world_from_camera: pose,
        pinhole: None,
        target_space: None,
    }
}

/// A camera that projects into the space starting at `target`.
pub open spec fn pinhole_camera(
    child: Seq<Seq<u8>>,
    coordinates: Option<ViewCoordinates>,
    pose: Rigid3,
    pinhole: Pinhole,
    target: Seq<Seq<u8>>,
) -> SpaceCameraView {
    SpaceCameraView {
        camera_obj_path: child,
        camera_view_coordinates: coordinates,
        world_from_camera: pose,
        pinhole: Some(pinhole),
        target_space: Some(target),
    }
}

/// One camera for each pinhole among the spaces below `child`, in the order of
/// `keys`.
pub open spec fn pinhole_cameras(
    child: Seq<Seq<u8>>,
    coordinates: Option<ViewCoordinates>,
    pose: Rigid3,
    keys: Seq<Seq<Seq<u8>>>,
    vals: Seq<Transform>,
) -> Seq<SpaceCameraView>
    decreases keys.len(),
{
    if keys.len() == 0 || vals.len() != keys.len() {
        Seq::empty()
    } else {
        let before = pinhole_cameras(child, coordinates, pose, keys.drop_last(), vals.drop_last());
        match vals.last() {
            Transform::Pinhole(pinhole) => before.push(
                pinhole_camera(child, coordinates, pose, pinhole, keys.last()),
            ),
            _ => before,
        }
    }
}

/// The cameras that one child space contributes: none unless it is reached by
/// a rigid transform; else one per pinhole below it, or a single bare camera
/// where there is no pinhole.
pub open spec fn cameras_of_child(spaces: SpacesInfo, child: Seq<Seq<u8>>, transform: Transform) -> Seq<
    SpaceCameraView,
> {
    match transform {
        Transform::Rigid3(pose) => {
            if spaces.spaces@.dom().contains(child) {
                let info = spaces.spaces@[child];
                let found = pinhole_cameras(
                    child,
                    info.coordinates,
                    pose,
                    info.child_spaces.spec_keys(),
                    info.child_spaces.spec_vals(),
                );
                if found.len() == 0 {
                    seq![bare_camera(child, info.coordinates, pose)]
                } else {
                    found
                }
            } else {
                seq![bare_camera(child, None, pose)]
            }
        },
        _ => Seq::empty(),
    }
}

/// The cameras of the child spaces `keys`, in that order.
pub open spec fn cameras_from(spaces: SpacesInfo, keys: Seq<Seq<Seq<u8>>>, vals: Seq<Transform>) -> Seq<
    SpaceCameraView,
>
    decreases keys.len(),
{
    if keys.len() == 0 || vals.len() != keys.len() {
        Seq::empty()
    } else {
        cameras_from(spaces, keys.drop_last(), vals.drop_last()) + cameras_of_child(
            spaces,
            keys.last(),
            vals.last(),
        )
    }
}

/// The cameras visible in a space: those of its child spaces, in path order.
pub open spec fn cameras_in(spaces: SpacesInfo, space: SpaceInfo) -> Seq<SpaceCameraView> {
    cameras_from(spaces, space.child_spaces.spec_keys(), space.child_spaces.spec_vals())
}

/// Looks for rigid transforms and pinholes below the given space and returns
/// them as cameras, ordered by the path of the camera and then by the path of
/// the space it projects into.
pub fn space_cameras(spaces_info: &SpacesInfo, space_info: &SpaceInfo) -> (r: Vec<SpaceCamera>)
    requires
        spaces_info.wf(),
        space_info.wf(),
    ensures
        camera_views(r@) == cameras_in(*spaces_info, *space_info),
{
    let mut out: Vec<SpaceCamera> = Vec::new();
    let ghost keys = space_info.child_spaces.spec_keys();
    let ghost vals = space_info.child_spaces.spec_vals();
    let n = space_info.child_spaces.len();
    let mut i: usize = 0;
    assert(camera_views(out@) =~= cameras_from(*spaces_info, keys.take(0), vals.take(0)));
    while i < n
        invariant
            i <= n,
            n == keys.len(),
            n == vals.len(),
            keys == space_info.child_spaces.spec_keys(),
            vals == space_info.child_spaces.spec_vals(),
            spaces_info.wf(),
            space_info.wf(),
            camera_views(out@) == cameras_from(*spaces_info, keys.take(i as int), vals.take(i as int)),
        decreases n - i,
    {
        let child_path = space_info.child_spaces.key(i);
        let child_transform = *space_info.child_spaces.value(i);
        let ghost before = out@;
        proof {
            assert(keys.take(i as int + 1).drop_last() =~= keys.take(i as int));
            assert(vals.take(i as int + 1).drop_last() =~= vals.take(i as int));
            assert(keys.take(i as int + 1).last() == keys[i as int]);
            assert(vals.take(i as int + 1).last() == vals[i as int]);
        }
        match child_transform {
            Transform::Rigid3(world_from_camera) => {
                let found_child = spaces_info.spaces.find(child_path);
                match found_child {
                    Some(at) => {
                        let child_space_info = spaces_info.spaces.value(at);
                        let view_space = child_space_info.coordinates;
                        let ghost gkeys = child_space_info.child_spaces.spec_keys();
                        let ghost gvals = child_space_info.child_spaces.spec_vals();
                        assert(child_space_info.wf());
                        let m = child_space_info.child_spaces.len();
                        let mut found_any_pinhole = false;
                        let mut j: usize = 0;
                        assert(camera_views(out@) =~= camera_views(before) + pinhole_cameras(
                            child_path@,
                            view_space,
                            world_from_camera,
                            gkeys.take(0),
                            gvals.take(0),
                        ));
                        while j < m
                            invariant
                                j <= m,
                                m == gkeys.len(),
                                m == gvals.len(),
                                child_space_info.wf(),
                                gkeys == child_space_info.child_spaces.spec_keys(),
                                gvals == child_space_info.child_spaces.spec_vals(),
                                found_any_pinhole == (pinhole_cameras(
                                    child_path@,
                                    view_space,
                                    world_from_camera,
                                    gkeys.take(j as int),
                                    gvals.take(j as int),
                                ).len() > 0),
                                camera_views(out@) == camera_views(before) + pinhole_cameras(
                                    child_path@,
                                    view_space,
                                    world_from_camera,
                                    gkeys.take(j as int),
                                    gvals.take(j as int),
                                ),
                            decreases m - j,
                        {
                            let grand_child_path = child_space_info.child_spaces.key(j);
                            let grand_child_transform = *child_space_info.child_spaces.value(j);
                            let ghost mid = out@;
                            proof {
                                assert(gkeys.take(j as int + 1).drop_last() =~= gkeys.take(j as int));
                                assert(gvals.take(j as int + 1).drop_last() =~= gvals.take(j as int));
                                assert(gkeys.take(j as int + 1).last() == gkeys[j as int]);
                                assert(gvals.take(j as int + 1).last() == gvals[j as int]);
                            }
                            match grand_child_transform {
                                Transform::Pinhole(pinhole) => {
                                    out.push(
                                        SpaceCamera {
                                            camera_obj_path: child_path.duplicate(),
                                            camera_view_coordinates: view_space,
                                            world_from_camera,
                                            pinhole: Some(pinhole),
                                            target_space: Some(grand_child_path.duplicate()),
                                        },
                                    );
                                    found_any_pinhole = true;
                                    assert(camera_views(out@) =~= camera_views(mid).push(
                                        pinhole_camera(
                                            child_path@,
                                            view_space,
                                            world_from_camera,
                                            pinhole,
                                            grand_child_path@,
                                        ),
                                    ));
                                },
                                _ => {},
                            }
                            j += 1;
                        }
                        proof {
                            assert(gkeys.take(m as int) =~= gkeys);
                            assert(gvals.take(m as int) =~= gvals);
                        }
                        if !found_any_pinhole {
                            out.push(
                                SpaceCamera {
                                    camera_obj_path: child_path.duplicate(),
                                    camera_view_coordinates: view_space,
                                    world_from_camera,
                                    pinhole: None,
                                    target_space: None,
                                },
                            );
                            assert(camera_views(out@) =~= camera_views(before) + seq![
                                bare_camera(child_path@, view_space, world_from_camera),
                            ]);
                        }
                    },
                    None => {
                        out.push(
                            SpaceCamera {
                                camera_obj_path: child_path.duplicate(),
                                camera_view_coordinates: None,
                                world_from_camera,
                                pinhole: None,
                                target_space: None,
                            },
                        );
                        assert(camera_views(out@) =~= camera_views(before) + seq![
                            bare_camera(child_path@, None, world_from_camera),
                        ]);
                    },
                }
            },
            _ => {
                assert(camera_views(out@) =~= camera_views(before) + Seq::<SpaceCameraView>::empty());
            },
        }
        i += 1;
    }
    proof {
        assert(keys.take(n as int) =~= keys);
        assert(vals.take(n as int) =~= vals);
    }
    out
}

/// Every camera that a child space contributes sits at that child's path and
/// has the pose of the rigid transform that leads to the child.
pub proof fn lemma_cameras_share_pose(spaces: SpacesInfo, child: Seq<Seq<u8>>, pose: Rigid3)
    ensures
        cameras_of_child(spaces, child, Transform::Rigid3(pose)).len() >= 1,
        forall|i: int|
            0 <= i < cameras_of_child(spaces, child, Transform::Rigid3(pose)).len() ==> {
                let camera = #[trigger] cameras_of_child(spaces, child, Transform::Rigid3(pose))[i];
                camera.camera_obj_path == child && camera.world_from_camera == pose
            },
{
    if spaces.spaces@.dom().contains(child) {
        let info = spaces.spaces@[child];
        lemma_pinhole_cameras_share_pose(
            child,
            info.coordinates,
            pose,
            info.child_spaces.spec_keys(),
            info.child_spaces.spec_vals(),
        );
    }
}

proof fn lemma_pinhole_cameras_share_pose(
    child: Seq<Seq<u8>>,
    coordinates: Option<ViewCoordinates>,
    pose: Rigid3,
    keys: Seq<Seq<Seq<u8>>>,
    vals: Seq<Transform>,
)
    ensures
        forall|i: int|
            0 <= i < pinhole_cameras(child, coordinates, pose, keys, vals).len() ==> {
                let camera = #[trigger] pinhole_cameras(child, coordinates, pose, keys, vals)[i];
                camera.camera_obj_path == child && camera.world_from_camera == pose
            },
    decreases keys.len(),
{
    if keys.len() > 0 && vals.len() == keys.len() {
        lemma_pinhole_cameras_share_pose(child, coordinates, pose, keys.drop_last(), vals.drop_last());
    }
}

/// A space with a single child space shows exactly the cameras of that child.
pub proof fn lemma_cameras_of_only_child(
    spaces: SpacesInfo,
    space: SpaceInfo,
    child: Seq<Seq<u8>>,
    transform: Transform,
)
    requires
        space.child_spaces.spec_keys() == seq![child],
        space.child_spaces.spec_vals() == seq![transform],
    ensures
        cameras_in(spaces, space) == cameras_of_child(spaces, child, transform),
{
    let keys = seq![child];
    let vals = seq![transform];
    assert(keys.drop_last() =~= Seq::<Seq<Seq<u8>>>::empty());
    assert(cameras_from(spaces, keys.drop_last(), vals.drop_last()) =~= Seq::<SpaceCameraView>::empty());
    assert(cameras_from(spaces, keys, vals) =~= cameras_of_child(spaces, child, transform));
}

/// A rigid child with one pinhole space below it is exactly one camera; it
/// carries the pinhole and looks into the space below.
pub proof fn lemma_one_pinhole_one_camera(
    spaces: SpacesInfo,
    child: Seq<Seq<u8>>,
    pose: Rigid3,
    grandchild: Seq<Seq<u8>>,
    pinhole: Pinhole,
)
    requires
        spaces.spaces@.dom().contains(child),
        spaces.spaces@[child].child_spaces.spec_keys() == seq![grandchild],
        spaces.spaces@[child].child_spaces.spec_vals() == seq![Transform::Pinhole(pinhole)],
    ensures
        cameras_of_child(spaces, child, Transform::Rigid3(pose)) == seq![
            pinhole_camera(child, spaces.spaces@[child].coordinates, pose, pinhole, grandchild),
        ],
{
    let info = spaces.spaces@[child];
    let keys = seq![grandchild];
    let vals = seq![Transform::Pinhole(pinhole)];
    assert(keys.drop_last() =~= Seq::<Seq<Seq<u8>>>::empty());
    assert(pinhole_cameras(child, info.coordinates, pose, keys.drop_last(), vals.drop_last())
        =~= Seq::<SpaceCameraView>::empty());
    assert(pinhole_cameras(child, info.coordinates, pose, keys, vals) =~= seq![
        pinhole_camera(child, info.coordinates, pose, pinhole, grandchild),
    ]);
}

/// A rigid child with two pinhole spaces below it is exactly two cameras with
/// the same pose, one looking into each of the two spaces.
pub proof fn lemma_two_pinholes_two_cameras(
    spaces: SpacesInfo,
    child: Seq<Seq<u8>>,
    pose: Rigid3,
    first: Seq<Seq<u8>>,
    first_pinhole: Pinhole,
    second: Seq<Seq<u8>>,
    second_pinhole: Pinhole,
)
    requires
        spaces.spaces@.dom().contains(child),
        spaces.spaces@[child].child_spaces.spec_keys() == seq![first, second],
        spaces.spaces@[child].child_spaces.spec_vals() == seq![
            Transform::Pinhole(first_pinhole),
            Transform::Pinhole(second_pinhole),
        ],
    ensures
        cameras_of_child(spaces, child, Transform::Rigid3(pose)) == seq![
            pinhole_camera(child, spaces.spaces@[child].coordinates, pose, first_pinhole, first),
            pinhole_camera(child, spaces.spaces@[child].coordinates, pose, second_pinhole, second),
        ],
{
    let info = spaces.spaces@[child];
    let keys = seq![first, second];
    let vals = seq![Transform::Pinhole(first_pinhole), Transform::Pinhole(second_pinhole)];
    let keys1 = keys.drop_last();
    let vals1 = vals.drop_last();
    assert(keys1 =~= seq![first]);
    assert(vals1 =~= seq![Transform::Pinhole(first_pinhole)]);
    assert(keys1.drop_last() =~= Seq::<Seq<Seq<u8>>>::empty());
    assert(pinhole_cameras(child, info.coordinates, pose, keys1.drop_last(), vals1.drop_last())
        =~= Seq::<SpaceCameraView>::empty());
    assert(pinhole_cameras(child, info.coordinates, pose, keys1, vals1) =~= seq![
        pinhole_camera(child, info.coordinates, pose, first_pinhole, first),
    ]);
    assert(pinhole_cameras(child, info.coordinates, pose, keys, vals) =~= seq![
        pinhole_camera(child, info.coordinates, pose, first_pinhole, first),
        pinhole_camera(child, info.coordinates, pose, second_pinhole, second),
    ]);
}

/// Number of pinhole transforms among the given ones.
pub open spec fn pinhole_count(vals: Seq<Transform>) -> nat
    decreases vals.len(),
{
    if vals.len() == 0 {
        0
    } else {
        pinhole_count(vals.drop_last()) + if vals.last() is Pinhole {
            1nat
        } else {
            0nat
        }
    }
}

proof fn lemma_pinhole_cameras_len(
    child: Seq<Seq<u8>>,
    coordinates: Option<ViewCoordinates>,
    pose: Rigid3,
    keys: Seq<Seq<Seq<u8>>>,
    vals: Seq<Transform>,
)
    requires
        keys.len() == vals.len(),
    ensures
        pinhole_cameras(child, coordinates, pose, keys, vals).len() == pinhole_count(vals),
    decreases keys.len(),
{
    if keys.len() > 0 {
        lemma_pinhole_cameras_len(child, coordinates, pose, keys.drop_last(), vals.drop_last());
    }
}

/// A child space reached by a rigid transform contributes one camera for each
/// pinhole space directly below it, and one bare camera where there is none.
pub proof fn lemma_camera_count(spaces: SpacesInfo, child: Seq<Seq<u8>>, pose: Rigid3)
    requires
        spaces.wf(),
        spaces.spaces@.dom().contains(child),
    ensures
        cameras_of_child(spaces, child, Transform::Rigid3(pose)).len() == if pinhole_count(
            spaces.spaces@[child].child_spaces.spec_vals(),
        ) == 0 {
            1
        } else {
            pinhole_count(spaces.spaces@[child].child_spaces.spec_vals())
        },
{
    let keys = spaces.spaces.spec_keys();
    let vals = spaces.spaces.spec_vals();
    assert(keys.contains(child));
    let i = keys.index_of(child);
    assert(0 <= i < keys.len() && keys[i] == child);
    crate::path_map::lemma_map_of_index(keys, vals, i);
    let info = spaces.spaces@[child];
    assert(info == vals[i]);
    assert(info.wf());
    lemma_pinhole_cameras_len(
        child,
        info.coordinates,
        pose,
        info.child_spaces.spec_keys(),
        info.child_spaces.spec_vals(),
    );
}

} // verus!
