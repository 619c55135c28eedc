//! Which objects a space view asks the store for.

use crate::object_tree::{is_child_of, ObjectTree};
use crate::path::{path_views, ObjPath};
use crate::path_map::{PathMap, PathSet};
use crate::space_view::{is_sticky_type, ObjectType};
use crate::spaces::SpaceInfo;
use vstd::prelude::*;

verus! {

/// The objects to query for one view: those that depend on the current time
/// and those that are shown whatever the time.
#[derive(Debug)]
pub struct ObjectQueries {
    /// Objects to query at the current time.
    pub timed: Vec<ObjPath>,
    /// Objects to query over all of time.
    pub sticky: Vec<ObjPath>,
}

/// Whether the object at `p` is queried at all: it is visible, the store has
/// data for it, and its type is known.
pub open spec fn is_queried(
    visible: Set<Seq<Seq<u8>>>,
    stored: Set<Seq<Seq<u8>>>,
    types: Map<Seq<Seq<u8>>, ObjectType>,
    p: Seq<Seq<u8>>,
) -> bool {
    visible.contains(p) && stored.contains(p) && types.dom().contains(p)
}

/// Whether the object at `p` is queried at the current time.
pub open spec fn is_timed_query(
    visible: Set<Seq<Seq<u8>>>,
    stored: Set<Seq<Seq<u8>>>,
    types: Map<Seq<Seq<u8>>, ObjectType>,
    p: Seq<Seq<u8>>,
) -> bool {
    is_queried(visible, stored, types, p) && types[p] != ObjectType::TextEntry
}

/// Whether the object at `p` is queried over all of time.
pub open spec fn is_sticky_query(
    visible: Set<Seq<Seq<u8>>>,
    stored: Set<Seq<Seq<u8>>>,
    types: Map<Seq<Seq<u8>>, ObjectType>,
    p: Seq<Seq<u8>>,
) -> bool {
    is_queried(visible, stored, types, p) && types[p] == ObjectType::TextEntry
}

/// Sorts the objects of a space into those to query at the current time and
/// those to query over all of time, each in path order. Objects that are
/// hidden, that the store has no data for or that have no known type are
/// left out.
pub fn objects_to_query(
    space_info: &SpaceInfo,
    visible: &PathSet,
    stored: &PathSet,
    types: &PathMap<ObjectType>,
) -> (r: ObjectQueries)
    requires
        space_info.wf(),
        visible.wf(),
        stored.wf(),
        types.wf(),
    ensures
        path_views(r.timed@) == space_info.objects.spec_paths().filter(
            |p: Seq<Seq<u8>>| is_timed_query(visible@, stored@, types@, p),
        ),
        path_views(r.sticky@) == space_info.objects.spec_paths().filter(
            |p: Seq<Seq<u8>>| is_sticky_query(visible@, stored@, types@, p),
        ),
{
    let ghost all = space_info.objects.spec_paths();
    let ghost timed_pred = |p: Seq<Seq<u8>>| is_timed_query(visible@, stored@, types@, p);
    let ghost sticky_pred = |p: Seq<Seq<u8>>| is_sticky_query(visible@, stored@, types@, p);
    let mut timed: Vec<ObjPath> = Vec::new();
    let mut sticky: Vec<ObjPath> = Vec::new();
    let n = space_info.objects.len();
    let mut i: usize = 0;
    proof {
        reveal(Seq::filter);
        assert(all.take(0) =~= Seq::<Seq<Seq<u8>>>::empty());
        assert(path_views(timed@) =~= all.take(0).filter(timed_pred));
        assert(path_views(sticky@) =~= all.take(0).filter(sticky_pred));
    }
    while i < n
        invariant
            i <= n,
            n == all.len(),
            all == space_info.objects.spec_paths(),
            space_info.wf(),
            visible.wf(),
            stored.wf(),
            types.wf(),
            timed_pred == (|p: Seq<Seq<u8>>| is_timed_query(visible@, stored@, types@, p)),
            sticky_pred == (|p: Seq<Seq<u8>>| is_sticky_query(visible@, stored@, types@, p)),
            path_views(timed@) == all.take(i as int).filter(timed_pred),
            path_views(sticky@) == all.take(i as int).filter(sticky_pred),
        decreases n - i,
    {
        let obj_path = space_info.objects.path(i);
        proof {
            assert(all.take(i as int + 1).drop_last() =~= all.take(i as int));
            assert(all.take(i as int + 1).last() == obj_path@);
            reveal(Seq::filter);
        }
        let ghost timed_before = timed@;
        let ghost sticky_before = sticky@;
        if visible.contains(obj_path) && stored.contains(obj_path) {
            match types.get(obj_path) {
                Some(obj_type) => {
                    if !is_sticky_type(obj_type) {
                        timed.push(obj_path.duplicate());
                        assert(path_views(timed@) =~= path_views(timed_before).push(obj_path@));
                    } else {
                        sticky.push(obj_path.duplicate());
                        assert(path_views(sticky@) =~= path_views(sticky_before).push(obj_path@));
                    }
                },
                None => {},
            }
        }
        i += 1;
    }
    proof {
        assert(all.take(n as int) =~= all);
    }
    ObjectQueries { timed, sticky }
}

/// The children of `path` in the tree that lie in the given space, in path
/// order: the entries that the space view lists below `path`.
pub fn children_in_space(tree: &ObjectTree, space_info: &SpaceInfo, path: &ObjPath) -> (r: Vec<ObjPath>)
    requires
        tree.wf(),
        space_info.wf(),
    ensures
        path_views(r@) == tree.spec_paths().filter(|q: Seq<Seq<u8>>| is_child_of(path@, q)).filter(
            |q: Seq<Seq<u8>>| space_info.objects@.contains(q),
        ),
{
    let children = tree.children_of(path);
    let ghost all = path_views(children@);
    let ghost pred = |q: Seq<Seq<u8>>| space_info.objects@.contains(q);
    let mut out: Vec<ObjPath> = Vec::new();
    let mut i: usize = 0;
    proof {
        reveal(Seq::filter);
        assert(all.take(0) =~= Seq::<Seq<Seq<u8>>>::empty());
        assert(path_views(out@) =~= all.take(0).filter(pred));
    }
    while i < children.len()
        invariant
            i <= children@.len(),
            all == path_views(children@),
            space_info.wf(),
            pred == (|q: Seq<Seq<u8>>| space_info.objects@.contains(q)),
            path_views(out@) == all.take(i as int).filter(pred),
        decreases children@.len() - i,
    {
        proof {
            assert(all.take(i as int + 1).drop_last() =~= all.take(i as int));
            assert(all.take(i as int + 1).last() == children@[i as int]@);
            reveal(Seq::filter);
        }
        let ghost before = out@;
        if space_info.objects.contains(&children[i]) {
            out.push(children[i].duplicate());
            assert(path_views(out@) =~= path_views(before).push(children@[i as int]@));
        }
        i += 1;
    }
    proof {
        assert(all.take(children@.len() as int) =~= all);
    }
    out
}

} // verus!
