//! Partition of the object tree into coordinate spaces.
//!
//! A path that carries a transform at the query time starts a space of its
//! own, as does every top-level path. Every other path belongs to the space of
//! its parent. A space is named by the path at which it starts.

use crate::object_tree::{tree_closed, ObjectTree};
use crate::path::{
    is_prefix, lemma_path_lt_asymmetric, lemma_path_lt_irreflexive, lemma_prefix_lt, path_lt,
    path_views, ObjPath,
};
use crate::path_map::{sorted_paths, PathMap, PathSet};
use crate::transform::{Transform, ViewCoordinates};
use vstd::prelude::*;

verus! {

/// The path at which the space of `p` starts: the nearest of `p` and its
/// ancestors that is top-level or is in `cuts`, the set of paths that carry a
/// transform.
pub open spec fn space_root(cuts: Set<Seq<Seq<u8>>>, p: Seq<Seq<u8>>) -> Seq<Seq<u8>>
    decreases p.len(),
{
    if p.len() <= 1 || cuts.contains(p) {
        p
    } else {
        space_root(cuts, p.drop_last())
    }
}

/// Whether a space starts at the path `p`.
pub open spec fn starts_space(cuts: Set<Seq<Seq<u8>>>, p: Seq<Seq<u8>>) -> bool {
    p.len() == 1 || cuts.contains(p)
}

/// The paths of `tree` that lie in the space starting at `root`.
pub open spec fn space_objects(
    tree: Set<Seq<Seq<u8>>>,
    cuts: Set<Seq<Seq<u8>>>,
    root: Seq<Seq<u8>>,
) -> Set<Seq<Seq<u8>>> {
    Set::new(|p: Seq<Seq<u8>>| tree.contains(p) && space_root(cuts, p) == root)
}

/// Whether `c` starts a space directly below the space starting at `root`:
/// it carries a transform and its parent lies in that space.
pub open spec fn is_child_space(
    tree: Set<Seq<Seq<u8>>>,
    cuts: Set<Seq<Seq<u8>>>,
    root: Seq<Seq<u8>>,
    c: Seq<Seq<u8>>,
) -> bool {
    tree.contains(c) && c.len() > 1 && cuts.contains(c) && space_root(cuts, c.drop_last()) == root
}

/// The spaces directly below the one starting at `root`, each with the
/// transform that is crossed to reach it.
pub open spec fn space_children(
    tree: Set<Seq<Seq<u8>>>,
    transforms: Map<Seq<Seq<u8>>, Transform>,
    root: Seq<Seq<u8>>,
) -> Map<Seq<Seq<u8>>, Transform> {
    Map::new(
        |c: Seq<Seq<u8>>| is_child_space(tree, transforms.dom(), root, c),
        |c: Seq<Seq<u8>>| transforms[c],
    )
}

/// The cut above the space starting at `root`: the space it hangs below and
/// the transform crossed. A top-level path has no space above it; where it
/// carries a transform all the same, the cut names the path itself.
pub open spec fn space_parent(transforms: Map<Seq<Seq<u8>>, Transform>, root: Seq<Seq<u8>>) -> Option<
    (Seq<Seq<u8>>, Transform),
> {
    if transforms.dom().contains(root) {
        Some(
            (
                if root.len() > 1 {
                    space_root(transforms.dom(), root.drop_last())
                } else {
                    root
                },
                transforms[root],
            ),
        )
    } else {
        None
    }
}

/// The axis convention stored at `root`, if any.
pub open spec fn space_coordinates(
    coordinates: Map<Seq<Seq<u8>>, ViewCoordinates>,
    root: Seq<Seq<u8>>,
) -> Option<ViewCoordinates> {
    if coordinates.dom().contains(root) {
        Some(coordinates[root])
    } else {
        None
    }
}

/// Mathematical content of a `SpaceInfo`.
pub struct SpaceInfoView {
    pub coordinates: Option<ViewCoordinates>,
    pub objects: Set<Seq<Seq<u8>>>,
    pub parent: Option<(Seq<Seq<u8>>, Transform)>,
    pub child_spaces: Map<Seq<Seq<u8>>, Transform>,
}

/// The space starting at `root`, for the given tree and query results.
pub open spec fn space_of(
    tree: Set<Seq<Seq<u8>>>,
    transforms: Map<Seq<Seq<u8>>, Transform>,
    coordinates: Map<Seq<Seq<u8>>, ViewCoordinates>,
    root: Seq<Seq<u8>>,
) -> SpaceInfoView {
    SpaceInfoView {
        coordinates: space_coordinates(coordinates, root),
        objects: space_objects(tree, transforms.dom(), root),
        parent: space_parent(transforms, root),
        child_spaces: space_children(tree, transforms, root),
    }
}

/// All spaces of the tree, each under the path at which it starts.
pub open spec fn spaces_of(
    tree: Set<Seq<Seq<u8>>>,
    transforms: Map<Seq<Seq<u8>>, Transform>,
    coordinates: Map<Seq<Seq<u8>>, ViewCoordinates>,
) -> Map<Seq<Seq<u8>>, SpaceInfoView> {
    Map::new(
        |r: Seq<Seq<u8>>| tree.contains(r) && starts_space(transforms.dom(), r),
        |r: Seq<Seq<u8>>| space_of(tree, transforms, coordinates, r),
    )
}

/// The space of a path starts at the path or at one of its ancestors, and a
/// space does start there.
pub proof fn lemma_space_root(cuts: Set<Seq<Seq<u8>>>, p: Seq<Seq<u8>>)
    requires
        p.len() >= 1,
    ensures
        is_prefix(space_root(cuts, p), p),
        space_root(cuts, p).len() >= 1,
        starts_space(cuts, space_root(cuts, p)),
        space_root(cuts, space_root(cuts, p)) == space_root(cuts, p),
    decreases p.len(),
{
    if p.len() <= 1 || cuts.contains(p) {
        assert(p.subrange(0, p.len() as int) =~= p);
    } else {
        let q = p.drop_last();
        lemma_space_root(cuts, q);
        let r = space_root(cuts, q);
        assert(p.subrange(0, r.len() as int) =~= q.subrange(0, r.len() as int));
    }
}

/// In a tree that holds the ancestors of its paths, the space of a path
/// starts at a path of the tree.
pub proof fn lemma_space_root_in_tree(
    tree: Set<Seq<Seq<u8>>>,
    cuts: Set<Seq<Seq<u8>>>,
    p: Seq<Seq<u8>>,
)
    requires
        tree_closed(tree),
        tree.contains(p),
    ensures
        tree.contains(space_root(cuts, p)),
    decreases p.len(),
{
    if !(p.len() <= 1 || cuts.contains(p)) {
        lemma_space_root_in_tree(tree, cuts, p.drop_last());
    }
}

/// The first `i` paths of `all`, as a set.
spec fn first_n(all: Seq<Seq<Seq<u8>>>, i: int) -> Set<Seq<Seq<u8>>> {
    Set::new(|p: Seq<Seq<u8>>| exists|k: int| 0 <= k < i && #[trigger] all[k] == p)
}

proof fn lemma_first_n_step(all: Seq<Seq<Seq<u8>>>, i: int)
    requires
        0 <= i < all.len(),
        sorted_paths(all),
    ensures
        first_n(all, i + 1) == first_n(all, i).insert(all[i]),
        !first_n(all, i).contains(all[i]),
        forall|x: Seq<Seq<u8>>| first_n(all, i).contains(x) ==> path_lt(x, all[i]),
{
    assert forall|x: Seq<Seq<u8>>| first_n(all, i).contains(x) implies path_lt(x, all[i]) by {
        let k = choose|k: int| 0 <= k < i && #[trigger] all[k] == x;
        assert(path_lt(all[k], all[i]));
    }
    lemma_path_lt_irreflexive(all[i]);
    assert forall|x: Seq<Seq<u8>>| first_n(all, i + 1).contains(x) == first_n(all, i).insert(
        all[i],
    ).contains(x) by {
        if first_n(all, i + 1).contains(x) {
            let k = choose|k: int| 0 <= k < i + 1 && #[trigger] all[k] == x;
            if k < i {
                assert(first_n(all, i).contains(x));
            }
        }
        if first_n(all, i).contains(x) {
            let k = choose|k: int| 0 <= k < i && #[trigger] all[k] == x;
            assert(0 <= k < i + 1 && all[k] == x);
        }
        if x == all[i] {
            assert(0 <= i < i + 1 && all[i] == x);
        }
    }
    assert(first_n(all, i + 1) =~= first_n(all, i).insert(all[i]));
}

proof fn lemma_first_n_all(all: Seq<Seq<Seq<u8>>>)
    ensures
        first_n(all, all.len() as int) == all.to_set(),
{
    assert forall|x: Seq<Seq<u8>>| first_n(all, all.len() as int).contains(x) == all.to_set().contains(
        x,
    ) by {
        if first_n(all, all.len() as int).contains(x) {
            let k = choose|k: int| 0 <= k < all.len() && #[trigger] all[k] == x;
            assert(all.contains(x));
        }
        if all.contains(x) {
            let k = choose|k: int| 0 <= k < all.len() && all[k] == x;
            assert(0 <= k < all.len() && all[k] == x);
        }
    }
    assert(first_n(all, all.len() as int) =~= all.to_set());
}

/// A prefix of a path is the path itself or sorts before it.
proof fn lemma_prefix_not_above(p: Seq<Seq<u8>>, q: Seq<Seq<u8>>)
    requires
        is_prefix(p, q),
    ensures
        p == q || path_lt(p, q),
{
    if p.len() < q.len() {
        lemma_prefix_lt(p, q);
    } else {
        assert(q.subrange(0, p.len() as int) =~= q);
    }
}

/// Adding a path to the tree adds it to the objects of its own space and
/// leaves the objects of every other space as they were.
proof fn lemma_objects_step(
    seen: Set<Seq<Seq<u8>>>,
    cuts: Set<Seq<Seq<u8>>>,
    p: Seq<Seq<u8>>,
    root: Seq<Seq<u8>>,
)
    ensures
        space_root(cuts, p) == root ==> space_objects(seen.insert(p), cuts, root) == space_objects(
            seen,
            cuts,
            root,
        ).insert(p),
        space_root(cuts, p) != root ==> space_objects(seen.insert(p), cuts, root) == space_objects(
            seen,
            cuts,
            root,
        ),
{
    if space_root(cuts, p) == root {
        assert(space_objects(seen.insert(p), cuts, root) =~= space_objects(seen, cuts, root).insert(p));
    } else {
        assert(space_objects(seen.insert(p), cuts, root) =~= space_objects(seen, cuts, root));
    }
}

/// Adding a path to the tree adds it to the child spaces of the space above
/// it, if the path starts a space, and changes no other list of child spaces.
proof fn lemma_children_step(
    seen: Set<Seq<Seq<u8>>>,
    transforms: Map<Seq<Seq<u8>>, Transform>,
    p: Seq<Seq<u8>>,
    root: Seq<Seq<u8>>,
)
    ensures
        is_child_space(seen.insert(p), transforms.dom(), root, p) ==> space_children(
            seen.insert(p),
            transforms,
            root,
        ) == space_children(seen, transforms, root).insert(p, transforms[p]),
        !is_child_space(seen.insert(p), transforms.dom(), root, p) ==> space_children(
            seen.insert(p),
            transforms,
            root,
        ) == space_children(seen, transforms, root),
{
    if is_child_space(seen.insert(p), transforms.dom(), root, p) {
        assert(space_children(seen.insert(p), transforms, root) =~= space_children(
            seen,
            transforms,
            root,
        ).insert(p, transforms[p]));
    } else {
        assert(space_children(seen.insert(p), transforms, root) =~= space_children(
            seen,
            transforms,
            root,
        ));
    }
}

/// A path that sorts after all paths seen so far and starts a space has, at
/// that moment, only itself as object and no child space.
proof fn lemma_fresh_space(
    seen: Set<Seq<Seq<u8>>>,
    transforms: Map<Seq<Seq<u8>>, Transform>,
    p: Seq<Seq<u8>>,
)
    requires
        p.len() >= 1,
        starts_space(transforms.dom(), p),
        forall|x: Seq<Seq<u8>>| seen.contains(x) ==> x.len() >= 1 && path_lt(x, p),
    ensures
        space_objects(seen.insert(p), transforms.dom(), p) == set![p],
        space_children(seen.insert(p), transforms, p) == Map::<Seq<Seq<u8>>, Transform>::empty(),
{
    let cuts = transforms.dom();
    assert forall|x: Seq<Seq<u8>>| seen.contains(x) implies space_root(cuts, x) != p by {
        lemma_space_root(cuts, x);
        lemma_prefix_not_above(space_root(cuts, x), x);
        lemma_path_lt_asymmetric(x, p);
        lemma_path_lt_irreflexive(p);
    }
    assert(space_objects(seen.insert(p), cuts, p) =~= set![p]);
    assert forall|c: Seq<Seq<u8>>| !is_child_space(seen.insert(p), cuts, p, c) by {
        if is_child_space(seen.insert(p), cuts, p, c) {
            let q = c.drop_last();
            lemma_space_root(cuts, q);
            assert(is_prefix(p, c)) by {
                assert(c.subrange(0, p.len() as int) =~= q.subrange(0, p.len() as int));
            }
            lemma_prefix_lt(p, c);
            lemma_path_lt_asymmetric(c, p);
            lemma_path_lt_irreflexive(p);
        }
    }
    assert(space_children(seen.insert(p), transforms, p) =~= Map::<Seq<Seq<u8>>, Transform>::empty());
}

/// What is known of one space: the paths that lie in it and the cuts that
/// bound it.
#[derive(Debug)]
pub struct SpaceInfo {
    /// The axis convention stored at the path where the space starts.
    pub coordinates: Option<ViewCoordinates>,
    /// All paths in this space, the one where it starts among them.
    pub objects: PathSet,
    /// The space above and the transform crossed to get here, if any.
    pub parent: Option<(ObjPath, Transform)>,
    /// The spaces directly below, each with the transform crossed.
    pub child_spaces: PathMap<Transform>,
}

impl SpaceInfo {
    /// Both collections are well formed.
    pub open spec fn wf(&self) -> bool {
        &&& self.objects.wf()
        &&& self.child_spaces.wf()
    }

    /// The space as plain mathematical data.
    pub open spec fn view(&self) -> SpaceInfoView {
        SpaceInfoView {
            coordinates: self.coordinates,
            objects: self.objects@,
            parent: match self.parent {
                Some((path, transform)) => Some((path@, transform)),
                None => None,
            },
            child_spaces: self.child_spaces@,
        }
    }
}

/// All spaces of the tree at one query time, by the path at which each starts.
#[derive(Debug)]
pub struct SpacesInfo {
    pub spaces: PathMap<SpaceInfo>,
}

impl SpacesInfo {
    /// The map and every space in it are well formed.
    pub open spec fn wf(&self) -> bool {
        &&& self.spaces.wf()
        &&& forall|i: int|
            0 <= i < self.spaces.spec_vals().len() ==> (#[trigger] self.spaces.spec_vals()[i]).wf()
    }

    /// The spaces as a mathematical map.
    pub open spec fn view(&self) -> Map<Seq<Seq<u8>>, SpaceInfoView> {
        Map::new(
            |k: Seq<Seq<u8>>| self.spaces@.dom().contains(k),
            |k: Seq<Seq<u8>>| self.spaces@[k]@,
        )
    }
}

impl SpacesInfo {
    /// Analyses the transform hierarchy and cuts the tree into spaces.
    ///
    /// `transforms` holds, for each path that carries one at the query time,
    /// its transform (of any variant); `coordinates` holds the axis
    /// conventions known at that time. Every top-level path starts a space,
    /// and so does every path with a transform; all other paths join the
    /// space of their parent.
    pub fn new(
        tree: &ObjectTree,
        transforms: &PathMap<Transform>,
        coordinates: &PathMap<ViewCoordinates>,
    ) -> (r: SpacesInfo)
        requires
            tree.wf(),
            transforms.wf(),
            coordinates.wf(),
        ensures
            r.wf(),
            r@ == spaces_of(tree@, transforms@, coordinates@),
    {
        let ghost all = tree.spec_paths();
        let ghost cuts = transforms@.dom();
        proof {
            tree.lemma_wf();
        }
        let n = tree.len();
        let mut keys: Vec<ObjPath> = Vec::new();
        let mut infos: Vec<SpaceInfo> = Vec::new();
        let mut slot: Vec<usize> = Vec::new();
        let mut i: usize = 0;
        while i < n
            invariant
                i <= n,
                n == all.len(),
                all == tree.spec_paths(),
                cuts == transforms@.dom(),
                tree.wf(),
                transforms.wf(),
                coordinates.wf(),
                sorted_paths(all),
                tree_closed(tree@),
                keys@.len() == infos@.len(),
                slot@.len() == i,
                sorted_paths(path_views(keys@)),
                forall|k: int|
                    0 <= k < i ==> (#[trigger] slot@[k]) < keys@.len() && keys@[slot@[k] as int]@
                        == space_root(cuts, all[k]),
                forall|s: int|
                    0 <= s < keys@.len() ==> first_n(all, i as int).contains((#[trigger] keys@[s])@)
                        && starts_space(cuts, keys@[s]@),
                forall|s: int|
                    0 <= s < keys@.len() ==> (#[trigger] infos@[s]).wf() && infos@[s]@ == space_of(
                        first_n(all, i as int),
                        transforms@,
                        coordinates@,
                        keys@[s]@,
                    ),
            decreases n - i,
        {
            let p = tree.path(i);
            let ghost seen = first_n(all, i as int);
            let ghost keys0 = keys@;
            let ghost infos0 = infos@;
            proof {
                lemma_first_n_step(all, i as int);
                assert(tree@.contains(p@));
                assert forall|x: Seq<Seq<u8>>| seen.contains(x) implies x.len() >= 1 by {
                    let k = choose|k: int| 0 <= k < i && #[trigger] all[k] == x;
                    assert(all.contains(x));
                    assert(tree@.contains(x));
                }
            }
            // The space that holds the parent path, for a path below the top level.
            let mut above: Option<usize> = None;
            if p.len() > 1 {
                let q = p.prefix(p.len() - 1);
                proof {
                    assert(q@ =~= p@.drop_last());
                    assert(tree@.contains(q@));
                    assert(is_prefix(q@, p@));
                    lemma_prefix_lt(q@, p@);
                }
                let found = tree.find(&q);
                let j = found.unwrap();
                proof {
                    lemma_path_lt_asymmetric(q@, p@);
                    lemma_path_lt_irreflexive(p@);
                    if j > i {
                        assert(path_lt(all[i as int], all[j as int]));
                    }
                    assert(j < i);
                }
                above = Some(slot[j]);
            }
            let ghost above_root = if p@.len() > 1 {
                space_root(cuts, p@.drop_last())
            } else {
                p@
            };
            assert(above.is_some() == (p@.len() > 1));
            assert(above.is_some() ==> above.unwrap() < keys@.len() && keys@[above.unwrap() as int]@
                == above_root);
            let found_transform: Option<&Transform> = transforms.get(p);
            let mut home: usize = 0;
            let mut starts: Option<Transform> = None;
            match found_transform {
                Some(t) => {
                    starts = Some(*t);
                },
                None => {},
            }
            if starts.is_some() || above.is_none() {
                // A space starts here.
                let mut parent: Option<(ObjPath, Transform)> = None;
                match starts {
                    Some(t) => {
                        match above {
                            Some(a) => {
                                let info = &mut infos[a];
                                info.child_spaces.insert(p.duplicate(), t);
                                parent = Some((keys[a].duplicate(), t));
                            },
                            None => {
                                parent = Some((p.duplicate(), t));
                            },
                        }
                    },
                    None => {},
                }
                let mut objects = PathSet::new();
                objects.insert(p.duplicate());
                let mut space_coordinates: Option<ViewCoordinates> = None;
                match coordinates.get(p) {
                    Some(c) => {
                        space_coordinates = Some(*c);
                    },
                    None => {},
                }
                let info = SpaceInfo {
                    coordinates: space_coordinates,
                    objects,
                    parent,
                    child_spaces: PathMap::new(),
                };
                home = keys.len();
                proof {
                    lemma_space_root(cuts, p@);
                    assert(space_root(cuts, p@) == p@);
                    lemma_fresh_space(seen, transforms@, p@);
                    assert(info.objects@ =~= set![p@]);
                    assert(info@ == space_of(seen.insert(p@), transforms@, coordinates@, p@));
                    assert forall|s: int| 0 <= s < keys0.len() implies (#[trigger] infos@[s]).wf()
                        && infos@[s]@ == space_of(
                        seen.insert(p@),
                        transforms@,
                        coordinates@,
                        keys0[s]@,
                    ) by {
                        assert(seen.contains(keys0[s]@));
                        lemma_objects_step(seen, cuts, p@, keys0[s]@);
                        lemma_children_step(seen, transforms@, p@, keys0[s]@);
                        assert(infos0[s]@ == space_of(seen, transforms@, coordinates@, keys0[s]@));
                        if above.is_some() && above.unwrap() == s && starts.is_some() {
                            assert(is_child_space(seen.insert(p@), cuts, keys0[s]@, p@));
                        } else {
                            assert(infos@[s] == infos0[s]);
                            if is_child_space(seen.insert(p@), cuts, keys0[s]@, p@) {
                                let a = above.unwrap() as int;
                                assert(keys0[a]@ == keys0[s]@);
                                crate::path_map::lemma_sorted_distinct(path_views(keys0));
                                assert(path_views(keys0)[a] == path_views(keys0)[s]);
                            }
                        }
                    }
                }
                keys.push(p.duplicate());
                infos.push(info);
                proof {
                    assert forall|a: int, b: int| 0 <= a < b < keys@.len() implies path_lt(
                        #[trigger] path_views(keys@)[a],
                        #[trigger] path_views(keys@)[b],
                    ) by {
                        if b < keys0.len() {
                            assert(path_lt(path_views(keys0)[a], path_views(keys0)[b]));
                        } else {
                            assert(seen.contains(keys0[a]@));
                        }
                    }
                }
            } else {
                // The path joins the space of its parent.
                let a = above.unwrap();
                let info = &mut infos[a];
                info.objects.insert(p.duplicate());
                home = a;
                proof {
                    assert(space_root(cuts, p@) == above_root);
                    assert forall|s: int| 0 <= s < keys0.len() implies (#[trigger] infos@[s]).wf()
                        && infos@[s]@ == space_of(
                        seen.insert(p@),
                        transforms@,
                        coordinates@,
                        keys0[s]@,
                    ) by {
                        lemma_objects_step(seen, cuts, p@, keys0[s]@);
                        lemma_children_step(seen, transforms@, p@, keys0[s]@);
                        assert(infos0[s]@ == space_of(seen, transforms@, coordinates@, keys0[s]@));
                        if s == a {
                        } else {
                            assert(infos@[s] == infos0[s]);
                            if keys0[s]@ == above_root {
                                crate::path_map::lemma_sorted_distinct(path_views(keys0));
                                assert(path_views(keys0)[a as int] == path_views(keys0)[s]);
                            }
                        }
                    }
                }
            }
            slot.push(home);
            i += 1;
        }
        let r = SpacesInfo { spaces: PathMap::from_sorted(keys, infos) };
        proof {
            lemma_first_n_all(all);
            let ks = r.spaces.spec_keys();
            let vs = r.spaces.spec_vals();
            let target = spaces_of(tree@, transforms@, coordinates@);
            assert forall|k: Seq<Seq<u8>>| r@.dom().contains(k) == target.dom().contains(k) by {
                if r@.dom().contains(k) {
                    assert(ks.contains(k));
                    let s = ks.index_of(k);
                    assert(ks[s] == k);
                    assert(first_n(all, n as int).contains(keys@[s]@));
                }
                if target.dom().contains(k) {
                    assert(all.contains(k));
                    let kk = all.index_of(k);
                    assert(all[kk] == k);
                    let s = slot@[kk] as int;
                    lemma_space_root(cuts, k);
                    assert(ks[s] == k);
                    assert(ks.contains(k));
                }
            }
            assert forall|k: Seq<Seq<u8>>| r@.dom().contains(k) implies r@[k] == target[k] by {
                assert(ks.contains(k));
                let s = ks.index_of(k);
                assert(ks[s] == k);
                crate::path_map::lemma_map_of_index(ks, vs, s);
                assert(r.spaces@[k] == infos@[s]);
            }
            assert(r@ =~= target);
        }
        r
    }
}

/// The spaces partition the tree: every path of the tree lies in the objects
/// of some space, no space holds a path from outside the tree, and no path
/// lies in two spaces.
pub proof fn lemma_spaces_partition_tree(
    tree: Set<Seq<Seq<u8>>>,
    transforms: Map<Seq<Seq<u8>>, Transform>,
    coordinates: Map<Seq<Seq<u8>>, ViewCoordinates>,
)
    requires
        tree_closed(tree),
    ensures
        forall|p: Seq<Seq<u8>>|
            tree.contains(p) <==> exists|r: Seq<Seq<u8>>|
                spaces_of(tree, transforms, coordinates).dom().contains(r) && #[trigger] spaces_of(
                    tree,
                    transforms,
                    coordinates,
                )[r].objects.contains(p),
        forall|p: Seq<Seq<u8>>, r1: Seq<Seq<u8>>, r2: Seq<Seq<u8>>|
            spaces_of(tree, transforms, coordinates).dom().contains(r1) && spaces_of(
                tree,
                transforms,
                coordinates,
            ).dom().contains(r2) && #[trigger] spaces_of(tree, transforms, coordinates)[r1].objects.contains(
                p,
            ) && #[trigger] spaces_of(tree, transforms, coordinates)[r2].objects.contains(p) ==> r1
                == r2,
{
    let spaces = spaces_of(tree, transforms, coordinates);
    let cuts = transforms.dom();
    assert forall|p: Seq<Seq<u8>>| tree.contains(p) implies exists|r: Seq<Seq<u8>>|
        spaces.dom().contains(r) && #[trigger] spaces[r].objects.contains(p) by {
        let r = space_root(cuts, p);
        lemma_space_root(cuts, p);
        lemma_space_root_in_tree(tree, cuts, p);
        assert(spaces.dom().contains(r) && spaces[r].objects.contains(p));
    }
}

/// A path that carries a transform lies in the space that starts at the path
/// itself and in no other.
pub proof fn lemma_cut_starts_own_space(
    tree: Set<Seq<Seq<u8>>>,
    transforms: Map<Seq<Seq<u8>>, Transform>,
    coordinates: Map<Seq<Seq<u8>>, ViewCoordinates>,
    p: Seq<Seq<u8>>,
)
    requires
        tree.contains(p),
        transforms.dom().contains(p),
    ensures
        spaces_of(tree, transforms, coordinates).dom().contains(p),
        spaces_of(tree, transforms, coordinates)[p].objects.contains(p),
        forall|r: Seq<Seq<u8>>|
            spaces_of(tree, transforms, coordinates).dom().contains(r) && #[trigger] spaces_of(
                tree,
                transforms,
                coordinates,
            )[r].objects.contains(p) ==> r == p,
{
}

/// A space below the top level and the space above it agree on the cut
/// between them: the space above is a space of the tree, it lists the space
/// below among its child spaces, and both name the same transform.
pub proof fn lemma_parent_and_child_agree(
    tree: Set<Seq<Seq<u8>>>,
    transforms: Map<Seq<Seq<u8>>, Transform>,
    coordinates: Map<Seq<Seq<u8>>, ViewCoordinates>,
    child: Seq<Seq<u8>>,
)
    requires
        tree_closed(tree),
        tree.contains(child),
        child.len() > 1,
        transforms.dom().contains(child),
    ensures
        spaces_of(tree, transforms, coordinates).dom().contains(child),
        spaces_of(tree, transforms, coordinates)[child].parent.is_some(),
        ({
            let spaces = spaces_of(tree, transforms, coordinates);
            let above = spaces[child].parent.unwrap().0;
            let crossed = spaces[child].parent.unwrap().1;
            &&& spaces.dom().contains(above)
            &&& above != child
            &&& spaces[above].child_spaces.dom().contains(child)
            &&& spaces[above].child_spaces[child] == crossed
            &&& crossed == transforms[child]
        }),
{
    let cuts = transforms.dom();
    let parent = child.drop_last();
    assert(tree.contains(parent));
    lemma_space_root(cuts, parent);
    lemma_space_root_in_tree(tree, cuts, parent);
    let above = space_root(cuts, parent);
    assert(above.len() <= parent.len());
}

/// The top-level paths that carry a transform, in ascending order.
///
/// A transform relates a path to its parent, so one at the top level has
/// nothing to relate to. The partition treats such a path like any other
/// top-level path; this lists them so that the caller can tell the user.
pub fn roots_with_transform(tree: &ObjectTree, transforms: &PathMap<Transform>) -> (r: Vec<ObjPath>)
    requires
        tree.wf(),
        transforms.wf(),
    ensures
        path_views(r@) == tree.spec_paths().filter(
            |p: Seq<Seq<u8>>| p.len() == 1 && transforms@.dom().contains(p),
        ),
{
    let ghost pred = |p: Seq<Seq<u8>>| p.len() == 1 && transforms@.dom().contains(p);
    let ghost all = tree.spec_paths();
    let mut out: Vec<ObjPath> = Vec::new();
    let n = tree.len();
    let mut i: usize = 0;
    while i < n
        invariant
            i <= n,
            n == all.len(),
            all == tree.spec_paths(),
            tree.wf(),
            transforms.wf(),
            pred == (|p: Seq<Seq<u8>>| p.len() == 1 && transforms@.dom().contains(p)),
            path_views(out@) == all.subrange(0, i as int).filter(pred),
        decreases n - i,
    {
        let p = tree.path(i);
        let hit = p.len() == 1 && transforms.contains_key(p);
        proof {
            let prev = all.subrange(0, i as int);
            let next = all.subrange(0, i as int + 1);
            assert(next =~= prev.push(all[i as int]));
            assert(next.drop_last() =~= prev);
            reveal(Seq::filter);
            assert(hit == pred(all[i as int]));
        }
        let ghost before = out@;
        if hit {
            out.push(p.duplicate());
            assert(path_views(out@) =~= path_views(before).push(p@));
        }
        i += 1;
    }
    proof {
        assert(all.subrange(0, n as int) =~= all);
    }
    out
}

} // verus!
