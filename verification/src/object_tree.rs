//! The tree of object paths.
//!
//! Paths form a tree through shared prefixes: the parent of a path is the path
//! without its last component. The tree is held as the set of its paths, which
//! always contains the ancestors of each member.

use crate::path::{is_prefix, path_views, ObjPath};
use crate::path_map::{sorted_paths, PathSet};
use vstd::prelude::*;

verus! {

/// Every member is a non-empty path, and its parent is a member too unless the
/// path is top-level.
pub open spec fn tree_closed(s: Set<Seq<Seq<u8>>>) -> bool {
    forall|p: Seq<Seq<u8>>| #[trigger]
        s.contains(p) ==> p.len() >= 1 && (p.len() > 1 ==> s.contains(p.drop_last()))
}

/// The path `p` and its ancestors, down to the top-level one.
pub open spec fn ancestors_or_self(p: Seq<Seq<u8>>) -> Set<Seq<Seq<u8>>> {
    Set::new(|q: Seq<Seq<u8>>| q.len() >= 1 && is_prefix(q, p))
}

/// `q` lies directly below `p`.
pub open spec fn is_child_of(p: Seq<Seq<u8>>, q: Seq<Seq<u8>>) -> bool {
    q.len() == p.len() + 1 && is_prefix(p, q)
}

/// The forest of all known object paths.
#[derive(Debug)]
pub struct ObjectTree {
    paths: PathSet,
}

impl ObjectTree {
    /// All paths of the tree in ascending order, which lists each path before
    /// its descendants.
    pub closed spec fn spec_paths(&self) -> Seq<Seq<Seq<u8>>> {
        self.paths.spec_paths()
    }

    /// The set of paths is sorted without repeats and closed under parents.
    pub closed spec fn wf(&self) -> bool {
        &&& self.paths.wf()
        &&& tree_closed(self.paths@)
    }

    /// The set of all paths in the tree.
    pub open spec fn view(&self) -> Set<Seq<Seq<u8>>> {
        self.spec_paths().to_set()
    }

    /// What `wf` says, over the public model.
    pub proof fn lemma_wf(&self)
        requires
            self.wf(),
        ensures
            sorted_paths(self.spec_paths()),
            self.spec_paths().no_duplicates(),
            tree_closed(self@),
    {
        self.paths.lemma_sorted();
    }

    /// A tree without paths.
    pub fn new() -> (r: ObjectTree)
        ensures
            r.wf(),
            r@ == Set::<Seq<Seq<u8>>>::empty(),
    {
        ObjectTree { paths: PathSet::new() }
    }

    /// Number of paths.
    pub fn len(&self) -> (n: usize)
        requires
            self.wf(),
        ensures
            n == self.spec_paths().len(),
    {
        self.paths.len()
    }

    /// The `i`-th path in ascending order.
    pub fn path(&self, i: usize) -> (p: &ObjPath)
        requires
            self.wf(),
            i < self.spec_paths().len(),
        ensures
            p@ == self.spec_paths()[i as int],
            self@.contains(p@),
    {
        self.paths.path(i)
    }

    /// Position of `path` in ascending order, if the tree has it.
    pub fn find(&self, path: &ObjPath) -> (r: Option<usize>)
        requires
            self.wf(),
        ensures
            r.is_some() == self@.contains(path@),
            r.is_some() ==> r.unwrap() < self.spec_paths().len() && self.spec_paths()[r.unwrap() as int]
                == path@,
    {
        self.paths.find(path)
    }

    /// Whether the tree has `path`.
    pub fn contains(&self, path: &ObjPath) -> (r: bool)
        requires
            self.wf(),
        ensures
            r == self@.contains(path@),
    {
        self.paths.contains(path)
    }

    /// Adds `path` and every ancestor of it that the tree lacks.
    pub fn insert(&mut self, path: &ObjPath)
        requires
            old(self).wf(),
        ensures
            final(self).wf(),
            final(self)@ == old(self)@.union(ancestors_or_self(path@)),
    {
        let n = path.len();
        let mut k: usize = 0;
        while k < n
            invariant
                k <= n,
                n == path@.len(),
                self.paths.wf(),
                tree_closed(self.paths@),
                self.paths@ == old(self).paths@.union(
                    Set::new(|q: Seq<Seq<u8>>| 1 <= q.len() <= k && is_prefix(q, path@)),
                ),
            decreases n - k,
        {
            let ghost before = self.paths@;
            let q = path.prefix(k + 1);
            proof {
                assert(is_prefix(q@, path@)) by {
                    assert(path@.subrange(0, q@.len() as int) =~= q@);
                }
                if k >= 1 {
                    let par = q@.drop_last();
                    assert(par =~= path@.subrange(0, k as int));
                    assert(is_prefix(par, path@)) by {
                        assert(path@.subrange(0, par.len() as int) =~= par);
                    }
                    assert(before.contains(par));
                }
            }
            self.paths.insert(q);
            proof {
                assert forall|r: Seq<Seq<u8>>| (1 <= r.len() <= k + 1 && is_prefix(r, path@)) <==> ((1
                    <= r.len() <= k && is_prefix(r, path@)) || r == q@) by {
                    if r.len() == k + 1 && is_prefix(r, path@) {
                        assert(r =~= q@);
                    }
                }
                assert(self.paths@ =~= old(self).paths@.union(
                    Set::new(|q: Seq<Seq<u8>>| 1 <= q.len() <= k + 1 && is_prefix(q, path@)),
                ));
                assert forall|p: Seq<Seq<u8>>| #[trigger] self.paths@.contains(p) implies p.len() >= 1
                    && (p.len() > 1 ==> self.paths@.contains(p.drop_last())) by {
                    if before.contains(p) {
                        assert(before.contains(p.drop_last()) || p.len() <= 1);
                    }
                }
            }
            k += 1;
        }
        proof {
            assert(self.paths@ =~= old(self).paths@.union(ancestors_or_self(path@)));
        }
    }

    /// The paths directly below `path`, in ascending order. The top-level
    /// paths are the children of the empty path.
    pub fn children_of(&self, path: &ObjPath) -> (r: Vec<ObjPath>)
        requires
            self.wf(),
        ensures
            path_views(r@) == self.spec_paths().filter(|q: Seq<Seq<u8>>| is_child_of(path@, q)),
    {
        let ghost pred = |q: Seq<Seq<u8>>| is_child_of(path@, q);
        let ghost all = self.spec_paths();
        let mut out: Vec<ObjPath> = Vec::new();
        let n = self.paths.len();
        let mut i: usize = 0;
        proof {
            reveal(Seq::filter);
            assert(all.subrange(0, 0) =~= Seq::<Seq<Seq<u8>>>::empty());
            assert(path_views(out@) =~= all.subrange(0, 0).filter(pred));
        }
        while i < n
            invariant
                i <= n,
                n == all.len(),
                all == self.spec_paths(),
                self.wf(),
                pred == (|q: Seq<Seq<u8>>| is_child_of(path@, q)),
                path_views(out@) == all.subrange(0, i as int).filter(pred),
            decreases n - i,
        {
            let q = self.paths.path(i);
            let is_child = q.len() > 0 && q.len() - 1 == path.len() && path.is_prefix_of(q);
            proof {
                let prev = all.subrange(0, i as int);
                let next = all.subrange(0, i as int + 1);
                assert(next =~= prev.push(all[i as int]));
                assert(next.drop_last() =~= prev);
                reveal(Seq::filter);
                assert(is_child == pred(all[i as int]));
            }
            let ghost before = out@;
            if is_child {
                out.push(q.duplicate());
                assert(path_views(out@) =~= path_views(before).push(q@));
            }
            i += 1;
        }
        proof {
            assert(all.subrange(0, n as int) =~= all);
        }
        out
    }
}

} // verus!
