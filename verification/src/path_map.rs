//! A map keyed by object path, kept in path order.
//!
//! The entries live in two parallel vectors sorted strictly by key, so walking
//! the map visits the keys in ascending path order and a key occurs at most
//! once.

use crate::path::{
    lemma_path_lt_irreflexive, lemma_path_lt_total, lemma_path_lt_transitive, path_lt, path_views,
    ObjPath, Order,
};
use vstd::prelude::*;

verus! {

/// The keys are strictly ascending in path order.
pub open spec fn sorted_paths(keys: Seq<Seq<Seq<u8>>>) -> bool {
    forall|i: int, j: int| 0 <= i < j < keys.len() ==> path_lt(#[trigger] keys[i], #[trigger] keys[j])
}

/// The finite map that sends `keys[i]` to `vals[i]`.
pub open spec fn map_of<V>(keys: Seq<Seq<Seq<u8>>>, vals: Seq<V>) -> Map<Seq<Seq<u8>>, V> {
    Map::new(|k: Seq<Seq<u8>>| keys.contains(k), |k: Seq<Seq<u8>>| vals[keys.index_of(k)])
}

/// Strictly sorted keys are pairwise distinct.
pub proof fn lemma_sorted_distinct(keys: Seq<Seq<Seq<u8>>>)
    requires
        sorted_paths(keys),
    ensures
        keys.no_duplicates(),
{
    assert forall|i: int, j: int| 0 <= i < keys.len() && 0 <= j < keys.len() && i != j implies keys[i]
        != keys[j] by {
        lemma_path_lt_irreflexive(keys[i]);
        if i < j {
            assert(path_lt(keys[i], keys[j]));
        } else {
            assert(path_lt(keys[j], keys[i]));
        }
    }
}

/// Under sorted keys, `map_of` holds exactly the pairs `keys[i] -> vals[i]`.
pub proof fn lemma_map_of_index<V>(keys: Seq<Seq<Seq<u8>>>, vals: Seq<V>, i: int)
    requires
        sorted_paths(keys),
        keys.len() == vals.len(),
        0 <= i < keys.len(),
    ensures
        map_of(keys, vals).dom().contains(keys[i]),
        map_of(keys, vals)[keys[i]] == vals[i],
{
    lemma_sorted_distinct(keys);
    assert(keys.contains(keys[i]));
    let j = keys.index_of(keys[i]);
    assert(0 <= j < keys.len() && keys[j] == keys[i]);
}

/// Under sorted keys, the map has as many entries as there are keys.
pub proof fn lemma_map_of_len<V>(keys: Seq<Seq<Seq<u8>>>, vals: Seq<V>)
    requires
        sorted_paths(keys),
        keys.len() == vals.len(),
    ensures
        map_of(keys, vals).dom().finite(),
        map_of(keys, vals).dom().len() == keys.len(),
{
    lemma_sorted_distinct(keys);
    keys.unique_seq_to_set();
    assert(map_of(keys, vals).dom() =~= keys.to_set());
    vstd::seq_lib::seq_to_set_is_finite(keys);
}

/// Putting a new key at its sorted position inserts it into the map.
pub proof fn lemma_map_of_insert<V>(keys: Seq<Seq<Seq<u8>>>, vals: Seq<V>, i: int, k: Seq<Seq<u8>>, v: V)
    requires
        0 <= i <= keys.len(),
        keys.len() == vals.len(),
        sorted_paths(keys),
        sorted_paths(keys.insert(i, k)),
    ensures
        map_of(keys.insert(i, k), vals.insert(i, v)) == map_of(keys, vals).insert(k, v),
{
    let keys2 = keys.insert(i, k);
    let vals2 = vals.insert(i, v);
    let m1 = map_of(keys2, vals2);
    let m2 = map_of(keys, vals).insert(k, v);
    assert forall|q: Seq<Seq<u8>>| m1.dom().contains(q) == m2.dom().contains(q) by {
        if keys2.contains(q) {
            let j = keys2.index_of(q);
            assert(keys2[j] == q);
            if j < i {
                assert(keys[j] == q);
            } else if j > i {
                assert(keys[j - 1] == q);
            }
        }
        if keys.contains(q) {
            let j = keys.index_of(q);
            assert(keys[j] == q);
            if j < i {
                assert(keys2[j] == q);
            } else {
                assert(keys2[j + 1] == q);
            }
        }
        if q == k {
            assert(keys2[i] == q);
        }
    }
    assert forall|q: Seq<Seq<u8>>| m1.dom().contains(q) implies m1[q] == m2[q] by {
        assert(keys2.contains(q));
        let j = keys2.index_of(q);
        assert(0 <= j < keys2.len() && keys2[j] == q);
        lemma_map_of_index(keys2, vals2, j);
        lemma_sorted_distinct(keys2);
        assert(keys2[i] == k);
        if j < i {
            assert(keys[j] == q);
            assert(vals2[j] == vals[j]);
            assert(q != k);
            lemma_map_of_index(keys, vals, j);
        } else if j > i {
            assert(keys[j - 1] == q);
            assert(vals2[j] == vals[j - 1]);
            assert(q != k);
            lemma_map_of_index(keys, vals, j - 1);
        } else {
            assert(vals2[j] == v);
        }
    }
    assert(m1 =~= m2);
}

/// Replacing the value at one position overwrites that key in the map.
pub proof fn lemma_map_of_update<V>(keys: Seq<Seq<Seq<u8>>>, vals: Seq<V>, i: int, v: V)
    requires
        sorted_paths(keys),
        keys.len() == vals.len(),
        0 <= i < keys.len(),
    ensures
        map_of(keys, vals.update(i, v)) == map_of(keys, vals).insert(keys[i], v),
{
    let vals2 = vals.update(i, v);
    let m1 = map_of(keys, vals2);
    let m2 = map_of(keys, vals).insert(keys[i], v);
    assert(keys.contains(keys[i]));
    assert forall|q: Seq<Seq<u8>>| m1.dom().contains(q) implies m1[q] == m2[q] by {
        assert(keys.contains(q));
        let j = keys.index_of(q);
        assert(0 <= j < keys.len() && keys[j] == q);
        lemma_map_of_index(keys, vals2, j);
        lemma_map_of_index(keys, vals, j);
        lemma_sorted_distinct(keys);
    }
    assert(m1 =~= m2);
}

/// A map from object paths to values of type `V`, iterated in path order.
#[derive(Debug)]
pub struct PathMap<V> {
    keys: Vec<ObjPath>,
    vals: Vec<V>,
}

impl<V> PathMap<V> {
    /// The keys in ascending order.
    pub closed spec fn spec_keys(&self) -> Seq<Seq<Seq<u8>>> {
        Seq::new(self.keys@.len(), |i: int| self.keys@[i]@)
    }

    /// The values, in the order of their keys.
    pub closed spec fn spec_vals(&self) -> Seq<V> {
        self.vals@
    }

    /// One value per key, and the keys strictly ascending.
    pub open spec fn wf(&self) -> bool {
        &&& self.spec_keys().len() == self.spec_vals().len()
        &&& sorted_paths(self.spec_keys())
    }

    /// The map as a mathematical map.
    pub open spec fn view(&self) -> Map<Seq<Seq<u8>>, V> {
        map_of(self.spec_keys(), self.spec_vals())
    }

    /// An empty map.
    pub fn new() -> (r: PathMap<V>)
        ensures
            r.wf(),
            r.spec_keys() == Seq::<Seq<Seq<u8>>>::empty(),
            r.spec_vals() == Seq::<V>::empty(),
            r@ == Map::<Seq<Seq<u8>>, V>::empty(),
    {
        let r = PathMap { keys: Vec::new(), vals: Vec::new() };
        assert(r.spec_keys() =~= Seq::<Seq<Seq<u8>>>::empty());
        assert(r@ =~= Map::<Seq<Seq<u8>>, V>::empty());
        r
    }

    /// The map with the given keys and values, pairing them by position.
    pub fn from_sorted(keys: Vec<ObjPath>, vals: Vec<V>) -> (r: PathMap<V>)
        requires
            keys@.len() == vals@.len(),
            sorted_paths(path_views(keys@)),
        ensures
            r.wf(),
            r.spec_keys() == path_views(keys@),
            r.spec_vals() == vals@,
    {
        let r = PathMap { keys, vals };
        assert(r.spec_keys() =~= path_views(keys@));
        r
    }

    /// Number of entries.
    pub fn len(&self) -> (n: usize)
        requires
            self.wf(),
        ensures
            n == self.spec_keys().len(),
            n == self.spec_vals().len(),
            self@.dom().finite(),
            n == self@.dom().len(),
    {
        proof {
            lemma_map_of_len(self.spec_keys(), self.spec_vals());
            assert(self.spec_keys().len() == self.keys@.len());
        }
        self.keys.len()
    }

    /// The `i`-th smallest key.
    pub fn key(&self, i: usize) -> (k: &ObjPath)
        requires
            self.wf(),
            i < self.spec_keys().len(),
        ensures
            k@ == self.spec_keys()[i as int],
    {
        &self.keys[i]
    }

    /// The value stored under the `i`-th smallest key.
    pub fn value(&self, i: usize) -> (v: &V)
        requires
            self.wf(),
            i < self.spec_keys().len(),
        ensures
            *v == self.spec_vals()[i as int],
            self@.dom().contains(self.spec_keys()[i as int]),
            *v == self@[self.spec_keys()[i as int]],
    {
        proof {
            lemma_map_of_index(self.spec_keys(), self.spec_vals(), i as int);
        }
        &self.vals[i]
    }

    /// Position of the first key that is not below `key`.
    fn lower_bound(&self, key: &ObjPath) -> (i: usize)
        requires
            self.wf(),
        ensures
            i <= self.spec_keys().len(),
            forall|k: int| 0 <= k < i ==> path_lt(#[trigger] self.spec_keys()[k], key@),
            forall|k: int|
                i <= k < self.spec_keys().len() ==> !path_lt(#[trigger] self.spec_keys()[k], key@),
    {
        let mut lo: usize = 0;
        let mut hi: usize = self.keys.len();
        while lo < hi
            invariant
                self.wf(),
                lo <= hi <= self.keys.len(),
                forall|k: int| 0 <= k < lo ==> path_lt(#[trigger] self.spec_keys()[k], key@),
                forall|k: int|
                    hi <= k < self.spec_keys().len() ==> !path_lt(#[trigger] self.spec_keys()[k], key@),
            decreases hi - lo,
        {
            let mid = lo + (hi - lo) / 2;
            match self.keys[mid].compare(key) {
                Order::Less => {
                    assert(self.spec_keys()[mid as int] == self.keys@[mid as int]@);
                    assert forall|k: int| 0 <= k < mid + 1 implies path_lt(
                        #[trigger] self.spec_keys()[k],
                        key@,
                    ) by {
                        if k < mid {
                            lemma_path_lt_transitive(self.spec_keys()[k], self.spec_keys()[mid as int], key@);
                        }
                    }
                    lo = mid + 1;
                },
                _ => {
                    assert(self.spec_keys()[mid as int] == self.keys@[mid as int]@);
                    assert forall|k: int| mid <= k < self.spec_keys().len() implies !path_lt(
                        #[trigger] self.spec_keys()[k],
                        key@,
                    ) by {
                        lemma_path_lt_irreflexive(key@);
                        if k > mid && path_lt(self.spec_keys()[k], key@) {
                            assert(path_lt(self.spec_keys()[mid as int], self.spec_keys()[k]));
                            lemma_path_lt_transitive(self.spec_keys()[mid as int], self.spec_keys()[k], key@);
                        }
                    }
                    hi = mid;
                },
            }
        }
        lo
    }

    /// Position of `key` among the keys, if it is one.
    pub fn find(&self, key: &ObjPath) -> (r: Option<usize>)
        requires
            self.wf(),
        ensures
            r.is_some() == self@.dom().contains(key@),
            r.is_some() ==> r.unwrap() < self.spec_keys().len() && self.spec_keys()[r.unwrap() as int] == key@,
    {
        let i = self.lower_bound(key);
        if i < self.keys.len() && self.keys[i].equals(key) {
            assert(self.spec_keys()[i as int] == key@);
            assert(self.spec_keys().contains(key@));
            Some(i)
        } else {
            proof {
                if self.spec_keys().contains(key@) {
                    let j = self.spec_keys().index_of(key@);
                    assert(self.spec_keys()[j] == key@);
                    lemma_path_lt_irreflexive(key@);
                    if j > i {
                        assert(path_lt(self.spec_keys()[i as int], self.spec_keys()[j]));
                    }
                }
            }
            None
        }
    }

    /// Whether `key` has an entry.
    pub fn contains_key(&self, key: &ObjPath) -> (r: bool)
        requires
            self.wf(),
        ensures
            r == self@.dom().contains(key@),
    {
        self.find(key).is_some()
    }

    /// The value stored under `key`, if any.
    pub fn get(&self, key: &ObjPath) -> (r: Option<&V>)
        requires
            self.wf(),
        ensures
            r.is_some() == self@.dom().contains(key@),
            r.is_some() ==> *r.unwrap() == self@[key@],
    {
        match self.find(key) {
            Some(i) => {
                proof {
                    lemma_map_of_index(self.spec_keys(), self.spec_vals(), i as int);
                }
                Some(&self.vals[i])
            },
            None => None,
        }
    }

    /// Stores `value` under `key`, replacing and returning any value that was
    /// there before.
    pub fn insert(&mut self, key: ObjPath, value: V) -> (r: Option<V>)
        requires
            old(self).wf(),
        ensures
            final(self).wf(),
            final(self)@ == old(self)@.insert(key@, value),
            r.is_some() == old(self)@.dom().contains(key@),
            r.is_some() ==> r.unwrap() == old(self)@[key@],
            old(self)@.dom().contains(key@) ==> final(self).spec_keys() == old(self).spec_keys(),
    {
        let i = self.lower_bound(&key);
        let ghost keys0 = self.spec_keys();
        let ghost vals0 = self.spec_vals();
        if i < self.keys.len() && self.keys[i].equals(&key) {
            proof {
                lemma_map_of_index(keys0, vals0, i as int);
                lemma_map_of_update(keys0, vals0, i as int, value);
                assert(keys0.contains(key@));
            }
            self.vals.push(value);
            let prev = self.vals.swap_remove(i);
            assert(self.spec_vals() =~= vals0.update(i as int, value));
            assert(self.spec_keys() =~= keys0);
            Some(prev)
        } else {
            proof {
                if keys0.contains(key@) {
                    let j = keys0.index_of(key@);
                    assert(keys0[j] == key@);
                    lemma_path_lt_irreflexive(key@);
                    if j > i {
                        assert(path_lt(keys0[i as int], keys0[j]));
                    }
                }
                let keys2 = keys0.insert(i as int, key@);
                assert forall|a: int, b: int| 0 <= a < b < keys2.len() implies path_lt(
                    #[trigger] keys2[a],
                    #[trigger] keys2[b],
                ) by {
                    if b == i {
                        assert(keys2[a] == keys0[a]);
                    } else if a == i {
                        assert(keys2[b] == keys0[b - 1]);
                        lemma_path_lt_total(keys0[b - 1], key@);
                        if b - 1 > i {
                            assert(path_lt(keys0[i as int], keys0[b - 1]));
                            if keys0[i as int] != key@ {
                                lemma_path_lt_total(keys0[i as int], key@);
                                lemma_path_lt_transitive(key@, keys0[i as int], keys0[b - 1]);
                            }
                        }
                    } else {
                        let a0 = if a < i { a } else { a - 1 };
                        let b0 = if b < i { b } else { b - 1 };
                        assert(keys2[a] == keys0[a0]);
                        assert(keys2[b] == keys0[b0]);
                    }
                }
                lemma_map_of_insert(keys0, vals0, i as int, key@, value);
            }
            self.keys.insert(i, key);
            self.vals.insert(i, value);
            assert(self.spec_keys() =~= keys0.insert(i as int, key@));
            None
        }
    }
}

/// A set of object paths, iterated in path order.
#[derive(Debug)]
pub struct PathSet {
    map: PathMap<()>,
}

impl PathSet {
    /// The members in ascending order.
    pub closed spec fn spec_paths(&self) -> Seq<Seq<Seq<u8>>> {
        self.map.spec_keys()
    }

    /// The members are strictly ascending, so none occurs twice.
    pub closed spec fn wf(&self) -> bool {
        self.map.wf()
    }

    /// The set of members.
    pub open spec fn view(&self) -> Set<Seq<Seq<u8>>> {
        self.spec_paths().to_set()
    }

    /// What `wf` says of the members' order.
    pub proof fn lemma_sorted(&self)
        requires
            self.wf(),
        ensures
            sorted_paths(self.spec_paths()),
            self.spec_paths().no_duplicates(),
    {
        lemma_sorted_distinct(self.spec_paths());
    }

    /// An empty set.
    pub fn new() -> (r: PathSet)
        ensures
            r.wf(),
            r.spec_paths() == Seq::<Seq<Seq<u8>>>::empty(),
            r@ == Set::<Seq<Seq<u8>>>::empty(),
    {
        let r = PathSet { map: PathMap::new() };
        assert(r@ =~= Set::<Seq<Seq<u8>>>::empty());
        r
    }

    /// Number of members.
    pub fn len(&self) -> (n: usize)
        requires
            self.wf(),
        ensures
            n == self.spec_paths().len(),
            self@.finite(),
            n == self@.len(),
    {
        proof {
            lemma_sorted_distinct(self.spec_paths());
            self.spec_paths().unique_seq_to_set();
            vstd::seq_lib::seq_to_set_is_finite(self.spec_paths());
        }
        self.map.len()
    }

    /// The `i`-th smallest member.
    pub fn path(&self, i: usize) -> (p: &ObjPath)
        requires
            self.wf(),
            i < self.spec_paths().len(),
        ensures
            p@ == self.spec_paths()[i as int],
            self@.contains(p@),
    {
        assert(self.spec_paths().contains(self.spec_paths()[i as int]));
        self.map.key(i)
    }

    /// Position of `path` among the members, if it is one.
    pub fn find(&self, path: &ObjPath) -> (r: Option<usize>)
        requires
            self.wf(),
        ensures
            r.is_some() == self@.contains(path@),
            r.is_some() ==> r.unwrap() < self.spec_paths().len() && self.spec_paths()[r.unwrap() as int]
                == path@,
    {
        self.map.find(path)
    }

    /// Whether `path` is a member.
    pub fn contains(&self, path: &ObjPath) -> (r: bool)
        requires
            self.wf(),
        ensures
            r == self@.contains(path@),
    {
        self.map.find(path).is_some()
    }

    /// Adds `path`; returns whether it was new.
    pub fn insert(&mut self, path: ObjPath) -> (r: bool)
        requires
            old(self).wf(),
        ensures
            final(self).wf(),
            final(self)@ == old(self)@.insert(path@),
            r == !old(self)@.contains(path@),
    {
        let ghost before = self.map;
        let prev = self.map.insert(path, ());
        proof {
            assert(self.map@.dom() =~= before@.dom().insert(path@));
            assert(self@ =~= self.map@.dom());
            assert(before.spec_keys().to_set() =~= before@.dom());
        }
        prev.is_none()
    }
}

} // verus!
