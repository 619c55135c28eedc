//! A map keyed by space view id, kept in ascending order of the ids.

use crate::space_view_id::SpaceViewId;
use vstd::prelude::*;

verus! {

/// The ids are strictly ascending.
pub open spec fn sorted_ids(keys: Seq<SpaceViewId>) -> bool {
    forall|i: int, j: int| 0 <= i < j < keys.len() ==> (#[trigger] keys[i]).0 < (#[trigger] keys[j]).0
}

/// The finite map that sends `keys[i]` to `vals[i]`.
pub open spec fn id_map_of<V>(keys: Seq<SpaceViewId>, vals: Seq<V>) -> Map<SpaceViewId, V> {
    Map::new(|k: SpaceViewId| keys.contains(k), |k: SpaceViewId| vals[keys.index_of(k)])
}

/// Under sorted ids, `id_map_of` holds exactly the pairs `keys[i] -> vals[i]`.
pub proof fn lemma_id_map_index<V>(keys: Seq<SpaceViewId>, vals: Seq<V>, i: int)
    requires
        sorted_ids(keys),
        keys.len() == vals.len(),
        0 <= i < keys.len(),
    ensures
        id_map_of(keys, vals).dom().contains(keys[i]),
        id_map_of(keys, vals)[keys[i]] == vals[i],
{
    assert(keys.contains(keys[i]));
    let j = keys.index_of(keys[i]);
    assert(0 <= j < keys.len() && keys[j] == keys[i]);
    if j < i {
        assert(keys[j].0 < keys[i].0);
    } else if i < j {
        assert(keys[i].0 < keys[j].0);
    }
}

/// Under sorted ids, the map has as many entries as there are ids.
pub proof fn lemma_id_map_len<V>(keys: Seq<SpaceViewId>, vals: Seq<V>)
    requires
        sorted_ids(keys),
        keys.len() == vals.len(),
    ensures
        id_map_of(keys, vals).dom().finite(),
        id_map_of(keys, vals).dom().len() == keys.len(),
{
    assert(keys.no_duplicates()) by {
        assert forall|i: int, j: int| 0 <= i < keys.len() && 0 <= j < keys.len() && i != j implies keys[i]
            != keys[j] by {
            if i < j {
                assert(keys[i].0 < keys[j].0);
            } else {
                assert(keys[j].0 < keys[i].0);
            }
        }
    }
    keys.unique_seq_to_set();
    assert(id_map_of(keys, vals).dom() =~= keys.to_set());
    vstd::seq_lib::seq_to_set_is_finite(keys);
}

/// Sorted id lists that give the same map are the same lists.
pub proof fn lemma_id_map_unique<V>(
    keys1: Seq<SpaceViewId>,
    vals1: Seq<V>,
    keys2: Seq<SpaceViewId>,
    vals2: Seq<V>,
)
    requires
        sorted_ids(keys1),
        sorted_ids(keys2),
        keys1.len() == vals1.len(),
        keys2.len() == vals2.len(),
        id_map_of(keys1, vals1) == id_map_of(keys2, vals2),
    ensures
        keys1 == keys2,
        vals1 == vals2,
    decreases keys1.len(),
{
    let m1 = id_map_of(keys1, vals1);
    let m2 = id_map_of(keys2, vals2);
    if keys1.len() == 0 {
        if keys2.len() > 0 {
            lemma_id_map_index(keys2, vals2, 0);
            assert(m1.dom().contains(keys2[0]));
            assert(keys1.contains(keys2[0]));
        }
        assert(keys1 =~= keys2);
        assert(vals1 =~= vals2);
    } else {
        let n1 = keys1.len() as int;
        lemma_id_map_index(keys1, vals1, n1 - 1);
        assert(m2.dom().contains(keys1[n1 - 1]));
        assert(keys2.contains(keys1[n1 - 1]));
        let n2 = keys2.len() as int;
        assert(n2 > 0);
        lemma_id_map_index(keys2, vals2, n2 - 1);
        assert(m1.dom().contains(keys2[n2 - 1]));
        assert(keys1.contains(keys2[n2 - 1]));
        let i = choose|i: int| 0 <= i < n2 && keys2[i] == keys1[n1 - 1];
        let j = choose|j: int| 0 <= j < n1 && keys1[j] == keys2[n2 - 1];
        if i < n2 - 1 {
            assert(keys2[i].0 < keys2[n2 - 1].0);
        }
        if j < n1 - 1 {
            assert(keys1[j].0 < keys1[n1 - 1].0);
        }
        assert(keys1[n1 - 1] == keys2[n2 - 1]);
        assert(vals1[n1 - 1] == vals2[n2 - 1]);
        let k1 = keys1.drop_last();
        let v1 = vals1.drop_last();
        let k2 = keys2.drop_last();
        let v2 = vals2.drop_last();
        assert(sorted_ids(k1)) by {
            assert forall|a: int, b: int| 0 <= a < b < k1.len() implies (#[trigger] k1[a]).0 < (
            #[trigger] k1[b]).0 by {
                assert(k1[a] == keys1[a] && k1[b] == keys1[b]);
            }
        }
        assert(sorted_ids(k2)) by {
            assert forall|a: int, b: int| 0 <= a < b < k2.len() implies (#[trigger] k2[a]).0 < (
            #[trigger] k2[b]).0 by {
                assert(k2[a] == keys2[a] && k2[b] == keys2[b]);
            }
        }
        let last = keys1[n1 - 1];
        assert forall|q: SpaceViewId| id_map_of(k1, v1).dom().contains(q) == id_map_of(
            k2,
            v2,
        ).dom().contains(q) by {
            if k1.contains(q) {
                let a = choose|a: int| 0 <= a < k1.len() && k1[a] == q;
                assert(keys1[a] == q);
                assert(keys1[a].0 < keys1[n1 - 1].0);
                lemma_id_map_index(keys1, vals1, a);
                assert(keys2.contains(q));
                let b = choose|b: int| 0 <= b < n2 && keys2[b] == q;
                assert(k2[b] == q);
            }
            if k2.contains(q) {
                let a = choose|a: int| 0 <= a < k2.len() && k2[a] == q;
                assert(keys2[a] == q);
                assert(keys2[a].0 < keys2[n2 - 1].0);
                lemma_id_map_index(keys2, vals2, a);
                assert(keys1.contains(q));
                let b = choose|b: int| 0 <= b < n1 && keys1[b] == q;
                assert(k1[b] == q);
            }
        }
        assert forall|q: SpaceViewId| id_map_of(k1, v1).dom().contains(q) implies id_map_of(k1, v1)[q]
            == id_map_of(k2, v2)[q] by {
            assert(k1.contains(q));
            let a = choose|a: int| 0 <= a < k1.len() && k1[a] == q;
            lemma_id_map_index(k1, v1, a);
            assert(keys1[a] == q);
            lemma_id_map_index(keys1, vals1, a);
            assert(k2.contains(q));
            let b = choose|b: int| 0 <= b < k2.len() && k2[b] == q;
            lemma_id_map_index(k2, v2, b);
            assert(keys2[b] == q);
            lemma_id_map_index(keys2, vals2, b);
        }
        assert(id_map_of(k1, v1) =~= id_map_of(k2, v2));
        lemma_id_map_unique(k1, v1, k2, v2);
        assert(keys1 =~= k1.push(keys1[n1 - 1]));
        assert(keys2 =~= k2.push(keys2[n2 - 1]));
        assert(vals1 =~= v1.push(vals1[n1 - 1]));
        assert(vals2 =~= v2.push(vals2[n2 - 1]));
    }
}

/// A map from space view ids to values of type `V`, iterated in ascending
/// order of the ids.
#[derive(Debug)]
pub struct IdMap<V> {
    keys: Vec<SpaceViewId>,
    vals: Vec<V>,
}

impl<V> IdMap<V> {
    /// The ids in ascending order.
    pub closed spec fn spec_keys(&self) -> Seq<SpaceViewId> {
        self.keys@
    }

    /// The values, in the order of their ids.
    pub closed spec fn spec_vals(&self) -> Seq<V> {
        self.vals@
    }

    /// One value per id, and the ids strictly ascending.
    pub open spec fn wf(&self) -> bool {
        &&& self.spec_keys().len() == self.spec_vals().len()
        &&& sorted_ids(self.spec_keys())
    }

    /// The map as a mathematical map.
    pub open spec fn view(&self) -> Map<SpaceViewId, V> {
        id_map_of(self.spec_keys(), self.spec_vals())
    }

    /// An empty map.
    pub fn new() -> (r: IdMap<V>)
        ensures
            r.wf(),
            r.spec_keys() == Seq::<SpaceViewId>::empty(),
            r.spec_vals() == Seq::<V>::empty(),
            r@ == Map::<SpaceViewId, V>::empty(),
    {
        let r = IdMap { keys: Vec::new(), vals: Vec::new() };
        assert(r@ =~= Map::<SpaceViewId, V>::empty());
        r
    }

    /// Number of entries.
    pub fn len(&self) -> (n: usize)
        requires
            self.wf(),
        ensures
            n == self.spec_keys().len(),
            n == self.spec_vals().len(),
            self@.dom().finite(),
            n == self@.dom().len(),
    {
        proof {
            lemma_id_map_len(self.spec_keys(), self.spec_vals());
        }
        self.keys.len()
    }

    /// Whether the map has no entry.
    pub fn is_empty(&self) -> (r: bool)
        requires
            self.wf(),
        ensures
            r == (self.spec_keys().len() == 0),
            r == (self@ == Map::<SpaceViewId, V>::empty()),
    {
        proof {
            if self.spec_keys().len() > 0 {
                lemma_id_map_index(self.spec_keys(), self.spec_vals(), 0);
            } else {
                assert(self@ =~= Map::<SpaceViewId, V>::empty());
            }
        }
        self.keys.len() == 0
    }

    /// The `i`-th smallest id.
    pub fn key(&self, i: usize) -> (k: SpaceViewId)
        requires
            self.wf(),
            i < self.spec_keys().len(),
        ensures
            k == self.spec_keys()[i as int],
            self@.dom().contains(k),
    {
        proof {
            lemma_id_map_index(self.spec_keys(), self.spec_vals(), i as int);
        }
        self.keys[i]
    }

    /// The value stored under the `i`-th smallest id.
    pub fn value(&self, i: usize) -> (v: &V)
        requires
            self.wf(),
            i < self.spec_keys().len(),
        ensures
            *v == self.spec_vals()[i as int],
            *v == self@[self.spec_keys()[i as int]],
    {
        proof {
            lemma_id_map_index(self.spec_keys(), self.spec_vals(), i as int);
        }
        &self.vals[i]
    }

    /// Position of the first id that is not below `id`.
    fn lower_bound(&self, id: SpaceViewId) -> (i: usize)
        requires
            self.wf(),
        ensures
            i <= self.spec_keys().len(),
            forall|k: int| 0 <= k < i ==> (#[trigger] self.spec_keys()[k]).0 < id.0,
            forall|k: int| i <= k < self.spec_keys().len() ==> (#[trigger] self.spec_keys()[k]).0 >= id.0,
    {
        let mut lo: usize = 0;
        let mut hi: usize = self.keys.len();
        while lo < hi
            invariant
                self.wf(),
                lo <= hi <= self.keys.len(),
                forall|k: int| 0 <= k < lo ==> (#[trigger] self.spec_keys()[k]).0 < id.0,
                forall|k: int| hi <= k < self.spec_keys().len() ==> (#[trigger] self.spec_keys()[k]).0 >= id.0,
            decreases hi - lo,
        {
            let mid = lo + (hi - lo) / 2;
            if self.keys[mid].0 < id.0 {
                assert forall|k: int| 0 <= k < mid + 1 implies (#[trigger] self.spec_keys()[k]).0 < id.0 by {
                    if k < mid {
                        assert(self.spec_keys()[k].0 < self.spec_keys()[mid as int].0);
                    }
                }
                lo = mid + 1;
            } else {
                assert forall|k: int| mid <= k < self.spec_keys().len() implies (
                #[trigger] self.spec_keys()[k]).0 >= id.0 by {
                    if k > mid {
                        assert(self.spec_keys()[mid as int].0 < self.spec_keys()[k].0);
                    }
                }
                hi = mid;
            }
        }
        lo
    }

    /// Position of `id` among the ids, if it is one.
    pub fn find(&self, id: SpaceViewId) -> (r: Option<usize>)
        requires
            self.wf(),
        ensures
            r.is_some() == self@.dom().contains(id),
            r.is_some() ==> r.unwrap() < self.spec_keys().len() && self.spec_keys()[r.unwrap() as int] == id,
    {
        let i = self.lower_bound(id);
        if i < self.keys.len() && self.keys[i].0 == id.0 {
            assert(self.spec_keys()[i as int] == id);
            assert(self.spec_keys().contains(id));
            Some(i)
        } else {
            proof {
                if self.spec_keys().contains(id) {
                    let j = self.spec_keys().index_of(id);
                    assert(self.spec_keys()[j] == id);
                    if j > i {
                        assert(self.spec_keys()[i as int].0 < self.spec_keys()[j].0);
                    }
                }
            }
            None
        }
    }

    /// Whether `id` has an entry.
    pub fn contains_key(&self, id: SpaceViewId) -> (r: bool)
        requires
            self.wf(),
        ensures
            r == self@.dom().contains(id),
    {
        self.find(id).is_some()
    }

    /// The value stored under `id`, if any.
    pub fn get(&self, id: SpaceViewId) -> (r: Option<&V>)
        requires
            self.wf(),
        ensures
            r.is_some() == self@.dom().contains(id),
            r.is_some() ==> *r.unwrap() == self@[id],
    {
        match self.find(id) {
            Some(i) => {
                proof {
                    lemma_id_map_index(self.spec_keys(), self.spec_vals(), i as int);
                }
                Some(&self.vals[i])
            },
            None => None,
        }
    }

    /// Stores `value` under `id`, replacing and returning any value that was
    /// there before.
    pub fn insert(&mut self, id: SpaceViewId, value: V) -> (r: Option<V>)
        requires
            old(self).wf(),
        ensures
            final(self).wf(),
            final(self)@ == old(self)@.insert(id, value),
            r.is_some() == old(self)@.dom().contains(id),
            r.is_some() ==> r.unwrap() == old(self)@[id],
    {
        let i = self.lower_bound(id);
        let ghost keys0 = self.spec_keys();
        let ghost vals0 = self.spec_vals();
        if i < self.keys.len() && self.keys[i].0 == id.0 {
            proof {
                assert(keys0[i as int] == id);
                assert(keys0.contains(id));
                lemma_id_map_index(keys0, vals0, i as int);
            }
            self.vals.push(value);
            let prev = self.vals.swap_remove(i);
            proof {
                let vals2 = self.spec_vals();
                assert(vals2 =~= vals0.update(i as int, value));
                assert forall|q: SpaceViewId| self@.dom().contains(q) implies self@[q] == old(
                    self,
                )@.insert(id, value)[q] by {
                    assert(keys0.contains(q));
                    let j = keys0.index_of(q);
                    assert(0 <= j < keys0.len() && keys0[j] == q);
                    lemma_id_map_index(keys0, vals2, j);
                    lemma_id_map_index(keys0, vals0, j);
                    if j < i {
                        assert(keys0[j].0 < keys0[i as int].0);
                    } else if j > i {
                        assert(keys0[i as int].0 < keys0[j].0);
                    }
                }
                assert(self@ =~= old(self)@.insert(id, value));
            }
            Some(prev)
        } else {
            self.keys.insert(i, id);
            self.vals.insert(i, value);
            proof {
                let keys2 = self.spec_keys();
                let vals2 = self.spec_vals();
                assert(keys2 =~= keys0.insert(i as int, id));
                assert(vals2 =~= vals0.insert(i as int, value));
                if keys0.contains(id) {
                    let j = keys0.index_of(id);
                    assert(keys0[j] == id);
                    if j > i {
                        assert(keys0[i as int].0 < keys0[j].0);
                    }
                }
                assert forall|a: int, b: int| 0 <= a < b < keys2.len() implies (#[trigger] keys2[a]).0 < (
                #[trigger] keys2[b]).0 by {
                    let a0 = if a < i { a } else { a - 1 };
                    let b0 = if b < i { b } else { b - 1 };
                    if a != i && b != i {
                        assert(keys2[a] == keys0[a0] && keys2[b] == keys0[b0]);
                    } else if a == i {
                        assert(keys2[b] == keys0[b0]);
                        if b0 > i {
                            assert(keys0[i as int].0 < keys0[b0].0);
                        }
                    } else {
                        assert(keys2[a] == keys0[a0]);
                    }
                }
                assert forall|q: SpaceViewId| self@.dom().contains(q) == old(self)@.insert(
                    id,
                    value,
                ).dom().contains(q) by {
                    if keys2.contains(q) {
                        let j = keys2.index_of(q);
                        assert(keys2[j] == q);
                        if j < i {
                            assert(keys0[j] == q);
                        } else if j > i {
                            assert(keys0[j - 1] == q);
                        }
                    }
                    if keys0.contains(q) {
                        let j = keys0.index_of(q);
                        assert(keys0[j] == q);
                        if j < i {
                            assert(keys2[j] == q);
                        } else {
                            assert(keys2[j + 1] == q);
                        }
                    }
                    if q == id {
                        assert(keys2[i as int] == q);
                    }
                }
                assert forall|q: SpaceViewId| self@.dom().contains(q) implies self@[q] == old(
                    self,
                )@.insert(id, value)[q] by {
                    assert(keys2.contains(q));
                    let j = keys2.index_of(q);
                    assert(0 <= j < keys2.len() && keys2[j] == q);
                    lemma_id_map_index(keys2, vals2, j);
                    assert(keys2[i as int] == id);
                    if j < i {
                        assert(keys0[j] == q);
                        assert(keys2[j].0 < keys2[i as int].0);
                        lemma_id_map_index(keys0, vals0, j);
                    } else if j > i {
                        assert(keys0[j - 1] == q);
                        assert(keys2[i as int].0 < keys2[j].0);
                        lemma_id_map_index(keys0, vals0, j - 1);
                    }
                }
                assert(self@ =~= old(self)@.insert(id, value));
            }
            None
        }
    }

    /// The value stored under `id`, for changing it in place.
    pub fn get_mut(&mut self, id: SpaceViewId) -> (r: Option<&mut V>)
        requires
            old(self).wf(),
        ensures
            final(self).wf(),
            final(self).spec_keys() == old(self).spec_keys(),
            match r {
                Some(v) => old(self)@.dom().contains(id) && *v == old(self)@[id] && final(self)@ == old(
                    self,
                )@.insert(id, *final(v)),
                None => !old(self)@.dom().contains(id) && final(self)@ == old(self)@,
            },
    {
        match self.find(id) {
            Some(i) => {
                let ghost keys0 = self.spec_keys();
                let ghost vals0 = self.spec_vals();
                proof {
                    lemma_id_map_index(keys0, vals0, i as int);
                }
                let v = &mut self.vals[i];
                proof {
                    let vals2 = vals0.update(i as int, *final(v));
                    assert forall|q: SpaceViewId| id_map_of(keys0, vals2).dom().contains(q) implies id_map_of(
                        keys0,
                        vals2,
                    )[q] == id_map_of(keys0, vals0).insert(id, *final(v))[q] by {
                        assert(keys0.contains(q));
                        let j = keys0.index_of(q);
                        assert(0 <= j < keys0.len() && keys0[j] == q);
                        lemma_id_map_index(keys0, vals2, j);
                        lemma_id_map_index(keys0, vals0, j);
                        if j < i {
                            assert(keys0[j].0 < keys0[i as int].0);
                        } else if j > i {
                            assert(keys0[i as int].0 < keys0[j].0);
                        }
                    }
                    assert(id_map_of(keys0, vals2) =~= id_map_of(keys0, vals0).insert(id, *final(v)));
                }
                Some(v)
            },
            None => None,
        }
    }

    /// Removes every entry.
    pub fn clear(&mut self)
        ensures
            final(self).wf(),
            final(self)@ == Map::<SpaceViewId, V>::empty(),
            final(self).spec_keys() == Seq::<SpaceViewId>::empty(),
    {
        self.keys.clear();
        self.vals.clear();
        assert(self@ =~= Map::<SpaceViewId, V>::empty());
    }
}

impl IdMap<bool> {
    /// A copy of the map.
    pub fn duplicate(&self) -> (r: IdMap<bool>)
        requires
            self.wf(),
        ensures
            r.wf(),
            r@ == self@,
            r.spec_keys() == self.spec_keys(),
            r.spec_vals() == self.spec_vals(),
    {
        let mut keys: Vec<SpaceViewId> = Vec::new();
        let mut vals: Vec<bool> = Vec::new();
        let mut i: usize = 0;
        while i < self.keys.len()
            invariant
                i <= self.keys@.len(),
                self.keys@.len() == self.vals@.len(),
                keys@ == self.keys@.take(i as int),
                vals@ == self.vals@.take(i as int),
            decreases self.keys@.len() - i,
        {
            keys.push(self.keys[i]);
            vals.push(self.vals[i]);
            assert(self.keys@.take(i as int + 1) =~= self.keys@.take(i as int).push(self.keys@[i as int]));
            assert(self.vals@.take(i as int + 1) =~= self.vals@.take(i as int).push(self.vals@[i as int]));
            i += 1;
        }
        assert(self.keys@.take(self.keys@.len() as int) =~= self.keys@);
        assert(self.vals@.take(self.vals@.len() as int) =~= self.vals@);
        IdMap { keys, vals }
    }

    /// Whether the two maps hold the same entries.
    pub fn same_as(&self, other: &IdMap<bool>) -> (r: bool)
        requires
            self.wf(),
            other.wf(),
        ensures
            r == (self@ == other@),
    {
        proof {
            if self@ == other@ {
                lemma_id_map_unique(self.spec_keys(), self.spec_vals(), other.spec_keys(), other.spec_vals());
            }
        }
        if self.keys.len() != other.keys.len() {
            return false;
        }
        let mut i: usize = 0;
        while i < self.keys.len()
            invariant
                i <= self.keys@.len(),
                self.wf(),
                other.wf(),
                self.keys@.len() == other.keys@.len(),
                self@ == other@ ==> self.spec_keys() == other.spec_keys() && self.spec_vals()
                    == other.spec_vals(),
                forall|k: int| 0 <= k < i ==> self.keys@[k] == other.keys@[k] && self.vals@[k] == other.vals@[k],
            decreases self.keys@.len() - i,
        {
            if self.keys[i].0 != other.keys[i].0 || self.vals[i] != other.vals[i] {
                return false;
            }
            i += 1;
        }
        assert(self.keys@ =~= other.keys@);
        assert(self.vals@ =~= other.vals@);
        true
    }
}

} // verus!
