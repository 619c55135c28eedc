//! Grouping of panels by the paths of their spaces.
//!
//! Panels are grouped by the component that their paths have at the
//! shallowest depth where the paths differ. The groups come in the order of
//! that component, a path that ends before the depth first; within a group
//! the panels keep their order.

use crate::panel::{group_views, panel_views, SpaceMakeInfo, SpaceMakeInfoView};
use crate::path::{
    bytes_lt, bytes_order, lemma_bytes_lt_asymmetric, lemma_bytes_lt_irreflexive, lemma_bytes_lt_total,
    lemma_bytes_lt_transitive, Order, PathComp,
};
use vstd::prelude::*;

verus! {

/// The component of `path` at depth `d`, or `None` where the path ends
/// before.
pub open spec fn key_at(path: Seq<Seq<u8>>, d: int) -> Option<Seq<u8>> {
    if 0 <= d < path.len() {
        Some(path[d])
    } else {
        None
    }
}

/// Strict order on keys: a missing component first, then by component.
pub open spec fn key_lt(a: Option<Seq<u8>>, b: Option<Seq<u8>>) -> bool {
    match (a, b) {
        (None, Some(_)) => true,
        (Some(x), Some(y)) => bytes_lt(x, y),
        _ => false,
    }
}

/// The three-way comparison that `key_lt` induces.
pub open spec fn key_order(a: Option<Seq<u8>>, b: Option<Seq<u8>>) -> Order {
    if a == b {
        Order::Equal
    } else if key_lt(a, b) {
        Order::Less
    } else {
        Order::Greater
    }
}

/// No key is below itself, and two keys are never below each other.
pub proof fn lemma_key_lt_asymmetric(a: Option<Seq<u8>>, b: Option<Seq<u8>>)
    ensures
        !key_lt(a, a),
        !(key_lt(a, b) && key_lt(b, a)),
{
    if a.is_some() {
        lemma_bytes_lt_irreflexive(a.unwrap());
        if b.is_some() {
            lemma_bytes_lt_asymmetric(a.unwrap(), b.unwrap());
        }
    }
}

/// Any two keys are equal or ordered one way.
pub proof fn lemma_key_lt_total(a: Option<Seq<u8>>, b: Option<Seq<u8>>)
    ensures
        key_lt(a, b) || key_lt(b, a) || a == b,
{
    if a.is_some() && b.is_some() {
        lemma_bytes_lt_total(a.unwrap(), b.unwrap());
    }
}

/// `key_lt` is transitive.
pub proof fn lemma_key_lt_transitive(a: Option<Seq<u8>>, b: Option<Seq<u8>>, c: Option<Seq<u8>>)
    requires
        key_lt(a, b),
        key_lt(b, c),
    ensures
        key_lt(a, c),
{
    if a.is_some() {
        lemma_bytes_lt_transitive(a.unwrap(), b.unwrap(), c.unwrap());
    }
}

/// The keys are strictly ascending.
pub open spec fn keys_sorted(ks: Seq<Option<Seq<u8>>>) -> bool {
    forall|i: int, j: int| 0 <= i < j < ks.len() ==> key_lt(#[trigger] ks[i], #[trigger] ks[j])
}

/// The ascending list `ks` with `k` put in its place, unless it is there
/// already.
pub open spec fn insert_key(ks: Seq<Option<Seq<u8>>>, k: Option<Seq<u8>>) -> Seq<Option<Seq<u8>>>
    decreases ks.len(),
{
    if ks.len() == 0 {
        seq![k]
    } else if ks.last() == k {
        ks
    } else if key_lt(ks.last(), k) {
        ks.push(k)
    } else {
        insert_key(ks.drop_last(), k).push(ks.last())
    }
}

/// The distinct keys that the panels have at depth `d`, ascending.
pub open spec fn group_keys(entries: Seq<SpaceMakeInfoView>, d: int) -> Seq<Option<Seq<u8>>>
    decreases entries.len(),
{
    if entries.len() == 0 {
        Seq::empty()
    } else {
        insert_key(group_keys(entries.drop_last(), d), key_at(entries.last().path, d))
    }
}

/// Length of the longest path among the panels.
pub open spec fn max_path_len(entries: Seq<SpaceMakeInfoView>) -> nat
    decreases entries.len(),
{
    if entries.len() == 0 {
        0
    } else {
        let rest = max_path_len(entries.drop_last());
        if entries.last().path.len() > rest {
            entries.last().path.len()
        } else {
            rest
        }
    }
}

/// The shallowest depth from `d` on at which the panels have more than one
/// key, if there is one.
pub open spec fn split_depth(entries: Seq<SpaceMakeInfoView>, d: int) -> Option<int>
    decreases max_path_len(entries) - d,
{
    if d < 0 || d >= max_path_len(entries) {
        None
    } else if group_keys(entries, d).len() > 1 {
        Some(d)
    } else {
        split_depth(entries, d + 1)
    }
}

/// The panels whose key at depth `d` is `k`, in their order.
pub open spec fn group_of(entries: Seq<SpaceMakeInfoView>, d: int, k: Option<Seq<u8>>) -> Seq<
    SpaceMakeInfoView,
> {
    entries.filter(|e: SpaceMakeInfoView| key_at(e.path, d) == k)
}

/// The groups by key at depth `d`, in ascending order of the key.
pub open spec fn groups_at(entries: Seq<SpaceMakeInfoView>, d: int) -> Seq<Seq<SpaceMakeInfoView>> {
    Seq::new(
        group_keys(entries, d).len(),
        |j: int| group_of(entries, d, group_keys(entries, d)[j]),
    )
}

/// Every panel in a group of its own.
pub open spec fn singletons(entries: Seq<SpaceMakeInfoView>) -> Seq<Seq<SpaceMakeInfoView>> {
    Seq::new(entries.len(), |i: int| seq![entries[i]])
}

/// The groups that the panels fall into.
///
/// Fewer than two panels form one group. Otherwise the panels are grouped at
/// the shallowest depth where their paths differ; where all paths are the
/// same, every panel is a group of its own.
pub open spec fn grouped(entries: Seq<SpaceMakeInfoView>) -> Seq<Seq<SpaceMakeInfoView>> {
    if entries.len() < 2 {
        seq![entries]
    } else {
        match split_depth(entries, 0) {
            Some(d) => groups_at(entries, d),
            None => singletons(entries),
        }
    }
}

/// Where a sorted list takes a new key, and what the list is afterwards.
proof fn lemma_insert_key_at(ks: Seq<Option<Seq<u8>>>, k: Option<Seq<u8>>, j: int)
    requires
        keys_sorted(ks),
        0 <= j <= ks.len(),
        forall|t: int| j <= t < ks.len() ==> key_lt(k, #[trigger] ks[t]),
        j > 0 ==> key_lt(ks[j - 1], k) || ks[j - 1] == k,
    ensures
        j > 0 && ks[j - 1] == k ==> insert_key(ks, k) == ks,
        !(j > 0 && ks[j - 1] == k) ==> insert_key(ks, k) == ks.insert(j, k),
    decreases ks.len() - j,
{
    if ks.len() == 0 {
        assert(ks.insert(0, k) =~= seq![k]);
    } else if j == ks.len() {
        if ks.last() != k {
            assert(ks.insert(j, k) =~= ks.push(k));
        }
    } else {
        lemma_key_lt_asymmetric(k, ks.last());
        let front = ks.drop_last();
        assert(ks.last() != k);
        assert(!key_lt(ks.last(), k));
        assert(keys_sorted(front)) by {
            assert forall|a: int, b: int| 0 <= a < b < front.len() implies key_lt(
                #[trigger] front[a],
                #[trigger] front[b],
            ) by {
                assert(front[a] == ks[a] && front[b] == ks[b]);
            }
        }
        assert forall|t: int| j <= t < front.len() implies key_lt(k, #[trigger] front[t]) by {
            assert(front[t] == ks[t]);
        }
        if j > 0 {
            assert(front[j - 1] == ks[j - 1]);
        }
        lemma_insert_key_at(front, k, j);
        if j > 0 && ks[j - 1] == k {
            assert(front.push(ks.last()) =~= ks);
        } else {
            assert(front.insert(j, k).push(ks.last()) =~= ks.insert(j, k));
        }
    }
}

/// Inserting into a sorted list keeps it sorted and adds exactly the key.
pub proof fn lemma_insert_key(ks: Seq<Option<Seq<u8>>>, k: Option<Seq<u8>>)
    requires
        keys_sorted(ks),
    ensures
        keys_sorted(insert_key(ks, k)),
        forall|x: Option<Seq<u8>>| insert_key(ks, k).contains(x) <==> (ks.contains(x) || x == k),
        ks.contains(k) ==> insert_key(ks, k) == ks,
        !ks.contains(k) ==> insert_key(ks, k).len() == ks.len() + 1,
    decreases ks.len(),
{
    let r = insert_key(ks, k);
    if ks.len() == 0 {
        assert(r[0] == k);
        assert forall|x: Option<Seq<u8>>| r.contains(x) <==> (ks.contains(x) || x == k) by {
            if x == k {
                assert(r[0] == x);
            }
        }
    } else if ks.last() == k {
        assert(ks[ks.len() - 1] == k);
    } else if key_lt(ks.last(), k) {
        assert forall|i: int, j: int| 0 <= i < j < r.len() implies key_lt(#[trigger] r[i], #[trigger] r[j]) by {
            if j == ks.len() {
                if i < ks.len() - 1 {
                    assert(key_lt(ks[i], ks[ks.len() - 1]));
                    lemma_key_lt_transitive(ks[i], ks.last(), k);
                }
            } else {
                assert(r[i] == ks[i] && r[j] == ks[j]);
            }
        }
        assert forall|x: Option<Seq<u8>>| r.contains(x) <==> (ks.contains(x) || x == k) by {
            if r.contains(x) {
                let i = choose|i: int| 0 <= i < r.len() && r[i] == x;
                if i < ks.len() {
                    assert(ks[i] == x);
                }
            }
            if ks.contains(x) {
                let i = choose|i: int| 0 <= i < ks.len() && ks[i] == x;
                assert(r[i] == x);
            }
            if x == k {
                assert(r[ks.len() as int] == x);
            }
        }
        if ks.contains(k) {
            let i = choose|i: int| 0 <= i < ks.len() && ks[i] == k;
            lemma_key_lt_asymmetric(k, ks.last());
            if i < ks.len() - 1 {
                assert(key_lt(ks[i], ks[ks.len() - 1]));
                lemma_key_lt_transitive(ks[i], ks.last(), k);
            }
        }
    } else {
        let front = ks.drop_last();
        let last = ks.last();
        assert(keys_sorted(front)) by {
            assert forall|a: int, b: int| 0 <= a < b < front.len() implies key_lt(
                #[trigger] front[a],
                #[trigger] front[b],
            ) by {
                assert(front[a] == ks[a] && front[b] == ks[b]);
            }
        }
        lemma_insert_key(front, k);
        let inner = insert_key(front, k);
        lemma_key_lt_total(last, k);
        assert(key_lt(k, last));
        assert forall|i: int, j: int| 0 <= i < j < r.len() implies key_lt(#[trigger] r[i], #[trigger] r[j]) by {
            if j == inner.len() {
                assert(inner.contains(inner[i]));
                if inner[i] != k {
                    assert(front.contains(inner[i]));
                    let a = choose|a: int| 0 <= a < front.len() && front[a] == inner[i];
                    assert(key_lt(ks[a], ks[ks.len() - 1]));
                }
            } else {
                assert(r[i] == inner[i] && r[j] == inner[j]);
            }
        }
        assert forall|x: Option<Seq<u8>>| r.contains(x) <==> (ks.contains(x) || x == k) by {
            if r.contains(x) {
                let i = choose|i: int| 0 <= i < r.len() && r[i] == x;
                if i < inner.len() {
                    assert(inner[i] == x);
                    assert(inner.contains(x));
                    if x != k {
                        assert(front.contains(x));
                        let a = choose|a: int| 0 <= a < front.len() && front[a] == x;
                        assert(ks[a] == x);
                    }
                } else {
                    assert(ks[ks.len() - 1] == x);
                }
            }
            if ks.contains(x) {
                let a = choose|a: int| 0 <= a < ks.len() && ks[a] == x;
                if a < ks.len() - 1 {
                    assert(front[a] == x);
                    assert(front.contains(x));
                    assert(inner.contains(x));
                    let b = choose|b: int| 0 <= b < inner.len() && inner[b] == x;
                    assert(r[b] == x);
                } else {
                    assert(r[inner.len() as int] == x);
                }
            }
            if x == k {
                assert(inner.contains(k));
                let b = choose|b: int| 0 <= b < inner.len() && inner[b] == k;
                assert(r[b] == x);
            }
        }
        if ks.contains(k) {
            let a = choose|a: int| 0 <= a < ks.len() && ks[a] == k;
            assert(front[a] == k);
            assert(front.contains(k));
            assert(inner.push(last) =~= ks);
        } else {
            if front.contains(k) {
                let a = choose|a: int| 0 <= a < front.len() && front[a] == k;
                assert(ks[a] == k);
            }
        }
    }
}

/// The keys of the groups are sorted, and they are exactly the keys that
/// occur among the panels.
pub proof fn lemma_group_keys(entries: Seq<SpaceMakeInfoView>, d: int)
    ensures
        keys_sorted(group_keys(entries, d)),
        forall|x: Option<Seq<u8>>|
            group_keys(entries, d).contains(x) <==> exists|i: int|
                0 <= i < entries.len() && key_at(#[trigger] entries[i].path, d) == x,
        group_keys(entries, d).len() <= entries.len(),
        entries.len() > 0 ==> group_keys(entries, d).len() > 0,
    decreases entries.len(),
{
    let gk = group_keys(entries, d);
    if entries.len() == 0 {
    } else {
        let front = entries.drop_last();
        let k = key_at(entries.last().path, d);
        lemma_group_keys(front, d);
        lemma_insert_key(group_keys(front, d), k);
        assert forall|x: Option<Seq<u8>>| gk.contains(x) <==> exists|i: int|
            0 <= i < entries.len() && key_at(#[trigger] entries[i].path, d) == x by {
            if gk.contains(x) {
                if group_keys(front, d).contains(x) {
                    let i = choose|i: int| 0 <= i < front.len() && key_at(#[trigger] front[i].path, d) == x;
                    assert(entries[i] == front[i]);
                } else {
                    assert(key_at(entries[entries.len() - 1].path, d) == x);
                }
            }
            if exists|i: int| 0 <= i < entries.len() && key_at(#[trigger] entries[i].path, d) == x {
                let i = choose|i: int| 0 <= i < entries.len() && key_at(#[trigger] entries[i].path, d) == x;
                if i < front.len() {
                    assert(front[i] == entries[i]);
                    assert(group_keys(front, d).contains(x));
                }
            }
        }
        assert(gk.contains(k));
    }
}

/// Two sorted lists with the same keys are the same list.
pub proof fn lemma_sorted_keys_unique(a: Seq<Option<Seq<u8>>>, b: Seq<Option<Seq<u8>>>)
    requires
        keys_sorted(a),
        keys_sorted(b),
        forall|x: Option<Seq<u8>>| a.contains(x) <==> b.contains(x),
    ensures
        a == b,
    decreases a.len(),
{
    if a.len() == 0 {
        if b.len() > 0 {
            assert(b.contains(b[0]));
        }
        assert(a =~= b);
    } else {
        assert(a.contains(a.last()));
        assert(b.contains(a.last()));
        assert(b.len() > 0);
        assert(b.contains(b.last()));
        assert(a.contains(b.last()));
        // The greatest key of each list is the greatest key of the other.
        let i = choose|i: int| 0 <= i < b.len() && b[i] == a.last();
        let j = choose|j: int| 0 <= j < a.len() && a[j] == b.last();
        lemma_key_lt_asymmetric(a.last(), b.last());
        if i < b.len() - 1 {
            assert(key_lt(b[i], b[b.len() - 1]));
        }
        if j < a.len() - 1 {
            assert(key_lt(a[j], a[a.len() - 1]));
        }
        assert(a.last() == b.last());
        let a1 = a.drop_last();
        let b1 = b.drop_last();
        assert forall|x: Option<Seq<u8>>| a1.contains(x) <==> b1.contains(x) by {
            lemma_key_lt_asymmetric(x, a.last());
            if a1.contains(x) {
                let t = choose|t: int| 0 <= t < a1.len() && a1[t] == x;
                assert(a[t] == x);
                assert(key_lt(a[t], a[a.len() - 1]));
                assert(a.contains(x));
                let u = choose|u: int| 0 <= u < b.len() && b[u] == x;
                assert(b1[u] == x);
            }
            if b1.contains(x) {
                let t = choose|t: int| 0 <= t < b1.len() && b1[t] == x;
                assert(b[t] == x);
                assert(key_lt(b[t], b[b.len() - 1]));
                assert(b.contains(x));
                let u = choose|u: int| 0 <= u < a.len() && a[u] == x;
                assert(a1[u] == x);
            }
        }
        assert(keys_sorted(a1)) by {
            assert forall|s: int, t: int| 0 <= s < t < a1.len() implies key_lt(
                #[trigger] a1[s],
                #[trigger] a1[t],
            ) by {
                assert(a1[s] == a[s] && a1[t] == a[t]);
            }
        }
        assert(keys_sorted(b1)) by {
            assert forall|s: int, t: int| 0 <= s < t < b1.len() implies key_lt(
                #[trigger] b1[s],
                #[trigger] b1[t],
            ) by {
                assert(b1[s] == b[s] && b1[t] == b[t]);
            }
        }
        lemma_sorted_keys_unique(a1, b1);
        assert(a =~= a1.push(a.last()));
        assert(b =~= b1.push(b.last()));
    }
}

/// Compares the components that two paths have at depth `d`.
pub fn compare_keys(a: &crate::path::ObjPath, b: &crate::path::ObjPath, d: usize) -> (r: Order)
    ensures
        r == key_order(key_at(a@, d as int), key_at(b@, d as int)),
{
    match (a.get(d), b.get(d)) {
        (None, None) => Order::Equal,
        (None, Some(_)) => Order::Less,
        (Some(_), None) => Order::Greater,
        (Some(x), Some(y)) => {
            let r = x.compare(y);
            assert(r == bytes_order(x@, y@));
            r
        },
    }
}

/// Length of the longest path among the panels.
pub fn longest_path(space_infos: &Vec<SpaceMakeInfo>) -> (r: usize)
    ensures
        r == max_path_len(panel_views(space_infos@)),
{
    let ghost entries = panel_views(space_infos@);
    let mut longest: usize = 0;
    let mut i: usize = 0;
    assert(entries.take(0) =~= Seq::<SpaceMakeInfoView>::empty());
    while i < space_infos.len()
        invariant
            i <= space_infos@.len(),
            entries == panel_views(space_infos@),
            longest == max_path_len(entries.take(i as int)),
        decreases space_infos@.len() - i,
    {
        proof {
            assert(entries.take(i as int + 1).drop_last() =~= entries.take(i as int));
            assert(entries.take(i as int + 1).last() == entries[i as int]);
        }
        let len = space_infos[i].path.len();
        if len > longest {
            longest = len;
        }
        i += 1;
    }
    assert(entries.take(space_infos@.len() as int) =~= entries);
    longest
}

/// The keys at depth `d` of the panels that `reps` points at.
pub open spec fn rep_keys(reps: Seq<usize>, entries: Seq<SpaceMakeInfoView>, d: int) -> Seq<
    Option<Seq<u8>>,
> {
    Seq::new(reps.len(), |j: int| key_at(entries[reps[j] as int].path, d))
}

/// For each distinct key at depth `d`, the position of one panel that has it,
/// in ascending order of the keys.
fn keys_at_depth(space_infos: &Vec<SpaceMakeInfo>, d: usize) -> (reps: Vec<usize>)
    ensures
        forall|j: int| 0 <= j < reps@.len() ==> (#[trigger] reps@[j]) < space_infos@.len(),
        rep_keys(reps@, panel_views(space_infos@), d as int) == group_keys(
            panel_views(space_infos@),
            d as int,
        ),
{
    let ghost entries = panel_views(space_infos@);
    let n = space_infos.len();
    let mut reps: Vec<usize> = Vec::new();
    let mut i: usize = 0;
    assert(entries.take(0) =~= Seq::<SpaceMakeInfoView>::empty());
    assert(rep_keys(reps@, entries, d as int) =~= group_keys(entries.take(0), d as int));
    while i < n
        invariant
            i <= n,
            n == space_infos@.len(),
            entries == panel_views(space_infos@),
            forall|j: int| 0 <= j < reps@.len() ==> (#[trigger] reps@[j]) < n,
            rep_keys(reps@, entries, d as int) == group_keys(entries.take(i as int), d as int),
        decreases n - i,
    {
        let ghost ks = rep_keys(reps@, entries, d as int);
        let ghost k = key_at(entries[i as int].path, d as int);
        proof {
            assert(entries.take(i as int + 1).drop_last() =~= entries.take(i as int));
            assert(entries.take(i as int + 1).last() == entries[i as int]);
            lemma_group_keys(entries.take(i as int), d as int);
        }
        let mut j: usize = reps.len();
        let mut found = false;
        let mut scanning = true;
        while j > 0 && scanning
            invariant
                j <= reps@.len(),
                i < n,
                n == space_infos@.len(),
                entries == panel_views(space_infos@),
                forall|t: int| 0 <= t < reps@.len() ==> (#[trigger] reps@[t]) < n,
                ks == rep_keys(reps@, entries, d as int),
                k == key_at(entries[i as int].path, d as int),
                keys_sorted(ks),
                scanning ==> !found,
                !found ==> forall|t: int| j <= t < ks.len() ==> key_lt(k, #[trigger] ks[t]),
                !found && !scanning ==> j > 0 && key_lt(ks[j - 1], k),
                found ==> j < ks.len() && ks[j as int] == k && forall|t: int|
                    j < t < ks.len() ==> key_lt(k, #[trigger] ks[t]),
            decreases j + (if scanning { 1int } else { 0int }),
        {
            let rep = reps[j - 1];
            let c = compare_keys(&space_infos[i].path, &space_infos[rep].path, d);
            assert(ks[j - 1] == key_at(entries[rep as int].path, d as int));
            match c {
                Order::Less => {
                    j -= 1;
                },
                Order::Equal => {
                    j -= 1;
                    found = true;
                    scanning = false;
                },
                Order::Greater => {
                    proof {
                        lemma_key_lt_total(k, ks[j - 1]);
                    }
                    scanning = false;
                },
            }
        }
        if !found {
            proof {
                lemma_insert_key_at_stop(ks, k, j as int);
            }
            reps.insert(j, i);
            assert(rep_keys(reps@, entries, d as int) =~= ks.insert(j as int, k));
        } else {
            proof {
                lemma_insert_key_at(ks, k, j as int + 1);
            }
        }
        i += 1;
    }
    assert(entries.take(n as int) =~= entries);
    reps
}

/// Where the scan from the back stops without a match, the key belongs.
proof fn lemma_insert_key_at_stop(ks: Seq<Option<Seq<u8>>>, k: Option<Seq<u8>>, j: int)
    requires
        keys_sorted(ks),
        0 <= j <= ks.len(),
        forall|t: int| j <= t < ks.len() ==> key_lt(k, #[trigger] ks[t]),
        j > 0 ==> key_lt(ks[j - 1], k),
    ensures
        insert_key(ks, k) == ks.insert(j, k),
{
    if j > 0 {
        lemma_key_lt_asymmetric(k, ks[j - 1]);
    }
    lemma_insert_key_at(ks, k, j);
}

/// The panels that have, at depth `d`, the key of the panel at `rep`.
fn select_group(space_infos: &Vec<SpaceMakeInfo>, d: usize, rep: usize) -> (r: Vec<SpaceMakeInfo>)
    requires
        rep < space_infos@.len(),
    ensures
        panel_views(r@) == group_of(
            panel_views(space_infos@),
            d as int,
            key_at(space_infos@[rep as int]@.path, d as int),
        ),
{
    let ghost entries = panel_views(space_infos@);
    let ghost k = key_at(entries[rep as int].path, d as int);
    let ghost pred = |e: SpaceMakeInfoView| key_at(e.path, d as int) == k;
    let mut out: Vec<SpaceMakeInfo> = Vec::new();
    let n = space_infos.len();
    let mut i: usize = 0;
    assert(panel_views(out@) =~= entries.take(0).filter(pred)) by {
        reveal(Seq::filter);
        assert(entries.take(0) =~= Seq::<SpaceMakeInfoView>::empty());
    }
    while i < n
        invariant
            i <= n,
            rep < n,
            n == space_infos@.len(),
            entries == panel_views(space_infos@),
            k == key_at(entries[rep as int].path, d as int),
            pred == (|e: SpaceMakeInfoView| key_at(e.path, d as int) == k),
            panel_views(out@) == entries.take(i as int).filter(pred),
        decreases n - i,
    {
        let c = compare_keys(&space_infos[i].path, &space_infos[rep].path, d);
        proof {
            assert(entries.take(i as int + 1).drop_last() =~= entries.take(i as int));
            assert(entries.take(i as int + 1).last() == entries[i as int]);
            reveal(Seq::filter);
        }
        let ghost before = out@;
        match c {
            Order::Equal => {
                out.push(space_infos[i].duplicate());
                assert(panel_views(out@) =~= panel_views(before).push(entries[i as int]));
            },
            _ => {},
        }
        i += 1;
    }
    assert(entries.take(n as int) =~= entries);
    out
}

/// Groups the panels by the first path component in which they differ.
///
/// Fewer than two panels come back as one group. Otherwise the groups are
/// those at the shallowest depth where the paths of the panels differ, in
/// ascending order of the component at that depth; where all paths are the
/// same, every panel is a group of its own.
pub fn group_by_path_prefix(space_infos: &Vec<SpaceMakeInfo>) -> (r: Vec<Vec<SpaceMakeInfo>>)
    ensures
        group_views(r@) == grouped(panel_views(space_infos@)),
{
    let ghost entries = panel_views(space_infos@);
    let n = space_infos.len();
    if n < 2 {
        let mut out: Vec<Vec<SpaceMakeInfo>> = Vec::new();
        out.push(crate::panel::copy_range(space_infos, 0, n));
        assert(entries.subrange(0, n as int) =~= entries);
        assert(group_views(out@) =~= seq![entries]);
        return out;
    }
    let longest = longest_path(space_infos);
    let mut d: usize = 0;
    while d < longest
        invariant
            d <= longest,
            n == space_infos@.len(),
            n >= 2,
            entries == panel_views(space_infos@),
            longest == max_path_len(entries),
            split_depth(entries, 0) == split_depth(entries, d as int),
        decreases longest - d,
    {
        let reps = keys_at_depth(space_infos, d);
        if reps.len() > 1 {
            let ghost ks = group_keys(entries, d as int);
            let mut groups: Vec<Vec<SpaceMakeInfo>> = Vec::new();
            let mut j: usize = 0;
            while j < reps.len()
                invariant
                    j <= reps@.len(),
                    n == space_infos@.len(),
                    entries == panel_views(space_infos@),
                    ks == group_keys(entries, d as int),
                    forall|t: int| 0 <= t < reps@.len() ==> (#[trigger] reps@[t]) < n,
                    rep_keys(reps@, entries, d as int) == ks,
                    groups@.len() == j,
                    forall|t: int|
                        0 <= t < j ==> panel_views((#[trigger] groups@[t])@) == group_of(
                            entries,
                            d as int,
                            ks[t],
                        ),
                decreases reps@.len() - j,
            {
                let rep = reps[j];
                assert(ks[j as int] == key_at(entries[rep as int].path, d as int));
                groups.push(select_group(space_infos, d, rep));
                j += 1;
            }
            assert(group_views(groups@) =~= groups_at(entries, d as int));
            return groups;
        }
        d += 1;
    }
    let mut singles: Vec<Vec<SpaceMakeInfo>> = Vec::new();
    let mut i: usize = 0;
    while i < n
        invariant
            i <= n,
            n == space_infos@.len(),
            entries == panel_views(space_infos@),
            singles@.len() == i,
            forall|t: int| 0 <= t < i ==> panel_views((#[trigger] singles@[t])@) == seq![entries[t]],
        decreases n - i,
    {
        let mut one: Vec<SpaceMakeInfo> = Vec::new();
        one.push(space_infos[i].duplicate());
        assert(panel_views(one@) =~= seq![entries[i as int]]);
        singles.push(one);
        i += 1;
    }
    assert(group_views(singles@) =~= singletons(entries));
    singles
}

/// The first `j` groups at depth `d` hold, taken together, exactly the panels
/// whose key is one of the first `j` keys.
pub proof fn lemma_groups_prefix(entries: Seq<SpaceMakeInfoView>, d: int, j: int)
    requires
        0 <= j <= group_keys(entries, d).len(),
    ensures
        groups_at(entries, d).take(j).flatten().to_multiset() == entries.filter(
            |e: SpaceMakeInfoView| group_keys(entries, d).take(j).contains(key_at(e.path, d)),
        ).to_multiset(),
    decreases j,
{
    let ks = group_keys(entries, d);
    let gs = groups_at(entries, d);
    let in_first = |e: SpaceMakeInfoView| ks.take(j).contains(key_at(e.path, d));
    if j == 0 {
        assert(gs.take(0) =~= Seq::<Seq<SpaceMakeInfoView>>::empty());
        assert forall|i: int| 0 <= i < entries.len() implies !in_first(#[trigger] entries[i]) by {
            assert(ks.take(0) =~= Seq::<Option<Seq<u8>>>::empty());
        }
        crate::seq_facts::lemma_filter_none(entries, in_first);
    } else {
        lemma_groups_prefix(entries, d, j - 1);
        lemma_group_keys(entries, d);
        let kb = ks.take(j - 1);
        let kj = ks.take(j);
        let before = |e: SpaceMakeInfoView| kb.contains(key_at(e.path, d));
        let here = |e: SpaceMakeInfoView| key_at(e.path, d) == ks[j - 1];
        let either = |e: SpaceMakeInfoView| before(e) || here(e);
        assert(gs.take(j) =~= gs.take(j - 1).push(gs[j - 1]));
        gs.take(j - 1).lemma_flatten_push(gs[j - 1]);
        vstd::seq_lib::lemma_multiset_commutative(gs.take(j - 1).flatten(), gs[j - 1]);
        assert(gs[j - 1] == group_of(entries, d, ks[j - 1]));
        assert forall|i: int| 0 <= i < entries.len() implies !(before(#[trigger] entries[i]) && here(
            entries[i],
        )) by {
            if before(entries[i]) && here(entries[i]) {
                let t = choose|t: int| 0 <= t < kb.len() && kb[t] == ks[j - 1];
                assert(key_lt(ks[t], ks[j - 1]));
                lemma_key_lt_asymmetric(ks[t], ks[j - 1]);
            }
        }
        crate::seq_facts::lemma_filter_split(entries, before, here);
        assert forall|i: int| 0 <= i < entries.len() implies either(#[trigger] entries[i]) == in_first(
            entries[i],
        ) by {
            let k = key_at(entries[i].path, d);
            if kb.contains(k) {
                let t = choose|t: int| 0 <= t < kb.len() && kb[t] == k;
                assert(kj[t] == k);
            }
            if k == ks[j - 1] {
                assert(kj[j - 1] == k);
            }
            if kj.contains(k) {
                let t = choose|t: int| 0 <= t < kj.len() && kj[t] == k;
                if t < j - 1 {
                    assert(kb[t] == k);
                }
            }
        }
        crate::seq_facts::lemma_filter_same(entries, either, in_first);
        crate::seq_facts::lemma_filter_same(
            entries,
            here,
            |e: SpaceMakeInfoView| key_at(e.path, d) == ks[j - 1],
        );
        crate::seq_facts::lemma_filter_same(
            entries,
            before,
            |e: SpaceMakeInfoView| group_keys(entries, d).take(j - 1).contains(key_at(e.path, d)),
        );
        assert(gs[j - 1] == entries.filter(here));
        assert(gs.take(j).flatten().to_multiset() =~= entries.filter(before).to_multiset().add(
            entries.filter(here).to_multiset(),
        ));
    }
}

/// The groups at any depth hold every panel exactly once, and none is empty.
pub proof fn lemma_groups_at(entries: Seq<SpaceMakeInfoView>, d: int)
    ensures
        groups_at(entries, d).flatten().to_multiset() == entries.to_multiset(),
        forall|j: int|
            0 <= j < groups_at(entries, d).len() ==> (#[trigger] groups_at(entries, d)[j]).len() > 0,
{
    let ks = group_keys(entries, d);
    let gs = groups_at(entries, d);
    lemma_groups_prefix(entries, d, ks.len() as int);
    lemma_group_keys(entries, d);
    assert(gs.take(ks.len() as int) =~= gs);
    assert(ks.take(ks.len() as int) =~= ks);
    let covered = |e: SpaceMakeInfoView| ks.take(ks.len() as int).contains(key_at(e.path, d));
    assert forall|i: int| 0 <= i < entries.len() implies covered(#[trigger] entries[i]) by {
        assert(key_at(entries[i].path, d) == key_at(entries[i].path, d));
    }
    crate::seq_facts::lemma_filter_all(entries, covered);
    crate::seq_facts::lemma_filter_same(
        entries,
        covered,
        |e: SpaceMakeInfoView| group_keys(entries, d).take(ks.len() as int).contains(key_at(e.path, d)),
    );
    assert forall|j: int| 0 <= j < gs.len() implies (#[trigger] gs[j]).len() > 0 by {
        assert(ks.contains(ks[j]));
        let i = choose|i: int| 0 <= i < entries.len() && key_at(#[trigger] entries[i].path, d) == ks[j];
        let here = |e: SpaceMakeInfoView| key_at(e.path, d) == ks[j];
        assert(here(entries[i]));
        entries.lemma_filter_contains(here, i);
        assert(gs[j] == group_of(entries, d, ks[j]));
        crate::seq_facts::lemma_filter_same(
            entries,
            here,
            |e: SpaceMakeInfoView| key_at(e.path, d) == ks[j],
        );
        assert(entries.filter(here).contains(entries[i]));
    }
}

/// Putting every panel in a group of its own and joining the groups gives the
/// panels back.
pub proof fn lemma_singletons(entries: Seq<SpaceMakeInfoView>)
    ensures
        singletons(entries).flatten() == entries,
    decreases entries.len(),
{
    if entries.len() == 0 {
        assert(singletons(entries) =~= Seq::<Seq<SpaceMakeInfoView>>::empty());
        assert(singletons(entries).flatten() =~= entries);
    } else {
        let front = entries.drop_last();
        lemma_singletons(front);
        assert(singletons(entries) =~= singletons(front).push(seq![entries.last()]));
        singletons(front).lemma_flatten_push(seq![entries.last()]);
        assert(front + seq![entries.last()] =~= entries);
    }
}

/// When grouped by depth from `d` on, a split depth is found only where more
/// than one key occurs.
proof fn lemma_split_depth(entries: Seq<SpaceMakeInfoView>, d: int)
    ensures
        split_depth(entries, d).is_some() ==> group_keys(entries, split_depth(entries, d).unwrap()).len()
            > 1,
    decreases max_path_len(entries) - d,
{
    if d < 0 || d >= max_path_len(entries) {
    } else if group_keys(entries, d).len() > 1 {
    } else {
        lemma_split_depth(entries, d + 1);
    }
}

/// Two or more panels fall into two or more groups; no group is empty, and
/// the groups hold every panel exactly once.
pub proof fn lemma_grouped(entries: Seq<SpaceMakeInfoView>)
    requires
        entries.len() >= 2,
    ensures
        grouped(entries).len() >= 2,
        forall|j: int| 0 <= j < grouped(entries).len() ==> (#[trigger] grouped(entries)[j]).len() > 0,
        grouped(entries).flatten().to_multiset() == entries.to_multiset(),
        grouped(entries).flatten().len() == entries.len(),
{
    match split_depth(entries, 0) {
        Some(d) => {
            lemma_split_depth(entries, 0);
            lemma_groups_at(entries, d);
        },
        None => {
            lemma_singletons(entries);
        },
    }
    grouped(entries).flatten().to_multiset_ensures();
    entries.to_multiset_ensures();
}

} // verus!
