//! Facts about filtered sequences and their multisets.

use vstd::prelude::*;
use vstd::multiset::group_multiset_axioms;
use vstd::seq_lib::{lemma_multiset_commutative, to_multiset_build, to_multiset_remove};

verus! {

/// Filtering by two predicates that agree on every element gives the same
/// sequence.
pub proof fn lemma_filter_same<A>(s: Seq<A>, p: spec_fn(A) -> bool, q: spec_fn(A) -> bool)
    requires
        forall|i: int| 0 <= i < s.len() ==> p(#[trigger] s[i]) == q(s[i]),
    ensures
        s.filter(p) == s.filter(q),
    decreases s.len(),
{
    reveal(Seq::filter);
    if s.len() > 0 {
        let front = s.drop_last();
        assert forall|i: int| 0 <= i < front.len() implies p(#[trigger] front[i]) == q(front[i]) by {
            assert(front[i] == s[i]);
        }
        lemma_filter_same(front, p, q);
        assert(s.last() == s[s.len() - 1]);
    }
}

/// Filtering by a predicate that holds of every element changes nothing.
pub proof fn lemma_filter_all<A>(s: Seq<A>, p: spec_fn(A) -> bool)
    requires
        forall|i: int| 0 <= i < s.len() ==> p(#[trigger] s[i]),
    ensures
        s.filter(p) == s,
    decreases s.len(),
{
    reveal(Seq::filter);
    if s.len() > 0 {
        let front = s.drop_last();
        assert forall|i: int| 0 <= i < front.len() implies p(#[trigger] front[i]) by {
            assert(front[i] == s[i]);
        }
        lemma_filter_all(front, p);
        assert(s.last() == s[s.len() - 1]);
        assert(front.push(s.last()) =~= s);
    }
}

/// Filtering by a predicate that holds of no element leaves nothing.
pub proof fn lemma_filter_none<A>(s: Seq<A>, p: spec_fn(A) -> bool)
    requires
        forall|i: int| 0 <= i < s.len() ==> !p(#[trigger] s[i]),
    ensures
        s.filter(p) == Seq::<A>::empty(),
    decreases s.len(),
{
    reveal(Seq::filter);
    if s.len() > 0 {
        let front = s.drop_last();
        assert forall|i: int| 0 <= i < front.len() implies !p(#[trigger] front[i]) by {
            assert(front[i] == s[i]);
        }
        lemma_filter_none(front, p);
        assert(s.last() == s[s.len() - 1]);
    } else {
        assert(s =~= Seq::<A>::empty());
    }
}

/// The elements that satisfy one of two exclusive predicates are those that
/// satisfy the first together with those that satisfy the second.
pub proof fn lemma_filter_split<A>(s: Seq<A>, p: spec_fn(A) -> bool, q: spec_fn(A) -> bool)
    requires
        forall|i: int| 0 <= i < s.len() ==> !(p(#[trigger] s[i]) && q(s[i])),
    ensures
        s.filter(|x: A| p(x) || q(x)).to_multiset() == s.filter(p).to_multiset().add(
            s.filter(q).to_multiset(),
        ),
    decreases s.len(),
{
    reveal(Seq::filter);
    let pq = |x: A| p(x) || q(x);
    if s.len() == 0 {
        assert(s.filter(pq).to_multiset() =~= s.filter(p).to_multiset().add(s.filter(q).to_multiset()))
            by {
            lemma_multiset_commutative(s.filter(p), s.filter(q));
            assert(s.filter(p) + s.filter(q) =~= s.filter(pq));
        }
    } else {
        let front = s.drop_last();
        let last = s.last();
        assert forall|i: int| 0 <= i < front.len() implies !(p(#[trigger] front[i]) && q(front[i])) by {
            assert(front[i] == s[i]);
        }
        lemma_filter_split(front, p, q);
        assert(last == s[s.len() - 1]);
        to_multiset_build(front.filter(pq), last);
        to_multiset_build(front.filter(p), last);
        to_multiset_build(front.filter(q), last);
        assert(s.filter(pq).to_multiset() =~= s.filter(p).to_multiset().add(s.filter(q).to_multiset()));
    }
}

/// A sequence is, as a multiset, the elements that satisfy a predicate
/// together with those that do not.
pub proof fn lemma_filter_partition<A>(s: Seq<A>, p: spec_fn(A) -> bool)
    ensures
        s.to_multiset() == s.filter(p).to_multiset().add(s.filter(|x: A| !p(x)).to_multiset()),
        s.len() == s.filter(p).len() + s.filter(|x: A| !p(x)).len(),
{
    let np = |x: A| !p(x);
    let either = |x: A| p(x) || np(x);
    lemma_filter_split(s, p, np);
    lemma_filter_all(s, either);
    s.to_multiset_ensures();
    s.filter(p).to_multiset_ensures();
    s.filter(np).to_multiset_ensures();
}

/// How often a value occurs among the elements that satisfy a predicate: as
/// often as in the whole sequence where it satisfies the predicate, and not
/// at all where it does not.
pub proof fn lemma_filter_count<A>(s: Seq<A>, p: spec_fn(A) -> bool, x: A)
    ensures
        s.filter(p).to_multiset().count(x) == if p(x) {
            s.to_multiset().count(x)
        } else {
            0
        },
    decreases s.len(),
{
    broadcast use group_multiset_axioms;

    reveal(Seq::filter);
    if s.len() == 0 {
        s.to_multiset_ensures();
        s.filter(p).to_multiset_ensures();
    } else {
        let front = s.drop_last();
        let last = s.last();
        lemma_filter_count(front, p, x);
        assert(front.push(last) =~= s);
        to_multiset_build(front, last);
        to_multiset_build(front.filter(p), last);
    }
}

/// Two sequences with the same elements, in whatever order, have the same
/// elements that satisfy a predicate.
pub proof fn lemma_filter_perm<A>(s: Seq<A>, t: Seq<A>, p: spec_fn(A) -> bool)
    requires
        s.to_multiset() == t.to_multiset(),
    ensures
        s.filter(p).to_multiset() == t.filter(p).to_multiset(),
        s.filter(p).len() == t.filter(p).len(),
{
    broadcast use group_multiset_axioms;

    assert forall|x: A| s.filter(p).to_multiset().count(x) == t.filter(p).to_multiset().count(x) by {
        lemma_filter_count(s, p, x);
        lemma_filter_count(t, p, x);
    }
    assert(s.filter(p).to_multiset() =~= t.filter(p).to_multiset());
    s.filter(p).to_multiset_ensures();
    t.filter(p).to_multiset_ensures();
}

/// Where two sequences have the same elements, the second holds the last
/// element of the first, and the two without that element still have the
/// same elements.
pub proof fn lemma_perm_step<A>(s: Seq<A>, t: Seq<A>) -> (i: int)
    requires
        s.to_multiset() == t.to_multiset(),
        s.len() > 0,
    ensures
        0 <= i < t.len(),
        t[i] == s.last(),
        s.drop_last().to_multiset() == t.remove(i).to_multiset(),
        t.len() == s.len(),
{
    broadcast use group_multiset_axioms;

    s.to_multiset_ensures();
    t.to_multiset_ensures();
    let x = s.last();
    assert(s.contains(x)) by {
        assert(s[s.len() - 1] == x);
    }
    assert(t.to_multiset().count(x) > 0);
    assert(t.contains(x));
    let i = choose|i: int| 0 <= i < t.len() && t[i] == x;
    to_multiset_remove(s, s.len() - 1);
    to_multiset_remove(t, i);
    assert(s.remove(s.len() - 1) =~= s.drop_last());
    i
}

/// The sum of a weight over the elements of a sequence.
pub open spec fn weight_sum<A>(s: Seq<A>, w: spec_fn(A) -> nat) -> nat
    decreases s.len(),
{
    if s.len() == 0 {
        0
    } else {
        weight_sum(s.drop_last(), w) + w(s.last())
    }
}

/// Taking one element out lowers the sum by its weight.
pub proof fn lemma_weight_sum_remove<A>(s: Seq<A>, w: spec_fn(A) -> nat, i: int)
    requires
        0 <= i < s.len(),
    ensures
        weight_sum(s, w) == weight_sum(s.remove(i), w) + w(s[i]),
    decreases s.len(),
{
    if i == s.len() - 1 {
        assert(s.remove(i) =~= s.drop_last());
    } else {
        lemma_weight_sum_remove(s.drop_last(), w, i);
        assert(s.remove(i).drop_last() =~= s.drop_last().remove(i));
        assert(s.remove(i).last() == s.last());
    }
}

/// The sum of a weight does not depend on the order of the elements.
pub proof fn lemma_weight_sum_perm<A>(s: Seq<A>, t: Seq<A>, w: spec_fn(A) -> nat)
    requires
        s.to_multiset() == t.to_multiset(),
    ensures
        weight_sum(s, w) == weight_sum(t, w),
    decreases s.len(),
{
    s.to_multiset_ensures();
    t.to_multiset_ensures();
    if s.len() > 0 {
        let i = lemma_perm_step(s, t);
        lemma_weight_sum_perm(s.drop_last(), t.remove(i), w);
        lemma_weight_sum_remove(t, w, i);
    }
}

/// Applying a function to each element of two sequences with the same
/// elements gives two sequences with the same elements.
pub proof fn lemma_map_perm<A, B>(s: Seq<A>, t: Seq<A>, f: spec_fn(A) -> B)
    requires
        s.to_multiset() == t.to_multiset(),
    ensures
        s.map_values(f).to_multiset() == t.map_values(f).to_multiset(),
    decreases s.len(),
{
    broadcast use group_multiset_axioms;

    s.to_multiset_ensures();
    t.to_multiset_ensures();
    if s.len() == 0 {
        assert(s.map_values(f) =~= t.map_values(f));
    } else {
        let i = lemma_perm_step(s, t);
        lemma_map_perm(s.drop_last(), t.remove(i), f);
        let ms = s.map_values(f);
        let mt = t.map_values(f);
        assert(s.drop_last().map_values(f) =~= ms.remove(ms.len() - 1));
        assert(t.remove(i).map_values(f) =~= mt.remove(i));
        to_multiset_remove(ms, ms.len() - 1);
        to_multiset_remove(mt, i);
        ms.to_multiset_ensures();
        mt.to_multiset_ensures();
        assert(ms.contains(ms[ms.len() - 1]));
        assert(mt.contains(mt[i]));
        assert(ms.to_multiset() =~= ms.to_multiset().remove(f(s.last())).insert(f(s.last())));
        assert(mt.to_multiset() =~= mt.to_multiset().remove(f(s.last())).insert(f(s.last())));
    }
}

} // verus!
