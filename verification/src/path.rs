//! Object paths and their total order.
//!
//! A path is a sequence of components; a component is a byte string. Both are
//! ordered lexicographically, so sorting a set of paths lists every path
//! directly before its descendants.

use vstd::prelude::*;
use vstd::string::StringSliceAdditionalSpecFns;

verus! {

/// Outcome of a three-way comparison.
#[derive(Clone, Copy, Debug, PartialEq, Eq)]
pub enum Order {
    Less,
    Equal,
    Greater,
}

/// `a` is lexicographically below `b`, looking only at positions `i..`.
pub open spec fn bytes_lt_from(a: Seq<u8>, b: Seq<u8>, i: int) -> bool
    decreases b.len() - i,
{
    if i < 0 || i >= b.len() {
        false
    } else if i >= a.len() {
        true
    } else if a[i] != b[i] {
        a[i] < b[i]
    } else {
        bytes_lt_from(a, b, i + 1)
    }
}

/// Strict lexicographic order on byte strings.
pub open spec fn bytes_lt(a: Seq<u8>, b: Seq<u8>) -> bool {
    bytes_lt_from(a, b, 0)
}

/// `a` is lexicographically below `b`, looking only at components `i..`.
pub open spec fn path_lt_from(a: Seq<Seq<u8>>, b: Seq<Seq<u8>>, i: int) -> bool
    decreases b.len() - i,
{
    if i < 0 || i >= b.len() {
        false
    } else if i >= a.len() {
        true
    } else if a[i] != b[i] {
        bytes_lt(a[i], b[i])
    } else {
        path_lt_from(a, b, i + 1)
    }
}

/// Strict lexicographic order on paths, component by component.
pub open spec fn path_lt(a: Seq<Seq<u8>>, b: Seq<Seq<u8>>) -> bool {
    path_lt_from(a, b, 0)
}

/// `p` is a prefix of `q` (possibly equal to it).
pub open spec fn is_prefix(p: Seq<Seq<u8>>, q: Seq<Seq<u8>>) -> bool {
    p.len() <= q.len() && q.subrange(0, p.len() as int) == p
}

/// The three-way comparison that `bytes_lt` induces.
pub open spec fn bytes_order(a: Seq<u8>, b: Seq<u8>) -> Order {
    if a == b {
        Order::Equal
    } else if bytes_lt(a, b) {
        Order::Less
    } else {
        Order::Greater
    }
}

/// The three-way comparison that `path_lt` induces.
pub open spec fn path_order(a: Seq<Seq<u8>>, b: Seq<Seq<u8>>) -> Order {
    if a == b {
        Order::Equal
    } else if path_lt(a, b) {
        Order::Less
    } else {
        Order::Greater
    }
}

proof fn lemma_bytes_from_agree(a: Seq<u8>, b: Seq<u8>, i: int, j: int)
    requires
        0 <= i <= j,
        j <= a.len(),
        j <= b.len(),
        forall|k: int| i <= k < j ==> a[k] == b[k],
    ensures
        bytes_lt_from(a, b, i) == bytes_lt_from(a, b, j),
    decreases j - i,
{
    if i < j {
        lemma_bytes_from_agree(a, b, i + 1, j);
    }
}

proof fn lemma_path_from_agree(a: Seq<Seq<u8>>, b: Seq<Seq<u8>>, i: int, j: int)
    requires
        0 <= i <= j,
        j <= a.len(),
        j <= b.len(),
        forall|k: int| i <= k < j ==> a[k] == b[k],
    ensures
        path_lt_from(a, b, i) == path_lt_from(a, b, j),
    decreases j - i,
{
    if i < j {
        lemma_path_from_agree(a, b, i + 1, j);
    }
}

proof fn lemma_bytes_from_total(a: Seq<u8>, b: Seq<u8>, i: int)
    requires
        0 <= i,
        i <= a.len(),
        i <= b.len(),
        forall|k: int| 0 <= k < i ==> a[k] == b[k],
    ensures
        !(bytes_lt_from(a, b, i) && bytes_lt_from(b, a, i)),
        bytes_lt_from(a, b, i) || bytes_lt_from(b, a, i) || a == b,
    decreases a.len() - i,
{
    if i >= a.len() || i >= b.len() {
        if i >= a.len() && i >= b.len() {
            assert(a =~= b);
        }
    } else if a[i] == b[i] {
        lemma_bytes_from_total(a, b, i + 1);
    }
}

proof fn lemma_bytes_from_trans(a: Seq<u8>, b: Seq<u8>, c: Seq<u8>, i: int)
    requires
        0 <= i,
        bytes_lt_from(a, b, i),
        bytes_lt_from(b, c, i),
    ensures
        bytes_lt_from(a, c, i),
    decreases c.len() - i,
{
    if i < a.len() && a[i] == b[i] && b[i] == c[i] {
        lemma_bytes_from_trans(a, b, c, i + 1);
    }
}

/// `bytes_lt` is a strict total order: no byte string is below itself.
pub proof fn lemma_bytes_lt_irreflexive(a: Seq<u8>)
    ensures
        !bytes_lt(a, a),
{
    lemma_bytes_from_total(a, a, 0);
}

/// `bytes_lt` is asymmetric.
pub proof fn lemma_bytes_lt_asymmetric(a: Seq<u8>, b: Seq<u8>)
    ensures
        !(bytes_lt(a, b) && bytes_lt(b, a)),
{
    lemma_bytes_from_total(a, b, 0);
}

/// Any two byte strings are equal or ordered one way.
pub proof fn lemma_bytes_lt_total(a: Seq<u8>, b: Seq<u8>)
    ensures
        bytes_lt(a, b) || bytes_lt(b, a) || a == b,
{
    lemma_bytes_from_total(a, b, 0);
}

/// `bytes_lt` is transitive.
pub proof fn lemma_bytes_lt_transitive(a: Seq<u8>, b: Seq<u8>, c: Seq<u8>)
    requires
        bytes_lt(a, b),
        bytes_lt(b, c),
    ensures
        bytes_lt(a, c),
{
    lemma_bytes_from_trans(a, b, c, 0);
}

proof fn lemma_path_from_total(a: Seq<Seq<u8>>, b: Seq<Seq<u8>>, i: int)
    requires
        0 <= i,
        i <= a.len(),
        i <= b.len(),
        forall|k: int| 0 <= k < i ==> a[k] == b[k],
    ensures
        !(path_lt_from(a, b, i) && path_lt_from(b, a, i)),
        path_lt_from(a, b, i) || path_lt_from(b, a, i) || a == b,
    decreases a.len() - i,
{
    if i >= a.len() || i >= b.len() {
        if i >= a.len() && i >= b.len() {
            assert(a =~= b);
        }
    } else if a[i] == b[i] {
        lemma_path_from_total(a, b, i + 1);
    } else {
        lemma_bytes_lt_asymmetric(a[i], b[i]);
        lemma_bytes_lt_total(a[i], b[i]);
    }
}

proof fn lemma_path_from_trans(a: Seq<Seq<u8>>, b: Seq<Seq<u8>>, c: Seq<Seq<u8>>, i: int)
    requires
        0 <= i,
        path_lt_from(a, b, i),
        path_lt_from(b, c, i),
    ensures
        path_lt_from(a, c, i),
    decreases c.len() - i,
{
    if i < a.len() {
        if a[i] == b[i] && b[i] == c[i] {
            lemma_path_from_trans(a, b, c, i + 1);
        } else if a[i] != b[i] && b[i] != c[i] {
            lemma_bytes_lt_transitive(a[i], b[i], c[i]);
            lemma_bytes_lt_irreflexive(a[i]);
        }
    }
}

/// No path is below itself.
pub proof fn lemma_path_lt_irreflexive(a: Seq<Seq<u8>>)
    ensures
        !path_lt(a, a),
{
    lemma_path_from_total(a, a, 0);
}

/// `path_lt` is asymmetric.
pub proof fn lemma_path_lt_asymmetric(a: Seq<Seq<u8>>, b: Seq<Seq<u8>>)
    ensures
        !(path_lt(a, b) && path_lt(b, a)),
{
    lemma_path_from_total(a, b, 0);
}

/// Any two paths are equal or ordered one way.
pub proof fn lemma_path_lt_total(a: Seq<Seq<u8>>, b: Seq<Seq<u8>>)
    ensures
        path_lt(a, b) || path_lt(b, a) || a == b,
{
    lemma_path_from_total(a, b, 0);
}

/// `path_lt` is transitive.
pub proof fn lemma_path_lt_transitive(a: Seq<Seq<u8>>, b: Seq<Seq<u8>>, c: Seq<Seq<u8>>)
    requires
        path_lt(a, b),
        path_lt(b, c),
    ensures
        path_lt(a, c),
{
    lemma_path_from_trans(a, b, c, 0);
}

/// A proper prefix sorts before every path that extends it.
pub proof fn lemma_prefix_lt(p: Seq<Seq<u8>>, q: Seq<Seq<u8>>)
    requires
        is_prefix(p, q),
        p.len() < q.len(),
    ensures
        path_lt(p, q),
{
    assert forall|k: int| 0 <= k < p.len() implies p[k] == q[k] by {
        assert(q.subrange(0, p.len() as int)[k] == q[k]);
    }
    lemma_path_from_agree(p, q, 0, p.len() as int);
}

/// Compares two byte strings lexicographically.
pub fn compare_bytes(a: &Vec<u8>, b: &Vec<u8>) -> (r: Order)
    ensures
        r == bytes_order(a@, b@),
{
    let mut i: usize = 0;
    while i < a.len() && i < b.len()
        invariant
            i <= a.len(),
            i <= b.len(),
            forall|k: int| 0 <= k < i ==> a@[k] == b@[k],
        decreases a.len() - i,
    {
        if a[i] < b[i] {
            proof {
                lemma_bytes_from_agree(a@, b@, 0, i as int);
            }
            return Order::Less;
        }
        if a[i] > b[i] {
            proof {
                lemma_bytes_from_agree(a@, b@, 0, i as int);
            }
            return Order::Greater;
        }
        i += 1;
    }
    proof {
        lemma_bytes_from_agree(a@, b@, 0, i as int);
        lemma_bytes_from_total(a@, b@, i as int);
    }
    if i < b.len() {
        Order::Less
    } else if i < a.len() {
        Order::Greater
    } else {
        Order::Equal
    }
}

/// One component of an object path: a name, held as bytes.
#[derive(Debug)]
pub struct PathComp {
    pub name: Vec<u8>,
}

impl View for PathComp {
    type V = Seq<u8>;

    open spec fn view(&self) -> Seq<u8> {
        self.name@
    }
}

impl PathComp {
    /// A component with the given name.
    pub fn new(name: Vec<u8>) -> (r: PathComp)
        ensures
            r@ == name@,
    {
        PathComp { name }
    }

    /// A component named by the bytes of `s`.
    pub fn from_str(s: &str) -> (r: PathComp)
        ensures
            r@ == s.spec_bytes(),
    {
        let bytes = s.as_bytes();
        let mut name: Vec<u8> = Vec::new();
        let mut i: usize = 0;
        while i < bytes.len()
            invariant
                i <= bytes.len(),
                bytes@ == s.spec_bytes(),
                name@ == bytes@.subrange(0, i as int),
            decreases bytes.len() - i,
        {
            name.push(bytes[i]);
            i += 1;
        }
        assert(bytes@.subrange(0, bytes.len() as int) =~= bytes@);
        PathComp { name }
    }

    /// A fresh copy with the same name.
    pub fn duplicate(&self) -> (r: PathComp)
        ensures
            r@ == self@,
    {
        PathComp { name: self.name.clone() }
    }

    /// Orders this component against `other` by name.
    pub fn compare(&self, other: &PathComp) -> (r: Order)
        ensures
            r == bytes_order(self@, other@),
    {
        compare_bytes(&self.name, &other.name)
    }
}

impl Clone for PathComp {
    fn clone(&self) -> (r: PathComp)
        ensures
            r@ == self@,
    {
        self.duplicate()
    }
}

/// A path in the object hierarchy: the names from a top-level object down.
#[derive(Debug)]
pub struct ObjPath {
    pub components: Vec<PathComp>,
}

impl View for ObjPath {
    type V = Seq<Seq<u8>>;

    open spec fn view(&self) -> Seq<Seq<u8>> {
        Seq::new(self.components@.len(), |i: int| self.components@[i]@)
    }
}

impl ObjPath {
    /// The path made of the given components, in order.
    pub fn new(components: Vec<PathComp>) -> (r: ObjPath)
        ensures
            r.components@ == components@,
    {
        ObjPath { components }
    }

    /// The empty path, above every top-level object.
    pub fn root() -> (r: ObjPath)
        ensures
            r@ == Seq::<Seq<u8>>::empty(),
    {
        let r = ObjPath { components: Vec::new() };
        assert(r@ =~= Seq::<Seq<u8>>::empty());
        r
    }

    /// Number of components.
    pub fn len(&self) -> (n: usize)
        ensures
            n == self@.len(),
    {
        self.components.len()
    }

    /// The component at depth `i`, if the path is that deep.
    pub fn get(&self, i: usize) -> (r: Option<&PathComp>)
        ensures
            i < self@.len() ==> r.is_some() && r.unwrap()@ == self@[i as int],
            i >= self@.len() ==> r.is_none(),
    {
        if i < self.components.len() {
            Some(&self.components[i])
        } else {
            None
        }
    }

    /// A fresh copy of this path.
    pub fn duplicate(&self) -> (r: ObjPath)
        ensures
            r@ == self@,
    {
        let mut components: Vec<PathComp> = Vec::new();
        let mut i: usize = 0;
        while i < self.components.len()
            invariant
                i <= self.components.len(),
                components.len() == i,
                forall|k: int| 0 <= k < i ==> components@[k]@ == self.components@[k]@,
            decreases self.components.len() - i,
        {
            components.push(self.components[i].duplicate());
            i += 1;
        }
        let r = ObjPath { components };
        assert(r@ =~= self@);
        r
    }

    /// This path extended by one component.
    pub fn child(&self, comp: PathComp) -> (r: ObjPath)
        ensures
            r@ == self@.push(comp@),
    {
        let mut r = self.duplicate();
        r.components.push(comp);
        assert(r@ =~= self@.push(comp@));
        r
    }

    /// The path one level up, or `None` for the empty path.
    pub fn parent(&self) -> (r: Option<ObjPath>)
        ensures
            self@.len() == 0 ==> r.is_none(),
            self@.len() > 0 ==> r.is_some() && r.unwrap()@ == self@.drop_last(),
    {
        if self.components.len() == 0 {
            None
        } else {
            Some(self.prefix(self.components.len() - 1))
        }
    }

    /// The first `n` components as a path of their own.
    pub fn prefix(&self, n: usize) -> (r: ObjPath)
        requires
            n <= self@.len(),
        ensures
            r@ == self@.subrange(0, n as int),
    {
        let mut components: Vec<PathComp> = Vec::new();
        let mut i: usize = 0;
        while i < n
            invariant
                i <= n,
                n <= self.components.len(),
                components.len() == i,
                forall|k: int| 0 <= k < i ==> components@[k]@ == self.components@[k]@,
            decreases n - i,
        {
            components.push(self.components[i].duplicate());
            i += 1;
        }
        let r = ObjPath { components };
        assert(r@ =~= self@.subrange(0, n as int));
        r
    }

    /// Orders this path against `other`, component by component.
    pub fn compare(&self, other: &ObjPath) -> (r: Order)
        ensures
            r == path_order(self@, other@),
    {
        let mut i: usize = 0;
        while i < self.components.len() && i < other.components.len()
            invariant
                i <= self.components.len(),
                i <= other.components.len(),
                forall|k: int| 0 <= k < i ==> self@[k] == other@[k],
            decreases self.components.len() - i,
        {
            let c = self.components[i].compare(&other.components[i]);
            match c {
                Order::Less => {
                    proof {
                        lemma_path_from_agree(self@, other@, 0, i as int);
                        lemma_bytes_lt_irreflexive(self@[i as int]);
                    }
                    return Order::Less;
                },
                Order::Greater => {
                    proof {
                        lemma_path_from_agree(self@, other@, 0, i as int);
                        assert(self@[i as int] != other@[i as int]);
                        assert(!path_lt_from(self@, other@, i as int));
                    }
                    return Order::Greater;
                },
                Order::Equal => {},
            }
            i += 1;
        }
        proof {
            lemma_path_from_agree(self@, other@, 0, i as int);
            lemma_path_from_total(self@, other@, i as int);
        }
        if i < other.components.len() {
            Order::Less
        } else if i < self.components.len() {
            Order::Greater
        } else {
            Order::Equal
        }
    }

    /// The path written out, as bytes: `/world/car` for the path with the
    /// components `world` and `car`, and `/` for the empty path.
    pub fn to_bytes(&self) -> (r: Vec<u8>)
        ensures
            r@ == path_text(self@),
    {
        let mut out: Vec<u8> = Vec::new();
        if self.components.len() == 0 {
            out.push(47u8);
            assert(out@ =~= seq![47u8]);
            return out;
        }
        let mut i: usize = 0;
        assert(self@.take(0) =~= Seq::<Seq<u8>>::empty());
        while i < self.components.len()
            invariant
                i <= self.components.len(),
                out@ == joined(self@.take(i as int)),
            decreases self.components.len() - i,
        {
            let ghost before = out@;
            out.push(47u8);
            let name = &self.components[i].name;
            let mut k: usize = 0;
            while k < name.len()
                invariant
                    k <= name.len(),
                    out@ == before + seq![47u8] + name@.take(k as int),
                decreases name.len() - k,
            {
                out.push(name[k]);
                assert(name@.take(k as int + 1) =~= name@.take(k as int).push(name@[k as int]));
                k += 1;
            }
            proof {
                assert(name@.take(name.len() as int) =~= name@);
                assert(self@.take(i as int + 1).drop_last() =~= self@.take(i as int));
                assert(self@.take(i as int + 1).last() == name@);
            }
            i += 1;
        }
        assert(self@.take(self.components.len() as int) =~= self@);
        out
    }

    /// Whether the two paths have the same components.
    pub fn equals(&self, other: &ObjPath) -> (r: bool)
        ensures
            r == (self@ == other@),
    {
        match self.compare(other) {
            Order::Equal => true,
            _ => false,
        }
    }

    /// Whether this path is `other` or one of its ancestors.
    pub fn is_prefix_of(&self, other: &ObjPath) -> (r: bool)
        ensures
            r == is_prefix(self@, other@),
    {
        if self.components.len() > other.components.len() {
            return false;
        }
        let n = self.components.len();
        let mut i: usize = 0;
        while i < n
            invariant
                i <= n,
                n == self.components.len(),
                n <= other.components.len(),
                forall|k: int| 0 <= k < i ==> self@[k] == other@[k],
            decreases n - i,
        {
            match self.components[i].compare(&other.components[i]) {
                Order::Equal => {},
                _ => {
                    assert(other@.subrange(0, n as int)[i as int] == other@[i as int]);
                    return false;
                },
            }
            i += 1;
        }
        assert(other@.subrange(0, n as int) =~= self@);
        true
    }
}

/// The components of a path, each after a slash.
pub open spec fn joined(p: Seq<Seq<u8>>) -> Seq<u8>
    decreases p.len(),
{
    if p.len() == 0 {
        Seq::empty()
    } else {
        joined(p.drop_last()) + seq![47u8] + p.last()
    }
}

/// A path written out: a slash before every component, and a lone slash for
/// the empty path.
pub open spec fn path_text(p: Seq<Seq<u8>>) -> Seq<u8> {
    if p.len() == 0 {
        seq![47u8]
    } else {
        joined(p)
    }
}

/// The paths that a sequence of `ObjPath` values stands for.
pub open spec fn path_views(s: Seq<ObjPath>) -> Seq<Seq<Seq<u8>>> {
    Seq::new(s.len(), |i: int| s[i]@)
}

impl Clone for ObjPath {
    fn clone(&self) -> (r: ObjPath)
        ensures
            r@ == self@,
    {
        self.duplicate()
    }
}

} // verus!
