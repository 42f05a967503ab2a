//! Server sets kept in ascending order, for consistent hashing over them.

use std::cmp::Ordering;
use std::convert::From;
use vstd::laws_cmp::obeys_cmp;
use vstd::laws_eq::obeys_concrete_eq;
use vstd::prelude::*;
use vstd::std_specs::cmp::OrdSpec;
use vstd::std_specs::cmp::PartialEqSpec;
use vstd::std_specs::cmp::PartialOrdSpec;

use crate::order::lemma_move_to_multiset;
use crate::order::wide;

use super::copies;
use super::first_equal_at;
use super::lemma_without_first;
use super::p2c::counted_kept;
use super::p2c::counted_without_first;
use super::p2c::inners;
use super::p2c::P2C;
use super::position_of;
use super::round_robin::copy_all;
use super::round_robin::retain_unlisted;
use super::server_sets::counted_resolution;
use super::server_sets::ServerSet;
use super::Loaded;

verus! {

/// `Ord` on `K` is a total order whose equality is equality of values.
pub open spec fn total_order<K: Ord>() -> bool {
    obeys_cmp::<K>() && obeys_concrete_eq::<K>()
}

/// `a` does not come after `b`.
pub open spec fn not_after<K: Ord>(a: K, b: K) -> bool {
    a.cmp_spec(&b) != Ordering::Greater
}

/// The entries of `s` ascend.
pub open spec fn ascending<K: Ord>(s: Seq<K>) -> bool {
    forall|a: int, b: int| 0 <= a < b < s.len() ==> not_after(#[trigger] s[a], #[trigger] s[b])
}

/// Facts of a total order: `cmp` computes `cmp_spec`, every entry is not
/// after itself, "not after" chains, and an entry that comes after another is
/// not before it.
pub proof fn lemma_total_order<K: Ord>()
    requires
        total_order::<K>(),
    ensures
        K::obeys_cmp_spec(),
        forall|x: K| #[trigger] not_after(x, x),
        forall|x: K, y: K, z: K| not_after(x, y) && #[trigger] not_after(y, z) ==> #[trigger] not_after(x, z),
        forall|x: K, y: K| #[trigger] x.cmp_spec(&y) == Ordering::Greater ==> not_after(y, x),
        forall|x: K, y: K| x.cmp_spec(&y) == Ordering::Greater ==> !#[trigger] not_after(x, y),
{
    reveal(vstd::laws_cmp::obeys_cmp_ord);
    reveal(vstd::laws_cmp::obeys_cmp_partial_ord);
    reveal(vstd::laws_cmp::obeys_partial_cmp_spec_properties);
    reveal(vstd::laws_eq::obeys_concrete_eq);
    reveal(vstd::laws_eq::obeys_eq_spec_properties);
    assert forall|x: K| #[trigger] not_after(x, x) by {
        assert(x.partial_cmp_spec(&x) == Some(x.cmp_spec(&x)));
        if x.cmp_spec(&x) == Ordering::Greater {
            assert(x.partial_cmp_spec(&x) == Some(Ordering::Less));
        }
    }
    assert forall|x: K, y: K, z: K| not_after(x, y) && #[trigger] not_after(y, z) implies #[trigger] not_after(x, z) by {
        assert(x.partial_cmp_spec(&y) == Some(x.cmp_spec(&y)));
        assert(y.partial_cmp_spec(&z) == Some(y.cmp_spec(&z)));
        assert(x.partial_cmp_spec(&z) == Some(x.cmp_spec(&z)));
        if x.cmp_spec(&y) == Ordering::Equal {
            assert(x.eq_spec(&y));
        }
        if y.cmp_spec(&z) == Ordering::Equal {
            assert(y.eq_spec(&z));
        }
    }
    assert forall|x: K, y: K| #[trigger] x.cmp_spec(&y) == Ordering::Greater implies not_after(y, x) by {
        assert(x.partial_cmp_spec(&y) == Some(x.cmp_spec(&y)));
        assert(y.partial_cmp_spec(&x) == Some(y.cmp_spec(&x)));
    }
}

/// Whether `a` comes after `b`, as `Ord::cmp` decides it.
pub fn comes_after<K: Ord>(a: &K, b: &K) -> (r: bool)
    ensures
        K::obeys_cmp_spec() ==> (r == (a.cmp_spec(b) == Ordering::Greater)),
{
    match a.cmp(b) {
        Ordering::Greater => true,
        _ => false,
    }
}

/// Sorts `v` into ascending order, moving each entry left past the entries
/// that come after it (so equal entries keep their order).
pub fn sort_ascending<K: Ord>(v: &mut Vec<K>)
    ensures
        final(v)@.to_multiset() == old(v)@.to_multiset(),
        total_order::<K>() ==> ascending(final(v)@),
{
    let ghost laws = total_order::<K>();
    proof {
        if laws {
            lemma_total_order::<K>();
        }
    }
    let ghost v0 = v@;
    let n = v.len();
    if n == 0 {
        return;
    }
    let mut i: usize = 1;
    while i < n
        invariant
            1 <= i <= n,
            n == v0.len(),
            v@.len() == n,
            laws == total_order::<K>(),
            laws ==> K::obeys_cmp_spec(),
            laws ==> forall|x: K| #[trigger] not_after(x, x),
            laws ==> forall|x: K, y: K, z: K|
                not_after(x, y) && #[trigger] not_after(y, z) ==> #[trigger] not_after(x, z),
            laws ==> forall|x: K, y: K| #[trigger] x.cmp_spec(&y) == Ordering::Greater ==> not_after(y, x),
            v@.to_multiset() == v0.to_multiset(),
            laws ==> ascending(v@.take(wide(i))),
        decreases n - i,
    {
        let ghost v1 = v@;
        let mut k: usize = i;
        while k > 0 && comes_after(&v[k - 1], &v[i])
            invariant
                0 <= k <= i < n,
                v@ == v1,
                v1.len() == n,
                laws ==> K::obeys_cmp_spec(),
                laws ==> forall|j: int| wide(k) <= j < wide(i) ==> #[trigger] v1[j].cmp_spec(&v1[wide(i)])
                    == Ordering::Greater,
            decreases k,
        {
            k = k - 1;
        }
        if k < i {
            let x = v.remove(i);
            v.insert(k, x);
        }
        proof {
            let v2 = v@;
            let x = v1[wide(i)];
            assert(v2 == v1.remove(wide(i)).insert(wide(k), x)) by {
                if k == i {
                    assert(v1.remove(wide(i)).insert(wide(k), x) =~= v1);
                }
            }
            lemma_move_to_multiset(v1, wide(i), wide(k));
            if laws {
                assert forall|j: int| 0 <= j < k implies not_after(#[trigger] v1[j], x) by {
                    assert(v1.take(wide(i))[j] == v1[j]);
                    if k > 0 {
                        assert(v1.take(wide(i))[k - 1] == v1[k - 1]);
                        assert(not_after(v1[k - 1], x));
                        if j < k - 1 {
                            assert(not_after(v1[j], v1[k - 1]));
                        }
                    }
                }
                assert forall|a: int, b: int| 0 <= a < b < i + 1 implies
                    not_after(#[trigger] v2.take(i + 1)[a], #[trigger] v2.take(i + 1)[b]) by {
                    assert(v2.take(i + 1)[a] == v2[a]);
                    assert(v2.take(i + 1)[b] == v2[b]);
                    if b < k {
                        assert(v1.take(wide(i))[a] == v1[a]);
                        assert(v1.take(wide(i))[b] == v1[b]);
                    } else if b == k {
                        assert(v2[b] == x);
                        assert(v2[a] == v1[a]);
                    } else if a < k {
                        assert(v2[a] == v1[a]);
                        assert(v2[b] == v1[b - 1]);
                        assert(not_after(v1[a], x));
                        assert(v1[b - 1].cmp_spec(&x) == Ordering::Greater);
                        assert(not_after(x, v1[b - 1]));
                    } else if a == k {
                        assert(v2[a] == x);
                        assert(v2[b] == v1[b - 1]);
                        assert(v1[b - 1].cmp_spec(&x) == Ordering::Greater);
                    } else {
                        assert(v2[a] == v1[a - 1]);
                        assert(v2[b] == v1[b - 1]);
                        assert(v1.take(wide(i))[a - 1] == v1[a - 1]);
                        assert(v1.take(wide(i))[b - 1] == v1[b - 1]);
                    }
                }
            }
        }
        i = i + 1;
    }
    proof {
        assert(v@.take(wide(n)) =~= v@);
    }
}

/// Sorts `v` into ascending order of the servers, moving each entry left
/// past the entries whose server comes after its own (so entries with equal
/// servers keep their order).
pub fn sort_by_inner<K: Ord>(v: &mut Vec<Loaded<K>>)
    ensures
        final(v)@.to_multiset() == old(v)@.to_multiset(),
        inners(final(v)@).to_multiset() == inners(old(v)@).to_multiset(),
        total_order::<K>() ==> ascending(inners(final(v)@)),
{
    let ghost laws = total_order::<K>();
    proof {
        if laws {
            lemma_total_order::<K>();
        }
    }
    let ghost v0 = v@;
    let n = v.len();
    if n == 0 {
        return;
    }
    let mut i: usize = 1;
    while i < n
        invariant
            1 <= i <= n,
            n == v0.len(),
            v@.len() == n,
            laws == total_order::<K>(),
            laws ==> K::obeys_cmp_spec(),
            laws ==> forall|x: K| #[trigger] not_after(x, x),
            laws ==> forall|x: K, y: K, z: K|
                not_after(x, y) && #[trigger] not_after(y, z) ==> #[trigger] not_after(x, z),
            laws ==> forall|x: K, y: K| #[trigger] x.cmp_spec(&y) == Ordering::Greater ==> not_after(y, x),
            v@.to_multiset() == v0.to_multiset(),
            inners(v@).to_multiset() == inners(v0).to_multiset(),
            laws ==> ascending(inners(v@).take(wide(i))),
        decreases n - i,
    {
        let ghost v1 = v@;
        let mut k: usize = i;
        while k > 0 && comes_after(&v[k - 1].inner, &v[i].inner)
            invariant
                0 <= k <= i < n,
                v@ == v1,
                v1.len() == n,
                laws ==> K::obeys_cmp_spec(),
                laws ==> forall|j: int| wide(k) <= j < wide(i) ==> #[trigger] v1[j].inner.cmp_spec(&v1[wide(i)].inner)
                    == Ordering::Greater,
            decreases k,
        {
            k = k - 1;
        }
        if k < i {
            let x = v.remove(i);
            v.insert(k, x);
        }
        proof {
            let v2 = v@;
            let x = v1[wide(i)];
            assert(v2 == v1.remove(wide(i)).insert(wide(k), x)) by {
                if k == i {
                    assert(v1.remove(wide(i)).insert(wide(k), x) =~= v1);
                }
            }
            lemma_move_to_multiset(v1, wide(i), wide(k));
            let w1 = inners(v1);
            let w2 = inners(v2);
            assert(w2 =~= w1.remove(wide(i)).insert(wide(k), x.inner));
            assert(w1[wide(i)] == x.inner);
            lemma_move_to_multiset(w1, wide(i), wide(k));
            if laws {
                assert forall|j: int| wide(k) <= j < wide(i) implies #[trigger] w1[j].cmp_spec(&w1[wide(i)]) == Ordering::Greater by {
                    assert(w1[j] == v1[j].inner);
                }
            }
            let xk = x.inner;
            if laws {
                assert forall|j: int| 0 <= j < k implies not_after(#[trigger] w1[j], xk) by {
                    assert(w1.take(wide(i))[j] == w1[j]);
                    if k > 0 {
                        assert(w1.take(wide(i))[k - 1] == w1[k - 1]);
                        assert(not_after(w1[k - 1], xk));
                        if j < k - 1 {
                            assert(not_after(w1[j], w1[k - 1]));
                        }
                    }
                }
                assert forall|a: int, b: int| 0 <= a < b < i + 1 implies
                    not_after(#[trigger] w2.take(i + 1)[a], #[trigger] w2.take(i + 1)[b]) by {
                    assert(w2.take(i + 1)[a] == w2[a]);
                    assert(w2.take(i + 1)[b] == w2[b]);
                    if b < k {
                        assert(w1.take(wide(i))[a] == w1[a]);
                        assert(w1.take(wide(i))[b] == w1[b]);
                    } else if b == k {
                        assert(w2[b] == xk);
                        assert(w2[a] == w1[a]);
                    } else if a < k {
                        assert(w2[a] == w1[a]);
                        assert(w2[b] == w1[b - 1]);
                        assert(not_after(w1[a], xk));
                        assert(w1[b - 1].cmp_spec(&xk) == Ordering::Greater);
                        assert(not_after(xk, w1[b - 1]));
                    } else if a == k {
                        assert(w2[a] == xk);
                        assert(w2[b] == w1[b - 1]);
                        assert(w1[b - 1].cmp_spec(&xk) == Ordering::Greater);
                    } else {
                        assert(w2[a] == w1[a - 1]);
                        assert(w2[b] == w1[b - 1]);
                        assert(w1.take(wide(i))[a - 1] == w1[a - 1]);
                        assert(w1.take(wide(i))[b - 1] == w1[b - 1]);
                    }
                }
            }
        }
        i = i + 1;
    }
    proof {
        assert(inners(v@).take(wide(n)) =~= inners(v@));
    }
}


/// Servers kept in ascending order.
pub struct CHash<T: Clone + PartialEq + Ord> {
    inner: Vec<T>,
}

/// Servers with counts of requests in flight, kept in ascending order of
/// server; `factor` is the number of places a key may go to.
pub struct CHashLL<T: Clone + PartialEq + Ord> {
    counted: P2C<T>,
    factor: usize,
}

/// `after` holds the servers of `servers`, in ascending order.
pub open spec fn in_ascending_order<T: Ord>(servers: Seq<T>, after: Seq<T>) -> bool {
    &&& after.to_multiset() == servers.to_multiset()
    &&& total_order::<T>() ==> ascending(after)
}

impl<T: Clone + PartialEq + Ord> CHash<T> {
    /// The servers, in order.
    pub closed spec fn members(&self) -> Seq<T> {
        self.inner@
    }
}

impl<T: Clone + PartialEq + Ord> From<Vec<T>> for CHash<T> {
    /// The servers of `v`, sorted.
    fn from(v: Vec<T>) -> (r: CHash<T>)
        ensures
            in_ascending_order(v@, r.members()),
    {
        let mut v1 = v;
        sort_ascending(&mut v1);
        CHash { inner: v1 }
    }
}

impl<T: Clone + PartialEq + Ord> vstd::std_specs::convert::FromSpecImpl<Vec<T>> for CHash<T> {
    open spec fn obeys_from_spec() -> bool {
        false
    }

    open spec fn from_spec(v: Vec<T>) -> Self {
        arbitrary()
    }
}

impl<T: Clone + PartialEq + Ord> ServerSet<T> for CHash<T> {
    open spec fn set_members(&self) -> Seq<T> {
        self.members()
    }

    /// Servers are kept in ascending order.
    open spec fn arranged(servers: Seq<T>, after: Seq<T>) -> bool {
        in_ascending_order(servers, after)
    }

    /// The set becomes the servers of `hosts`, sorted.
    open spec fn resolves_to(before: Seq<T>, hosts: Seq<T>, after: Seq<T>) -> bool {
        in_ascending_order(hosts, after)
    }

    fn new() -> (r: Self) {
        CHash { inner: Vec::new() }
    }

    fn add(&mut self, node: T) {
        self.inner.push(node);
        sort_ascending(&mut self.inner);
    }

    fn remove(&mut self, node: T) {
        let ghost m = self.inner@;
        let result = position_of(&self.inner, &node);
        match result {
            Some(i) => {
                proof {
                    if T::obeys_eq_spec() {
                        lemma_without_first(m, node, wide(i));
                    }
                }
                self.inner.remove(i);
            },
            None => {
                proof {
                    if T::obeys_eq_spec() {
                        assert(!exists|i: int| first_equal_at(m, node, i));
                    }
                }
            },
        }
        sort_ascending(&mut self.inner);
    }

    fn remove_nodes(&mut self, hosts: Vec<T>) {
        retain_unlisted(&mut self.inner, &hosts);
        sort_ascending(&mut self.inner);
    }

    fn add_nodes(&mut self, hosts: Vec<T>) {
        let mut hosts = hosts;
        self.inner.append(&mut hosts);
        sort_ascending(&mut self.inner);
    }

    fn resolve(&mut self, v: Vec<T>) {
        let mut v1 = v;
        sort_ascending(&mut v1);
        self.inner = v1;
    }

    fn list(&self) -> (r: Vec<T>) {
        copy_all(&self.inner)
    }
}

impl<T: Clone + PartialEq + Ord> CHashLL<T> {
    /// The servers, in order.
    pub closed spec fn members(&self) -> Seq<T> {
        self.counted.members()
    }

    /// The servers with their request counts, in order.
    pub closed spec fn counted(&self) -> Seq<Loaded<T>> {
        self.counted.counted()
    }

    /// The number of places a key may go to.
    pub closed spec fn spread(&self) -> usize {
        self.factor
    }
}

impl<T: Clone + PartialEq + Ord> From<Vec<T>> for CHashLL<T> {
    /// The servers of `v`, in the order given, each with no requests in
    /// flight; a key may go to 3 places.
    fn from(v: Vec<T>) -> (r: CHashLL<T>)
        ensures
            r.members() == v@,
            r.spread() == 3,
    {
        CHashLL { counted: P2C::from(v), factor: 3 }
    }
}

impl<T: Clone + PartialEq + Ord> vstd::std_specs::convert::FromSpecImpl<Vec<T>> for CHashLL<T> {
    open spec fn obeys_from_spec() -> bool {
        false
    }

    open spec fn from_spec(v: Vec<T>) -> Self {
        arbitrary()
    }
}

impl<T: Clone + PartialEq + Ord> ServerSet<T> for CHashLL<T> {
    open spec fn set_members(&self) -> Seq<T> {
        self.members()
    }

    /// Servers are kept in ascending order.
    open spec fn arranged(servers: Seq<T>, after: Seq<T>) -> bool {
        in_ascending_order(servers, after)
    }

    /// What a counted resolution makes of the set, sorted.
    open spec fn resolves_to(before: Seq<T>, hosts: Seq<T>, after: Seq<T>) -> bool {
        exists|mid: Seq<T>| #[trigger] counted_resolution(before, hosts, mid) && in_ascending_order(mid, after)
    }

    fn new() -> (r: Self) {
        CHashLL { counted: P2C::new(), factor: 3 }
    }

    /// The old entries, with their counts, and one new entry for `node`.
    fn add(&mut self, node: T)
        ensures
            exists|n: Loaded<T>|
                #![trigger old(self).counted().push(n)]
                n.inner == node && final(self).counted().to_multiset() == old(self).counted().push(
                    n,
                ).to_multiset(),
    {
        self.counted.add_node(node);
        let ghost mid = self.counted.counted();
        self.counted.sort_servers();
        proof {
            let n = mid.last();
            assert(mid =~= old(self).counted().push(n));
        }
    }

    /// The old entries, with their counts, but the first whose server
    /// compares equal to `host`.
    fn remove(&mut self, host: T)
        ensures
            T::obeys_eq_spec() ==> final(self).counted().to_multiset() == counted_without_first(
                old(self).counted(),
                host,
            ).to_multiset(),
    {
        self.counted.remove_node(host);
        self.counted.sort_servers();
    }

    /// The old entries, with their counts, whose server no entry of `hosts`
    /// compares equal to.
    fn remove_nodes(&mut self, hosts: Vec<T>)
        ensures
            T::obeys_eq_spec() ==> final(self).counted().to_multiset() == counted_kept(
                old(self).counted(),
                hosts@,
                false,
            ).to_multiset(),
    {
        self.counted.remove_nodes(hosts);
        self.counted.sort_servers();
    }

    /// The old entries, with their counts, and one new entry for each of
    /// `hosts`.
    fn add_nodes(&mut self, hosts: Vec<T>)
        ensures
            exists|fresh: Seq<Loaded<T>>|
                #![trigger old(self).counted() + fresh]
                inners(fresh) == hosts@ && final(self).counted().to_multiset() == (old(self).counted()
                    + fresh).to_multiset(),
    {
        self.counted.add_nodes(hosts);
        let ghost mid = self.counted.counted();
        self.counted.sort_servers();
        proof {
            let k = old(self).counted().len() as int;
            let fresh = mid.skip(k);
            assert(mid =~= old(self).counted() + fresh) by {
                assert(mid.take(k) == old(self).counted());
                assert forall|j: int| 0 <= j < mid.len() implies mid[j] == (old(self).counted() + fresh)[j] by {
                    if j < k {
                        assert(mid.take(k)[j] == mid[j]);
                    }
                }
            }
            assert(inners(fresh) =~= hosts@) by {
                assert(inners(mid) == old(self).members() + hosts@);
                assert forall|j: int| 0 <= j < fresh.len() implies #[trigger] inners(fresh)[j] == hosts@[j] by {
                    assert(inners(mid)[k + j] == mid[k + j].inner);
                }
            }
        }
    }

    /// The entries kept by a counted resolution, with their counts, then the
    /// new ones; all sorted.
    fn resolve(&mut self, hosts: Vec<T>)
        ensures
            T::obeys_eq_spec() ==> exists|mid: Seq<Loaded<T>>|
                #![trigger mid.to_multiset()]
                mid.take(counted_kept(old(self).counted(), hosts@, true).len() as int) == counted_kept(
                    old(self).counted(),
                    hosts@,
                    true,
                ) && counted_resolution(old(self).members(), hosts@, inners(mid))
                    && final(self).counted().to_multiset() == mid.to_multiset(),
    {
        self.counted.resolve_counted(hosts);
        let ghost mid = self.counted.members();
        let ghost mid_c = self.counted.counted();
        self.counted.sort_servers();
        proof {
            if T::obeys_eq_spec() {
                assert(counted_resolution(old(self).members(), hosts@, mid));
                assert(in_ascending_order(mid, self.members()));
                assert(Self::resolves_to(old(self).members(), hosts@, self.members()));
                assert(mid == inners(mid_c));
                assert(self.counted().to_multiset() == mid_c.to_multiset());
            }
        }
    }

    fn list(&self) -> (r: Vec<T>) {
        self.counted.list_inners()
    }
}

} // verus!
