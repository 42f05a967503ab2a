//! Power of two choices over servers that carry a count of requests in
//! flight; the server picked is the one with the smaller count.

use std::convert::From;
use std::sync::atomic::AtomicUsize;
use vstd::prelude::*;
use vstd::std_specs::cmp::PartialEqSpec;

use super::chash::ascending;
use super::chash::sort_by_inner;
use super::chash::total_order;
use super::copies;
use super::server_sets::counted_resolution;
use super::server_sets::differs_from_some;
use super::first_equal_at;
use super::lemma_without_first;
use super::listed;
use super::unlisted;
use super::without_first;
use super::CompletableDistributor;
use super::Loaded;
use crate::random::below;

verus! {

/// Picks two servers at random and sends the request to the one with fewer
/// requests in flight, counting it there until `done` is called.
pub struct P2C<T: Clone + PartialEq> {
    inner: Vec<Loaded<T>>,
}

/// The servers that a list of counted servers stands for.
pub open spec fn inners<T>(s: Seq<Loaded<T>>) -> Seq<T> {
    s.map_values(|l: Loaded<T>| l.inner)
}

/// `c` without its first entry whose server compares equal to `x` (all of
/// `c` when none does).
pub open spec fn counted_without_first<T: PartialEq>(c: Seq<Loaded<T>>, x: T) -> Seq<Loaded<T>> {
    if exists|i: int| first_equal_at(inners(c), x, i) {
        c.remove(choose|i: int| first_equal_at(inners(c), x, i))
    } else {
        c
    }
}

/// The entries of `c` whose server some entry of `hosts` compares equal to
/// (when `keep_listed`) or none does (otherwise), in order.
pub open spec fn counted_kept<T: PartialEq>(c: Seq<Loaded<T>>, hosts: Seq<T>, keep_listed: bool) -> Seq<Loaded<T>> {
    c.filter(|l: Loaded<T>| listed(hosts, l.inner) == keep_listed)
}

/// Of two drawn places `i1` and `i2` whose request counts read `c1` and
/// `c2`, the place to send the request to: the first unless its count is
/// above the second's.
pub fn lighter_place(i1: usize, i2: usize, c1: usize, c2: usize) -> (r: usize)
    ensures
        r == if c1 <= c2 { i1 } else { i2 },
{
    if first_is_lighter(c1, c2) {
        i1
    } else {
        i2
    }
}

/// Two places drawn at random below `bound`, in the order they were drawn.
/// Which places come out is left open (they are random).
pub fn draw_two(bound: usize) -> (r: (usize, usize))
    requires
        bound > 0,
    ensures
        r.0 < bound,
        r.1 < bound,
{
    let i1 = below(bound);
    let i2 = below(bound);
    (i1, i2)
}

/// Of two request counts, whether the first server is the one to pick: its
/// count is not above the other's.
pub fn first_is_lighter(a: usize, b: usize) -> (r: bool)
    ensures
        r == (a <= b),
{
    a <= b
}

impl<T: Clone + PartialEq> P2C<T> {
    /// The servers, in order.
    pub open spec fn members(&self) -> Seq<T> {
        inners(self.counted())
    }

    /// The counted servers, in order.
    pub closed spec fn counted(&self) -> Seq<Loaded<T>> {
        self.inner@
    }

    /// A policy with no servers.
    pub fn new() -> (r: P2C<T>)
        ensures
            r.members() == Seq::<T>::empty(),
    {
        P2C { inner: Vec::new() }
    }

    /// Adds a server, with no requests in flight, at the end.
    pub fn add_node(&mut self, node: T)
        ensures
            final(self).members() == old(self).members().push(node),
            final(self).counted().len() == old(self).counted().len() + 1,
            final(self).counted().drop_last() == old(self).counted(),
            final(self).counted().last().inner == node,
            call_ensures(AtomicUsize::new, (0usize,), final(self).counted().last().load),
    {
        let loaded = Loaded::new(node);
        self.inner.push(loaded);
        proof {
            assert(inners(self.inner@) =~= inners(old(self).inner@).push(node));
            assert(self.inner@.drop_last() =~= old(self).inner@);
        }
    }

    /// Removes the first server that compares equal to `node`, if any.
    pub fn remove_node(&mut self, node: T)
        ensures
            T::obeys_eq_spec() ==> final(self).members() == without_first(old(self).members(), node),
            T::obeys_eq_spec() ==> final(self).counted() == counted_without_first(old(self).counted(), node),
    {
        let ghost m = inners(self.inner@);
        let result = self.position_of_inner(&node);
        match result {
            Some(i) => {
                self.inner.remove(i);
                proof {
                    if T::obeys_eq_spec() {
                        lemma_without_first(m, node, i as int);
                        assert(inners(self.inner@) =~= m.remove(i as int));
                        let c = choose|c: int| first_equal_at(m, node, c);
                        if c < i {
                            assert(!m[c].eq_spec(&node));
                        }
                        if i < c {
                            assert(!m[i as int].eq_spec(&node));
                        }
                    }
                }
            },
            None => {
                proof {
                    if T::obeys_eq_spec() {
                        assert(self.members() == m);
                        assert(!exists|i: int| first_equal_at(m, node, i));
                    }
                }
            },
        }
    }

    /// Adds `hosts`, each with no requests in flight, at the end, in order.
    pub fn add_nodes(&mut self, hosts: Vec<T>)
        ensures
            final(self).members() == old(self).members() + hosts@,
            final(self).counted().len() == old(self).counted().len() + hosts@.len(),
            final(self).counted().take(old(self).counted().len() as int) == old(self).counted(),
    {
        let ghost m = inners(self.inner@);
        let ghost c0 = self.inner@;
        for x in it: hosts
            invariant
                it.seq() == hosts@,
                inners(self.inner@) == m + hosts@.take(it.index() as int),
                m == inners(c0),
                self.inner@.len() >= c0.len(),
                self.inner@.take(c0.len() as int) == c0,
        {
            let ghost before = self.inner@;
            let ghost gx = x;
            self.inner.push(Loaded::new(x));
            proof {
                assert(gx == hosts@[it.index() as int]);
                assert(inners(self.inner@) =~= inners(before).push(gx));
                assert(hosts@.take(it.index() + 1) =~= hosts@.take(it.index() as int).push(gx));
                assert(inners(self.inner@) =~= m + hosts@.take(it.index() + 1));
                assert(self.inner@.take(c0.len() as int) =~= before.take(c0.len() as int));
            }
        }
        proof {
            assert(hosts@.take(hosts@.len() as int) =~= hosts@);
            assert(inners(self.inner@).len() == self.inner@.len());
        }
    }

    /// Removes every server that some entry of `hosts` compares equal to.
    pub fn remove_nodes(&mut self, hosts: Vec<T>)
        ensures
            T::obeys_eq_spec() ==> final(self).members() == unlisted(old(self).members(), hosts@),
            T::obeys_eq_spec() ==> final(self).counted() == counted_kept(old(self).counted(), hosts@, false),
    {
        self.retain_counted(&hosts, false);
        proof {
            assert((|n: T| listed(hosts@, n) == false) =~= (|n: T| !listed(hosts@, n)));
        }
    }

    /// Copies of the servers, in order.
    pub fn list_inners(&self) -> (r: Vec<T>)
        ensures
            copies(self.members(), r@),
    {
        let mut out: Vec<T> = Vec::new();
        let mut i: usize = 0;
        while i < self.inner.len()
            invariant
                i <= self.inner@.len(),
                out@.len() == i,
                forall|k: int| 0 <= k < i ==> cloned(#[trigger] self.members()[k], out@[k]),
            decreases self.inner@.len() - i,
        {
            out.push(self.inner[i].inner.clone());
            i = i + 1;
        }
        out
    }

    /// Keeps the servers that `hosts` still lists, then adds a server with no
    /// requests in flight for a copy of each entry of `hosts` that some kept
    /// server does not compare equal to.
    pub fn resolve_counted(&mut self, hosts: Vec<T>)
        ensures
            T::obeys_eq_spec() ==> counted_resolution(old(self).members(), hosts@, final(self).members()),
            T::obeys_eq_spec() ==> final(self).counted().take(
                counted_kept(old(self).counted(), hosts@, true).len() as int,
            ) == counted_kept(old(self).counted(), hosts@, true),
    {
        self.retain_counted(&hosts, true);
        let ghost kept = inners(self.inner@);
        let ghost kept_c = self.inner@;
        proof {
            assert((|n: T| listed(hosts@, n) == true) =~= (|n: T| listed(hosts@, n)));
        }
        let kept_len = self.inner.len();
        let ghost cond = |h: T| differs_from_some(kept, h);
        let mut j: usize = 0;
        while j < hosts.len()
            invariant
                j <= hosts@.len(),
                kept_len == kept.len(),
                cond == (|h: T| differs_from_some(kept, h)),
                self.inner@.len() >= kept_len,
                inners(self.inner@).take(kept_len as int) == kept,
                kept_c.len() == kept_len,
                self.inner@.take(kept_len as int) == kept_c,
                T::obeys_eq_spec() ==> self.inner@.len() == kept_len + hosts@.take(j as int).filter(cond).len(),
                T::obeys_eq_spec() ==> copies(hosts@.take(j as int).filter(cond), inners(self.inner@).skip(kept_len as int)),
            decreases hosts@.len() - j,
        {
            let ghost before = self.inner@;
            let differs = self.differs_in_prefix(kept_len, &hosts[j]);
            proof {
                reveal(Seq::filter);
                assert(hosts@.take(j + 1).drop_last() =~= hosts@.take(j as int));
                assert(hosts@.take(j + 1).last() == hosts@[j as int]);
                assert(inners(self.inner@).take(kept_len as int) =~= kept);
            }
            if differs {
                let c = hosts[j].clone();
                self.inner.push(Loaded::new(c));
                proof {
                    let f = hosts@.take(j as int).filter(cond);
                    assert(inners(self.inner@) =~= inners(before).push(c));
                    assert(inners(self.inner@).take(kept_len as int) =~= kept);
                    assert(self.inner@.take(kept_len as int) =~= before.take(kept_len as int));
                    if T::obeys_eq_spec() {
                        assert(hosts@.take(j + 1).filter(cond) == f.push(hosts@[j as int]));
                        let a = f.push(hosts@[j as int]);
                        let b = inners(self.inner@).skip(kept_len as int);
                        assert(b =~= inners(before).skip(kept_len as int).push(c));
                        assert forall|k: int| 0 <= k < a.len() implies cloned(#[trigger] a[k], b[k]) by {
                            if k < f.len() {
                                assert(inners(before).skip(kept_len as int)[k] == b[k]);
                            }
                        }
                    }
                }
            } else {
                proof {
                    if T::obeys_eq_spec() {
                        assert(hosts@.take(j + 1).filter(cond) == hosts@.take(j as int).filter(cond));
                    }
                }
            }
            j = j + 1;
        }
        proof {
            assert(hosts@.take(hosts@.len() as int) =~= hosts@);
        }
    }

    /// Whether some server among the first `len` does not compare equal to
    /// `h`.
    fn differs_in_prefix(&self, len: usize, h: &T) -> (r: bool)
        requires
            len <= self.inner@.len(),
        ensures
            T::obeys_eq_spec() ==> r == differs_from_some(inners(self.inner@).take(len as int), *h),
    {
        let mut i: usize = 0;
        while i < len
            invariant
                i <= len <= self.inner@.len(),
                T::obeys_eq_spec() ==> forall|k: int| 0 <= k < i ==> #[trigger] inners(self.inner@)[k].eq_spec(h),
            decreases len - i,
        {
            if self.inner[i].inner != *h {
                proof {
                    assert(inners(self.inner@).take(len as int)[i as int] == self.inner@[i as int].inner);
                }
                return true;
            }
            i = i + 1;
        }
        proof {
            if T::obeys_eq_spec() {
                let t = inners(self.inner@).take(len as int);
                assert forall|k: int| 0 <= k < t.len() implies #[trigger] t[k].eq_spec(h) by {
                    assert(t[k] == inners(self.inner@)[k]);
                }
            }
        }
        false
    }

    /// The first place whose server compares equal to `x`.
    fn position_of_inner(&self, x: &T) -> (r: Option<usize>)
        ensures
            r matches Some(i) ==> i < self.inner@.len(),
            T::obeys_eq_spec() ==> match r {
                Some(i) => first_equal_at(self.members(), *x, i as int),
                None => forall|i: int|
                    0 <= i < self.members().len() ==> !#[trigger] self.members()[i].eq_spec(x),
            },
    {
        let mut i: usize = 0;
        while i < self.inner.len()
            invariant
                i <= self.inner@.len(),
                T::obeys_eq_spec() ==> forall|j: int|
                    0 <= j < i ==> !#[trigger] inners(self.inner@)[j].eq_spec(x),
            decreases self.inner@.len() - i,
        {
            if self.inner[i].inner == *x {
                return Some(i);
            }
            i = i + 1;
        }
        None
    }

    /// Keeps, in order, the servers that some entry of `hosts` compares
    /// equal to (when `keep_listed`) or that none does (otherwise).
    fn retain_counted(&mut self, hosts: &Vec<T>, keep_listed: bool)
        ensures
            T::obeys_eq_spec() ==> final(self).members() == old(self).members().filter(
                |n: T| listed(hosts@, n) == keep_listed,
            ),
            T::obeys_eq_spec() ==> (forall|k: int| 0 <= k < final(self).counted().len()
                ==> old(self).counted().contains(#[trigger] final(self).counted()[k])),
            T::obeys_eq_spec() ==> final(self).counted() == counted_kept(old(self).counted(), hosts@, keep_listed),
    {
        let ghost s0 = self.inner@;
        let ghost m0 = inners(s0);
        let ghost keep = |n: T| listed(hosts@, n) == keep_listed;
        let ghost kp = |l: Loaded<T>| listed(hosts@, l.inner) == keep_listed;
        let ghost mut j: int = 0;
        let mut i: usize = 0;
        while i < self.inner.len()
            invariant
                0 <= j <= s0.len(),
                i <= self.inner@.len(),
                m0 == inners(s0),
                keep == (|n: T| listed(hosts@, n) == keep_listed),
                kp == (|l: Loaded<T>| listed(hosts@, l.inner) == keep_listed),
                T::obeys_eq_spec() ==> inners(self.inner@) == m0.take(j).filter(keep) + m0.skip(j),
                T::obeys_eq_spec() ==> self.inner@ == s0.take(j).filter(kp) + s0.skip(j),
                T::obeys_eq_spec() ==> i == m0.take(j).filter(keep).len(),
                self.inner@.len() - i == s0.len() - j,
                forall|k: int| 0 <= k < self.inner@.len() ==> s0.contains(#[trigger] self.inner@[k]),
            decreases self.inner@.len() - i,
        {
            let ghost before = self.inner@;
            let found = super::is_listed(hosts, &self.inner[i].inner);
            proof {
                reveal(Seq::filter);
                assert(m0.take(j + 1).drop_last() =~= m0.take(j));
                assert(m0.take(j + 1).last() == m0[j]);
                assert(m0.skip(j + 1) =~= m0.skip(j).drop_first());
                assert(s0.take(j + 1).drop_last() =~= s0.take(j));
                assert(s0.take(j + 1).last() == s0[j]);
                assert(s0.skip(j + 1) =~= s0.skip(j).drop_first());
                assert(m0[j] == s0[j].inner);
                if T::obeys_eq_spec() {
                    assert(before[i as int] == s0.skip(j)[0]);
                    assert(inners(before)[i as int] == m0.skip(j)[0]);
                    assert(m0.skip(j)[0] == m0[j]);
                }
            }
            if found == keep_listed {
                proof {
                    if T::obeys_eq_spec() {
                        let f = m0.take(j).filter(keep);
                        assert(m0.take(j + 1).filter(keep) == f.push(m0[j]));
                        assert(f.push(m0[j]) + m0.skip(j + 1) =~= f + m0.skip(j));
                        let g = s0.take(j).filter(kp);
                        assert(s0.take(j + 1).filter(kp) == g.push(s0[j]));
                        assert(g.push(s0[j]) + s0.skip(j + 1) =~= g + s0.skip(j));
                    }
                }
                i = i + 1;
            } else {
                self.inner.remove(i);
                proof {
                    if T::obeys_eq_spec() {
                        let f = m0.take(j).filter(keep);
                        assert(m0.take(j + 1).filter(keep) == f);
                        assert(inners(before.remove(i as int)) =~= inners(before).remove(i as int));
                        assert(inners(before).remove(i as int) =~= f + m0.skip(j + 1));
                        let g = s0.take(j).filter(kp);
                        assert(s0.take(j + 1).filter(kp) == g);
                        assert(g.len() == i);
                        assert(before.remove(i as int) =~= g + s0.skip(j + 1));
                    }
                    assert forall|k: int| 0 <= k < self.inner@.len() implies s0.contains(#[trigger] self.inner@[k]) by {
                        assert(self.inner@[k] == before[if k < i { k } else { k + 1 }]);
                    }
                }
            }
            proof {
                j = j + 1;
            }
        }
        proof {
            assert(j == s0.len());
            assert(m0.take(j) =~= m0);
            assert(m0.skip(j) =~= Seq::<T>::empty());
            assert(s0.take(j) =~= s0);
            assert(s0.skip(j) =~= Seq::<Loaded<T>>::empty());
            if T::obeys_eq_spec() {
                assert(inners(self.inner@) =~= m0.filter(keep));
                assert(self.inner@ =~= s0.filter(kp));
            }
        }
    }
}

impl<T: Clone + PartialEq + Ord> P2C<T> {
    /// Sorts the servers into ascending order, keeping each with its count.
    pub fn sort_servers(&mut self)
        ensures
            final(self).members().to_multiset() == old(self).members().to_multiset(),
            final(self).counted().to_multiset() == old(self).counted().to_multiset(),
            total_order::<T>() ==> ascending(final(self).members()),
    {
        sort_by_inner(&mut self.inner);
    }
}

impl<T: Clone + PartialEq> From<Vec<T>> for P2C<T> {
    /// A policy over the servers of `v`, each with no requests in flight.
    fn from(v: Vec<T>) -> (r: P2C<T>)
        ensures
            r.members() == v@,
    {
        let mut p = P2C::new();
        p.add_nodes(v);
        p
    }
}

impl<T: Clone + PartialEq> vstd::std_specs::convert::FromSpecImpl<Vec<T>> for P2C<T> {
    open spec fn obeys_from_spec() -> bool {
        false
    }

    open spec fn from_spec(v: Vec<T>) -> Self {
        arbitrary()
    }
}

impl<T: Clone + PartialEq> CompletableDistributor for P2C<T> {
    type Item = T;

    open spec fn can_pick(&self) -> bool {
        self.members().len() > 0
    }

    open spec fn may_pick(&self, item: T) -> bool {
        exists|i: int| 0 <= i < self.members().len() && cloned(#[trigger] self.members()[i], item)
    }

    /// Draws two places at random, reads the request count of each, counts
    /// one more request on the one whose count read is smaller (the first
    /// drawn on a tie) and hands out a copy of its server.
    fn pick(&self) -> (r: Option<T>)
        ensures
            exists|d: (usize, usize), c1: usize, c2: usize|
                #![trigger call_ensures(draw_two, (self.counted().len() as usize,), d), call_ensures(Loaded::<T>::load, (&self.counted()[d.0 as int],), c1), call_ensures(Loaded::<T>::load, (&self.counted()[d.1 as int],), c2)]
                {
                    &&& call_ensures(draw_two, (self.counted().len() as usize,), d)
                    &&& d.0 < self.counted().len() && d.1 < self.counted().len()
                    &&& call_ensures(Loaded::<T>::load, (&self.counted()[d.0 as int],), c1)
                    &&& call_ensures(Loaded::<T>::load, (&self.counted()[d.1 as int],), c2)
                    &&& {
                        let c = if c1 <= c2 { d.0 as int } else { d.1 as int };
                        &&& call_ensures(Loaded::<T>::incr, (&self.counted()[c],), ())
                        &&& r matches Some(x) && cloned(self.members()[c], x)
                    }
                },
    {
        let nodes = &self.inner;
        let d = draw_two(nodes.len());
        let (i1, i2) = d;
        let c = lighter_place(i1, i2, nodes[i1].load(), nodes[i2].load());
        let chosen = &nodes[c];
        chosen.incr();
        let r = chosen.inner.clone();
        proof {
            assert(self.members()[c as int] == chosen.inner);
            assert(call_ensures(draw_two, (self.counted().len() as usize,), d));
            assert(call_ensures(Loaded::<T>::incr, (&self.counted()[c as int],), ()));
        }
        Some(r)
    }

    /// Counts one request fewer on the first server that compares equal to
    /// `item`, if any.
    fn done(&self, item: T)
        ensures
            T::obeys_eq_spec() && (exists|i: int| first_equal_at(self.members(), item, i)) ==> exists|i: int|
                #![trigger first_equal_at(self.members(), item, i)]
                first_equal_at(self.members(), item, i) && call_ensures(
                    Loaded::<T>::decr,
                    (&self.counted()[i],),
                    (),
                ),
    {
        let found = self.position_of_inner(&item);
        if let Some(x) = found {
            self.inner[x].decr();
        }
        proof {
            if T::obeys_eq_spec() && (exists|i: int| first_equal_at(self.members(), item, i)) {
                let i = choose|i: int| first_equal_at(self.members(), item, i);
                assert(self.members()[i].eq_spec(&item));
                assert(found is Some);
                let x = found->0;
                assert(first_equal_at(self.members(), item, x as int));
                if (x as int) < i {
                } else if i < (x as int) {
                    assert(!self.members()[i].eq_spec(&item));
                }
                assert(x as int == i);
            }
        }
    }
}

} // verus!
