//! Round robin over a list of servers that it hands out copies of.

use std::convert::From;
use std::sync::atomic::AtomicUsize;
use std::sync::atomic::Ordering;
use vstd::prelude::*;
use vstd::std_specs::cmp::PartialEqSpec;

use super::copies;
use super::first_equal_at;
use super::is_listed;
use super::lemma_without_first;
use super::listed;
use super::position_of;
use super::unlisted;
use super::without_first;
use super::Distributor;

verus! {

/// Hands out copies of its servers in turn; the turn index is shared by every
/// thread that picks through it.
pub struct RoundRobin<T: Clone + PartialEq> {
    nodes: Vec<T>,
    index: AtomicUsize,
}

/// The turn after `turn` in a list of `len` servers.
pub fn next_turn(turn: usize, len: usize) -> (r: usize)
    requires
        len > 0,
    ensures
        r == (turn + 1) % (len as int),
{
    if turn < usize::MAX {
        (turn + 1) % len
    } else {
        proof {
            vstd::arithmetic::div_mod::lemma_add_mod_noop(turn as int, 1, len as int);
            vstd::arithmetic::div_mod::lemma_mod_twice(turn as int, len as int);
            if len > 1 {
                vstd::arithmetic::div_mod::lemma_small_mod(1, len as nat);
            } else {
                assert((turn + 1) % (len as int) == 0);
                assert(((turn % len) + 1) % (len as int) == 0);
            }
        }
        ((turn % len) + 1) % len
    }
}

/// Advances the shared turn index to the turn after it, as one atomic step:
/// `AtomicUsize::fetch_update` retries a compare-and-swap until no other
/// thread got in between, and the new index is `next_turn` of the old one.
/// Nothing is claimed of the index's value (other threads share it).
#[verifier::external_body]
fn advance(index: &AtomicUsize, len: usize)
    requires
        len > 0,
{
    let _ = index.fetch_update(Ordering::SeqCst, Ordering::Relaxed, |old| Some(next_turn(old, len)));
}

impl<T: Clone + PartialEq> RoundRobin<T> {
    /// The servers, in order.
    pub closed spec fn members(&self) -> Seq<T> {
        self.nodes@
    }

    /// The shared turn index.
    pub closed spec fn turn_index(&self) -> AtomicUsize {
        self.index
    }

    /// A round robin with no servers.
    pub fn new() -> (r: RoundRobin<T>)
        ensures
            r.members() == Seq::<T>::empty(),
            call_ensures(AtomicUsize::new, (0usize,), r.turn_index()),
    {
        RoundRobin { nodes: Vec::new(), index: AtomicUsize::new(0) }
    }

    /// Adds a server at the end.
    pub fn add_node(&mut self, host: T)
        ensures
            final(self).members() == old(self).members().push(host),
    {
        self.nodes.push(host)
    }

    /// Removes the first server that compares equal to `host`, if any.
    pub fn remove_node(&mut self, host: T)
        ensures
            T::obeys_eq_spec() ==> final(self).members() == without_first(old(self).members(), host),
    {
        let pos = position_of(&self.nodes, &host);
        match pos {
            Some(x) => {
                proof {
                    if T::obeys_eq_spec() {
                        lemma_without_first(self.nodes@, host, x as int);
                    }
                }
                self.nodes.remove(x);
            },
            None => {
                proof {
                    if T::obeys_eq_spec() {
                        assert(!exists|i: int| first_equal_at(self.nodes@, host, i));
                    }
                }
            },
        }
    }

    /// Removes every server that some entry of `hosts` compares equal to.
    pub fn remove_nodes(&mut self, hosts: Vec<T>)
        ensures
            T::obeys_eq_spec() ==> final(self).members() == unlisted(old(self).members(), hosts@),
    {
        retain_unlisted(&mut self.nodes, &hosts);
    }

    /// Adds `hosts` at the end, in order.
    pub fn add_nodes(&mut self, hosts: Vec<T>)
        ensures
            final(self).members() == old(self).members() + hosts@,
    {
        let mut hosts = hosts;
        self.nodes.append(&mut hosts);
    }

    /// Copies of the servers, in order.
    pub fn list_nodes(&self) -> (r: Vec<T>)
        ensures
            copies(self.members(), r@),
    {
        copy_all(&self.nodes)
    }

    /// Makes `hosts` the servers.
    pub fn replace_nodes(&mut self, hosts: Vec<T>)
        ensures
            final(self).members() == hosts@,
    {
        self.nodes = hosts;
    }

    /// A copy of the server at place `i`.
    pub fn copy_at(&self, i: usize) -> (r: T)
        requires
            i < self.members().len(),
        ensures
            cloned(self.members()[i as int], r),
    {
        self.nodes[i].clone()
    }

    /// A copy of the server at turn `i`, or `None` where the turn does not
    /// fall on a server.
    pub fn pick_at(&self, i: usize) -> (r: Option<T>)
        ensures
            i < self.members().len() ==> (r matches Some(x) && cloned(self.members()[i as int], x)),
            i >= self.members().len() ==> r is None,
    {
        if i < self.nodes.len() {
            Some(self.copy_at(i))
        } else {
            None
        }
    }

    /// Moves the turn index on by one, wrapping at the end of the list.
    pub fn next(&self)
        requires
            self.members().len() > 0,
    {
        advance(&self.index, self.nodes.len());
    }

    /// The turn index at this instant; other threads may move it at any
    /// time.
    pub fn index(&self) -> (r: usize)
        ensures
            exists|o| #[trigger] call_ensures(AtomicUsize::load, (&self.turn_index(), o), r),
    {
        let r = self.index.load(Ordering::SeqCst);
        proof {
            assert(call_ensures(AtomicUsize::load, (&self.turn_index(), Ordering::SeqCst), r));
        }
        r
    }
}

impl<T: Clone + PartialEq> From<Vec<T>> for RoundRobin<T> {
    /// A round robin over `vec`, starting at its first server.
    fn from(vec: Vec<T>) -> (r: RoundRobin<T>)
        ensures
            r.members() == vec@,
            call_ensures(AtomicUsize::new, (0usize,), r.turn_index()),
    {
        let index = AtomicUsize::new(0);
        RoundRobin { nodes: vec, index }
    }
}

impl<T: Clone + PartialEq> vstd::std_specs::convert::FromSpecImpl<Vec<T>> for RoundRobin<T> {
    open spec fn obeys_from_spec() -> bool {
        false
    }

    open spec fn from_spec(v: Vec<T>) -> Self {
        arbitrary()
    }
}

impl<T: Clone + PartialEq> Distributor for RoundRobin<T> {
    type Item = T;

    open spec fn may_pick(&self, item: T) -> bool {
        exists|i: int| 0 <= i < self.members().len() && cloned(#[trigger] self.members()[i], item)
    }

    open spec fn can_pick(&self) -> bool {
        self.members().len() > 0
    }

    /// A copy of the server at the current turn, after which the turn moves
    /// on. The turn index is shared with other threads and nothing is known
    /// of its value here; where it does not fall on a server (the list has
    /// shrunk below it), the result is `None` and the turn stays.
    fn pick(&self) -> (r: Option<T>)
        ensures
            exists|t: usize| #[trigger] call_ensures(Self::index, (self,), t) && {
                &&& t < self.members().len() ==> (r matches Some(x) && cloned(self.members()[t as int], x))
                    && call_ensures(Self::next, (self,), ())
                &&& t >= self.members().len() ==> r is None
            },
    {
        let r = self.pick_at(self.index());
        if r.is_some() {
            self.next();
        }
        r
    }
}

/// Copies of the entries of `v`, in order.
pub fn copy_all<T: Clone>(v: &Vec<T>) -> (r: Vec<T>)
    ensures
        copies(v@, r@),
{
    let mut out: Vec<T> = Vec::new();
    let mut i: usize = 0;
    while i < v.len()
        invariant
            i <= v@.len(),
            out@.len() == i,
            forall|k: int| 0 <= k < i ==> cloned(#[trigger] v@[k], out@[k]),
        decreases v@.len() - i,
    {
        out.push(v[i].clone());
        i = i + 1;
    }
    out
}

/// Keeps, in order, the entries of `v` that no entry of `hosts` compares
/// equal to.
pub fn retain_unlisted<T: PartialEq>(v: &mut Vec<T>, hosts: &Vec<T>)
    ensures
        T::obeys_eq_spec() ==> final(v)@ == unlisted(old(v)@, hosts@),
{
    let ghost s0 = v@;
    let ghost mut j: int = 0;
    let ghost keep = |n: T| !listed(hosts@, n);
    let mut i: usize = 0;
    while i < v.len()
        invariant
            0 <= j <= s0.len(),
            i <= v@.len(),
            keep == (|n: T| !listed(hosts@, n)),
            T::obeys_eq_spec() ==> v@ == s0.take(j).filter(keep) + s0.skip(j),
            T::obeys_eq_spec() ==> i == s0.take(j).filter(keep).len(),
            v@.len() - i == s0.len() - j,
        decreases v@.len() - i,
    {
        let ghost before = v@;
        let found = is_listed(hosts, &v[i]);
        proof {
            reveal(Seq::filter);
            assert(s0.take(j + 1).drop_last() =~= s0.take(j));
            assert(s0.take(j + 1).last() == s0[j]);
            assert(s0.skip(j + 1) =~= s0.skip(j).drop_first());
            if T::obeys_eq_spec() {
                assert(before[i as int] == s0.skip(j)[0]);
                assert(s0.skip(j)[0] == s0[j]);
            }
        }
        if !found {
            proof {
                if T::obeys_eq_spec() {
                    let f = s0.take(j).filter(keep);
                    assert(s0.take(j + 1).filter(keep) == f.push(s0[j]));
                    assert(f.push(s0[j]) + s0.skip(j + 1) =~= f + s0.skip(j));
                }
            }
            i = i + 1;
        } else {
            v.remove(i);
            proof {
                if T::obeys_eq_spec() {
                    let f = s0.take(j).filter(keep);
                    assert(s0.take(j + 1).filter(keep) == f);
                    assert(before.remove(i as int) =~= f + s0.skip(j + 1));
                }
            }
        }
        proof {
            j = j + 1;
        }
    }
    proof {
        assert(j == s0.len());
        assert(s0.take(j) =~= s0);
        assert(s0.skip(j) =~= Seq::<T>::empty());
        if T::obeys_eq_spec() {
            assert(v@ =~= s0.filter(keep));
        }
    }
}

} // verus!
