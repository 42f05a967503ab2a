//! A common interface to the server sets of the policies.

use vstd::prelude::*;
use vstd::std_specs::cmp::PartialEqSpec;

use super::copies;
use super::p2c::counted_kept;
use super::p2c::counted_without_first;
use super::p2c::inners;
use super::p2c::P2C;
use super::round_robin::copy_all;
use super::round_robin::RoundRobin;
use super::still_listed;
use super::unlisted;
use super::without_first;
use super::Loaded;

verus! {

/// Some entry of `kept` does not compare equal to `h`.
pub open spec fn differs_from_some<T: PartialEq>(kept: Seq<T>, h: T) -> bool {
    exists|i: int| 0 <= i < kept.len() && !#[trigger] kept[i].eq_spec(&h)
}

/// What `resolve` makes of the servers of a counted policy: the servers that
/// `hosts` still lists, in order, then a copy of each entry of `hosts` that
/// some server so kept does not compare equal to.
pub open spec fn counted_resolution<T: Clone + PartialEq>(
    before: Seq<T>,
    hosts: Seq<T>,
    after: Seq<T>,
) -> bool {
    let kept = still_listed(before, hosts);
    let added = hosts.filter(|h: T| differs_from_some(kept, h));
    &&& after.take(kept.len() as int) == kept
    &&& after.len() == kept.len() + added.len()
    &&& copies(added, after.skip(kept.len() as int))
}

/// A set of servers that can be changed one server or many at a time.
pub trait ServerSet<T: Clone + PartialEq>: Sized {
    /// The servers, in order.
    spec fn set_members(&self) -> Seq<T>;

    /// Whether `after` is how the set arranges the servers `servers`: as
    /// they are, or in the set's own order.
    spec fn arranged(servers: Seq<T>, after: Seq<T>) -> bool;

    /// Whether `after` is what `resolve` with `hosts` may make of `before`.
    spec fn resolves_to(before: Seq<T>, hosts: Seq<T>, after: Seq<T>) -> bool;

    /// An empty set.
    fn new() -> (r: Self)
        ensures
            r.set_members() == Seq::<T>::empty(),
    ;

    /// Adds a server.
    fn add(&mut self, node: T)
        ensures
            Self::arranged(old(self).set_members().push(node), final(self).set_members()),
    ;

    /// Removes the first server that compares equal to `node`, if any.
    fn remove(&mut self, node: T)
        ensures
            T::obeys_eq_spec() ==> Self::arranged(
                without_first(old(self).set_members(), node),
                final(self).set_members(),
            ),
    ;

    /// Removes every server that some entry of `nodes` compares equal to.
    fn remove_nodes(&mut self, nodes: Vec<T>)
        ensures
            T::obeys_eq_spec() ==> Self::arranged(
                unlisted(old(self).set_members(), nodes@),
                final(self).set_members(),
            ),
    ;

    /// Adds `nodes`.
    fn add_nodes(&mut self, nodes: Vec<T>)
        ensures
            Self::arranged(old(self).set_members() + nodes@, final(self).set_members()),
    ;

    /// Copies of the servers, in order.
    fn list(&self) -> (r: Vec<T>)
        ensures
            copies(self.set_members(), r@),
    ;

    /// Brings the set in line with `v`.
    fn resolve(&mut self, v: Vec<T>)
        ensures
            T::obeys_eq_spec() ==> Self::resolves_to(
                old(self).set_members(),
                v@,
                final(self).set_members(),
            ),
    ;
}

impl<T: Clone + PartialEq> ServerSet<T> for RoundRobin<T> {
    open spec fn set_members(&self) -> Seq<T> {
        self.members()
    }

    /// Servers stay in the order they were added in.
    open spec fn arranged(servers: Seq<T>, after: Seq<T>) -> bool {
        after == servers
    }

    /// The set becomes exactly `hosts`.
    open spec fn resolves_to(before: Seq<T>, hosts: Seq<T>, after: Seq<T>) -> bool {
        after == hosts
    }

    fn new() -> (r: Self) {
        RoundRobin::new()
    }

    fn add(&mut self, host: T) {
        self.add_node(host)
    }

    fn remove(&mut self, host: T) {
        self.remove_node(host)
    }

    fn remove_nodes(&mut self, hosts: Vec<T>) {
        RoundRobin::remove_nodes(self, hosts)
    }

    fn add_nodes(&mut self, hosts: Vec<T>) {
        RoundRobin::add_nodes(self, hosts)
    }

    fn list(&self) -> (r: Vec<T>) {
        self.list_nodes()
    }

    fn resolve(&mut self, v: Vec<T>) {
        self.replace_nodes(v)
    }
}

impl<T: Clone + PartialEq> ServerSet<T> for P2C<T> {
    open spec fn set_members(&self) -> Seq<T> {
        self.members()
    }

    /// Servers stay in the order they were added in.
    open spec fn arranged(servers: Seq<T>, after: Seq<T>) -> bool {
        after == servers
    }

    open spec fn resolves_to(before: Seq<T>, hosts: Seq<T>, after: Seq<T>) -> bool {
        counted_resolution(before, hosts, after)
    }

    fn new() -> (r: Self) {
        P2C::new()
    }

    /// The old entries, with their counts, then a new one for `node`.
    fn add(&mut self, node: T)
        ensures
            final(self).counted().drop_last() == old(self).counted(),
    {
        self.add_node(node)
    }

    /// The old entries, with their counts, but the first whose server
    /// compares equal to `node`.
    fn remove(&mut self, node: T)
        ensures
            T::obeys_eq_spec() ==> final(self).counted() == counted_without_first(old(self).counted(), node),
    {
        self.remove_node(node)
    }

    /// The old entries, with their counts, then a new one for each of
    /// `hosts`.
    fn add_nodes(&mut self, hosts: Vec<T>)
        ensures
            final(self).counted().take(old(self).counted().len() as int) == old(self).counted(),
    {
        P2C::add_nodes(self, hosts)
    }

    /// The old entries, with their counts, whose server no entry of `hosts`
    /// compares equal to.
    fn remove_nodes(&mut self, hosts: Vec<T>)
        ensures
            T::obeys_eq_spec() ==> final(self).counted() == counted_kept(old(self).counted(), hosts@, false),
    {
        P2C::remove_nodes(self, hosts)
    }

    fn list(&self) -> (r: Vec<T>) {
        self.list_inners()
    }

    /// Keeps the servers that `hosts` still lists, then adds a server with no
    /// requests in flight for each entry of `hosts` that some kept server
    /// does not compare equal to.
    fn resolve(&mut self, hosts: Vec<T>)
        ensures
            T::obeys_eq_spec() ==> final(self).counted().take(
                counted_kept(old(self).counted(), hosts@, true).len() as int,
            ) == counted_kept(old(self).counted(), hosts@, true),
    {
        self.resolve_counted(hosts)
    }
}

} // verus!
