//! Power of two choices: look at two servers, send the request to one.

use std::cmp::Ordering;
use vstd::std_specs::cmp::PartialOrdSpec;
use vstd::prelude::*;

use crate::hashing::metrohash64;
use crate::hashing::metrohash64_bytes;
use crate::hashing::xxhash64;
use crate::hashing::xxhash64_bytes;
use crate::load::Load;
use crate::node::Node;
use crate::node::WeightedNode;
use crate::random::pick_any;
use crate::server_list::ServerList;

verus! {

/// Picks two servers (at random, or by two hashes of a key) and keeps the one
/// whose load is not below the other's.
pub struct P2C<T, L> where T: Node, L: Load {
    servers: ServerList<T, L>,
}

/// The place in a list of `len` servers that a hash code falls on.
pub fn hash_slot(code: u64, len: usize) -> (r: usize)
    requires
        len > 0,
    ensures
        r == (code as usize) % len,
        r < len,
{
    (code as usize) % len
}

/// Whether the first of two load figures is at least the second.
pub fn at_least<M: Ord>(a: &M, b: &M) -> (r: bool)
    ensures
        M::obeys_partial_cmp_spec() ==> (r <==> (a.partial_cmp_spec(b) == Some(Ordering::Greater)
            || a.partial_cmp_spec(b) == Some(Ordering::Equal))),
{
    *a >= *b
}

/// Whether load figure `a` is at least load figure `b`, by the order of
/// their type.
pub open spec fn figure_at_least<M: PartialOrd>(a: M, b: M) -> bool {
    a.partial_cmp_spec(&b) == Some(Ordering::Greater) || a.partial_cmp_spec(&b) == Some(Ordering::Equal)
}

/// Of two nodes, the first if its load figure is at least the second's,
/// else the second. The figures are read once each, and other threads may
/// change them at any time; the node returned is the one those two readings
/// pick.
pub fn busier<'a, T, L: Load>(a: &'a WeightedNode<T, L>, b: &'a WeightedNode<T, L>) -> (r: &'a WeightedNode<T, L>)
    ensures
        r == a || r == b,
        exists|la: L::Metric, lb: L::Metric|
            #![trigger call_ensures(L::load, (&a.load_of(),), la), call_ensures(L::load, (&b.load_of(),), lb)]
            {
                &&& call_ensures(L::load, (&a.load_of(),), la)
                &&& call_ensures(L::load, (&b.load_of(),), lb)
                &&& L::Metric::obeys_partial_cmp_spec() ==> r == (if la.partial_cmp_spec(&lb) == Some(Ordering::Greater)
                    || la.partial_cmp_spec(&lb) == Some(Ordering::Equal) {
                    a
                } else {
                    b
                })
            },
{
    let la = a.load().load();
    let lb = b.load().load();
    busier_of(a, b, &la, &lb)
}

/// Of two nodes whose load figures read `la` and `lb`, the first if `la` is
/// at least `lb`, else the second.
pub fn busier_of<'a, T, L: Load>(
    a: &'a WeightedNode<T, L>,
    b: &'a WeightedNode<T, L>,
    la: &L::Metric,
    lb: &L::Metric,
) -> (r: &'a WeightedNode<T, L>)
    ensures
        r == a || r == b,
        L::Metric::obeys_partial_cmp_spec() ==> (r == (if la.partial_cmp_spec(lb) == Some(
            Ordering::Greater,
        ) || la.partial_cmp_spec(lb) == Some(Ordering::Equal) {
            a
        } else {
            b
        })),
{
    if at_least(la, lb) {
        a
    } else {
        b
    }
}

/// Two servers drawn at random from a non-empty list, in the order they
/// were drawn; which ones come out is left open (they are random).
pub fn draw_pair<'a, T: Node, L: Load>(servers: &'a ServerList<T, L>) -> (r: (
    &'a WeightedNode<T, L>,
    &'a WeightedNode<T, L>,
))
    requires
        servers@.len() > 0,
    ensures
        servers@.contains(*r.0),
        servers@.contains(*r.1),
{
    let list = servers.list();
    let a = pick_any(list.as_slice()).unwrap();
    let b = pick_any(list.as_slice()).unwrap();
    (a, b)
}

impl<T, L> P2C<T, L> where T: Node, L: Load {
    /// A policy over `servers`.
    pub fn new(servers: ServerList<T, L>) -> (r: Self)
        ensures
            r.servers_view() == servers,
    {
        P2C { servers }
    }

    /// The server list.
    pub closed spec fn servers_view(&self) -> ServerList<T, L> {
        self.servers
    }

    /// The node that a hash code falls on.
    fn hash(&self, code: u64) -> (r: &WeightedNode<T, L>)
        requires
            self.servers_view()@.len() > 0,
        ensures
            *r == self.servers_view()@[hash_slot_of(code, self.servers_view()@.len())],
    {
        let servers = self.servers.list();
        let index = hash_slot(code, servers.len());
        &servers[index]
    }

    /// What `Balancer::balance` picks: of two servers drawn at random, the
    /// first if the figure read from its load is at least the one read from
    /// the second's, else the second.
    pub fn random_choice(&self) -> (r: &WeightedNode<T, L>)
        requires
            self.servers_view()@.len() > 0,
        ensures
            self.servers_view()@.contains(*r),
            exists|d: (&WeightedNode<T, L>, &WeightedNode<T, L>), la: L::Metric, lb: L::Metric|
                #![trigger call_ensures(draw_pair::<T, L>, (&self.servers_view(),), d), call_ensures(L::load, (&d.0.load_of(),), la), call_ensures(L::load, (&d.1.load_of(),), lb)]
                {
                    &&& call_ensures(draw_pair::<T, L>, (&self.servers_view(),), d)
                    &&& call_ensures(L::load, (&d.0.load_of(),), la)
                    &&& call_ensures(L::load, (&d.1.load_of(),), lb)
                    &&& L::Metric::obeys_partial_cmp_spec() ==> *r == (if la.partial_cmp_spec(&lb) == Some(Ordering::Greater)
                        || la.partial_cmp_spec(&lb) == Some(Ordering::Equal) {
                        *d.0
                    } else {
                        *d.1
                    })
                },
    {
        let d = draw_pair(&self.servers);
        busier(d.0, d.1)
    }

    /// What `KeyedBalancer::balance` picks for `key`: the node at the
    /// MetroHash place of the key if the figure read from its load is at least
    /// the one read from the load of the node at the xxHash place, else the
    /// latter.
    pub fn keyed_choice(&self, key: &[u8]) -> (r: &WeightedNode<T, L>)
        requires
            self.servers_view()@.len() > 0,
        ensures
            0 <= self.first_choice(key@) < self.servers_view()@.len(),
            0 <= self.second_choice(key@) < self.servers_view()@.len(),
            *r == self.servers_view()@[self.first_choice(key@)] || *r == self.servers_view()@[self.second_choice(key@)],
            exists|la: L::Metric, lb: L::Metric|
                #![trigger call_ensures(L::load, (&self.servers_view()@[self.first_choice(key@)].load_of(),), la), call_ensures(L::load, (&self.servers_view()@[self.second_choice(key@)].load_of(),), lb)]
                {
                    &&& call_ensures(L::load, (&self.servers_view()@[self.first_choice(key@)].load_of(),), la)
                    &&& call_ensures(L::load, (&self.servers_view()@[self.second_choice(key@)].load_of(),), lb)
                    &&& L::Metric::obeys_partial_cmp_spec() ==> *r == (if la.partial_cmp_spec(&lb) == Some(Ordering::Greater)
                        || la.partial_cmp_spec(&lb) == Some(Ordering::Equal) {
                        self.servers_view()@[self.first_choice(key@)]
                    } else {
                        self.servers_view()@[self.second_choice(key@)]
                    })
                },
    {
        let a = self.hash(metrohash64_bytes(key));
        let b = self.hash(xxhash64_bytes(key));
        busier(a, b)
    }

    /// The place the MetroHash of `key` falls on.
    pub open spec fn first_choice(&self, key: Seq<u8>) -> int {
        hash_slot_of(metrohash64(key), self.servers_view()@.len())
    }

    /// The place the xxHash of `key` falls on.
    pub open spec fn second_choice(&self, key: Seq<u8>) -> int {
        hash_slot_of(xxhash64(key), self.servers_view()@.len())
    }
}

/// The place in a list of `len` servers that a hash code falls on.
pub open spec fn hash_slot_of(code: u64, len: nat) -> int {
    ((code as usize) as int) % (len as int)
}

impl<T, L> crate::Balancer for P2C<T, L> where T: Node, L: Load {
    type Node = WeightedNode<T, L>;

    type Servers = ServerList<T, L>;

    open spec fn pool(&self) -> Seq<WeightedNode<T, L>> {
        self.servers_view()@
    }

    open spec fn balanced_servers(&self) -> ServerList<T, L> {
        self.servers_view()
    }

    /// Of two servers drawn at random, the first if the figure read from its
    /// load is at least the one read from the second's, else the second.
    fn balance(&self) -> (r: &WeightedNode<T, L>)
        ensures
            exists|d: (&WeightedNode<T, L>, &WeightedNode<T, L>), la: L::Metric, lb: L::Metric|
                #![trigger call_ensures(draw_pair::<T, L>, (&self.servers_view(),), d), call_ensures(L::load, (&d.0.load_of(),), la), call_ensures(L::load, (&d.1.load_of(),), lb)]
                {
                    &&& call_ensures(draw_pair::<T, L>, (&self.servers_view(),), d)
                    &&& call_ensures(L::load, (&d.0.load_of(),), la)
                    &&& call_ensures(L::load, (&d.1.load_of(),), lb)
                    &&& L::Metric::obeys_partial_cmp_spec() ==> *r == (if figure_at_least(la, lb) {
                        *d.0
                    } else {
                        *d.1
                    })
                },
    {
        self.random_choice()
    }

    fn servers(&self) -> (r: &ServerList<T, L>) {
        &self.servers
    }

    fn servers_mut(&mut self) -> (r: &mut ServerList<T, L>) {
        &mut self.servers
    }
}

impl<T, L> crate::KeyedBalancer for P2C<T, L> where T: Node, L: Load {
    type Node = WeightedNode<T, L>;

    type Servers = ServerList<T, L>;

    open spec fn keyed_pool(&self) -> Seq<WeightedNode<T, L>> {
        self.servers_view()@
    }

    /// The node at the MetroHash place of the key and the one at its xxHash
    /// place.
    open spec fn key_choices(&self, key: Seq<u8>) -> Set<WeightedNode<T, L>> {
        set![self.servers_view()@[self.first_choice(key)], self.servers_view()@[self.second_choice(key)]]
    }

    open spec fn keyed_servers(&self) -> ServerList<T, L> {
        self.servers_view()
    }

    /// The node at the MetroHash place of the key or the one at its xxHash
    /// place, whichever has the load figure not below the other's.
    fn balance(&self, key: &[u8]) -> (r: &WeightedNode<T, L>)
        ensures
            exists|la: L::Metric, lb: L::Metric|
                #![trigger call_ensures(L::load, (&self.servers_view()@[self.first_choice(key@)].load_of(),), la), call_ensures(L::load, (&self.servers_view()@[self.second_choice(key@)].load_of(),), lb)]
                {
                    &&& call_ensures(L::load, (&self.servers_view()@[self.first_choice(key@)].load_of(),), la)
                    &&& call_ensures(L::load, (&self.servers_view()@[self.second_choice(key@)].load_of(),), lb)
                    &&& L::Metric::obeys_partial_cmp_spec() ==> *r == (if figure_at_least(la, lb) {
                        self.servers_view()@[self.first_choice(key@)]
                    } else {
                        self.servers_view()@[self.second_choice(key@)]
                    })
                },
    {
        self.keyed_choice(key)
    }

    fn servers(&self) -> (r: &ServerList<T, L>) {
        &self.servers
    }

    fn servers_mut(&mut self) -> (r: &mut ServerList<T, L>) {
        &mut self.servers
    }
}

} // verus!
