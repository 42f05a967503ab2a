//! Load-balancing policies over a list of servers: round robin,
//! power-of-two-choices (random and keyed) and consistent hashing on a
//! jump-hash ring, together with the per-server load counters that the
//! policies compare.

pub mod hashing;
pub mod node;
pub mod load;
pub mod order;
pub mod server_list;
pub mod random;
pub mod round_robin;
pub mod p2c;
pub mod chash;
pub mod metric;
pub mod laws;
pub mod policies;

use vstd::prelude::*;

verus! {

/// A policy that picks a server for each request.
pub trait Balancer {
    /// What the policy hands out.
    type Node;

    /// The list it picks from.
    type Servers;

    /// The nodes the policy picks among.
    spec fn pool(&self) -> Seq<Self::Node>;

    /// Picks a node for the next request; the pool may not be empty.
    fn balance(&self) -> (r: &Self::Node)
        requires
            self.pool().len() > 0,
        ensures
            self.pool().contains(*r),
    ;

    /// The server list, as a value.
    spec fn balanced_servers(&self) -> Self::Servers;

    /// The server list.
    fn servers(&self) -> (r: &Self::Servers)
        ensures
            *r == self.balanced_servers(),
    ;

    /// The server list, for changes; what is done to it is what the policy
    /// balances over afterwards.
    fn servers_mut(&mut self) -> (r: &mut Self::Servers)
        ensures
            *r == old(self).balanced_servers(),
            final(self).balanced_servers() == *final(r),
    ;
}

/// A policy that picks a server from a request's key.
pub trait KeyedBalancer {
    /// What the policy hands out.
    type Node;

    /// The list it picks from.
    type Servers;

    /// The nodes the policy picks among.
    spec fn keyed_pool(&self) -> Seq<Self::Node>;

    /// The nodes that a request with this key may be sent to.
    spec fn key_choices(&self, key: Seq<u8>) -> Set<Self::Node>;

    /// Picks a node for a request with this key; the pool may not be empty.
    fn balance(&self, key: &[u8]) -> (r: &Self::Node)
        requires
            self.keyed_pool().len() > 0,
        ensures
            self.keyed_pool().contains(*r),
            self.key_choices(key@).contains(*r),
    ;

    /// The server list, as a value.
    spec fn keyed_servers(&self) -> Self::Servers;

    /// The server list.
    fn servers(&self) -> (r: &Self::Servers)
        ensures
            *r == self.keyed_servers(),
    ;

    /// The server list, for changes; what is done to it is what the policy
    /// balances over afterwards.
    fn servers_mut(&mut self) -> (r: &mut Self::Servers)
        ensures
            *r == old(self).keyed_servers(),
            final(self).keyed_servers() == *final(r),
    ;
}

} // verus!
