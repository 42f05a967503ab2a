//! Round robin over a server list.

use std::sync::atomic::AtomicUsize;
use std::sync::atomic::Ordering;
use vstd::prelude::*;

use crate::node::Node;
use crate::node::WeightedNode;
use crate::server_list::ServerList;
use crate::Balancer;

verus! {

/// Hands out the servers of its list in turn; the turn counter is shared by
/// every thread that balances through it.
pub struct RoundRobin<T> {
    servers: ServerList<T, ()>,
    counter: AtomicUsize,
}

/// The place in a list of `len` servers that turn number `turn` falls on.
pub fn turn_slot(turn: usize, len: usize) -> (r: usize)
    requires
        len > 0,
    ensures
        r == turn % len,
        r < len,
{
    turn % len
}

impl<T: Node> RoundRobin<T> {
    /// A round robin over `servers`, starting at the first.
    pub fn new(servers: ServerList<T, ()>) -> (r: Self)
        ensures
            r.servers_view() == servers,
            call_ensures(AtomicUsize::new, (0usize,), r.turn_counter()),
    {
        RoundRobin { servers, counter: AtomicUsize::new(0) }
    }

    /// The server list.
    pub closed spec fn servers_view(&self) -> ServerList<T, ()> {
        self.servers
    }

    /// The turn counter, shared by every thread that balances through this
    /// round robin.
    pub closed spec fn turn_counter(&self) -> AtomicUsize {
        self.counter
    }

    /// Takes the next turn: the counter value before this call adds one to
    /// it. The counter is shared between threads, so which value a call
    /// takes is not known here.
    pub fn take_turn(&self) -> (r: usize)
        ensures
            exists|o| #[trigger] call_ensures(AtomicUsize::fetch_add, (&self.turn_counter(), 1usize, o), r),
    {
        let r = self.counter.fetch_add(1, Ordering::Relaxed);
        proof {
            assert(call_ensures(AtomicUsize::fetch_add, (&self.turn_counter(), 1usize, Ordering::Relaxed), r));
        }
        r
    }

    /// Takes the next turn and returns the server it falls on: turn `t`
    /// falls on place `t` modulo the length of the list, so consecutive turns
    /// hand out consecutive places and wrap at the end of the list.
    fn next(&self) -> (r: &WeightedNode<T, ()>)
        requires
            self.servers_view()@.len() > 0,
        ensures
            self.servers_view()@.contains(*r),
            exists|t: usize| #[trigger] call_ensures(Self::take_turn, (self,), t)
                && *r == self.servers_view()@[(t as int) % (self.servers_view()@.len() as int)],
    {
        let servers = self.servers.list();
        let turn = self.take_turn();
        let i = turn_slot(turn, servers.len());
        &servers[i]
    }
}

impl<T: Node> Balancer for RoundRobin<T> {
    type Node = WeightedNode<T, ()>;

    type Servers = ServerList<T, ()>;

    open spec fn pool(&self) -> Seq<WeightedNode<T, ()>> {
        self.servers_view()@
    }

    open spec fn balanced_servers(&self) -> ServerList<T, ()> {
        self.servers_view()
    }

    /// The server that the turn this call takes falls on.
    fn balance(&self) -> (r: &WeightedNode<T, ()>)
        ensures
            exists|t: usize| #[trigger] call_ensures(Self::take_turn, (self,), t)
                && *r == self.servers_view()@[(t as int) % (self.servers_view()@.len() as int)],
    {
        self.next()
    }

    fn servers(&self) -> (r: &ServerList<T, ()>) {
        &self.servers
    }

    fn servers_mut(&mut self) -> (r: &mut ServerList<T, ()>) {
        &mut self.servers
    }
}

} // verus!
