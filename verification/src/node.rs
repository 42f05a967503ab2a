//! Servers and their identities.

use std::sync::Arc;
use vstd::prelude::*;

use crate::hashing::metrohash_of_str;
use crate::hashing::metrohash_of_u64;
use crate::hashing::metrohash_u64;
use crate::hashing::metrohash_str;
use crate::load::Counter;
use crate::load::Load;

verus! {

/// Something that can be balanced over: it has a 64-bit identity by which
/// server lists find it again and keep it unique.
pub trait Node {
    /// The identity of this value.
    spec fn node_id(&self) -> u64;

    /// Computes the identity of this value.
    fn id(&self) -> (r: u64)
        ensures
            r == self.node_id(),
    ;
}

/// A host name is identified by the MetroHash of its text.
impl Node for String {
    open spec fn node_id(&self) -> u64 {
        metrohash_of_str(self@)
    }

    fn id(&self) -> (r: u64) {
        metrohash_str(self.as_str())
    }
}

/// A host name given as a string slice is identified as the same name held
/// in a `String`.
impl<'a> Node for &'a str {
    open spec fn node_id(&self) -> u64 {
        metrohash_of_str(self@)
    }

    fn id(&self) -> (r: u64) {
        metrohash_str(*self)
    }
}

/// A numbered host is identified by the MetroHash of its number.
impl Node for u64 {
    open spec fn node_id(&self) -> u64 {
        metrohash_of_u64(*self)
    }

    fn id(&self) -> (r: u64) {
        metrohash_u64(*self)
    }
}

/// A server together with the load figure that the policies compare.
#[derive(Clone)]
pub struct WeightedNode<T, L> {
    value: Arc<T>,
    load: L,
}

impl<T, L> WeightedNode<T, L> {
    /// The server this node stands for.
    pub closed spec fn host(&self) -> T {
        *self.value
    }

    /// The load figure of this node.
    pub closed spec fn load_of(&self) -> L {
        self.load
    }
}

impl<T: Node, L> Node for WeightedNode<T, L> {
    open spec fn node_id(&self) -> u64 {
        self.host().node_id()
    }

    fn id(&self) -> (r: u64) {
        self.value.id()
    }
}

impl<T, L: Load> WeightedNode<T, L> {
    /// The load figure of this node.
    pub fn load(&self) -> (r: &L)
        ensures
            *r == self.load_of(),
    {
        &self.load
    }

    /// The server this node stands for.
    pub fn value(&self) -> (r: &T)
        ensures
            *r == self.host(),
    {
        &self.value
    }

    /// Wraps a server with a fresh load figure, made by `Load::new`.
    pub fn new(value: T) -> (r: Self)
        ensures
            r.host() == value,
            call_ensures(L::new, (), r.load_of()),
    {
        WeightedNode { value: Arc::new(value), load: L::new() }
    }
}

/// A node whose load figure counts the requests in flight.
pub type LeastLoaded<T> = WeightedNode<T, Counter>;

/// Nodes whose load figure counts the requests in flight.
impl<T> WeightedNode<T, Counter> {
    /// Counts a request sent to this node: adds one to this node's counter.
    pub fn start(&self)
        ensures
            exists|v: usize| #[trigger] call_ensures(Counter::incr, (&self.load_of(),), v),
    {
        self.load().incr();
    }

    /// Counts a request to this node as done: takes one from this node's
    /// counter.
    pub fn end(&self)
        ensures
            exists|v: usize| #[trigger] call_ensures(Counter::decr, (&self.load_of(),), v),
    {
        self.load().decr();
    }
}

} // verus!
