//! Policies that hand out copies of the servers they hold and count the
//! requests each server has in flight.

use std::borrow::Borrow;
use std::sync::atomic::AtomicUsize;
use std::sync::atomic::Ordering;
use vstd::prelude::*;
use vstd::std_specs::cmp::PartialEqSpec;

pub mod chash;
pub mod p2c;
pub mod round_robin;
pub mod server_sets;

verus! {

/// `s[i]` is the first entry of `s` that compares equal to `x`.
pub open spec fn first_equal_at<T: PartialEq>(s: Seq<T>, x: T, i: int) -> bool {
    &&& 0 <= i < s.len()
    &&& s[i].eq_spec(&x)
    &&& forall|j: int| 0 <= j < i ==> !#[trigger] s[j].eq_spec(&x)
}

/// Some entry of `hosts` compares equal to `x`.
pub open spec fn listed<T: PartialEq>(hosts: Seq<T>, x: T) -> bool {
    exists|k: int| 0 <= k < hosts.len() && #[trigger] hosts[k].eq_spec(&x)
}

/// `s` without its first entry that compares equal to `x` (all of `s` when
/// none does).
pub open spec fn without_first<T: PartialEq>(s: Seq<T>, x: T) -> Seq<T> {
    if exists|i: int| first_equal_at(s, x, i) {
        s.remove(choose|i: int| first_equal_at(s, x, i))
    } else {
        s
    }
}

/// The entries of `s` that no entry of `hosts` compares equal to.
pub open spec fn unlisted<T: PartialEq>(s: Seq<T>, hosts: Seq<T>) -> Seq<T> {
    s.filter(|n: T| !listed(hosts, n))
}

/// The entries of `s` that some entry of `hosts` compares equal to.
pub open spec fn still_listed<T: PartialEq>(s: Seq<T>, hosts: Seq<T>) -> Seq<T> {
    s.filter(|n: T| listed(hosts, n))
}

/// `b` holds a copy of each entry of `a`, in order.
pub open spec fn copies<T: Clone>(a: Seq<T>, b: Seq<T>) -> bool {
    &&& a.len() == b.len()
    &&& forall|i: int| 0 <= i < a.len() ==> cloned(#[trigger] a[i], b[i])
}

/// The first place in `s` whose entry compares equal to `x`.
pub fn position_of<T: PartialEq>(s: &Vec<T>, x: &T) -> (r: Option<usize>)
    ensures
        r matches Some(i) ==> i < s@.len(),
        T::obeys_eq_spec() ==> match r {
            Some(i) => first_equal_at(s@, *x, i as int),
            None => forall|i: int| 0 <= i < s@.len() ==> !#[trigger] s@[i].eq_spec(x),
        },
{
    let mut i: usize = 0;
    while i < s.len()
        invariant
            i <= s@.len(),
            T::obeys_eq_spec() ==> forall|j: int| 0 <= j < i ==> !#[trigger] s@[j].eq_spec(x),
        decreases s@.len() - i,
    {
        if s[i] == *x {
            return Some(i);
        }
        i = i + 1;
    }
    None
}

/// Whether some entry of `hosts` compares equal to `x`, as `<[T]>::contains`
/// decides it.
pub fn is_listed<T: PartialEq>(hosts: &Vec<T>, x: &T) -> (r: bool)
    ensures
        T::obeys_eq_spec() ==> (r == listed(hosts@, *x)),
{
    let mut k: usize = 0;
    while k < hosts.len()
        invariant
            k <= hosts@.len(),
            T::obeys_eq_spec() ==> forall|j: int| 0 <= j < k ==> !#[trigger] hosts@[j].eq_spec(x),
        decreases hosts@.len() - k,
    {
        if hosts[k] == *x {
            return true;
        }
        k = k + 1;
    }
    false
}

/// Removing the entry found by `position_of` is `without_first`.
pub proof fn lemma_without_first<T: PartialEq>(s: Seq<T>, x: T, i: int)
    requires
        first_equal_at(s, x, i),
    ensures
        without_first(s, x) == s.remove(i),
{
    let c = choose|c: int| first_equal_at(s, x, c);
    if c < i {
        assert(!s[c].eq_spec(&x));
    }
    if i < c {
        assert(!s[i].eq_spec(&x));
    }
}

/// Picks servers for keys.
pub trait Sharder {
    /// What is handed out.
    type Item;

    /// What a request is keyed by.
    type Key;

    /// A server for the key.
    fn pick(&self, key: Self::Key) -> Option<Self::Item>;

    /// `n` servers for the key.
    fn pick_n(&self, key: Self::Key, n: usize) -> Vec<Self::Item>;
}

/// Hands out a server for each request.
pub trait Distributor {
    /// What is handed out.
    type Item;

    /// Whether `pick` can be called (it needs a server to pick from).
    spec fn can_pick(&self) -> bool;

    /// Whether `item` is something `pick` may hand out now.
    spec fn may_pick(&self, item: Self::Item) -> bool;

    /// A server for the next request, if there is one to hand out.
    fn pick(&self) -> (r: Option<Self::Item>)
        requires
            self.can_pick(),
        ensures
            r matches Some(x) ==> self.may_pick(x),
    ;
}

/// Hands out a server for each request and is told when the request is done.
pub trait CompletableDistributor {
    /// What is handed out.
    type Item;

    /// Whether `pick` can be called (it needs a server to pick from).
    spec fn can_pick(&self) -> bool;

    /// Whether `item` is something `pick` may hand out now.
    spec fn may_pick(&self, item: Self::Item) -> bool;

    /// A server for the next request.
    fn pick(&self) -> (r: Option<Self::Item>)
        requires
            self.can_pick(),
        ensures
            r matches Some(x) && self.may_pick(x),
    ;

    /// Reports that a request sent to `item` is done.
    fn done(&self, item: Self::Item);
}

/// A server together with the count of requests it has in flight; the count
/// may be updated from several threads at once.
pub struct Loaded<T> {
    pub inner: T,
    pub load: AtomicUsize,
}

impl<T> Loaded<T> {
    /// A server with no requests in flight.
    pub fn new(inner: T) -> (r: Loaded<T>)
        ensures
            r.inner == inner,
            call_ensures(AtomicUsize::new, (0usize,), r.load),
    {
        let load = AtomicUsize::new(0);
        Loaded { load, inner }
    }

    /// Counts one more request in flight: adds one to the count.
    pub fn incr(&self)
        ensures
            exists|v: usize, o| #[trigger] call_ensures(AtomicUsize::fetch_add, (&self.load, 1usize, o), v),
    {
        self.load.fetch_add(1, Ordering::SeqCst);
    }

    /// The count of requests in flight at this instant; other threads may
    /// change it at any time.
    pub fn load(&self) -> (r: usize)
        ensures
            exists|o| #[trigger] call_ensures(AtomicUsize::load, (&self.load, o), r),
    {
        self.load.load(Ordering::SeqCst)
    }

    /// Counts one request fewer in flight (the count wraps at zero, as
    /// atomics do): takes one from the count.
    pub fn decr(&self)
        ensures
            exists|v: usize, o| #[trigger] call_ensures(AtomicUsize::fetch_sub, (&self.load, 1usize, o), v),
    {
        self.load.fetch_sub(1, Ordering::SeqCst);
    }
}

impl<T> Borrow<T> for Loaded<T> {
    fn borrow(&self) -> &T {
        &self.inner
    }
}

impl<T: Clone> Clone for Loaded<T> {
    /// A copy of the server with the count it has at this instant: a new
    /// atomic made from the count read.
    fn clone(&self) -> (r: Self)
        ensures
            cloned(self.inner, r.inner),
            exists|v: usize|
                #![trigger call_ensures(Loaded::<T>::load, (self,), v)]
                call_ensures(Loaded::<T>::load, (self,), v) && call_ensures(AtomicUsize::new, (v,), r.load),
    {
        let load = AtomicUsize::new(self.load());
        Loaded { inner: self.inner.clone(), load }
    }
}

} // verus!
