//! Load figures: what a policy compares between two servers.

use std::sync::Arc;
use std::sync::atomic::AtomicUsize;
use std::sync::atomic::Ordering;
use vstd::prelude::*;

verus! {

/// A load figure attached to each server. A policy prefers the server whose
/// metric is smaller.
pub trait Load: Sized {
    /// The kind of figure the load reports.
    type Metric: Ord;

    /// Reads the current figure.
    fn load(&self) -> Self::Metric;

    /// A load figure for a server that has seen no work.
    fn new() -> Self;
}

/// The state behind a peak-EWMA load figure: an estimate of the round-trip
/// time (`cost`, in nanoseconds) and the number of requests in flight. Time
/// enters only as clock readings in nanoseconds handed to each step.
#[derive(Clone, Debug)]
pub struct EwmaState {
    penalty: i64,
    tau: i64,
    stamp: i64,
    cost: i64,
    pending: usize,
}

/// The load reported for a server with requests in flight and no measured
/// round trip yet: half of `i32::MAX`, rounded down.
pub const EWMA_PENALTY: i64 = 1073741823;

/// The decay window of the estimate: 15 seconds, in nanoseconds.
pub const EWMA_TAU: i64 = 15000000000;

impl EwmaState {
    /// The round-trip estimate, in nanoseconds.
    pub closed spec fn cost(&self) -> i64 {
        self.cost
    }

    /// The number of requests in flight.
    pub closed spec fn pending(&self) -> usize {
        self.pending
    }

    /// The load reported while requests are in flight and nothing is
    /// measured yet.
    pub closed spec fn penalty(&self) -> i64 {
        self.penalty
    }

    /// The decay window of the estimate.
    pub closed spec fn tau(&self) -> i64 {
        self.tau
    }

    /// The clock reading of the last update.
    pub closed spec fn stamp(&self) -> i64 {
        self.stamp
    }

    /// The constants are those the estimate is defined with, and the
    /// estimate is not negative.
    pub open spec fn wf(&self) -> bool {
        &&& self.penalty() == EWMA_PENALTY
        &&& self.tau() == EWMA_TAU
        &&& self.cost() >= 0
    }

    /// The load figure `load` reports for this state.
    pub open spec fn spec_load(&self) -> int {
        if self.cost() == 0 && self.pending() != 0 {
            self.penalty() + (self.pending() as i64)
        } else {
            self.cost() * ((self.pending() as i64) + 1)
        }
    }

    /// Whether `load` can compute its figure without overflow.
    pub open spec fn load_fits(&self) -> bool {
        if self.cost() == 0 && self.pending() != 0 {
            i64::MIN <= self.penalty() + (self.pending() as i64) <= i64::MAX
        } else {
            &&& (self.pending() as i64) < i64::MAX
            &&& i64::MIN <= self.cost() * ((self.pending() as i64) + 1) <= i64::MAX
        }
    }

    /// The estimate after an update at clock reading `now` with a measured
    /// round trip `rtt`: a faster round trip replaces the estimate at once; a
    /// slower one replaces it only when the last update lies a full decay
    /// window (or more) in the past.
    pub open spec fn cost_after(&self, now: i64, rtt: i64) -> i64 {
        let td = if now - self.stamp() >= 0 { now - self.stamp() } else { 0 };
        if rtt < self.cost() {
            rtt
        } else if td < self.tau() {
            self.cost()
        } else {
            rtt
        }
    }

    /// A state with no requests in flight and no estimate yet, stamped with
    /// the clock reading `stamp`.
    pub fn new(stamp: i64) -> (r: Self)
        ensures
            r.wf(),
            r.cost() == 0,
            r.pending() == 0,
            r.stamp() == stamp,
    {
        EwmaState { penalty: EWMA_PENALTY, tau: EWMA_TAU, stamp, cost: 0, pending: 0 }
    }

    /// Records a request that starts at clock reading `now`, and returns
    /// that reading for `end`.
    pub fn start(&mut self, now: i64) -> (r: i64)
        requires
            old(self).pending() < usize::MAX,
        ensures
            r == now,
            final(self).pending() == old(self).pending() + 1,
            final(self).cost() == old(self).cost(),
            final(self).stamp() == old(self).stamp(),
            old(self).wf() ==> final(self).wf(),
    {
        self.pending = self.pending + 1;
        now
    }

    /// Records the end, at clock reading `ended`, of a request that started
    /// at `ts`, and folds its round trip (never taken below zero) into the
    /// estimate at the clock reading `now`.
    pub fn end(&mut self, ended: i64, ts: i64, now: i64)
        requires
            old(self).pending() > 0,
            i64::MIN <= ended - ts <= i64::MAX,
            i64::MIN <= now - old(self).stamp() <= i64::MAX,
        ensures
            old(self).wf() ==> final(self).wf(),
            final(self).pending() == old(self).pending() - 1,
            final(self).stamp() == now,
            final(self).cost() == old(self).cost_after(
                now,
                if ended - ts > 0 { (ended - ts) as i64 } else { 0 },
            ),
    {
        let tm = ended - ts;
        let rtt = if tm > 0 { tm } else { 0 };
        self.pending = self.pending - 1;
        self.update(now, rtt);
    }

    /// Folds a round trip `rtt` into the estimate at clock reading `now`.
    ///
    /// The weight of the old estimate is `exp(-td / tau)` cut to an integer,
    /// where `td / tau` divides whole numbers; `exp` of 0 is 1, and `exp` of a
    /// negative whole number lies strictly between 0 and 1, so the weight is 1
    /// while `td < tau` and 0 after.
    fn update(&mut self, now: i64, rtt: i64)
        requires
            i64::MIN <= now - old(self).stamp() <= i64::MAX,
        ensures
            final(self).cost() == old(self).cost_after(now, rtt),
            final(self).stamp() == now,
            final(self).pending() == old(self).pending(),
            final(self).penalty == old(self).penalty,
            final(self).tau == old(self).tau,
            old(self).wf() && rtt >= 0 ==> final(self).wf(),
    {
        let t = now;
        let tr = t - self.stamp;
        let zero: i64 = 0;
        let td = if tr >= zero { tr } else { zero };
        let w: i64 = if td < self.tau { 1 } else { 0 };
        if rtt < self.cost {
            self.cost = rtt;
        } else {
            let c = self.cost;
            assert(c * w == if w == 1 { c } else { 0 }) by (nonlinear_arith)
                requires
                    w == 0 || w == 1,
            ;
            assert(rtt * (1 - w) == if w == 1 { 0 } else { rtt }) by (nonlinear_arith)
                requires
                    w == 0 || w == 1,
            ;
            self.cost = c * w + rtt * (1 - w);
        }
        self.stamp = t;
    }

    /// The load figure: the penalty plus the requests in flight while no
    /// round trip has been measured, else the estimate times one more than
    /// the requests in flight.
    pub fn load(&self) -> (r: i64)
        requires
            self.load_fits(),
        ensures
            r == self.spec_load(),
            self.wf() && self.pending() <= i64::MAX ==> r >= 0,
    {
        if self.cost == 0 && self.pending != 0 {
            self.penalty_figure()
        } else {
            let p = self.pending_figure();
            proof {
                if self.cost >= 0 && p >= 0 {
                    assert(self.cost * (p + 1) >= 0) by (nonlinear_arith)
                        requires
                            self.cost >= 0,
                            p >= 0,
                    {}
                }
            }
            self.cost * (p + 1)
        }
    }

    /// The load figure, or `None` where computing it would overflow.
    pub fn load_checked(&self) -> (r: Option<i64>)
        ensures
            r is Some <==> self.load_fits(),
            r matches Some(v) ==> v == self.spec_load(),
    {
        let p = self.pending_figure();
        if self.cost == 0 && self.pending != 0 {
            self.penalty.checked_add(p)
        } else {
            match p.checked_add(1) {
                Some(q) => self.cost.checked_mul(q),
                None => None,
            }
        }
    }

    /// The number of requests in flight.
    pub fn in_flight(&self) -> (r: usize)
        ensures
            r == self.pending(),
    {
        self.pending
    }

    /// The clock reading of the last update.
    pub fn stamped_at(&self) -> (r: i64)
        ensures
            r == self.stamp(),
    {
        self.stamp
    }

    fn penalty_figure(&self) -> (r: i64)
        requires
            self.load_fits(),
            self.cost() == 0 && self.pending() != 0,
        ensures
            r == self.spec_load(),
    {
        self.penalty + (self.pending as i64)
    }

    fn pending_figure(&self) -> (r: i64)
        ensures
            r == self.pending() as i64,
    {
        self.pending as i64
    }
}

/// A count of requests in flight, shared by every clone and safe to update
/// from several threads at once.
#[derive(Debug, Clone, Default)]
pub struct Counter {
    inner: Arc<AtomicUsize>,
}

impl Counter {
    /// The atomic integer that every clone of this counter shares.
    pub closed spec fn atomic(&self) -> AtomicUsize {
        *self.inner
    }

    /// Adds one to the count and returns the count before the addition.
    /// Other threads may update the count at any time, so the value returned
    /// is whatever the counter held at that instant.
    pub fn incr(&self) -> (r: usize)
        ensures
            exists|o| #[trigger] call_ensures(AtomicUsize::fetch_add, (&self.atomic(), 1usize, o), r),
    {
        let r = self.inner.fetch_add(1, Ordering::Relaxed);
        proof {
            assert(call_ensures(AtomicUsize::fetch_add, (&self.atomic(), 1usize, Ordering::Relaxed), r));
        }
        r
    }

    /// Takes one from the count and returns the count before the
    /// subtraction (the counter wraps at zero, as atomics do).
    pub fn decr(&self) -> (r: usize)
        ensures
            exists|o| #[trigger] call_ensures(AtomicUsize::fetch_sub, (&self.atomic(), 1usize, o), r),
    {
        let r = self.inner.fetch_sub(1, Ordering::Relaxed);
        proof {
            assert(call_ensures(AtomicUsize::fetch_sub, (&self.atomic(), 1usize, Ordering::Relaxed), r));
        }
        r
    }
}

impl Load for Counter {
    type Metric = usize;

    fn load(&self) -> (r: usize)
        ensures
            exists|o| #[trigger] call_ensures(AtomicUsize::load, (&self.atomic(), o), r),
    {
        let r = self.inner.load(Ordering::SeqCst);
        proof {
            assert(call_ensures(AtomicUsize::load, (&self.atomic(), Ordering::SeqCst), r));
        }
        r
    }

    fn new() -> (r: Self)
        ensures
            call_ensures(AtomicUsize::new, (0usize,), r.atomic()),
    {
        Counter { inner: Arc::new(AtomicUsize::new(0)) }
    }
}

/// No load figure at all: every server reports zero.
impl Load for () {
    type Metric = usize;

    fn load(&self) -> (r: usize)
        ensures
            r == 0,
    {
        0
    }

    fn new() -> Self {
    }
}

} // verus!
