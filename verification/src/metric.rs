//! Load figures as signed numbers, with a start and an end hook per request.

use vstd::prelude::*;

use crate::load::Counter;

verus! {

/// A load figure that is told when each request starts and ends.
pub trait Metric: Sized {
    /// A figure for a server that has seen no work.
    fn new() -> Self;

    /// The current figure.
    fn load(&self) -> i64;

    /// Records a request that starts now; the result is handed back to `end`.
    fn start(&self) -> i64;

    /// Records the end of a request; `ts` is what `start` returned for it.
    fn end(&self, ts: i64);
}

/// The count of requests in flight as a metric. The count is shared between
/// threads, so the figures read are those of the instant they are read at.
impl Metric for Counter {
    fn new() -> Self {
        <Counter as crate::load::Load>::new()
    }

    /// The count, as a signed number (cut to 64 bits).
    fn load(&self) -> (r: i64)
        ensures
            exists|v: usize| #[trigger] call_ensures(<Counter as crate::load::Load>::load, (self,), v) && r == v as i64,
    {
        signed_figure(crate::load::Load::load(self))
    }

    /// Counts the request and returns the count read right after.
    fn start(&self) -> (r: i64)
        ensures
            exists|w: usize| #[trigger] call_ensures(Counter::incr, (self,), w),
            exists|v: usize| #[trigger] call_ensures(<Counter as crate::load::Load>::load, (self,), v) && r == v as i64,
    {
        self.incr();
        signed_figure(crate::load::Load::load(self))
    }

    /// Counts the request as done.
    fn end(&self, _ts: i64)
        ensures
            exists|w: usize| #[trigger] call_ensures(Counter::decr, (self,), w),
    {
        self.decr();
    }
}

/// A count as a signed figure, cut to 64 bits as `as i64` does.
pub fn signed_figure(count: usize) -> (r: i64)
    ensures
        r == count as i64,
{
    count as i64
}

} // verus!
