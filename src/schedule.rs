//! The iteration clock of a cooling schedule: how far along its horizon a
//! schedule is at each query.
use vstd::prelude::*;
use crate::error::SearchError;

verus! {

/// Where the `iteration`-th query stands on a horizon of `span + 1` steps,
/// as the fraction `num / den`: `0` at the first step, `1` at the last, and
/// beyond `1` past the horizon. A horizon of one step stays at `0`.
pub open spec fn progress(iteration: nat, span: nat) -> (nat, nat) {
    if span == 0 {
        (0, 1)
    } else {
        ((iteration - 1) as nat, span)
    }
}

/// Counts the queries of a cooling schedule over a horizon of `span + 1`
/// steps. Each query advances the count by exactly one.
#[derive(Debug, Clone, Copy)]
pub struct ScheduleClock {
    iteration: u64,
    span: u64,
}

impl ScheduleClock {
    /// Queries made so far.
    pub closed spec fn iteration_spec(&self) -> nat {
        self.iteration as nat
    }

    /// The horizon in steps, less one.
    pub closed spec fn span_spec(&self) -> nat {
        self.span as nat
    }

    /// A clock with no query made, over a horizon of two steps.
    pub fn new() -> (r: ScheduleClock)
        ensures
            r.iteration_spec() == 0,
            r.span_spec() == 1,
    {
        ScheduleClock { iteration: 0, span: 1 }
    }

    /// Queries made so far.
    pub fn iteration(&self) -> (r: u64)
        ensures
            r == self.iteration_spec(),
    {
        self.iteration
    }

    /// Sets the horizon to `total` steps; fails with `InvalidInput`, and
    /// changes nothing, when `total` is zero.
    pub fn set_horizon(&mut self, total: u64) -> (r: Result<(), SearchError>)
        ensures
            r is Err <==> total == 0,
            r matches Err(e) ==> e == SearchError::InvalidInput && *final(self) == *old(self),
            r is Ok ==> final(self).span_spec() == total - 1
                && final(self).iteration_spec() == old(self).iteration_spec(),
    {
        if total == 0 {
            return Err(SearchError::InvalidInput);
        }
        self.span = total - 1;
        Ok(())
    }

    /// Sets the number of queries taken as made.
    pub fn set_iteration(&mut self, count: u64)
        ensures
            final(self).iteration_spec() == count,
            final(self).span_spec() == old(self).span_spec(),
    {
        self.iteration = count;
    }

    /// Makes one query: advances the count by one and returns where the
    /// query stands on the horizon, as `(num, den)` with `den > 0`.
    pub fn advance(&mut self) -> (r: (u64, u64))
        requires
            old(self).iteration_spec() < u64::MAX,
        ensures
            final(self).iteration_spec() == old(self).iteration_spec() + 1,
            final(self).span_spec() == old(self).span_spec(),
            (r.0 as nat, r.1 as nat) == progress(final(self).iteration_spec(), final(self).span_spec()),
            r.1 > 0,
    {
        self.iteration = self.iteration + 1;
        if self.span == 0 {
            (0, 1)
        } else {
            (self.iteration - 1, self.span)
        }
    }
}

} // verus!
