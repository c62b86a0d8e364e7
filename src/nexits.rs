use vstd::prelude::*;

verus! {

/// Saturating addition of two counters, as a mathematical value.
pub open spec fn sat_add(a: int, b: int) -> int {
    if a + b > usize::MAX as int {
        usize::MAX as int
    } else {
        a + b
    }
}

/// The `NExit` metric.
///
/// Counts the possible exit points of the functions and closures of a space.
#[derive(Debug, Clone)]
pub struct Stats {
    fn_nexits: usize,
    closure_nexits: usize,
    total_space_functions: usize,
}

impl Stats {
    /// Exit points found in functions.
    pub closed spec fn fn_sum(&self) -> nat {
        self.fn_nexits as nat
    }

    /// Exit points found in closures.
    pub closed spec fn closure_sum(&self) -> nat {
        self.closure_nexits as nat
    }

    /// Number of functions and closures the average is taken over.
    pub closed spec fn space_functions(&self) -> nat {
        self.total_space_functions as nat
    }

    /// A metric with no exit point over no function.
    pub fn new() -> (r: Stats)
        ensures
            r.fn_sum() == 0,
            r.closure_sum() == 0,
            r.space_functions() == 0,
    {
        Stats { fn_nexits: 0, closure_nexits: 0, total_space_functions: 0 }
    }

    /// Adds the exit points that one node contributes.
    pub fn add(&mut self, fn_exits: usize, closure_exits: usize)
        requires
            old(self).fn_sum() + fn_exits <= usize::MAX,
            old(self).closure_sum() + closure_exits <= usize::MAX,
        ensures
            final(self).fn_sum() == old(self).fn_sum() + fn_exits,
            final(self).closure_sum() == old(self).closure_sum() + closure_exits,
            final(self).space_functions() == old(self).space_functions(),
    {
        self.fn_nexits = self.fn_nexits + fn_exits;
        self.closure_nexits = self.closure_nexits + closure_exits;
    }

    /// Merges a second `NExit` metric into the first one.
    pub fn merge(&mut self, other: &Stats)
        requires
            old(self).fn_sum() + other.fn_sum() <= usize::MAX,
            old(self).closure_sum() + other.closure_sum() <= usize::MAX,
        ensures
            final(self).fn_sum() == old(self).fn_sum() + other.fn_sum(),
            final(self).closure_sum() == old(self).closure_sum() + other.closure_sum(),
            final(self).space_functions() == old(self).space_functions(),
    {
        self.fn_nexits = self.fn_nexits + other.fn_nexits;
        self.closure_nexits = self.closure_nexits + other.closure_nexits;
    }

    /// Returns the number of exit points of the functions.
    pub fn fn_exits(&self) -> (r: usize)
        ensures
            r == self.fn_sum(),
    {
        self.fn_nexits
    }

    /// Returns the number of exit points of the closures.
    pub fn closure_exits(&self) -> (r: usize)
        ensures
            r == self.closure_sum(),
    {
        self.closure_nexits
    }

    /// Returns the number of exit points of functions and closures,
    /// saturated at `usize::MAX`.
    pub fn total(&self) -> (r: usize)
        ensures
            r == sat_add(self.fn_sum() as int, self.closure_sum() as int),
    {
        self.fn_nexits.saturating_add(self.closure_nexits)
    }

    /// Returns the average number of exit points per function or closure,
    /// as a fraction `(numerator, denominator)`.
    ///
    /// With no function and no closure in the space the average is zero.
    pub fn nexits_average(&self) -> (r: (usize, usize))
        ensures
            r.1 >= 1,
            self.space_functions() == 0 ==> r == (0usize, 1usize),
            self.space_functions() > 0 ==> r.1 == self.space_functions() && r.0 == sat_add(
                self.fn_sum() as int,
                self.closure_sum() as int,
            ),
    {
        if self.total_space_functions == 0 {
            (0, 1)
        } else {
            (self.total(), self.total_space_functions)
        }
    }

    /// Sets the number of functions and closures the average is taken over.
    pub fn finalize(&mut self, total_space_functions: usize)
        ensures
            final(self).fn_sum() == old(self).fn_sum(),
            final(self).closure_sum() == old(self).closure_sum(),
            final(self).space_functions() == total_space_functions,
    {
        self.total_space_functions = total_space_functions;
    }
}

impl Default for Stats {
    fn default() -> (r: Stats)
        ensures
            r.fn_sum() == 0,
            r.closure_sum() == 0,
            r.space_functions() == 0,
    {
        Stats::new()
    }
}

} // verus!
