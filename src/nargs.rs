use vstd::prelude::*;
use crate::nexits::sat_add;

verus! {

/// The `NArgs` metric.
///
/// Counts the arguments of the functions and closures of a space.
#[derive(Debug, Clone)]
pub struct Stats {
    fn_nargs: usize,
    closure_nargs: usize,
    total_space_functions: usize,
}

impl Stats {
    /// Arguments of functions.
    pub closed spec fn fn_sum(&self) -> nat {
        self.fn_nargs as nat
    }

    /// Arguments of closures.
    pub closed spec fn closure_sum(&self) -> nat {
        self.closure_nargs as nat
    }

    /// Number of functions and closures the average is taken over.
    pub closed spec fn space_functions(&self) -> nat {
        self.total_space_functions as nat
    }

    /// A metric with no argument over no function.
    pub fn new() -> (r: Stats)
        ensures
            r.fn_sum() == 0,
            r.closure_sum() == 0,
            r.space_functions() == 0,
    {
        Stats { fn_nargs: 0, closure_nargs: 0, total_space_functions: 0 }
    }

    /// Adds the arguments that one node contributes.
    pub fn add(&mut self, fn_args: usize, closure_args: usize)
        requires
            old(self).fn_sum() + fn_args <= usize::MAX,
            old(self).closure_sum() + closure_args <= usize::MAX,
        ensures
            final(self).fn_sum() == old(self).fn_sum() + fn_args,
            final(self).closure_sum() == old(self).closure_sum() + closure_args,
            final(self).space_functions() == old(self).space_functions(),
    {
        self.fn_nargs = self.fn_nargs + fn_args;
        self.closure_nargs = self.closure_nargs + closure_args;
    }

    /// Merges a second `NArgs` metric into the first one.
    pub fn merge(&mut self, other: &Stats)
        requires
            old(self).fn_sum() + other.fn_sum() <= usize::MAX,
            old(self).closure_sum() + other.closure_sum() <= usize::MAX,
        ensures
            final(self).fn_sum() == old(self).fn_sum() + other.fn_sum(),
            final(self).closure_sum() == old(self).closure_sum() + other.closure_sum(),
            final(self).space_functions() == old(self).space_functions(),
    {
        self.fn_nargs = self.fn_nargs + other.fn_nargs;
        self.closure_nargs = self.closure_nargs + other.closure_nargs;
    }

    /// Returns the number of arguments of the functions.
    pub fn fn_args(&self) -> (r: usize)
        ensures
            r == self.fn_sum(),
    {
        self.fn_nargs
    }

    /// Returns the number of arguments of the closures.
    pub fn closure_args(&self) -> (r: usize)
        ensures
            r == self.closure_sum(),
    {
        self.closure_nargs
    }

    /// Returns the number of arguments of functions and closures,
    /// saturated at `usize::MAX`.
    pub fn total(&self) -> (r: usize)
        ensures
            r == sat_add(self.fn_sum() as int, self.closure_sum() as int),
    {
        self.fn_nargs.saturating_add(self.closure_nargs)
    }

    /// Returns the average number of arguments per function or closure,
    /// as a fraction `(numerator, denominator)`.
    ///
    /// With no function and no closure in the space the average is zero.
    pub fn nargs_average(&self) -> (r: (usize, usize))
        ensures
            r.1 >= 1,
            self.space_functions() == 0 ==> r == (0usize, 1usize),
            self.space_functions() > 0 ==> r.1 == self.space_functions() && r.0 == sat_add(
                self.fn_sum() as int,
                self.closure_sum() as int,
            ),
    {
        if self.total_space_functions == 0 {
            (0, 1)
        } else {
            (self.total(), self.total_space_functions)
        }
    }

    /// Sets the number of functions and closures the average is taken over.
    pub fn finalize(&mut self, total_space_functions: usize)
        ensures
            final(self).fn_sum() == old(self).fn_sum(),
            final(self).closure_sum() == old(self).closure_sum(),
            final(self).space_functions() == total_space_functions,
    {
        self.total_space_functions = total_space_functions;
    }
}

impl Default for Stats {
    fn default() -> (r: Stats)
        ensures
            r.fn_sum() == 0,
            r.closure_sum() == 0,
            r.space_functions() == 0,
    {
        Stats::new()
    }
}

} // verus!
