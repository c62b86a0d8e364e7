use vstd::prelude::*;
use crate::nexits::sat_add;

verus! {

/// The `Nom` metric: the number of functions and closures of a space.
#[derive(Debug, Clone)]
pub struct Stats {
    functions: usize,
    closures: usize,
}

impl Stats {
    /// Functions counted.
    pub closed spec fn fn_sum(&self) -> nat {
        self.functions as nat
    }

    /// Closures counted.
    pub closed spec fn closure_sum(&self) -> nat {
        self.closures as nat
    }

    /// No function and no closure.
    pub fn new() -> (r: Stats)
        ensures
            r.fn_sum() == 0,
            r.closure_sum() == 0,
    {
        Stats { functions: 0, closures: 0 }
    }

    /// Adds the functions and closures that one node contributes.
    pub fn add(&mut self, functions: usize, closures: usize)
        requires
            old(self).fn_sum() + functions <= usize::MAX,
            old(self).closure_sum() + closures <= usize::MAX,
        ensures
            final(self).fn_sum() == old(self).fn_sum() + functions,
            final(self).closure_sum() == old(self).closure_sum() + closures,
    {
        self.functions = self.functions + functions;
        self.closures = self.closures + closures;
    }

    /// Merges a second `Nom` metric into the first one.
    pub fn merge(&mut self, other: &Stats)
        requires
            old(self).fn_sum() + other.fn_sum() <= usize::MAX,
            old(self).closure_sum() + other.closure_sum() <= usize::MAX,
        ensures
            final(self).fn_sum() == old(self).fn_sum() + other.fn_sum(),
            final(self).closure_sum() == old(self).closure_sum() + other.closure_sum(),
    {
        self.functions = self.functions + other.functions;
        self.closures = self.closures + other.closures;
    }

    /// Returns the number of functions.
    pub fn functions(&self) -> (r: usize)
        ensures
            r == self.fn_sum(),
    {
        self.functions
    }

    /// Returns the number of closures.
    pub fn closures(&self) -> (r: usize)
        ensures
            r == self.closure_sum(),
    {
        self.closures
    }

    /// Returns the number of functions and closures, saturated at `usize::MAX`.
    pub fn total(&self) -> (r: usize)
        ensures
            r == sat_add(self.fn_sum() as int, self.closure_sum() as int),
    {
        self.functions.saturating_add(self.closures)
    }
}

impl Default for Stats {
    fn default() -> (r: Stats)
        ensures
            r.fn_sum() == 0,
            r.closure_sum() == 0,
    {
        Stats::new()
    }
}

} // verus!
