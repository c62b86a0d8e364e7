use vstd::prelude::*;

verus! {

/// The `Cyclomatic` metric: the decision points of a space.
#[derive(Debug, Clone)]
pub struct Stats {
    cyclomatic: usize,
    total_space_functions: usize,
}

impl Stats {
    /// Decision points counted.
    pub closed spec fn sum(&self) -> nat {
        self.cyclomatic as nat
    }

    /// Number of functions and closures the average is taken over.
    pub closed spec fn space_functions(&self) -> nat {
        self.total_space_functions as nat
    }

    /// No decision point over no function.
    pub fn new() -> (r: Stats)
        ensures
            r.sum() == 0,
            r.space_functions() == 0,
    {
        Stats { cyclomatic: 0, total_space_functions: 0 }
    }

    /// Adds the decision points that one node contributes.
    pub fn add(&mut self, points: usize)
        requires
            old(self).sum() + points <= usize::MAX,
        ensures
            final(self).sum() == old(self).sum() + points,
            final(self).space_functions() == old(self).space_functions(),
    {
        self.cyclomatic = self.cyclomatic + points;
    }

    /// Merges a second `Cyclomatic` metric into the first one.
    pub fn merge(&mut self, other: &Stats)
        requires
            old(self).sum() + other.sum() <= usize::MAX,
        ensures
            final(self).sum() == old(self).sum() + other.sum(),
            final(self).space_functions() == old(self).space_functions(),
    {
        self.cyclomatic = self.cyclomatic + other.cyclomatic;
    }

    /// Returns the number of decision points.
    pub fn cyclomatic(&self) -> (r: usize)
        ensures
            r == self.sum(),
    {
        self.cyclomatic
    }

    /// Returns the average number of decision points per function or
    /// closure, as a fraction `(numerator, denominator)`; zero when the space
    /// has no function and no closure.
    pub fn cyclomatic_average(&self) -> (r: (usize, usize))
        ensures
            r.1 >= 1,
            self.space_functions() == 0 ==> r == (0usize, 1usize),
            self.space_functions() > 0 ==> r == (self.sum() as usize, self.space_functions() as usize),
    {
        if self.total_space_functions == 0 {
            (0, 1)
        } else {
            (self.cyclomatic, self.total_space_functions)
        }
    }

    /// Sets the number of functions and closures the average is taken over.
    pub fn finalize(&mut self, total_space_functions: usize)
        ensures
            final(self).sum() == old(self).sum(),
            final(self).space_functions() == total_space_functions,
    {
        self.total_space_functions = total_space_functions;
    }
}

impl Default for Stats {
    fn default() -> (r: Stats)
        ensures
            r.sum() == 0,
            r.space_functions() == 0,
    {
        Stats::new()
    }
}

} // verus!
