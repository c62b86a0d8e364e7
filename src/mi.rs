use vstd::prelude::*;
use crate::cyclomatic;
use crate::halstead;
use crate::loc;

verus! {

/// The maintainability metric of a space.
///
/// It is never merged: it is recomputed for each space from that space's
/// own merged line, decision-point and token metrics, which it keeps. The
/// real-valued formulas over them are left to the presentation layer.
#[derive(Debug, Clone, Copy)]
pub struct Stats {
    sloc: usize,
    cloc: usize,
    cyclomatic: usize,
    halstead: halstead::Stats,
}

impl Stats {
    /// Source lines the score was computed from.
    pub closed spec fn spec_sloc(&self) -> nat {
        self.sloc as nat
    }

    /// Comment lines the score was computed from.
    pub closed spec fn spec_cloc(&self) -> nat {
        self.cloc as nat
    }

    /// Decision points the score was computed from.
    pub closed spec fn spec_cyclomatic(&self) -> nat {
        self.cyclomatic as nat
    }

    /// Token counts the score was computed from.
    pub closed spec fn spec_halstead(&self) -> (int, int, int, int) {
        self.halstead.counts()
    }

    /// A score computed from an empty space.
    pub fn new() -> (r: Stats)
        ensures
            r.spec_sloc() == 0,
            r.spec_cloc() == 0,
            r.spec_cyclomatic() == 0,
            r.spec_halstead() == (0int, 0int, 0int, 0int),
    {
        Stats { sloc: 0, cloc: 0, cyclomatic: 0, halstead: halstead::Stats::new() }
    }

    /// Recomputes the score from a space's merged metrics.
    pub fn compute(
        loc: &loc::Stats,
        cyclomatic: &cyclomatic::Stats,
        halstead: &halstead::Stats,
        mi: &mut Stats,
    )
        ensures
            final(mi).spec_sloc() == loc.lines().sloc,
            final(mi).spec_cloc() == loc.lines().cloc,
            final(mi).spec_cyclomatic() == cyclomatic.sum(),
            final(mi).spec_halstead() == halstead.counts(),
    {
        *mi = Stats {
            sloc: loc.sloc(),
            cloc: loc.cloc(),
            cyclomatic: cyclomatic.cyclomatic(),
            halstead: *halstead,
        };
    }

    /// Source lines the score was computed from.
    pub fn sloc(&self) -> (r: usize)
        ensures
            r == self.spec_sloc(),
    {
        self.sloc
    }

    /// Comment lines the score was computed from.
    pub fn cloc(&self) -> (r: usize)
        ensures
            r == self.spec_cloc(),
    {
        self.cloc
    }

    /// Decision points the score was computed from.
    pub fn cyclomatic(&self) -> (r: usize)
        ensures
            r == self.spec_cyclomatic(),
    {
        self.cyclomatic
    }

    /// Token counts the score was computed from.
    pub fn halstead(&self) -> (r: halstead::Stats)
        ensures
            r.counts() == self.spec_halstead(),
    {
        self.halstead
    }
}

impl Default for Stats {
    fn default() -> (r: Stats)
        ensures
            r.spec_sloc() == 0,
            r.spec_cloc() == 0,
            r.spec_cyclomatic() == 0,
            r.spec_halstead() == (0int, 0int, 0int, 0int),
    {
        Stats::new()
    }
}

} // verus!
