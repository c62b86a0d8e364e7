use vstd::prelude::*;

verus! {

/// Line counts of a node or of a space.
#[derive(Debug, Clone, Copy, PartialEq, Eq)]
pub struct Lines {
    /// Source lines.
    pub sloc: usize,
    /// Physical lines holding code.
    pub ploc: usize,
    /// Logical lines (statements).
    pub lloc: usize,
    /// Comment lines.
    pub cloc: usize,
    /// Blank lines.
    pub blank: usize,
}

/// Whether two line counts can be added without overflow.
pub open spec fn lines_fit(a: Lines, b: Lines) -> bool {
    &&& a.sloc + b.sloc <= usize::MAX
    &&& a.ploc + b.ploc <= usize::MAX
    &&& a.lloc + b.lloc <= usize::MAX
    &&& a.cloc + b.cloc <= usize::MAX
    &&& a.blank + b.blank <= usize::MAX
}

/// The field-wise sum of two line counts.
pub open spec fn lines_sum(a: Lines, b: Lines) -> Lines
    recommends
        lines_fit(a, b),
{
    Lines {
        sloc: (a.sloc + b.sloc) as usize,
        ploc: (a.ploc + b.ploc) as usize,
        lloc: (a.lloc + b.lloc) as usize,
        cloc: (a.cloc + b.cloc) as usize,
        blank: (a.blank + b.blank) as usize,
    }
}

impl Lines {
    /// No line at all.
    pub fn zero() -> (r: Lines)
        ensures
            r == (Lines { sloc: 0, ploc: 0, lloc: 0, cloc: 0, blank: 0 }),
    {
        Lines { sloc: 0, ploc: 0, lloc: 0, cloc: 0, blank: 0 }
    }
}

/// The `Loc` metric: the line counts of a space.
#[derive(Debug, Clone)]
pub struct Stats {
    lines: Lines,
}

impl Stats {
    /// The line counts held.
    pub closed spec fn lines(&self) -> Lines {
        self.lines
    }

    /// No line at all.
    pub fn new() -> (r: Stats)
        ensures
            r.lines() == (Lines { sloc: 0, ploc: 0, lloc: 0, cloc: 0, blank: 0 }),
    {
        Stats { lines: Lines::zero() }
    }

    /// Adds the lines that one node contributes.
    pub fn add(&mut self, lines: Lines)
        requires
            lines_fit(old(self).lines(), lines),
        ensures
            final(self).lines() == lines_sum(old(self).lines(), lines),
    {
        self.lines = Lines {
            sloc: self.lines.sloc + lines.sloc,
            ploc: self.lines.ploc + lines.ploc,
            lloc: self.lines.lloc + lines.lloc,
            cloc: self.lines.cloc + lines.cloc,
            blank: self.lines.blank + lines.blank,
        };
    }

    /// Merges a second `Loc` metric into the first one.
    pub fn merge(&mut self, other: &Stats)
        requires
            lines_fit(old(self).lines(), other.lines()),
        ensures
            final(self).lines() == lines_sum(old(self).lines(), other.lines()),
    {
        self.add(other.lines);
    }

    /// Returns the source lines.
    pub fn sloc(&self) -> (r: usize)
        ensures
            r == self.lines().sloc,
    {
        self.lines.sloc
    }

    /// Returns the physical lines holding code.
    pub fn ploc(&self) -> (r: usize)
        ensures
            r == self.lines().ploc,
    {
        self.lines.ploc
    }

    /// Returns the logical lines.
    pub fn lloc(&self) -> (r: usize)
        ensures
            r == self.lines().lloc,
    {
        self.lines.lloc
    }

    /// Returns the comment lines.
    pub fn cloc(&self) -> (r: usize)
        ensures
            r == self.lines().cloc,
    {
        self.lines.cloc
    }

    /// Returns the blank lines.
    pub fn blank(&self) -> (r: usize)
        ensures
            r == self.lines().blank,
    {
        self.lines.blank
    }
}

impl Default for Stats {
    fn default() -> (r: Stats)
        ensures
            r.lines() == (Lines { sloc: 0, ploc: 0, lloc: 0, cloc: 0, blank: 0 }),
    {
        Stats::new()
    }
}

} // verus!
