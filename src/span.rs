//! Source positions and position-tagged values.
use vstd::prelude::*;

verus! {

/// A zero-based position in a source text: a line and a column, where
/// each scalar character occupies exactly one column.
#[derive(Debug, Clone, Copy, PartialEq, Eq, Structural, PartialOrd, Ord)]
pub struct Location {
    pub line: usize,
    pub col: usize,
}

/// A half-open range `[start, end)` of source positions carrying a payload.
#[derive(Debug, Clone, Copy, PartialEq, Eq, Structural, PartialOrd, Ord)]
pub struct Span<Data> {
    pub start: Location,
    pub end: Location,
    pub data: Data,
}

impl Location {
    /// The position at `line` and `col`.
    pub fn new(line: usize, col: usize) -> (r: Location)
        ensures
            r.line == line,
            r.col == col,
    {
        Location { line, col }
    }

    /// Moves to the first column of the following line.
    pub fn next_line(&mut self)
        requires
            old(self).line < usize::MAX,
        ensures
            final(self).line == old(self).line + 1,
            final(self).col == 0,
    {
        self.line = self.line + 1;
        self.col = 0;
    }

    /// Moves one column to the right on the same line.
    pub fn advance(&mut self)
        requires
            old(self).col < usize::MAX,
        ensures
            final(self).line == old(self).line,
            final(self).col == old(self).col + 1,
    {
        self.col = self.col + 1;
    }
}

impl Default for Location {
    /// The start of a text: line 0, column 0.
    fn default() -> (r: Location)
        ensures
            r.line == 0,
            r.col == 0,
    {
        Location { line: 0, col: 0 }
    }
}

impl<Data> Span<Data> {
    pub fn new(start: Location, end: Location, data: Data) -> (r: Span<Data>)
        ensures
            r.start == start,
            r.end == end,
            r.data == data,
    {
        Span { start, end, data }
    }

    /// The same range, tagged with another payload.
    pub fn swap<New>(&self, new: New) -> (r: Span<New>)
        ensures
            r.start == self.start,
            r.end == self.end,
            r.data == new,
    {
        Span { start: self.start, end: self.end, data: new }
    }
}

} // verus!
