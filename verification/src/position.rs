use vstd::prelude::*;

verus! {

/// A zero-based line/column location in a source document.
/// Locations are ordered lexicographically: first by line, then by column.
#[derive(Clone, Copy, Debug, PartialEq, Eq, Structural)]
pub struct Position {
    pub line: u32,
    pub character: u32,
}

/// A half-open span of source text: `start` is included, `end` is not.
#[derive(Clone, Copy, Debug, PartialEq, Eq, Structural)]
pub struct Range {
    pub start: Position,
    pub end: Position,
}

pub open spec fn pos_le(a: Position, b: Position) -> bool {
    a.line < b.line || (a.line == b.line && a.character <= b.character)
}

pub open spec fn pos_lt(a: Position, b: Position) -> bool {
    a.line < b.line || (a.line == b.line && a.character < b.character)
}

/// A range is ordered: its start does not come after its end.
pub open spec fn range_wf(r: Range) -> bool {
    pos_le(r.start, r.end)
}

/// The position `p` lies inside the half-open range `r`.
pub open spec fn range_contains_pos(r: Range, p: Position) -> bool {
    pos_le(r.start, p) && pos_lt(p, r.end)
}

/// The range `inner` lies fully inside the range `outer`.
pub open spec fn range_contains_range(outer: Range, inner: Range) -> bool {
    pos_le(outer.start, inner.start) && pos_le(inner.end, outer.end)
}

impl Position {
    pub fn new(line: u32, character: u32) -> (p: Position)
        ensures
            p == (Position { line, character }),
    {
        Position { line, character }
    }

    pub fn le(self, other: Position) -> (r: bool)
        ensures
            r == pos_le(self, other),
    {
        self.line < other.line || (self.line == other.line && self.character <= other.character)
    }

    pub fn lt(self, other: Position) -> (r: bool)
        ensures
            r == pos_lt(self, other),
    {
        self.line < other.line || (self.line == other.line && self.character < other.character)
    }
}

impl Range {
    pub fn new(start: Position, end: Position) -> (r: Range)
        ensures
            r == (Range { start, end }),
    {
        Range { start, end }
    }

    pub fn contains_pos(self, p: Position) -> (r: bool)
        ensures
            r == range_contains_pos(self, p),
    {
        self.start.le(p) && p.lt(self.end)
    }

    pub fn contains_range(self, inner: Range) -> (r: bool)
        ensures
            r == range_contains_range(self, inner),
    {
        self.start.le(inner.start) && inner.end.le(self.end)
    }
}

} // verus!
