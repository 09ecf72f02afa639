//! Positions in a text document.
use vstd::prelude::*;

verus! {

/// A zero-based position in a text document: a line and a character column.
///
/// Positions are ordered by line, then by column.
#[derive(Debug, Clone, Copy, PartialEq, Eq, Structural, Hash, PartialOrd, Ord)]
pub struct Position {
    /// Zero-based line number.
    pub line: u32,
    /// Zero-based character offset within the line.
    pub column: u32,
}

/// `a` comes before `b` or is `b`, in document order.
pub open spec fn pos_le(a: Position, b: Position) -> bool {
    a.line < b.line || (a.line == b.line && a.column <= b.column)
}

/// `a` comes strictly before `b`, in document order.
pub open spec fn pos_lt(a: Position, b: Position) -> bool {
    a.line < b.line || (a.line == b.line && a.column < b.column)
}

impl Position {
    /// Creates a new position.
    pub fn new(line: u32, column: u32) -> (p: Self)
        ensures
            p.line == line,
            p.column == column,
    {
        Position { line, column }
    }

    /// Document order: `self` is at or before `other`.
    pub fn is_at_or_before(&self, other: &Position) -> (r: bool)
        ensures
            r == pos_le(*self, *other),
    {
        self.line < other.line || (self.line == other.line && self.column <= other.column)
    }

    /// Document order: `self` is strictly before `other`.
    pub fn is_before(&self, other: &Position) -> (r: bool)
        ensures
            r == pos_lt(*self, *other),
    {
        self.line < other.line || (self.line == other.line && self.column < other.column)
    }
}

} // verus!
