//! Ranges between two positions of a text document.
use vstd::prelude::*;
use crate::position::{pos_le, pos_lt, Position};

verus! {

/// A range in a text document, from an inclusive start to an exclusive end.
///
/// `Range::new` normalizes it so that `start <= end`.
#[derive(Debug, Clone, Copy, PartialEq, Eq, Structural, Hash)]
pub struct Range {
    /// The inclusive start position of the range.
    pub start: Position,
    /// The exclusive end position of the range.
    pub end: Position,
}

impl Range {
    /// The range is normalized: its start is not after its end.
    pub open spec fn is_normalized(self) -> bool {
        pos_le(self.start, self.end)
    }

    /// `pos` lies in the range: at or after the start and before the end, or,
    /// for an empty range, at its start.
    pub open spec fn spec_contains(self, pos: Position) -> bool {
        if self.start == self.end {
            pos == self.start
        } else {
            pos_le(self.start, pos) && pos_lt(pos, self.end)
        }
    }

    /// `other` lies within this range.
    pub open spec fn spec_contains_range(self, other: Range) -> bool {
        pos_le(self.start, other.start) && pos_le(other.end, self.end)
    }

    /// The two ranges overlap in more than a point.
    pub open spec fn spec_intersects(self, other: Range) -> bool {
        pos_lt(self.start, other.end) && pos_lt(other.start, self.end)
    }

    /// The smallest range that covers both.
    pub open spec fn spec_union(self, other: Range) -> Range {
        Range {
            start: if pos_le(self.start, other.start) { self.start } else { other.start },
            end: if pos_le(self.end, other.end) { other.end } else { self.end },
        }
    }

    /// Creates a new range, swapping the ends if `start` is after `end`.
    pub fn new(start: Position, end: Position) -> (r: Self)
        ensures
            r.is_normalized(),
            pos_le(start, end) ==> r.start == start && r.end == end,
            !pos_le(start, end) ==> r.start == end && r.end == start,
    {
        if start.is_at_or_before(&end) {
            Range { start, end }
        } else {
            Range { start: end, end: start }
        }
    }

    /// Returns `true` if the range is empty (start equals end).
    pub fn is_empty(&self) -> (r: bool)
        ensures
            r == (self.start == self.end),
    {
        self.start == self.end
    }

    /// Returns `true` if the range contains the given position.
    ///
    /// A position is contained if it is >= start and < end, or if the range
    /// is empty and the position equals start.
    pub fn contains(&self, pos: Position) -> (r: bool)
        ensures
            r == self.spec_contains(pos),
    {
        if self.is_empty() {
            return pos == self.start;
        }
        self.start.is_at_or_before(&pos) && pos.is_before(&self.end)
    }

    /// Returns `true` if this range fully contains another range.
    pub fn contains_range(&self, other: &Range) -> (r: bool)
        ensures
            r == self.spec_contains_range(*other),
    {
        self.start.is_at_or_before(&other.start) && other.end.is_at_or_before(&self.end)
    }

    /// Returns `true` if this range intersects with another range.
    pub fn intersects(&self, other: &Range) -> (r: bool)
        ensures
            r == self.spec_intersects(*other),
            self.is_normalized() && other.is_normalized() && self.start != self.end && other.start != other.end
                ==> (r <==> exists|p: Position| self.spec_contains(p) && other.spec_contains(p)),
    {
        proof {
            if self.is_normalized() && other.is_normalized() && self.start != self.end && other.start != other.end {
                lemma_intersects_iff_common_position(*self, *other);
            }
        }
        self.start.is_before(&other.end) && other.start.is_before(&self.end)
    }

    /// Returns the union of this range and another, covering both.
    pub fn union(&self, other: &Range) -> (r: Range)
        ensures
            r == self.spec_union(*other),
            r.spec_contains_range(*self),
            r.spec_contains_range(*other),
            forall|c: Range| c.spec_contains_range(*self) && c.spec_contains_range(*other)
                ==> #[trigger] c.spec_contains_range(r),
    {
        Range {
            start: if self.start.is_at_or_before(&other.start) { self.start } else { other.start },
            end: if self.end.is_at_or_before(&other.end) { other.end } else { self.end },
        }
    }
}

/// Intersection is symmetric.
pub proof fn lemma_intersects_symmetric(a: Range, b: Range)
    ensures
        a.spec_intersects(b) == b.spec_intersects(a),
{
}

/// Two non-empty normalized ranges intersect exactly when some position
/// lies in both.
pub proof fn lemma_intersects_iff_common_position(a: Range, b: Range)
    requires
        a.is_normalized(),
        b.is_normalized(),
        a.start != a.end,
        b.start != b.end,
    ensures
        a.spec_intersects(b) <==> exists|p: Position| a.spec_contains(p) && b.spec_contains(p),
{
    if a.spec_intersects(b) {
        let p = if pos_le(a.start, b.start) { b.start } else { a.start };
        assert(a.spec_contains(p) && b.spec_contains(p));
    }
}

/// The union of two normalized ranges is normalized and contains both.
pub proof fn lemma_union_covers(a: Range, b: Range)
    requires
        a.is_normalized(),
        b.is_normalized(),
    ensures
        a.spec_union(b).is_normalized(),
        a.spec_union(b).spec_contains_range(a),
        a.spec_union(b).spec_contains_range(b),
        a.spec_union(b) == b.spec_union(a),
{
}

/// The union is the smallest range that covers both: every range that
/// contains both contains their union.
pub proof fn lemma_union_smallest(a: Range, b: Range, r: Range)
    requires
        r.spec_contains_range(a),
        r.spec_contains_range(b),
    ensures
        r.spec_contains_range(a.spec_union(b)),
{
}

/// Every range contains itself, and containment is transitive.
pub proof fn lemma_contains_range_order(a: Range, b: Range, c: Range)
    ensures
        a.spec_contains_range(a),
        a.spec_contains_range(b) && b.spec_contains_range(c) ==> a.spec_contains_range(c),
{
}

/// Every position that a normalized range contains, a range that contains
/// it contains too, unless the inner range is empty and sits at the end of a
/// non-empty outer range.
pub proof fn lemma_contains_range_positions(outer: Range, inner: Range, pos: Position)
    requires
        outer.spec_contains_range(inner),
        inner.spec_contains(pos),
        inner.is_normalized(),
        !(inner.start == inner.end && inner.start == outer.end && outer.start != outer.end),
    ensures
        outer.spec_contains(pos),
{
}

/// A non-empty normalized range contains its start but not its end.
pub proof fn lemma_contains_ends(r: Range)
    requires
        r.is_normalized(),
        r.start != r.end,
    ensures
        r.spec_contains(r.start),
        !r.spec_contains(r.end),
{
}

} // verus!
