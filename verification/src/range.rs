//! Exact byte ranges of immutable objects.

use std::ops::Range;

use vstd::prelude::*;
use vstd::std_specs::convert::{FromSpecImpl, TryFromSpecImpl};
use vstd::string::StringExecFns;

use crate::text::{append_number, decimal};

verus! {

/// The half-open interval of object offsets that a [`ByteRange`] stands for.
#[verifier::ext_equal]
pub struct Interval {
    pub start: u64,
    pub end: u64,
}

impl Interval {
    /// Non-empty and ordered.
    pub open spec fn valid(self) -> bool {
        self.start < self.end
    }

    /// The number of offsets in the interval.
    pub open spec fn len(self) -> int {
        self.end - self.start
    }

    /// Whether `offset` lies in the interval.
    pub open spec fn has(self, offset: int) -> bool {
        self.start <= offset < self.end
    }

    /// Whether every offset of `other` lies in the interval.
    pub open spec fn covers(self, other: Interval) -> bool {
        self.start <= other.start && other.end <= self.end
    }

    /// Whether some offset lies in both intervals.
    pub open spec fn meets(self, other: Interval) -> bool {
        self.start < other.end && other.start < self.end
    }

    /// The lexicographic order on start, then end.
    pub open spec fn before(self, other: Interval) -> bool {
        self.start < other.start || (self.start == other.start && self.end < other.end)
    }
}

/// An exact, non-empty, half-open byte range within an immutable object.
///
/// Neither endpoint is aligned or otherwise normalized.
#[derive(Clone, Copy, Debug, PartialEq, Eq, Hash, PartialOrd, Ord, Structural)]
pub struct ByteRange {
    start: u64,
    end: u64,
}

impl View for ByteRange {
    type V = Interval;

    closed spec fn view(&self) -> Interval {
        Interval { start: self.start, end: self.end }
    }
}

impl ByteRange {
    /// Every executable range is non-empty and ordered.
    #[verifier::type_invariant]
    pub open spec fn well_formed(self) -> bool {
        self@.valid()
    }

    /// Creates the exact range `start..end`.
    pub fn new(start: u64, end: u64) -> (result: Result<Self, InvalidRange>)
        ensures
            match result {
                Ok(range) => start < end && range@ == (Interval { start, end }),
                Err(error) => start >= end && error@ == (Interval { start, end }),
            },
    {
        if start >= end {
            return Err(InvalidRange { start, end });
        }
        Ok(Self { start, end })
    }

    /// Returns the inclusive start offset.
    pub fn start(self) -> (start: u64)
        ensures
            start == self@.start,
            self@.valid(),
    {
        proof {
            use_type_invariant(&self);
        }
        self.start
    }

    /// Returns the exclusive end offset.
    pub fn end(self) -> (end: u64)
        ensures
            end == self@.end,
            self@.valid(),
    {
        proof {
            use_type_invariant(&self);
        }
        self.end
    }

    /// Returns the number of bytes in the range.
    pub fn len(self) -> (len: u64)
        ensures
            len == self@.len(),
            len == self@.end - self@.start,
            len > 0,
    {
        proof {
            use_type_invariant(&self);
        }
        self.end - self.start
    }

    /// Returns `false`; a [`ByteRange`] is non-empty by construction.
    pub fn is_empty(self) -> (empty: bool)
        ensures
            empty == (self@.len() == 0),
            !empty,
    {
        proof {
            use_type_invariant(&self);
        }
        false
    }

    /// Returns whether this range completely covers `other`.
    pub fn contains(self, other: Self) -> (covered: bool)
        ensures
            covered == self@.covers(other@),
            covered <==> self@.start <= other@.start && other@.end <= self@.end,
    {
        self.start <= other.start && self.end >= other.end
    }

    /// Returns whether this range overlaps `other`.
    pub fn overlaps(self, other: Self) -> (overlap: bool)
        ensures
            overlap == self@.meets(other@),
            !overlap <==> self@.end <= other@.start || other@.end <= self@.start,
    {
        self.start < other.end && other.start < self.end
    }
}

impl TryFrom<Range<u64>> for ByteRange {
    type Error = InvalidRange;

    fn try_from(range: Range<u64>) -> (result: Result<Self, InvalidRange>)
        ensures
            match result {
                Ok(exact) => range.start < range.end && exact@ == (Interval {
                    start: range.start,
                    end: range.end,
                }),
                Err(error) => range.start >= range.end && error@ == (Interval {
                    start: range.start,
                    end: range.end,
                }),
            },
    {
        Self::new(range.start, range.end)
    }
}

impl TryFromSpecImpl<Range<u64>> for ByteRange {
    open spec fn obeys_try_from_spec() -> bool {
        true
    }

    closed spec fn try_from_spec(range: Range<u64>) -> Result<Self, InvalidRange> {
        if range.start < range.end {
            Ok(ByteRange { start: range.start, end: range.end })
        } else {
            Err(InvalidRange { start: range.start, end: range.end })
        }
    }
}

impl From<ByteRange> for Range<u64> {
    fn from(range: ByteRange) -> (plain: Range<u64>)
        ensures
            plain.start == range@.start,
            plain.end == range@.end,
    {
        Range { start: range.start, end: range.end }
    }
}

impl FromSpecImpl<ByteRange> for Range<u64> {
    open spec fn obeys_from_spec() -> bool {
        true
    }

    open spec fn from_spec(range: ByteRange) -> Range<u64> {
        Range { start: range@.start, end: range@.end }
    }
}

/// The error returned for an empty or reversed byte range.
#[derive(Clone, Copy, Debug, PartialEq, Eq, Structural)]
pub struct InvalidRange {
    start: u64,
    end: u64,
}

impl View for InvalidRange {
    type V = Interval;

    closed spec fn view(&self) -> Interval {
        Interval { start: self.start, end: self.end }
    }
}

impl InvalidRange {
    /// Returns the rejected start offset.
    pub fn start(self) -> (start: u64)
        ensures
            start == self@.start,
    {
        self.start
    }

    /// Returns the rejected end offset.
    pub fn end(self) -> (end: u64)
        ensures
            end == self@.end,
    {
        self.end
    }

    /// Returns the error's message.
    pub fn message(self) -> (message: String)
        ensures
            message@ == "byte range must be non-empty and ordered, got "@ + decimal(
                self@.start as nat,
            ) + ".."@ + decimal(self@.end as nat),
    {
        let mut message = "byte range must be non-empty and ordered, got ".to_owned();
        append_number(&mut message, self.start);
        message.append("..");
        append_number(&mut message, self.end);
        message
    }
}

/// Covering is what it is for every offset: one range covers another exactly
/// when each offset of the second lies in the first.
pub proof fn covering_is_inclusion_of_offsets(outer: Interval, inner: Interval)
    requires
        inner.valid(),
    ensures
        outer.covers(inner) <==> forall|offset: int| inner.has(offset) ==> outer.has(offset),
{
    if forall|offset: int| inner.has(offset) ==> outer.has(offset) {
        assert(inner.has(inner.start as int));
        assert(inner.has(inner.end - 1));
    }
}

/// Overlapping is sharing an offset.
pub proof fn overlap_is_a_common_offset(left: Interval, right: Interval)
    requires
        left.valid(),
        right.valid(),
    ensures
        left.meets(right) <==> exists|offset: int| left.has(offset) && right.has(offset),
{
    if left.meets(right) {
        let offset = if left.start < right.start {
            right.start as int
        } else {
            left.start as int
        };
        assert(left.has(offset) && right.has(offset));
    }
}

} // verus!
