//! Bit ranges: 1-indexed, inclusive on both ends, measured from the
//! least-significant bit of a word (bit 1 has value 1).

use vstd::prelude::*;

verus! {

/// An inclusive range of bit positions `[start, end]` inside a word.
///
/// Positions are 1-indexed from the least-significant bit. A range is
/// well formed for a word of `width` bits when `1 <= start <= end <= width`.
#[derive(Clone, Copy, PartialEq, Eq, Structural, Debug)]
pub struct BitRange {
    pub start: usize,
    pub end: usize,
}

impl BitRange {
    /// The range invariant for a word of the given width.
    pub open spec fn wf(self, width: nat) -> bool {
        1 <= self.start <= self.end <= width
    }

    /// Number of bits below the range: the shift distance of the field.
    pub open spec fn off(self) -> nat
        recommends
            self.start >= 1,
    {
        (self.start - 1) as nat
    }

    /// Number of bits the range covers.
    pub open spec fn size(self) -> nat
        recommends
            self.start <= self.end,
    {
        (self.end - self.start + 1) as nat
    }

    /// The same bits named from the most-significant end of a `width`-bit
    /// word: `[start, end]` becomes `[width - end + 1, width - start + 1]`.
    pub open spec fn reflect_spec(self, width: nat) -> BitRange
        recommends
            self.wf(width),
    {
        BitRange { start: (width - self.end + 1) as usize, end: (width - self.start + 1) as usize }
    }

    pub fn new(start: usize, end: usize) -> (r: BitRange)
        ensures
            r.start == start,
            r.end == end,
    {
        BitRange { start, end }
    }

    /// Converts a most-significant-bit-first range into the equivalent
    /// least-significant-bit-first range, or back. The reflection is an
    /// involution and keeps the size of the range.
    pub fn reflect(self, width: usize) -> (r: BitRange)
        requires
            self.wf(width as nat),
        ensures
            r == self.reflect_spec(width as nat),
            r.wf(width as nat),
            r.off() == width - self.end,
            r.size() == self.size(),
    {
        BitRange { start: width - self.end + 1, end: width - self.start + 1 }
    }
}

/// Reflecting twice names the same bits again: the reflection is an
/// involution on well-formed ranges.
pub proof fn lemma_reflect_involution(range: BitRange, width: nat)
    requires
        width <= 64,
        range.wf(width),
    ensures
        range.reflect_spec(width).wf(width),
        range.reflect_spec(width).reflect_spec(width) == range,
{
}

} // verus!
