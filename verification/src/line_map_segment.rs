use std::ops::Range;

use vstd::prelude::*;

use crate::encoding::LineEnding;

verus! {

/// A contiguous byte span of a source branch whose line-terminator data may be
/// fully known (`exact: true`) or not yet scanned (`exact: false`).
///
/// A CRLF sequence that straddles a segment boundary is attributed to the
/// first of the two segments, and the second starts its scan one byte later.
#[derive(Debug, PartialEq, Eq)]
pub struct LineMapSegment {
    /// The byte span (half-open, source-relative) that this segment covers.
    pub byte_range: Range<u64>,
    /// Terminator kind for each line whose terminator begins within
    /// `byte_range`, in source order.
    pub terminators: Vec<LineEnding>,
    /// `true` if the last byte of `byte_range` falls in the middle of a line.
    /// For unscanned segments this is always `false`.
    pub trailing_partial: bool,
    /// `true` when this segment's scan should begin at `byte_range.start + 1`
    /// because the preceding segment already consumed that byte as the `\n`
    /// half of a cross-boundary `\r\n`.
    pub skip_first_byte: bool,
    /// `true` once this segment has been fully scanned.
    pub exact: bool,
}

impl LineMapSegment {
    /// Create an unscanned segment covering `byte_range`.
    pub fn unscanned(byte_range: Range<u64>) -> (segment: Self)
        ensures
            segment.byte_range == byte_range,
            segment.terminators@ == Seq::<LineEnding>::empty(),
            !segment.trailing_partial,
            !segment.skip_first_byte,
            !segment.exact,
    {
        Self {
            byte_range,
            terminators: Vec::new(),
            trailing_partial: false,
            skip_first_byte: false,
            exact: false,
        }
    }

    /// Number of lines whose terminator begins within this segment; 0 for an
    /// unscanned segment.
    ///
    /// A line without a terminator (the partial tail at the end of a segment)
    /// is not counted here.
    pub fn line_count(&self) -> (count: usize)
        ensures
            count == self.terminators@.len(),
    {
        self.terminators.len()
    }

    /// Number of bytes covered by this segment.
    pub fn byte_len(&self) -> (len: u64)
        requires
            self.byte_range.start <= self.byte_range.end,
        ensures
            len == self.byte_range.end - self.byte_range.start,
    {
        self.byte_range.end - self.byte_range.start
    }
}

impl Clone for LineMapSegment {
    fn clone(&self) -> (segment: Self)
        ensures
            segment.byte_range == self.byte_range,
            segment.terminators@ == self.terminators@,
            segment.trailing_partial == self.trailing_partial,
            segment.skip_first_byte == self.skip_first_byte,
            segment.exact == self.exact,
    {
        LineMapSegment {
            byte_range: self.byte_range.start..self.byte_range.end,
            terminators: self.terminators.clone(),
            trailing_partial: self.trailing_partial,
            skip_first_byte: self.skip_first_byte,
            exact: self.exact,
        }
    }
}

} // verus!
