//! `View`: a normalised-byte window into a branch with position
//! back-translation.

use std::ops::Range;

use vstd::prelude::*;
use vstd::view::View as SpecView;

use crate::branch;
use crate::branch::Branch;
use crate::error::IoError;
use crate::lines::Units;
use crate::offset_map;
use crate::offset_map::OffsetMap;
use crate::wide_text;

verus! {

/// A normalised-byte window into a branch.
///
/// `bytes` holds the LF-normalised content of the bytes of the branch from
/// [`View::byte_range_start`] on.  The normalised offset `n` lies in the branch
/// at `byte_range_start + offset_map.to_source(n)`.
pub struct View {
    /// The normalised (LF-only) bytes of the scanned range.
    pub bytes: Vec<u8>,
    /// Translation table from normalised positions back to source positions,
    /// relative to the start of the range.
    pub offset_map: OffsetMap,
    branch: Branch,
    byte_range_start: u64,
}

impl View {
    /// The branch whose bytes were normalised.
    pub closed spec fn source_branch(&self) -> Branch {
        self.branch
    }

    /// Where the range begins in the branch.
    pub closed spec fn range_start(&self) -> u64 {
        self.byte_range_start
    }

    /// The normalised bytes.
    pub closed spec fn shown(&self) -> Seq<u8> {
        self.bytes@
    }

    /// The translation of positions.
    pub closed spec fn map(&self) -> OffsetMap {
        self.offset_map
    }

    /// Where the normalised offset `n` lies in the branch.
    pub open spec fn branch_offset(&self, n: int) -> int {
        self.range_start() + self.map().source_of(n)
    }

    /// Whether the view shows the bytes of its branch from its start up to
    /// `end`.
    pub open spec fn shows(&self, end: int) -> bool {
        let c = self.source_branch()@;
        let s = c.subrange(self.range_start() as int, end);
        &&& self.range_start() <= end <= c.len()
        &&& self.shown() == offset_map::normalised(s, s.len() as int)
        &&& self.map()@ == offset_map::drift_entries(s, s.len() as int)
    }

    /// Whether the view shows the bytes of its branch from its start up to
    /// `end`, in which `\r` and `\n` are code units of the given kind.
    pub open spec fn shows_in(&self, units: Units, end: int) -> bool {
        let c = self.source_branch()@;
        let s = c.subrange(self.range_start() as int, end);
        if units == Units::Byte {
            self.shows(end)
        } else {
            &&& self.range_start() <= end <= c.len()
            &&& self.shown() == wide_text::normalised(s, units, s.len() as int)
            &&& self.map()@ == wide_text::drift_entries(s, units, s.len() as int)
        }
    }

    /// Construct a `View` from its four components.
    pub fn new(bytes: Vec<u8>, offset_map: OffsetMap, branch: Branch, byte_range_start: u64) -> (view:
        Self)
        ensures
            view.shown() == bytes@,
            view.map() == offset_map,
            view.source_branch() == branch,
            view.range_start() == byte_range_start,
    {
        View { bytes, offset_map, branch, byte_range_start }
    }

    /// The normalised (LF-only) bytes of the scanned range.
    pub fn bytes(&self) -> (bytes: &Vec<u8>)
        ensures
            bytes@ == self.shown(),
    {
        &self.bytes
    }

    /// The translation of normalised positions back to source positions,
    /// relative to the start of the range.
    pub fn offset_map(&self) -> (map: &OffsetMap)
        ensures
            *map == self.map(),
    {
        &self.offset_map
    }

    /// Return a clone of the originating branch.
    pub fn branch(&self) -> (branch: Branch)
        ensures
            branch == self.source_branch(),
    {
        self.branch.clone()
    }

    /// Return the branch-absolute byte offset at which this view's range begins.
    pub fn byte_range_start(&self) -> (start: u64)
        ensures
            start == self.range_start(),
    {
        self.byte_range_start
    }

    /// What [`View::apply`] does: the error that it returns, or the place in
    /// the branch that it replaces.
    pub open spec fn splice_site(&self, normalised_range: Range<u64>) -> Result<
        (int, int),
        IoError,
    > {
        let view_len = self.shown().len();
        if normalised_range.start > normalised_range.end {
            Err(
                IoError::InvertedRange {
                    start: normalised_range.start,
                    end: normalised_range.end,
                },
            )
        } else if normalised_range.end > view_len {
            Err(
                IoError::RangePastView { end: normalised_range.end, view_len: view_len as u64 },
            )
        } else {
            let from = self.branch_offset(normalised_range.start as int);
            Ok((from, self.branch_offset(normalised_range.end as int) - from))
        }
    }

    /// Splice a replacement into a fork of the originating branch at the source
    /// position that corresponds to `normalised_range`.
    ///
    /// Each endpoint of the range is translated back to an offset of the
    /// branch; the bytes between are deleted from a fresh fork and
    /// `replacement` is inserted there as it is.  The originating branch is
    /// not changed.
    ///
    /// # Errors
    ///
    /// [`IoError::InvertedRange`] and [`IoError::RangePastView`] for a range
    /// that does not lie in the view, and what the branch makes of a splice
    /// past its end.
    pub fn apply(&self, normalised_range: Range<u64>, replacement: &[u8]) -> (branch: Result<
        Branch,
        IoError,
    >)
        requires
            self.map().wf(),
            self.source_branch()@.len() + replacement@.len() <= isize::MAX,
            self.splice_site(normalised_range) matches Ok((from, len)) ==> from + len <= u64::MAX,
        ensures
            match self.splice_site(normalised_range) {
                Err(e) => branch == Err::<Branch, IoError>(e),
                Ok((from, len)) => match branch::splice_failure(
                    self.source_branch()@,
                    from as u64,
                    len as u64,
                    replacement@,
                ) {
                    Some(e) => branch == Err::<Branch, IoError>(e),
                    None => {
                        &&& branch is Ok
                        &&& branch->Ok_0@ == branch::spliced(
                            self.source_branch()@,
                            from,
                            len,
                            replacement@,
                        )
                        &&& branch->Ok_0.generation() == self.source_branch().generation() + 1
                    },
                },
            },
    {
        let view_len: u64 = self.bytes.len() as u64;
        if normalised_range.start > normalised_range.end {
            return Err(
                IoError::InvertedRange {
                    start: normalised_range.start,
                    end: normalised_range.end,
                },
            );
        }
        if normalised_range.end > view_len {
            return Err(IoError::RangePastView { end: normalised_range.end, view_len });
        }
        proof {
            if normalised_range.start < normalised_range.end {
                offset_map::lemma_source_of_monotone(
                    self.offset_map,
                    normalised_range.start as int,
                    normalised_range.end as int,
                );
            }
            offset_map::lemma_source_of_monotone(
                self.offset_map,
                normalised_range.end as int,
                normalised_range.end + 1,
            );
        }
        let source_start: u64 = self.byte_range_start + self.offset_map.to_source(
            normalised_range.start,
        );
        let source_end: u64 = self.byte_range_start + self.offset_map.to_source(
            normalised_range.end,
        );
        self.branch.splice(source_start, source_end - source_start, replacement)
    }
}

} // verus!
