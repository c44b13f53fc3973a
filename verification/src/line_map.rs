//! Lazy segmented line map for a source branch.
//!
//! [`LineMap`] partitions a branch into fixed-size segments and scans them on
//! demand, sending [`LineMapEvent`] notifications through an optional
//! [`EventSender`].  Unscanned segments contribute extrapolated estimates to
//! the overall [`LineCount`]; once a segment is scanned its contribution
//! becomes exact.

use vstd::prelude::*;

use crate::branch::Branch;
use crate::encoding::LineEnding;
use crate::error::IoError;
use crate::line_count::LineCount;
use crate::line_map_event::{EventSender, LineMapEvent};
use crate::line_map_segment::LineMapSegment;
use crate::text;
use crate::text::{CR, LF};

verus! {

/// Default segment size: 64 KiB.
pub const DEFAULT_SEGMENT_SIZE: u64 = 65536;

/// How many bytes a scan reads at a time.
const SCAN_BUF: u64 = 4096;

/// How many segments of `size` bytes cover `len` bytes.
pub open spec fn segment_total(len: int, size: int) -> int {
    if len <= 0 {
        0
    } else {
        (len - 1) / size + 1
    }
}

/// Where segment `i` begins, and the one before it ends.
pub open spec fn boundary(len: int, size: int, i: int) -> int {
    if i * size <= len {
        i * size
    } else {
        len
    }
}

/// Whether `p` lies between the two bytes of a `\r\n`.
pub open spec fn splits_crlf(c: Seq<u8>, p: int) -> bool {
    0 < p < c.len() && c[p - 1] == CR && c[p] == LF
}

/// How many terminators begin before segment `i`.
pub open spec fn lines_before(c: Seq<u8>, size: int, i: int) -> nat {
    text::breaks(c, 0, boundary(c.len() as int, size, i)).len()
}

/// What segment `i` holds when the first `scanned` segments are scanned.
pub open spec fn segment_holds(
    seg: LineMapSegment,
    c: Seq<u8>,
    size: int,
    scanned: int,
    i: int,
) -> bool {
    let a = boundary(c.len() as int, size, i);
    let b = boundary(c.len() as int, size, i + 1);
    &&& seg.byte_range.start == a
    &&& seg.byte_range.end == b
    &&& seg.exact == (i < scanned)
    &&& seg.terminators@ == if i < scanned {
        text::endings(c, a, b)
    } else {
        Seq::empty()
    }
    &&& seg.trailing_partial == (i < scanned && text::ends_in_line(c, b))
    &&& seg.skip_first_byte == (i <= scanned && splits_crlf(c, a))
}

/// The line count as known when the first `scanned` segments are scanned: the
/// exact total, else an extrapolation of the density so far, else one line
/// for every 40 bytes or part of them.
pub open spec fn known_line_count(c: Seq<u8>, size: int, scanned: int) -> LineCount {
    let len = c.len() as int;
    let done = boundary(len, size, scanned);
    if scanned >= segment_total(len, size) {
        LineCount { value: text::line_total(c) as usize, exact: true }
    } else if scanned == 0 {
        LineCount { value: ((len - 1) / 40 + 1) as usize, exact: false }
    } else {
        let estimate = (lines_before(c, size, scanned) * len) / done;
        LineCount {
            value: (if estimate < 1 {
                1
            } else {
                estimate
            }) as usize,
            exact: false,
        }
    }
}

/// What is sent when segment `i` is scanned, all before it being scanned.
pub open spec fn scan_events(c: Seq<u8>, size: int, i: int) -> Seq<LineMapEvent> {
    let first = lines_before(c, size, i) as int;
    let next = lines_before(c, size, i + 1) as int;
    seq![
        LineMapEvent::LineCountChanged { count: known_line_count(c, size, i + 1) },
        LineMapEvent::RegionExact {
            start_line: first as usize,
            end_line: (if next > first {
                next - 1
            } else {
                first
            }) as usize,
        },
    ]
}

/// What is sent when the segments `a..b` are scanned one after the other.
pub open spec fn scan_events_between(c: Seq<u8>, size: int, a: int, b: int) -> Seq<LineMapEvent>
    decreases b - a,
{
    if b <= a {
        Seq::empty()
    } else {
        scan_events_between(c, size, a, b - 1) + scan_events(c, size, b - 1)
    }
}

/// A segment begins at its multiple of the segment size, and is not empty.
pub proof fn lemma_boundary(len: int, size: int, i: int)
    requires
        size >= 1,
        0 <= i < segment_total(len, size),
    ensures
        boundary(len, size, i) == i * size,
        0 <= boundary(len, size, i) < boundary(len, size, i + 1) <= len,
        boundary(len, size, i + 1) <= boundary(len, size, i) + size,
{
    let q = (len - 1) / size;
    vstd::arithmetic::div_mod::lemma_fundamental_div_mod(len - 1, size);
    vstd::arithmetic::div_mod::lemma_mod_bound(len - 1, size);
    assert(0 <= i * size <= q * size) by (nonlinear_arith)
        requires
            0 <= i <= q,
            size >= 1,
    ;
    assert(q * size == size * q) by (nonlinear_arith);
    assert((i + 1) * size == i * size + size) by (nonlinear_arith);
}

/// The first segment begins at the start, and the last one ends at the end.
pub proof fn lemma_boundary_ends(len: int, size: int)
    requires
        size >= 1,
        len >= 0,
    ensures
        boundary(len, size, 0) == 0,
        boundary(len, size, segment_total(len, size)) == len,
        0 <= segment_total(len, size) <= len,
{
    if len > 0 {
        let q = (len - 1) / size;
        vstd::arithmetic::div_mod::lemma_fundamental_div_mod(len - 1, size);
        vstd::arithmetic::div_mod::lemma_mod_bound(len - 1, size);
        vstd::arithmetic::div_mod::lemma_div_is_ordered_by_denominator(len - 1, 1, size);
        vstd::arithmetic::div_mod::lemma_div_pos_is_pos(len - 1, size);
        assert((q + 1) * size == size * q + size) by (nonlinear_arith);
    }
    assert(0 * size == 0) by (nonlinear_arith);
}

/// Boundaries ascend.
pub proof fn lemma_boundary_monotone(len: int, size: int, i: int, j: int)
    requires
        size >= 1,
        len >= 0,
        0 <= i <= j,
    ensures
        0 <= boundary(len, size, i) <= boundary(len, size, j) <= len,
{
    assert(0 <= i * size <= j * size) by (nonlinear_arith)
        requires
            0 <= i <= j,
            size >= 1,
    ;
}

/// Lazy, segmented line map over a [`Branch`].
///
/// Segments are scanned in order, on demand.  Before a segment is scanned its
/// contribution to the overall line count is estimated by extrapolating from
/// already-scanned segments.
///
/// # Events
///
/// If an [`EventSender`] is supplied at construction time, the map sends
/// [`LineMapEvent::LineCountChanged`] and [`LineMapEvent::RegionExact`], in
/// this order, after each scanned segment, and
/// [`LineMapEvent::MapInvalidated`] and [`LineMapEvent::LineCountChanged`] when
/// segments are reset.
pub struct LineMap {
    branch: Branch,
    segment_size: u64,
    segments: Vec<LineMapSegment>,
    scanned: usize,
    sender: Option<EventSender>,
}

impl LineMap {
    /// The branch whose lines are mapped.
    pub closed spec fn source(&self) -> Branch {
        self.branch
    }

    /// The bytes whose lines are mapped.
    pub open spec fn bytes(&self) -> Seq<u8> {
        self.source()@
    }

    /// The number of bytes in every segment but the last.
    pub closed spec fn granularity(&self) -> int {
        self.segment_size as int
    }

    /// How many segments are scanned: always the first ones.
    pub closed spec fn progress(&self) -> int {
        self.scanned as int
    }

    /// The segments.
    pub closed spec fn parts(&self) -> Seq<LineMapSegment> {
        self.segments@
    }

    /// The events sent and not yet taken out; `None` without a sender.
    pub closed spec fn events(&self) -> Option<Seq<LineMapEvent>> {
        match self.sender {
            Some(sender) => Some(sender@),
            None => None,
        }
    }

    /// The segments cover the branch, the scanned ones come first and every
    /// segment holds exactly what its state says.
    pub open spec fn wf(&self) -> bool {
        &&& self.bytes().len() <= isize::MAX
        &&& self.granularity() >= 1
        &&& self.parts().len() == segment_total(self.bytes().len() as int, self.granularity())
        &&& 0 <= self.progress() <= self.parts().len()
        &&& forall|i: int|
            0 <= i < self.parts().len() ==> segment_holds(
                #[trigger] self.parts()[i],
                self.bytes(),
                self.granularity(),
                self.progress(),
                i,
            )
    }

    /// Whether the two map the same branch in the same segments.
    pub open spec fn same_map(&self, other: &LineMap) -> bool {
        &&& self.source() == other.source()
        &&& self.granularity() == other.granularity()
    }

    /// Construct a new, fully-unscanned line map for `branch`.
    ///
    /// `segment_size` controls the byte granularity of each segment; 0 is
    /// taken as 1, and `None` as the default (64 KiB).
    pub fn new(branch: Branch, segment_size: Option<u64>, sender: Option<EventSender>) -> (map:
        Self)
        ensures
            map.wf(),
            map.source() == branch,
            map.granularity() == (match segment_size {
                Some(size) => if size == 0 {
                    1
                } else {
                    size as int
                },
                None => DEFAULT_SEGMENT_SIZE as int,
            }),
            map.progress() == 0,
            map.events() == (match sender {
                Some(s) => Some(s@),
                None => None,
            }),
    {
        let size: u64 = match segment_size {
            Some(size) => if size == 0 {
                1
            } else {
                size
            },
            None => DEFAULT_SEGMENT_SIZE,
        };
        let total: u64 = branch.byte_len();
        let ghost n = segment_total(total as int, size as int);
        let mut segments: Vec<LineMapSegment> = Vec::new();
        let mut start: u64 = 0;
        proof {
            lemma_boundary_ends(total as int, size as int);
        }
        while start < total
            invariant
                size >= 1,
                total == branch@.len(),
                total <= isize::MAX,
                n == segment_total(total as int, size as int),
                segments@.len() <= n,
                start == boundary(total as int, size as int, segments@.len() as int),
                boundary(total as int, size as int, n) == total,
                forall|i: int|
                    0 <= i < segments@.len() ==> segment_holds(
                        #[trigger] segments@[i],
                        branch@,
                        size as int,
                        0,
                        i,
                    ),
            decreases total - start,
        {
            proof {
                lemma_boundary(total as int, size as int, segments@.len() as int);
                lemma_boundary_ends(total as int, size as int);
            }
            let end: u64 = if size >= total - start {
                total
            } else {
                start + size
            };
            proof {
                let i = segments@.len() as int;
                assert((i + 1) * size == i * size + size) by (nonlinear_arith);
                assert(end == boundary(total as int, size as int, i + 1));
            }
            segments.push(LineMapSegment::unscanned(start..end));
            start = end;
        }
        proof {
            if segments@.len() < n {
                lemma_boundary(total as int, size as int, segments@.len() as int);
            }
        }
        LineMap { branch, segment_size: size, segments, scanned: 0, sender }
    }
}

impl LineMap {
    /// 0-based line number of the first line in segment `idx`, as far as the
    /// segments before it are scanned.
    fn line_start_of_segment(&self, idx: usize) -> (line: usize)
        requires
            self.wf(),
            idx <= self.parts().len(),
        ensures
            line == lines_before(
                self.bytes(),
                self.granularity(),
                if idx <= self.progress() {
                    idx as int
                } else {
                    self.progress()
                },
            ),
            line <= self.bytes().len(),
    {
        let ghost c = self.bytes();
        let ghost len = c.len() as int;
        let ghost size = self.granularity();
        let ghost k = self.progress();
        let mut line: usize = 0;
        let mut i: usize = 0;
        proof {
            lemma_boundary_ends(len, size);
            assert(text::breaks(c, 0, 0).len() == 0);
        }
        while i < idx
            invariant
                self.wf(),
                c == self.bytes(),
                len == c.len(),
                size == self.granularity(),
                k == self.progress(),
                i <= idx <= self.segments@.len(),
                line == lines_before(
                    c,
                    size,
                    if i <= k {
                        i as int
                    } else {
                        k
                    },
                ),
                line <= len,
            decreases idx - i,
        {
            proof {
                assert(segment_holds(self.parts()[i as int], c, size, k, i as int));
                lemma_boundary(len, size, i as int);
                let a = boundary(len, size, i as int);
                let b = boundary(len, size, i + 1);
                text::lemma_breaks_split(c, 0, a, b);
                text::lemma_breaks_sound(c, 0, b);
                text::lemma_breaks_sound(c, a, b);
            }
            line = line + self.segments[i].line_count();
            i = i + 1;
        }
        line
    }

    /// The line count as far as it is known: exact once all segments are
    /// scanned, else extrapolated from the density of the scanned ones.
    fn line_count_estimate(&self) -> (count: LineCount)
        requires
            self.wf(),
        ensures
            count == known_line_count(self.bytes(), self.granularity(), self.progress()),
    {
        let total_bytes: u64 = self.branch.byte_len();
        let ghost c = self.bytes();
        let ghost len = c.len() as int;
        let ghost size = self.granularity();
        let ghost k = self.progress();
        proof {
            lemma_boundary_ends(len, size);
        }
        let scanned_lines: usize = self.line_start_of_segment(self.scanned);
        if self.scanned == self.segments.len() {
            if total_bytes == 0 {
                return LineCount::exact(0);
            }
            let last = self.segments.len() - 1;
            assert(segment_holds(self.parts()[last as int], c, size, k, last as int));
            proof {
                text::lemma_breaks_sound(c, 0, len);
                if text::ends_in_line(c, len) {
                    lemma_unterminated_tail(c);
                }
            }
            if self.segments[last].trailing_partial {
                LineCount::exact(scanned_lines + 1)
            } else {
                LineCount::exact(scanned_lines)
            }
        } else if self.scanned == 0 {
            let estimate: u64 = (total_bytes - 1) / 40 + 1;
            LineCount::estimate(estimate as usize)
        } else {
            assert(segment_holds(self.parts()[k], c, size, k, k));
            let scanned_bytes: u64 = self.segments[self.scanned].byte_range.start;
            proof {
                lemma_boundary(len, size, k);
                lemma_boundary(len, size, k - 1);
                let done = boundary(len, size, k);
                text::lemma_breaks_sound(c, 0, done);
                lemma_density(scanned_lines as int, len, done);
            }
            let estimate: u128 = (scanned_lines as u128 * total_bytes as u128)
                / scanned_bytes as u128;
            if estimate < 1 {
                LineCount::estimate(1)
            } else {
                LineCount::estimate(estimate as usize)
            }
        }
    }

    /// Compute the current best [`LineCount`] estimate.
    ///
    /// If all segments are scanned the count is exact.  Otherwise, the line
    /// density of scanned segments is extrapolated over the remaining bytes.
    pub fn current_line_count(&self) -> (count: LineCount)
        requires
            self.wf(),
        ensures
            count == known_line_count(self.bytes(), self.granularity(), self.progress()),
    {
        self.line_count_estimate()
    }
}

impl LineMap {
    /// Scan segment `idx`, the first unscanned one.
    fn scan_segment(&mut self, idx: usize)
        requires
            old(self).wf(),
            idx == old(self).progress(),
            idx < old(self).parts().len(),
        ensures
            final(self).wf(),
            final(self).same_map(old(self)),
            final(self).progress() == idx + 1,
            final(self).events() == (match old(self).events() {
                Some(sent) => Some(
                    sent + scan_events(old(self).bytes(), old(self).granularity(), idx as int),
                ),
                None => None,
            }),
    {
        let ghost c = self.bytes();
        let ghost len = c.len() as int;
        let ghost size = self.granularity();
        let ghost k = idx as int;
        let ghost before = self.segments@;
        let branch_len: u64 = self.branch.byte_len();
        proof {
            lemma_boundary(len, size, k);
            assert(segment_holds(before[k], c, size, k, k));
        }
        let start: u64 = self.segments[idx].byte_range.start;
        let end: u64 = self.segments[idx].byte_range.end;
        let skip: bool = self.segments[idx].skip_first_byte;
        let scan_start: u64 = if skip {
            start + 1
        } else {
            start
        };
        let (terminators, partial) = scan_range(&self.branch, scan_start, end);
        proof {
            if skip {
                text::lemma_breaks_split(c, start as int, start + 1, end as int);
                assert(text::breaks(c, start as int, start as int).len() == 0);
                assert(text::breaks(c, start as int, start + 1).len() == 0);
                assert(text::endings(c, start as int, end as int) =~= text::endings(
                    c,
                    start + 1,
                    end as int,
                ));
            }
        }
        // A `\r` that ends this segment takes a `\n` that begins the next.
        let next_skip: bool = if end < branch_len {
            let last = self.branch.read_byte(end - 1);
            let first = self.branch.read_byte(end);
            matches!(last, Ok(CR)) && matches!(first, Ok(LF))
        } else {
            false
        };
        assert(next_skip == splits_crlf(c, end as int));
        self.segments[idx].terminators = terminators;
        self.segments[idx].trailing_partial = partial;
        self.segments[idx].exact = true;
        if next_skip && idx + 1 < self.segments.len() {
            self.segments[idx + 1].skip_first_byte = true;
        }
        self.scanned = idx + 1;
        proof {
            lemma_boundary_ends(len, size);
            assert forall|i: int| 0 <= i < self.segments@.len() implies segment_holds(
                #[trigger] self.segments@[i],
                c,
                size,
                k + 1,
                i,
            ) by {
                assert(segment_holds(before[i], c, size, k, i));
            }
        }
        let first_line: usize = self.line_start_of_segment(idx);
        let next_line: usize = self.line_start_of_segment(idx + 1);
        let end_line: usize = if next_line > first_line {
            next_line - 1
        } else {
            first_line
        };
        let count = self.line_count_estimate();
        match &mut self.sender {
            Some(sender) => {
                sender.send(LineMapEvent::LineCountChanged { count });
                sender.send(LineMapEvent::RegionExact { start_line: first_line, end_line });
            },
            None => {},
        }
        proof {
            if let Some(sent) = old(self).events() {
                assert(self.events()->0 =~= sent + scan_events(c, size, k));
            }
        }
    }

    /// Scan the next unscanned segment.
    ///
    /// Returns `true` if a segment was scanned, `false` if all segments are
    /// already exact.  A branch is read without failure, so the result is
    /// always `Ok`.
    pub fn scan_next_segment(&mut self) -> (scanned: Result<bool, IoError>)
        requires
            old(self).wf(),
        ensures
            final(self).wf(),
            final(self).same_map(old(self)),
            scanned == Ok::<bool, IoError>(old(self).progress() < old(self).parts().len()),
            old(self).progress() == old(self).parts().len() ==> *final(self) == *old(self),
            old(self).progress() < old(self).parts().len() ==> {
                &&& final(self).progress() == old(self).progress() + 1
                &&& final(self).events() == (match old(self).events() {
                    Some(sent) => Some(
                        sent + scan_events(
                            old(self).bytes(),
                            old(self).granularity(),
                            old(self).progress(),
                        ),
                    ),
                    None => None,
                })
            },
    {
        match self.next_unscanned() {
            Some(idx) => {
                self.scan_segment(idx);
                Ok(true)
            },
            None => Ok(false),
        }
    }

    /// Index of the first unscanned segment, or `None` if all are scanned.
    pub fn next_unscanned(&self) -> (idx: Option<usize>)
        requires
            self.wf(),
        ensures
            match idx {
                Some(i) => i == self.progress() && i < self.parts().len(),
                None => self.progress() == self.parts().len(),
            },
    {
        if self.scanned < self.segments.len() {
            Some(self.scanned)
        } else {
            None
        }
    }

    /// Invalidate all segments starting at or after `from_byte`, rounded down
    /// to a segment boundary and taken as the last segment where it lies past
    /// the end.
    ///
    /// Resets the affected segments to unscanned state and sends
    /// [`LineMapEvent::MapInvalidated`] and
    /// [`LineMapEvent::LineCountChanged`].
    ///
    /// Returns the 0-based line number of the first invalidated line (which is
    /// the value carried by the `MapInvalidated` event).
    pub fn invalidate_from_byte(&mut self, from_byte: u64) -> (from_line: usize)
        requires
            old(self).wf(),
        ensures
            final(self).wf(),
            final(self).same_map(old(self)),
            old(self).parts().len() == 0 ==> from_line == 0 && *final(self) == *old(self),
            old(self).parts().len() > 0 ==> {
                let kept = kept_segments(*old(self), from_byte);
                &&& final(self).progress() == kept
                &&& from_line == lines_before(old(self).bytes(), old(self).granularity(), kept)
                &&& final(self).events() == (match old(self).events() {
                    Some(sent) => Some(
                        sent + seq![
                            LineMapEvent::MapInvalidated { from_line },
                            LineMapEvent::LineCountChanged {
                                count: known_line_count(
                                    old(self).bytes(),
                                    old(self).granularity(),
                                    kept,
                                ),
                            },
                        ],
                    ),
                    None => None,
                })
            },
    {
        if self.segments.len() == 0 {
            return 0;
        }
        let ghost c = self.bytes();
        let ghost len = c.len() as int;
        let ghost size = self.granularity();
        let ghost k = self.progress();
        let ghost kept = kept_segments(*self, from_byte);
        let ghost before = self.segments@;
        let branch_len: u64 = self.branch.byte_len();
        let quotient: u64 = from_byte / self.segment_size;
        let last: usize = self.segments.len() - 1;
        let first_seg: usize = if quotient < last as u64 {
            quotient as usize
        } else {
            last
        };
        let from_line: usize = self.line_start_of_segment(first_seg);
        let mut i: usize = first_seg;
        while i < self.segments.len()
            invariant
                first_seg <= i <= self.segments@.len(),
                first_seg < self.segments@.len(),
                self.segments@.len() == before.len(),
                self.branch == old(self).branch,
                self.segment_size == old(self).segment_size,
                self.scanned == old(self).scanned,
                self.sender == old(self).sender,
                k == self.scanned,
                kept == if first_seg < k {
                    first_seg as int
                } else {
                    k
                },
                forall|j: int|
                    0 <= j < before.len() ==> segment_holds(#[trigger] before[j], c, size, k, j),
                forall|j: int|
                    0 <= j < before.len() && !(first_seg <= j < i) ==> #[trigger] self.segments@[j]
                        == before[j],
                forall|j: int|
                    first_seg <= j < i ==> segment_holds(
                        #[trigger] self.segments@[j],
                        c,
                        size,
                        kept,
                        j,
                    ),
            decreases self.segments@.len() - i,
        {
            assert(segment_holds(before[i as int], c, size, k, i as int));
            self.segments[i].terminators.clear();
            self.segments[i].trailing_partial = false;
            if i > first_seg {
                self.segments[i].skip_first_byte = false;
            }
            self.segments[i].exact = false;
            i = i + 1;
        }
        if first_seg < self.scanned {
            self.scanned = first_seg;
        }
        proof {
            assert forall|j: int| 0 <= j < self.segments@.len() implies segment_holds(
                #[trigger] self.segments@[j],
                c,
                size,
                kept,
                j,
            ) by {
                assert(segment_holds(before[j], c, size, k, j));
            }
        }
        let count = self.line_count_estimate();
        match &mut self.sender {
            Some(sender) => {
                sender.send(LineMapEvent::MapInvalidated { from_line });
                sender.send(LineMapEvent::LineCountChanged { count });
            },
            None => {},
        }
        proof {
            if let Some(sent) = old(self).events() {
                assert(self.events()->0 =~= sent + seq![
                    LineMapEvent::MapInvalidated { from_line },
                    LineMapEvent::LineCountChanged { count },
                ]);
            }
        }
        from_line
    }
}

impl LineMap {
    /// Walk the bytes of segment `seg_idx` to find where `line` starts.
    ///
    /// `seg_first_line` is the 0-based number of the first line in this
    /// segment; `line` starts after one of the segment's own terminators.
    fn byte_offset_of_line_in_segment(
        &self,
        seg_idx: usize,
        line: usize,
        seg_first_line: usize,
    ) -> (offset: u64)
        requires
            self.wf(),
            seg_idx < self.progress(),
            seg_first_line == lines_before(self.bytes(), self.granularity(), seg_idx as int),
            seg_first_line < line,
            line <= lines_before(self.bytes(), self.granularity(), seg_idx + 1),
        ensures
            line <= text::break_count(self.bytes()),
            offset == text::line_start(self.bytes(), line as int),
    {
        let ghost c = self.bytes();
        let ghost len = c.len() as int;
        let ghost size = self.granularity();
        let branch_len: u64 = self.branch.byte_len();
        proof {
            lemma_boundary(len, size, seg_idx as int);
            assert(segment_holds(
                self.parts()[seg_idx as int],
                c,
                size,
                self.progress(),
                seg_idx as int,
            ));
        }
        let start: u64 = self.segments[seg_idx].byte_range.start;
        let end: u64 = self.segments[seg_idx].byte_range.end;
        let mut prev_cr: bool = self.segments[seg_idx].skip_first_byte;
        let ghost a = start as int;
        let ghost m = line - seg_first_line;
        let mut seen: usize = 0;
        let mut pos: u64 = start;
        proof {
            text::lemma_breaks_split(c, 0, a, end as int);
            text::lemma_breaks_split(c, 0, end as int, len);
        }
        while pos < end
            invariant
                self.wf(),
                c == self.bytes(),
                len == c.len(),
                a == start <= pos <= end <= len,
                len <= isize::MAX,
                m == line - seg_first_line,
                0 <= seen < m <= text::breaks(c, a, end as int).len(),
                seen == text::breaks(c, a, pos as int).len(),
                pos < end && c[pos as int] == LF ==> prev_cr == (pos > 0 && c[pos - 1] == CR),
                text::breaks(c, 0, len) == text::breaks(c, 0, a) + text::breaks(c, a, end as int)
                    + text::breaks(c, end as int, len),
                text::breaks(c, 0, a).len() == seg_first_line,
            decreases end - pos,
        {
            let to_read: u64 = if end - pos < SCAN_BUF {
                end - pos
            } else {
                SCAN_BUF
            };
            let chunk = self.branch.read_at(pos, to_read as usize);
            let mut i: usize = 0;
            while i < chunk.len()
                invariant
                    self.wf(),
                    c == self.bytes(),
                    len == c.len(),
                    a == start <= pos,
                    pos + chunk@.len() <= end <= len,
                    len <= isize::MAX,
                    chunk@ == c.subrange(pos as int, pos + chunk@.len()),
                    i <= chunk@.len(),
                    m == line - seg_first_line,
                    0 <= seen < m <= text::breaks(c, a, end as int).len(),
                    seen == text::breaks(c, a, pos + i).len(),
                    pos + i < end && c[pos + i] == LF ==> prev_cr == (pos + i > 0 && c[pos + i - 1]
                        == CR),
                    text::breaks(c, 0, len) == text::breaks(c, 0, a) + text::breaks(
                        c,
                        a,
                        end as int,
                    ) + text::breaks(c, end as int, len),
                    text::breaks(c, 0, a).len() == seg_first_line,
                decreases chunk@.len() - i,
            {
                let byte: u8 = chunk[i];
                let ghost p = pos + i;
                assert(byte == c[p]);
                if byte == CR || (byte == LF && !prev_cr) {
                    seen = seen + 1;
                    assert(text::is_break(c, p));
                    assert(text::breaks(c, a, p + 1) == text::breaks(c, a, p).push(p));
                    if seen == line - seg_first_line {
                        proof {
                            text::lemma_breaks_split(c, a, p + 1, end as int);
                            assert(text::breaks(c, 0, len)[line - 1] == p);
                        }
                        let after: u64 = pos + i as u64 + 1;
                        if byte == CR {
                            match self.branch.read_byte(after) {
                                Ok(LF) => {
                                    return after + 1;
                                },
                                _ => {},
                            }
                        }
                        return after;
                    }
                }
                prev_cr = byte == CR;
                i = i + 1;
            }
            pos = pos + chunk.len() as u64;
        }
        proof {
            assert(false);
        }
        end
    }

    /// Where `line` starts, if the scanned segments show it.
    fn known_line_offset(&self, line: usize) -> (offset: Option<u64>)
        requires
            self.wf(),
        ensures
            match offset {
                Some(at) => {
                    &&& line <= lines_before(self.bytes(), self.granularity(), self.progress())
                    &&& line <= text::break_count(self.bytes())
                    &&& at == text::line_start(self.bytes(), line as int)
                },
                None => line > lines_before(self.bytes(), self.granularity(), self.progress()),
            },
    {
        if line == 0 {
            return Some(0);
        }
        let ghost c = self.bytes();
        let ghost len = c.len() as int;
        let ghost size = self.granularity();
        let ghost k = self.progress();
        let mut cum: usize = 0;
        let mut i: usize = 0;
        proof {
            lemma_boundary_ends(len, size);
            assert(text::breaks(c, 0, 0).len() == 0);
        }
        while i < self.scanned
            invariant
                self.wf(),
                c == self.bytes(),
                len == c.len(),
                size == self.granularity(),
                k == self.progress(),
                i <= k <= self.segments@.len(),
                cum == lines_before(c, size, i as int),
                cum <= len,
                cum < line,
            decreases k - i,
        {
            proof {
                assert(segment_holds(self.parts()[i as int], c, size, k, i as int));
                lemma_boundary(len, size, i as int);
                let a = boundary(len, size, i as int);
                let b = boundary(len, size, i + 1);
                text::lemma_breaks_split(c, 0, a, b);
                text::lemma_breaks_sound(c, 0, b);
            }
            let next: usize = cum + self.segments[i].line_count();
            if line <= next {
                proof {
                    lemma_lines_before_monotone(c, size, i + 1, k);
                }
                return Some(self.byte_offset_of_line_in_segment(i, line, cum));
            }
            cum = next;
            i = i + 1;
        }
        None
    }

    /// Return the byte offset of the start of `line` (0-based).
    ///
    /// Scans segments on demand until the terminator before `line` is known.
    /// Returns `None` when `line` is beyond the last line; the empty line
    /// after a final terminator counts as one.  Line 0 always starts at
    /// byte 0.  A branch is read without failure, so the result is always
    /// `Ok`.
    pub fn line_offset(&mut self, line: usize) -> (offset: Result<Option<u64>, IoError>)
        requires
            old(self).wf(),
        ensures
            final(self).wf(),
            final(self).same_map(old(self)),
            match offset {
                Ok(Some(at)) => line <= text::break_count(old(self).bytes()) && at
                    == text::line_start(old(self).bytes(), line as int),
                Ok(None) => line > text::break_count(old(self).bytes()),
                Err(_) => false,
            },
            final(self).progress() == progress_for_line(*old(self), line as int),
            final(self).events() == events_after_scans(*old(self), final(self).progress()),
    {
        let ghost c = self.bytes();
        let ghost size = self.granularity();
        proof {
            lemma_progress_for_line(*self, line as int);
            lemma_boundary_ends(c.len() as int, size);
            if let Some(sent) = self.events() {
                assert(events_after_scans(*self, self.progress())->0 =~= sent);
            }
        }
        loop
            invariant
                self.wf(),
                self.same_map(old(self)),
                old(self).wf(),
                c == self.bytes(),
                size == self.granularity(),
                boundary(c.len() as int, size, segment_total(c.len() as int, size)) == c.len(),
                old(self).progress() <= self.progress() <= progress_for_line(
                    *old(self),
                    line as int,
                ),
                self.events() == events_after_scans(*old(self), self.progress()),
            decreases self.parts().len() - self.progress(),
        {
            let ghost k = self.progress();
            if let Some(at) = self.known_line_offset(line) {
                proof {
                    lemma_progress_reached(*old(self), line as int, k);
                }
                return Ok(Some(at));
            }
            proof {
                lemma_progress_for_line(*old(self), line as int);
            }
            match self.scan_next_segment() {
                Ok(true) => {
                    proof {
                        lemma_progress_not_reached(*old(self), line as int, k);
                        lemma_events_step(*old(self), *self, k);
                    }
                },
                _ => {
                    return Ok(None);
                },
            }
        }
    }

    /// The `(line, col)` of `offset`, which lies in the scanned segment
    /// `seg_idx`.
    fn line_col_in_segment(&self, seg_idx: usize, offset: u64) -> (at: (usize, usize))
        requires
            self.wf(),
            seg_idx < self.progress(),
            boundary(self.bytes().len() as int, self.granularity(), seg_idx as int) <= offset,
            offset < boundary(self.bytes().len() as int, self.granularity(), seg_idx + 1),
        ensures
            text::is_line_col(self.bytes(), offset as int, at.0 as int, at.1 as int),
    {
        let ghost c = self.bytes();
        let ghost len = c.len() as int;
        let ghost size = self.granularity();
        let branch_len: u64 = self.branch.byte_len();
        proof {
            lemma_boundary(len, size, seg_idx as int);
            assert(segment_holds(
                self.parts()[seg_idx as int],
                c,
                size,
                self.progress(),
                seg_idx as int,
            ));
        }
        let start: u64 = self.segments[seg_idx].byte_range.start;
        let mut prev_cr: bool = self.segments[seg_idx].skip_first_byte;
        let mut line: usize = self.line_start_of_segment(seg_idx);
        let mut pos: u64 = start;
        proof {
            text::lemma_breaks_sound(c, 0, start as int);
        }
        while pos < offset
            invariant
                self.wf(),
                c == self.bytes(),
                len == c.len(),
                pos <= offset < len,
                len <= isize::MAX,
                line == text::breaks(c, 0, pos as int).len(),
                line <= pos,
                c[pos as int] == LF ==> prev_cr == (pos > 0 && c[pos - 1] == CR),
            decreases offset - pos,
        {
            let to_read: u64 = if offset - pos < SCAN_BUF {
                offset - pos
            } else {
                SCAN_BUF
            };
            let chunk = self.branch.read_at(pos, to_read as usize);
            let mut i: usize = 0;
            while i < chunk.len()
                invariant
                    self.wf(),
                    c == self.bytes(),
                    len == c.len(),
                    pos + chunk@.len() <= offset < len,
                    len <= isize::MAX,
                    chunk@ == c.subrange(pos as int, pos + chunk@.len()),
                    i <= chunk@.len(),
                    line == text::breaks(c, 0, pos + i).len(),
                    line <= pos + i,
                    c[pos + i] == LF ==> prev_cr == (pos + i > 0 && c[pos + i - 1] == CR),
                decreases chunk@.len() - i,
            {
                let byte: u8 = chunk[i];
                assert(byte == c[pos + i]);
                if byte == CR || (byte == LF && !prev_cr) {
                    line = line + 1;
                }
                prev_cr = byte == CR;
                i = i + 1;
            }
            pos = pos + chunk.len() as u64;
        }
        // The `\n` half of a `\r\n` still belongs to the line it terminates.
        let byte = self.branch.read_byte(offset);
        let inside_crlf: bool = prev_cr && matches!(byte, Ok(LF));
        proof {
            assert(inside_crlf == splits_crlf(c, offset as int));
            lemma_line_of_offset(c, offset as int);
            lemma_lines_seen(*self, offset as int, seg_idx as int);
        }
        if inside_crlf {
            line = line - 1;
        }
        match self.known_line_offset(line) {
            Some(line_start) => {
                let col: u64 = offset - line_start;
                (line, col as usize)
            },
            None => {
                proof {
                    assert(false);
                }
                (line, 0)
            },
        }
    }

    /// Return the `(line, col)` pair for a given byte `offset` (both 0-based).
    ///
    /// `col` is the byte distance from the start of the line to `offset`;
    /// terminator bytes count as part of the line they end.
    ///
    /// Scans segments on demand until the segment containing `offset` is exact.
    /// Returns `None` if `offset` is at or beyond the end of the branch, except
    /// that offset 0 of an empty branch is line 0, column 0.  A branch is read
    /// without failure, so the result is always `Ok`.
    pub fn offset_to_line_col(&mut self, offset: u64) -> (at: Result<
        Option<(usize, usize)>,
        IoError,
    >)
        requires
            old(self).wf(),
        ensures
            final(self).wf(),
            final(self).same_map(old(self)),
            match at {
                Ok(Some((line, col))) => {
                    &&& offset < old(self).bytes().len() || (offset == 0
                        && old(self).bytes().len() == 0)
                    &&& text::is_line_col(
                        old(self).bytes(),
                        offset as int,
                        line as int,
                        col as int,
                    )
                },
                Ok(None) => offset >= old(self).bytes().len() && !(offset == 0
                    && old(self).bytes().len() == 0),
                Err(_) => false,
            },
            final(self).progress() == progress_for_offset(*old(self), offset as int),
            final(self).events() == events_after_scans(*old(self), final(self).progress()),
    {
        let ghost c = self.bytes();
        let ghost len = c.len() as int;
        let ghost size = self.granularity();
        let ghost n = self.parts().len() as int;
        let branch_len: u64 = self.branch.byte_len();
        proof {
            lemma_boundary_ends(len, size);
            if let Some(sent) = self.events() {
                assert(events_after_scans(*self, self.progress())->0 =~= sent);
            }
        }
        if branch_len == 0 {
            if offset == 0 {
                return Ok(Some((0, 0)));
            }
            return Ok(None);
        }
        if offset >= branch_len {
            return Ok(None);
        }
        let seg_idx: usize = self.segment_of(offset);
        loop
            invariant
                self.wf(),
                self.same_map(old(self)),
                old(self).wf(),
                c == self.bytes(),
                len == c.len(),
                size == self.granularity(),
                offset < len,
                seg_idx < segment_total(len, size),
                boundary(len, size, seg_idx as int) <= offset < boundary(len, size, seg_idx + 1),
                seg_idx == offset as int / size,
                old(self).progress() <= self.progress() <= progress_for_offset(
                    *old(self),
                    offset as int,
                ),
                self.events() == events_after_scans(*old(self), self.progress()),
            decreases self.parts().len() - self.progress(),
        {
            if seg_idx < self.scanned {
                return Ok(Some(self.line_col_in_segment(seg_idx, offset)));
            }
            let ghost k = self.progress();
            match self.scan_next_segment() {
                Ok(true) => {
                    proof {
                        lemma_events_step(*old(self), *self, k);
                    }
                },
                _ => {
                    return Ok(None);
                },
            }
        }
    }

    /// The segment that holds the byte at `offset`.
    fn segment_of(&self, offset: u64) -> (idx: usize)
        requires
            self.wf(),
            offset < self.bytes().len(),
        ensures
            idx < self.parts().len(),
            idx == offset as int / self.granularity(),
            boundary(self.bytes().len() as int, self.granularity(), idx as int) <= offset,
            offset < boundary(self.bytes().len() as int, self.granularity(), idx + 1),
    {
        let ghost len = self.bytes().len() as int;
        let ghost size = self.granularity();
        let ghost n = self.parts().len() as int;
        proof {
            lemma_boundary_ends(len, size);
        }
        let mut lo: usize = 0;
        let mut hi: usize = self.segments.len();
        while lo < hi
            invariant
                self.wf(),
                len == self.bytes().len(),
                size == self.granularity(),
                n == self.parts().len(),
                n == segment_total(len, size),
                0 <= lo <= hi <= n,
                boundary(len, size, lo as int) <= offset,
                offset < len,
                boundary(len, size, n) == len,
                hi < n ==> offset < boundary(len, size, hi + 1),
            decreases hi - lo,
        {
            let mid: usize = lo + (hi - lo) / 2;
            proof {
                assert(segment_holds(
                    self.parts()[mid as int],
                    self.bytes(),
                    size,
                    self.progress(),
                    mid as int,
                ));
            }
            if self.segments[mid].byte_range.end <= offset {
                lo = mid + 1;
            } else {
                hi = mid;
            }
        }
        proof {
            if lo == n {
                assert(false);
            }
            lemma_boundary(len, size, lo as int);
            assert((lo + 1) * size == lo * size + size) by (nonlinear_arith);
            vstd::arithmetic::div_mod::lemma_fundamental_div_mod_converse(
                offset as int,
                size,
                lo as int,
                offset - lo * size,
            );
        }
        lo
    }

    /// Number of segments in the map.
    pub fn segment_count(&self) -> (count: usize)
        requires
            self.wf(),
        ensures
            count == segment_total(self.bytes().len() as int, self.granularity()),
    {
        self.segments.len()
    }

    /// Borrow segment `idx`.
    pub fn segment(&self, idx: usize) -> (segment: &LineMapSegment)
        requires
            self.wf(),
            idx < segment_total(self.bytes().len() as int, self.granularity()),
        ensures
            segment_holds(
                *segment,
                self.bytes(),
                self.granularity(),
                self.progress(),
                idx as int,
            ),
    {
        &self.segments[idx]
    }

    /// Send events from now on through `sender`; what is scanned stays scanned.
    pub fn set_sender(&mut self, sender: EventSender)
        requires
            old(self).wf(),
        ensures
            final(self).wf(),
            final(self).same_map(old(self)),
            final(self).progress() == old(self).progress(),
            final(self).events() == Some(sender@),
    {
        self.sender = Some(sender);
    }

    /// Take the sender out; no events are sent after that.
    pub fn take_sender(&mut self) -> (sender: Option<EventSender>)
        requires
            old(self).wf(),
        ensures
            final(self).wf(),
            final(self).same_map(old(self)),
            final(self).progress() == old(self).progress(),
            final(self).events() is None,
            old(self).events() == (match sender {
                Some(s) => Some(s@),
                None => None,
            }),
    {
        self.sender.take()
    }

    /// Take out all events sent so far; none without a sender.
    pub fn drain_events(&mut self) -> (events: Vec<LineMapEvent>)
        requires
            old(self).wf(),
        ensures
            final(self).wf(),
            final(self).same_map(old(self)),
            final(self).progress() == old(self).progress(),
            events@ == (match old(self).events() {
                Some(sent) => sent,
                None => Seq::empty(),
            }),
            final(self).events() == (match old(self).events() {
                Some(_) => Some(Seq::<LineMapEvent>::empty()),
                None => None,
            }),
    {
        match &mut self.sender {
            Some(sender) => sender.drain(),
            None => Vec::new(),
        }
    }
}

/// How many segments are scanned once the position of `offset` has been looked
/// up: all up to the one that holds it, and never fewer than before.
pub open spec fn progress_for_offset(map: LineMap, offset: int) -> int {
    let needed = offset / map.granularity() + 1;
    if offset >= map.bytes().len() || needed <= map.progress() {
        map.progress()
    } else {
        needed
    }
}

/// Every offset lies in a line, whose number follows from the terminators
/// before it.
pub proof fn lemma_line_of_offset(c: Seq<u8>, offset: int)
    requires
        0 <= offset < c.len(),
    ensures
        ({
            let t = text::breaks(c, 0, offset).len() as int;
            let line = if splits_crlf(c, offset) {
                t - 1
            } else {
                t
            };
            &&& 0 <= line <= t
            &&& 0 <= text::line_start(c, line) <= offset
            &&& text::is_line_col(c, offset, line, offset - text::line_start(c, line))
        }),
{
    let len = c.len() as int;
    let b = text::breaks(c, 0, len);
    let t = text::breaks(c, 0, offset).len() as int;
    text::lemma_breaks_split(c, 0, offset, len);
    text::lemma_breaks_sound(c, 0, offset);
    text::lemma_breaks_sound(c, offset, len);
    text::lemma_breaks_sound(c, 0, len);
    if t > 0 {
        assert(b[t - 1] == text::breaks(c, 0, offset)[t - 1]);
    }
    if t < b.len() {
        assert(b[t] == text::breaks(c, offset, len)[0]);
    }
    if splits_crlf(c, offset) {
        assert(text::breaks(c, 0, offset) == text::breaks(c, 0, offset - 1).push(offset - 1));
        assert(b[t - 1] == offset - 1);
        if t > 1 {
            assert(b[t - 2] < b[t - 1]);
            assert(text::is_break(c, b[t - 2]) && text::is_break(c, b[t - 1]));
            text::lemma_after_break_ascends(c, b[t - 2], b[t - 1]);
        }
    }
}

/// The terminators before an offset in a scanned segment are known.
proof fn lemma_lines_seen(map: LineMap, offset: int, seg_idx: int)
    requires
        map.wf(),
        0 <= seg_idx < map.progress(),
        0 <= offset < boundary(map.bytes().len() as int, map.granularity(), seg_idx + 1),
    ensures
        text::breaks(map.bytes(), 0, offset).len() <= lines_before(
            map.bytes(),
            map.granularity(),
            map.progress(),
        ),
{
    let c = map.bytes();
    lemma_boundary_monotone(c.len() as int, map.granularity(), seg_idx + 1, map.progress());
    text::lemma_breaks_split(
        c,
        0,
        offset,
        boundary(c.len() as int, map.granularity(), map.progress()),
    );
}

/// Scanning one more segment adds its events.
proof fn lemma_events_step(before: LineMap, now: LineMap, k: int)
    requires
        before.progress() <= k,
        now.events() == (match events_after_scans(before, k) {
            Some(sent) => Some(sent + scan_events(before.bytes(), before.granularity(), k)),
            None => None,
        }),
    ensures
        now.events() == events_after_scans(before, k + 1),
{
    if let Some(sent) = before.events() {
        assert(now.events()->0 =~= events_after_scans(before, k + 1)->0);
    }
}

/// The events of `map` once its first `scanned` segments are scanned.
pub open spec fn events_after_scans(map: LineMap, scanned: int) -> Option<Seq<LineMapEvent>> {
    match map.events() {
        Some(sent) => Some(
            sent + scan_events_between(map.bytes(), map.granularity(), map.progress(), scanned),
        ),
        None => None,
    }
}

/// How many segments are scanned once the start of `line` has been looked up:
/// as few as show its terminator, all where it has none, and never fewer than
/// before.
pub open spec fn progress_for_line(map: LineMap, line: int) -> int {
    scans_until_line(map.bytes(), map.granularity(), line, map.progress())
}

/// The least number of scanned segments, `k` or more, that shows `line`
/// terminators, or all segments.
pub open spec fn scans_until_line(c: Seq<u8>, size: int, line: int, k: int) -> int
    decreases segment_total(c.len() as int, size) - k,
{
    if k >= segment_total(c.len() as int, size) || lines_before(c, size, k) >= line {
        k
    } else {
        scans_until_line(c, size, line, k + 1)
    }
}

proof fn lemma_lines_before_monotone(c: Seq<u8>, size: int, i: int, j: int)
    requires
        size >= 1,
        0 <= i <= j,
    ensures
        lines_before(c, size, i) <= lines_before(c, size, j),
{
    lemma_boundary_monotone(c.len() as int, size, i, j);
    text::lemma_breaks_split(
        c,
        0,
        boundary(c.len() as int, size, i),
        boundary(c.len() as int, size, j),
    );
}

/// Scanning stops at the first segment boundary before which enough lines begin.
pub proof fn lemma_scans_until_line(c: Seq<u8>, size: int, line: int, k: int)
    requires
        0 <= k <= segment_total(c.len() as int, size),
    ensures
        ({
            let r = scans_until_line(c, size, line, k);
            &&& k <= r <= segment_total(c.len() as int, size)
            &&& r == segment_total(c.len() as int, size) || lines_before(c, size, r) >= line
            &&& forall|j: int|
                k <= j < r ==> j < segment_total(c.len() as int, size) && #[trigger] lines_before(
                    c,
                    size,
                    j,
                ) < line
        }),
    decreases segment_total(c.len() as int, size) - k,
{
    if k >= segment_total(c.len() as int, size) || lines_before(c, size, k) >= line {
    } else {
        lemma_scans_until_line(c, size, line, k + 1);
    }
}

proof fn lemma_progress_for_line(map: LineMap, line: int)
    requires
        map.wf(),
    ensures
        map.progress() <= progress_for_line(map, line) <= map.parts().len(),
        line <= 0 ==> progress_for_line(map, line) == map.progress(),
{
    lemma_scans_until_line(map.bytes(), map.granularity(), line, map.progress());
}

proof fn lemma_progress_reached(map: LineMap, line: int, k: int)
    requires
        map.wf(),
        map.progress() <= k <= progress_for_line(map, line),
        lines_before(map.bytes(), map.granularity(), k) >= line,
    ensures
        k == progress_for_line(map, line),
{
    lemma_scans_until_line(map.bytes(), map.granularity(), line, map.progress());
}

proof fn lemma_progress_not_reached(map: LineMap, line: int, k: int)
    requires
        map.wf(),
        map.progress() <= k <= progress_for_line(map, line),
        k < map.parts().len(),
        lines_before(map.bytes(), map.granularity(), k) < line,
    ensures
        k + 1 <= progress_for_line(map, line),
{
    lemma_scans_until_line(map.bytes(), map.granularity(), line, map.progress());
}

/// A line without a start is looked for in all segments.
pub proof fn lemma_all_scanned(map: LineMap, line: int)
    requires
        map.wf(),
        line > text::break_count(map.bytes()),
    ensures
        progress_for_line(map, line) == segment_total(map.bytes().len() as int, map.granularity()),
{
    let c = map.bytes();
    let size = map.granularity();
    lemma_scans_until_line(c, size, line, map.progress());
    let r = progress_for_line(map, line);
    lemma_boundary_ends(c.len() as int, size);
    lemma_lines_before_monotone(c, size, r, segment_total(c.len() as int, size));
}

/// Looking up two lines one after the other scans as much as looking up the
/// later one.
pub proof fn lemma_progress_again(before: LineMap, now: LineMap, line: int, later: int)
    requires
        before.wf(),
        now.wf(),
        now.same_map(&before),
        line <= later,
        now.progress() == progress_for_line(before, line),
    ensures
        progress_for_line(now, later) == progress_for_line(before, later),
        before.progress() <= now.progress() <= progress_for_line(now, later),
{
    let c = before.bytes();
    let size = before.granularity();
    lemma_scans_until_line(c, size, line, before.progress());
    lemma_scans_until_line(c, size, later, before.progress());
    lemma_scans_until_line(c, size, later, now.progress());
    let a = progress_for_line(now, later);
    let b = progress_for_line(before, later);
    if a < b {
        assert(lines_before(c, size, a) < later);
    } else if b < a {
        if b < now.progress() {
            assert(lines_before(c, size, b) < line);
        } else {
            assert(lines_before(c, size, b) < later);
        }
    }
}

/// Events of scans one after the other add up.
pub proof fn lemma_events_again(before: LineMap, now: LineMap, after: LineMap)
    requires
        now.same_map(&before),
        before.progress() <= now.progress() <= after.progress(),
        now.events() == events_after_scans(before, now.progress()),
        after.events() == events_after_scans(now, after.progress()),
    ensures
        after.events() == events_after_scans(before, after.progress()),
{
    if let Some(sent) = before.events() {
        lemma_scan_events_split(
            before.bytes(),
            before.granularity(),
            before.progress(),
            now.progress(),
            after.progress(),
        );
        assert(after.events()->0 =~= events_after_scans(before, after.progress())->0);
    }
}

proof fn lemma_scan_events_split(c: Seq<u8>, size: int, a: int, m: int, b: int)
    requires
        a <= m <= b,
    ensures
        scan_events_between(c, size, a, b) == scan_events_between(c, size, a, m)
            + scan_events_between(c, size, m, b),
    decreases b - m,
{
    if m < b {
        lemma_scan_events_split(c, size, a, m, b - 1);
    }
    assert(scan_events_between(c, size, a, b) =~= scan_events_between(c, size, a, m)
        + scan_events_between(c, size, m, b));
}

/// How many segments stay scanned when `map` is invalidated from `from_byte`.
pub open spec fn kept_segments(map: LineMap, from_byte: u64) -> int {
    let quotient = from_byte as int / map.granularity();
    let first = if quotient < map.parts().len() - 1 {
        quotient
    } else {
        map.parts().len() - 1
    };
    if first < map.progress() {
        first
    } else {
        map.progress()
    }
}

/// Bytes that end in the middle of a line hold fewer terminators than bytes.
proof fn lemma_unterminated_tail(c: Seq<u8>)
    requires
        text::ends_in_line(c, c.len() as int),
    ensures
        text::break_count(c) < c.len(),
{
    text::lemma_breaks_sound(c, 0, c.len() - 1);
}

/// An extrapolated count is at most the number of bytes.
pub proof fn lemma_density(lines: int, len: int, done: int)
    requires
        0 <= lines <= done <= len <= isize::MAX,
        0 < done,
    ensures
        0 <= lines * len <= u128::MAX,
        0 <= (lines * len) / done <= len,
{
    assert(0 <= lines * len <= done * len) by (nonlinear_arith)
        requires
            0 <= lines <= done,
            0 <= len,
    ;
    assert(done * len <= 0x7fff_ffff_ffff_ffff * 0x7fff_ffff_ffff_ffff) by (nonlinear_arith)
        requires
            0 <= done <= 0x7fff_ffff_ffff_ffff,
            0 <= len <= 0x7fff_ffff_ffff_ffff,
    ;
    vstd::arithmetic::div_mod::lemma_div_is_ordered(lines * len, done * len, done);
    assert(done * len == len * done) by (nonlinear_arith);
    vstd::arithmetic::div_mod::lemma_div_by_multiple(len, done);
    vstd::arithmetic::div_mod::lemma_div_pos_is_pos(lines * len, done);
}

/// The kinds of the terminators that begin in `start..end`, and whether the
/// range ends in the middle of a line.
///
/// `start` must not lie inside a `\r\n`.  The range may end inside one: the
/// byte after it decides what a final `\r` is.
fn scan_range(branch: &Branch, start: u64, end: u64) -> (found: (Vec<LineEnding>, bool))
    requires
        start <= end <= branch@.len(),
        !splits_crlf(branch@, start as int),
    ensures
        found.0@ == text::endings(branch@, start as int, end as int),
        found.1 == (start < end && text::ends_in_line(branch@, end as int)),
{
    let ghost c = branch@;
    let mut terminators: Vec<LineEnding> = Vec::new();
    let mut pos: u64 = start;
    // The byte before `pos` is a `\r` whose kind is not yet known.
    let mut pending_cr: bool = false;
    let mut partial: bool = false;
    while pos < end
        invariant
            c == branch@,
            start <= pos <= end <= c.len(),
            !splits_crlf(c, start as int),
            pending_cr == (pos > start && c[pos - 1] == CR),
            partial == (pos > start && text::ends_in_line(c, pos as int)),
            terminators@ == text::endings(
                c,
                start as int,
                if pending_cr {
                    pos - 1
                } else {
                    pos as int
                },
            ),
        decreases end - pos,
    {
        let to_read: u64 = if end - pos < SCAN_BUF {
            end - pos
        } else {
            SCAN_BUF
        };
        let chunk = branch.read_at(pos, to_read as usize);
        let mut i: usize = 0;
        while i < chunk.len()
            invariant
                c == branch@,
                start <= pos,
                pos + chunk@.len() <= end <= c.len(),
                chunk@ == c.subrange(pos as int, pos + chunk@.len()),
                i <= chunk@.len(),
                !splits_crlf(c, start as int),
                pending_cr == (pos + i > start && c[pos + i - 1] == CR),
                partial == (pos + i > start && text::ends_in_line(c, pos + i)),
                terminators@ == text::endings(
                    c,
                    start as int,
                    if pending_cr {
                        pos + i - 1
                    } else {
                        pos + i
                    },
                ),
            decreases chunk@.len() - i,
        {
            let byte: u8 = chunk[i];
            proof {
                assert(byte == c[pos + i]);
                text::lemma_endings_step(c, start as int, pos + i);
                if pending_cr {
                    text::lemma_endings_step(c, start as int, pos + i - 1);
                }
            }
            if byte == LF {
                if pending_cr {
                    terminators.push(LineEnding::CrLf);
                    pending_cr = false;
                } else {
                    terminators.push(LineEnding::Lf);
                }
                partial = false;
            } else if byte == CR {
                if pending_cr {
                    terminators.push(LineEnding::Cr);
                }
                pending_cr = true;
                partial = false;
            } else {
                if pending_cr {
                    terminators.push(LineEnding::Cr);
                    pending_cr = false;
                }
                partial = true;
            }
            i = i + 1;
        }
        pos = pos + chunk.len() as u64;
    }
    if pending_cr {
        proof {
            text::lemma_endings_step(c, start as int, end - 1);
        }
        match branch.read_byte(end) {
            Ok(LF) => terminators.push(LineEnding::CrLf),
            _ => terminators.push(LineEnding::Cr),
        }
    }
    (terminators, partial)
}

/// What the segments hold follows from the bytes, the segment size and how
/// many segments are scanned: segments that are reset and scanned again hold
/// what they held before.
pub proof fn lemma_segments_determined(a: LineMap, b: LineMap, i: int)
    requires
        a.wf(),
        b.wf(),
        a.bytes() == b.bytes(),
        a.granularity() == b.granularity(),
        a.progress() == b.progress(),
        0 <= i < a.parts().len(),
    ensures
        a.parts().len() == b.parts().len(),
        a.parts()[i].byte_range == b.parts()[i].byte_range,
        a.parts()[i].terminators@ == b.parts()[i].terminators@,
        a.parts()[i].exact == b.parts()[i].exact,
        a.parts()[i].trailing_partial == b.parts()[i].trailing_partial,
        a.parts()[i].skip_first_byte == b.parts()[i].skip_first_byte,
{
    let x = a.parts()[i];
    let y = b.parts()[i];
    assert(segment_holds(x, a.bytes(), a.granularity(), a.progress(), i));
    assert(segment_holds(y, b.bytes(), b.granularity(), b.progress(), i));
}

/// The terminators of all segments of a scanned map, one segment after the
/// other.
pub open spec fn listed_terminators(parts: Seq<LineMapSegment>) -> Seq<LineEnding>
    decreases parts.len(),
{
    if parts.len() == 0 {
        Seq::empty()
    } else {
        listed_terminators(parts.drop_last()) + parts.last().terminators@
    }
}

/// The segments of a fully scanned map list the terminators of the bytes, each
/// of them once and in order, wherever the segments end.
pub proof fn lemma_segments_list_terminators(map: LineMap)
    requires
        map.wf(),
        map.progress() == map.parts().len(),
    ensures
        listed_terminators(map.parts()) == text::endings(
            map.bytes(),
            0,
            map.bytes().len() as int,
        ),
{
    lemma_boundary_ends(map.bytes().len() as int, map.granularity());
    lemma_first_segments_list(map, map.parts().len() as int);
    assert(map.parts().take(map.parts().len() as int) =~= map.parts());
}

/// How the bytes are divided into segments does not matter: two fully scanned
/// maps of the same bytes list the same terminators.
pub proof fn lemma_segment_size_is_immaterial(a: LineMap, b: LineMap)
    requires
        a.wf(),
        b.wf(),
        a.bytes() == b.bytes(),
        a.progress() == a.parts().len(),
        b.progress() == b.parts().len(),
    ensures
        listed_terminators(a.parts()) == listed_terminators(b.parts()),
{
    lemma_segments_list_terminators(a);
    lemma_segments_list_terminators(b);
}

proof fn lemma_first_segments_list(map: LineMap, n: int)
    requires
        map.wf(),
        map.progress() == map.parts().len(),
        0 <= n <= map.parts().len(),
    ensures
        listed_terminators(map.parts().take(n)) == text::endings(
            map.bytes(),
            0,
            boundary(map.bytes().len() as int, map.granularity(), n),
        ),
    decreases n,
{
    let c = map.bytes();
    let len = c.len() as int;
    let size = map.granularity();
    if n == 0 {
        lemma_boundary_ends(len, size);
        assert(listed_terminators(map.parts().take(0)) =~= text::endings(c, 0, 0));
    } else {
        lemma_first_segments_list(map, n - 1);
        lemma_boundary(len, size, n - 1);
        assert(map.parts().take(n).drop_last() =~= map.parts().take(n - 1));
        assert(segment_holds(map.parts()[n - 1], c, size, map.progress(), n - 1));
        text::lemma_breaks_split(c, 0, boundary(len, size, n - 1), boundary(len, size, n));
    }
}

/// Every scanned segment is announced by two events.
pub proof fn lemma_events_per_segment(c: Seq<u8>, size: int, a: int, b: int)
    requires
        a <= b,
    ensures
        scan_events_between(c, size, a, b).len() == 2 * (b - a),
    decreases b - a,
{
    if a < b {
        lemma_events_per_segment(c, size, a, b - 1);
    }
}

} // verus!
