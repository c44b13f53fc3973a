//! What branches, views and buffers hold after an edit or a look-up, said of
//! their bytes: `\n` is 10 and `\r` is 13.

use std::ops::Range;

use vstd::prelude::*;

use crate::branch::Branch;
use crate::buffer;
use crate::buffer::Buffer;
use crate::chars::Chars;
use crate::error::IoError;
use crate::line_map;
use crate::line_map::LineMap;
use crate::line_map_event::LineMapEvent;
use crate::lines::Lines;
use crate::offset_map;
use crate::text;
use crate::text_laws;
use crate::view;

verus! {

/// Reading gives the bytes that are asked for, as far as there are any.
pub proof fn lemma_read_as_far_as_there_are_bytes(
    source: Branch,
    offset: u64,
    len: usize,
    chunk: Vec<u8>,
)
    requires
        call_ensures(Branch::read_at, (&source, offset, len), chunk),
    ensures
        offset + len <= source@.len() ==> chunk@ == source@.subrange(
            offset as int,
            offset + len,
        ),
        offset <= source@.len() < offset + len ==> chunk@ == source@.skip(offset as int),
        offset > source@.len() ==> chunk@.len() == 0,
{
    if offset + len <= source@.len() {
        assert(chunk@ =~= source@.subrange(offset as int, offset + len));
    }
}

/// A splice in range puts the replacement between what comes before and after
/// the replaced bytes, in a branch that is one edit further; one out of range
/// fails, unless it does nothing.
pub proof fn lemma_spliced_in_place(
    source: Branch,
    offset: u64,
    len: u64,
    replacement: &[u8],
    made: Result<Branch, IoError>,
)
    requires
        call_ensures(Branch::splice, (&source, offset, len, replacement), made),
        source@.len() <= isize::MAX,
    ensures
        ({
            let c = source@;
            let r = replacement@;
            &&& offset + len <= c.len() ==> made is Ok && made->Ok_0@ == c.take(offset as int) + r
                + c.skip(offset + len)
            &&& made is Ok ==> made->Ok_0.generation() == source.generation() + 1
            &&& len > 0 && offset + len > u64::MAX ==> made == Err::<Branch, IoError>(
                IoError::OffsetOverflow,
            )
            &&& len > 0 && c.len() < offset + len <= u64::MAX ==> made == Err::<Branch, IoError>(
                IoError::OutOfBounds,
            )
            &&& len == 0 && r.len() > 0 && offset > c.len() ==> made == Err::<Branch, IoError>(
                IoError::OutOfBounds,
            )
            &&& len == 0 && r.len() == 0 && offset > c.len() ==> made is Ok && made->Ok_0@ == c
        }),
{
}

/// An insertion puts the bytes between what comes before and after the offset.
pub proof fn lemma_inserted_in_place(
    source: Branch,
    offset: u64,
    bytes: &[u8],
    made: Result<Branch, IoError>,
)
    requires
        call_ensures(Branch::insert_before, (&source, offset, bytes), made),
    ensures
        offset <= source@.len() ==> made is Ok && made->Ok_0@ == source@.take(offset as int)
            + bytes@ + source@.skip(offset as int),
        offset > source@.len() && bytes@.len() > 0 ==> made == Err::<Branch, IoError>(
            IoError::OutOfBounds,
        ),
        offset > source@.len() && bytes@.len() == 0 ==> made is Ok && made->Ok_0@ == source@,
        made is Ok ==> made->Ok_0.generation() == source.generation() + 1,
{
}

/// An edit of a view replaces, in a fork of its branch, the bytes to which the
/// two ends of the range translate; a range that is inverted or not in the view
/// is refused.
pub proof fn lemma_edit_replaces_what_is_shown(
    v: view::View,
    range: Range<u64>,
    replacement: &[u8],
    made: Result<Branch, IoError>,
)
    requires
        call_ensures(view::View::apply, (&v, range, replacement), made),
        v.map().wf(),
        v.source_branch()@.len() <= isize::MAX,
    ensures
        range.start > range.end ==> made == Err::<Branch, IoError>(
            IoError::InvertedRange { start: range.start, end: range.end },
        ),
        range.start <= range.end && range.end > v.shown().len() && v.shown().len() <= u64::MAX
            ==> made is Err && made->Err_0 is RangePastView && made->Err_0->RangePastView_end
            == range.end && made->Err_0->view_len == v.shown().len(),
        ({
            let c = v.source_branch()@;
            let from = v.range_start() + v.map().source_of(range.start as int);
            let to = v.range_start() + v.map().source_of(range.end as int);
            range.start <= range.end <= v.shown().len() && to <= c.len() ==> {
                &&& 0 <= from <= to
                &&& made is Ok
                &&& made->Ok_0@ == c.take(from) + replacement@ + c.skip(to)
                &&& made->Ok_0.generation() == v.source_branch().generation() + 1
            }
        }),
{
    if range.start <= range.end {
        offset_map::lemma_source_of_monotone(v.map(), range.start as int, range.start + 1);
        if range.start < range.end {
            offset_map::lemma_source_of_monotone(v.map(), range.start as int, range.end as int);
        }
    }
}

/// An edited buffer holds the new bytes in a branch that is one edit further,
/// keeps its settings, and has a line map that knows nothing yet.
pub proof fn lemma_edited_buffer(
    before: Buffer,
    after: Buffer,
    bytes: Seq<u8>,
    events: Option<Seq<LineMapEvent>>,
)
    requires
        after.edited_to(&before, bytes, events),
    ensures
        after.wf(),
        after.source_branch()@ == bytes,
        after.source_branch().generation() == before.source_branch().generation() + 1,
        after.source_encoding() == before.source_encoding(),
        after.source_bom_len() == before.source_bom_len(),
        after.source_line_ending() == before.source_line_ending(),
        after.ceiling() == before.ceiling(),
        after.map().source() == after.source_branch(),
        after.map().granularity() == 65536,
        after.map().progress() == 0,
        after.map().events() == events,
{
}

/// Looking something up changes nothing but what the line map knows.
pub proof fn lemma_looked_up_buffer(before: Buffer, after: Buffer, scanned: int)
    requires
        after.scanned_from(&before, scanned),
    ensures
        after.wf(),
        after.source_branch() == before.source_branch(),
        after.source_encoding() == before.source_encoding(),
        after.source_bom_len() == before.source_bom_len(),
        after.source_line_ending() == before.source_line_ending(),
        after.ceiling() == before.ceiling(),
        after.map().source() == before.map().source(),
        after.map().granularity() == before.map().granularity(),
        after.map().progress() == scanned,
        after.map().events() == line_map::events_after_scans(before.map(), scanned),
{
}

/// What keeps its source keeps all that it was opened with.
pub proof fn lemma_same_source(
    lines: (Lines, Lines),
    chars: (Chars, Chars),
    maps: (LineMap, LineMap),
)
    requires
        lines.0.same_source(&lines.1),
        chars.0.same_source(&chars.1),
        maps.0.same_map(&maps.1),
    ensures
        lines.0.source_branch() == lines.1.source_branch(),
        lines.0.source_encoding() == lines.1.source_encoding(),
        lines.0.source_line_ending() == lines.1.source_line_ending(),
        lines.0.ceiling() == lines.1.ceiling(),
        chars.0.source_branch() == chars.1.source_branch(),
        chars.0.source_encoding() == chars.1.source_encoding(),
        chars.0.source_line_ending() == chars.1.source_line_ending(),
        chars.0.source_bom_len() == chars.1.source_bom_len(),
        maps.0.source() == maps.1.source(),
        maps.0.granularity() == maps.1.granularity(),
{
}

/// A line ends after its own terminator, which is the first one after its start,
/// or at the end of the bytes.
pub proof fn lemma_where_lines_end(c: Seq<u8>, line: int)
    requires
        0 <= line <= text::break_count(c),
    ensures
        ({
            let start = text::line_start(c, line);
            let end = buffer::line_end(c, line);
            &&& 0 <= start <= end <= c.len()
            &&& line == text::break_count(c) ==> end == c.len()
            &&& line < text::break_count(c) ==> start < end && (c[end - 1] == 10 || (c[end - 1]
                == 13 && !(end < c.len() && c[end] == 10)))
            &&& forall|q: int|
                start < q < end ==> !(#[trigger] c[q - 1] == 10 || (c[q - 1] == 13 && c[q] != 10))
        }),
{
    let start = text::line_start(c, line);
    let end = buffer::line_end(c, line);
    text_laws::lemma_where_lines_start(c);
    assert forall|q: int| start < q < end implies !(#[trigger] c[q - 1] == 10 || (c[q - 1] == 13
        && c[q] != 10)) by {
        if c[q - 1] == 10 || (c[q - 1] == 13 && c[q] != 10) {
            let i = choose|i: int|
                0 < i <= text::break_count(c) && #[trigger] text::line_start(c, i) == q;
            if i <= line {
                if i < line {
                    assert(text::line_start(c, i) < text::line_start(c, line));
                }
            } else if i > line + 1 {
                assert(text::line_start(c, line + 1) < text::line_start(c, i));
            }
        }
    }
}

} // verus!
