//! What a line map knows, said of the bytes that it maps: `\n` is 10 and `\r` is
//! 13.

use vstd::prelude::*;

use crate::branch::Branch;
use crate::line_count::LineCount;
use crate::line_map;
use crate::line_map::LineMap;
use crate::line_map_event::{EventSender, LineMapEvent};
use crate::line_map_segment::LineMapSegment;
use crate::text;

verus! {

/// The segments cover the bytes one after the other, all of them of the segment
/// size but for the last, which may be shorter.
pub proof fn lemma_segments_cover_the_bytes(
    map: LineMap,
    count: usize,
    idx: usize,
    segment: &LineMapSegment,
)
    requires
        map.wf(),
        call_ensures(LineMap::segment_count, (&map,), count),
        idx < count,
        call_ensures(LineMap::segment, (&map, idx), segment),
    ensures
        ({
            let len = map.bytes().len() as int;
            let size = map.granularity();
            let from = segment.byte_range.start as int;
            let to = segment.byte_range.end as int;
            &&& from == idx * size
            &&& from < to <= len
            &&& to - from <= size
            &&& idx + 1 < count ==> to - from == size
            &&& idx + 1 == count <==> to == len
        }),
{
    let len = map.bytes().len() as int;
    let size = map.granularity();
    line_map::lemma_boundary(len, size, idx as int);
    line_map::lemma_boundary_ends(len, size);
    assert((idx + 1) * size == idx * size + size) by (nonlinear_arith);
    if idx + 1 < count {
        line_map::lemma_boundary(len, size, idx + 1);
    }
}

/// There are segments exactly where there are bytes.
pub proof fn lemma_segments_where_bytes(map: LineMap, count: usize)
    requires
        map.wf(),
        call_ensures(LineMap::segment_count, (&map,), count),
    ensures
        count == 0 <==> map.bytes().len() == 0,
        count == map.parts().len(),
{
    if map.bytes().len() > 0 {
        line_map::lemma_boundary_ends(map.bytes().len() as int, map.granularity());
        assert(0 * map.granularity() == 0) by (nonlinear_arith);
    }
}

/// A segment that is scanned lists the kinds of the terminators that begin in
/// it, and says whether it ends in the middle of a line; one that is not lists
/// nothing.  A `\r\n` across two segments belongs to the first, and the second
/// knows it once the first is scanned.
pub proof fn lemma_segments_list_what_begins_in_them(
    map: LineMap,
    idx: usize,
    segment: &LineMapSegment,
)
    requires
        map.wf(),
        idx < map.parts().len(),
        call_ensures(LineMap::segment, (&map, idx), segment),
    ensures
        ({
            let c = map.bytes();
            let from = segment.byte_range.start as int;
            let to = segment.byte_range.end as int;
            &&& segment.exact <==> idx < map.progress()
            &&& segment.exact ==> segment.terminators@ == text::endings(c, from, to)
            &&& !segment.exact ==> segment.terminators@.len() == 0
            &&& segment.trailing_partial <==> segment.exact && c[to - 1] != 10 && c[to - 1] != 13
            &&& segment.skip_first_byte <==> idx <= map.progress() && from > 0 && c[from - 1] == 13
                && c[from] == 10
        }),
{
    line_map::lemma_boundary(map.bytes().len() as int, map.granularity(), idx as int);
}

/// The count is exact once everything is scanned.  Before anything is scanned
/// there is one line for every 40 bytes, or part of them.  In between, the lines
/// are to the bytes scanned as the estimate is to all bytes, rounded down, but
/// there is at least one.
pub proof fn lemma_count_is_known_or_estimated(map: LineMap, count: LineCount)
    requires
        map.wf(),
        call_ensures(LineMap::current_line_count, (&map,), count),
    ensures
        count.exact <==> map.progress() == map.parts().len(),
        count.exact ==> count.value == text::line_total(map.bytes()),
        !count.exact && map.progress() == 0 ==> 40 * (count.value - 1) < map.bytes().len() <= 40
            * count.value,
        !count.exact && map.progress() > 0 ==> {
            let done = map.progress() * map.granularity();
            let lines = text::breaks(map.bytes(), 0, done).len();
            let len = map.bytes().len();
            &&& 0 < done < len
            &&& count.value >= 1
            &&& lines * len < (count.value + 1) * done
            &&& count.value * done <= lines * len || count.value == 1
        },
{
    let c = map.bytes();
    let len = c.len() as int;
    let size = map.granularity();
    let k = map.progress();
    line_map::lemma_boundary_ends(len, size);
    text::lemma_breaks_sound(c, 0, len);
    if k < map.parts().len() && k > 0 {
        line_map::lemma_boundary(len, size, k);
        line_map::lemma_boundary(len, size, 0);
        line_map::lemma_boundary_monotone(len, size, 1, k);
        let done = k * size;
        let lines = text::breaks(c, 0, done).len() as int;
        text::lemma_breaks_sound(c, 0, done);
        line_map::lemma_density(lines, len, done);
        let estimate = (lines * len) / done;
        vstd::arithmetic::div_mod::lemma_fundamental_div_mod(lines * len, done);
        vstd::arithmetic::div_mod::lemma_mod_bound(lines * len, done);
        assert(estimate * done == done * estimate) by (nonlinear_arith);
        assert((estimate + 1) * done == estimate * done + done) by (nonlinear_arith);
        if estimate < 1 {
            assert((1 + 1) * done == done + done) by (nonlinear_arith);
            assert(estimate * done == 0) by (nonlinear_arith)
                requires
                    estimate == 0,
            ;
        }
    }
}

/// A scanned segment is announced by the line count as it is then known and by
/// the lines that end in it; if none does, by the line in which it lies.
pub proof fn lemma_what_a_scan_announces(c: Seq<u8>, size: int, i: int, from: int, to: int)
    requires
        c.len() <= isize::MAX,
        size >= 1,
        0 <= i,
        from == i * size,
        from < c.len(),
        to == (if from + size <= c.len() {
            from + size
        } else {
            c.len() as int
        }),
    ensures
        ({
            let sent = line_map::scan_events(c, size, i);
            let before = text::breaks(c, 0, from).len() as int;
            let within = text::breaks(c, from, to).len() as int;
            &&& sent.len() == 2
            &&& sent[0] is LineCountChanged
            &&& sent[0]->count == line_map::known_line_count(c, size, i + 1)
            &&& sent[1] is RegionExact
            &&& sent[1]->start_line == before
            &&& sent[1]->end_line == (if within > 0 {
                before + within - 1
            } else {
                before
            })
        }),
{
    assert((i + 1) * size == i * size + size) by (nonlinear_arith);
    assert(0 <= i * size) by (nonlinear_arith)
        requires
            0 <= i,
            size >= 1,
    ;
    text::lemma_breaks_split(c, 0, from, to);
    text::lemma_breaks_sound(c, 0, from);
    text::lemma_breaks_sound(c, 0, to);
}

/// Scans are announced one after the other, after what has been sent before.
pub proof fn lemma_scans_are_announced_in_turn(map: LineMap, scanned: int, i: int)
    requires
        map.progress() <= i < scanned,
        map.events() is Some,
    ensures
        ({
            let sent = map.events()->0;
            let all = line_map::events_after_scans(map, scanned)->0;
            let announced = line_map::scan_events(map.bytes(), map.granularity(), i);
            let at = sent.len() + 2 * (i - map.progress());
            &&& line_map::events_after_scans(map, scanned) is Some
            &&& all.len() == sent.len() + 2 * (scanned - map.progress())
            &&& forall|k: int| 0 <= k < sent.len() ==> #[trigger] all[k] == sent[k]
            &&& all[at] == announced[0]
            &&& all[at + 1] == announced[1]
        }),
    decreases scanned - i,
{
    let c = map.bytes();
    let size = map.granularity();
    let a = map.progress();
    line_map::lemma_events_per_segment(c, size, a, scanned);
    line_map::lemma_events_per_segment(c, size, a, scanned - 1);
    if i < scanned - 1 {
        lemma_scans_are_announced_in_turn(map, scanned - 1, i);
    }
}

/// Without a sender nothing is sent, and without a scan nothing is added.
pub proof fn lemma_nothing_to_announce(map: LineMap, scanned: int)
    ensures
        map.events() is None ==> line_map::events_after_scans(map, scanned) is None,
        map.events() is Some ==> line_map::events_after_scans(map, map.progress()) == map.events(),
{
    if map.events() is Some {
        let sent = map.events()->0;
        assert(sent + Seq::<LineMapEvent>::empty() =~= sent);
    }
}

/// Looking up a line scans segments in turn until as many terminators are known
/// as there are lines before it, or all is scanned, and not one segment more.
pub proof fn lemma_scanned_for_a_line(map: LineMap, line: int)
    requires
        map.wf(),
    ensures
        ({
            let c = map.bytes();
            let size = map.granularity();
            let k = line_map::progress_for_line(map, line);
            &&& map.progress() <= k <= map.parts().len()
            &&& k == map.parts().len() || text::breaks(c, 0, k * size).len() >= line
            &&& forall|j: int|
                map.progress() <= j < k ==> text::breaks(c, 0, #[trigger] (j * size)).len() < line
        }),
{
    let c = map.bytes();
    let len = c.len() as int;
    let size = map.granularity();
    let k = line_map::progress_for_line(map, line);
    line_map::lemma_scans_until_line(c, size, line, map.progress());
    if k < map.parts().len() {
        line_map::lemma_boundary(len, size, k);
    }
    assert forall|j: int| map.progress() <= j < k implies text::breaks(
        c,
        0,
        #[trigger] (j * size),
    ).len() < line by {
        line_map::lemma_boundary(len, size, j);
        assert(line_map::lines_before(c, size, j) < line);
    }
}

/// Looking up an offset scans segments in turn until the one that holds it is
/// scanned, and not one more; an offset past the end scans nothing.
pub proof fn lemma_scanned_for_an_offset(map: LineMap, offset: int)
    requires
        map.wf(),
        0 <= offset,
    ensures
        ({
            let size = map.granularity();
            let k = line_map::progress_for_offset(map, offset);
            &&& map.progress() <= k
            &&& offset >= map.bytes().len() ==> k == map.progress()
            &&& offset < map.bytes().len() ==> offset < k * size
            &&& k > map.progress() ==> (k - 1) * size <= offset
        }),
{
    let size = map.granularity();
    let q = offset / size;
    vstd::arithmetic::div_mod::lemma_fundamental_div_mod(offset, size);
    vstd::arithmetic::div_mod::lemma_mod_bound(offset, size);
    vstd::arithmetic::div_mod::lemma_div_pos_is_pos(offset, size);
    assert((q + 1) * size == size * q + size) by (nonlinear_arith);
    assert(q * size == size * q) by (nonlinear_arith);
    if q + 1 <= map.progress() {
        assert((q + 1) * size <= map.progress() * size) by (nonlinear_arith)
            requires
                q + 1 <= map.progress(),
                size >= 1,
        ;
    }
}

/// Invalidating from a byte on keeps the scanned segments before the one that
/// holds the byte, but never the last segment.
pub proof fn lemma_kept_when_invalidated(map: LineMap, from_byte: u64)
    requires
        map.wf(),
        map.parts().len() > 0,
    ensures
        ({
            let size = map.granularity();
            let k = line_map::kept_segments(map, from_byte);
            &&& 0 <= k <= map.progress()
            &&& k < map.parts().len()
            &&& k * size <= from_byte
            &&& k == map.progress() || from_byte < (k + 1) * size || k == map.parts().len() - 1
        }),
{
    let size = map.granularity();
    let from = from_byte as int;
    let q = from / size;
    let k = line_map::kept_segments(map, from_byte);
    vstd::arithmetic::div_mod::lemma_fundamental_div_mod(from, size);
    vstd::arithmetic::div_mod::lemma_mod_bound(from, size);
    vstd::arithmetic::div_mod::lemma_div_pos_is_pos(from, size);
    assert((q + 1) * size == size * q + size) by (nonlinear_arith);
    assert(k * size <= size * q) by (nonlinear_arith)
        requires
            k <= q,
            size >= 1,
    ;
}

/// A new map has segments of the given size, of 1 byte if that is 0 and of 64 KiB
/// if none is given, and nothing is scanned yet.
pub proof fn lemma_new_map(
    branch: Branch,
    size: Option<u64>,
    sender: Option<EventSender>,
    map: LineMap,
)
    requires
        call_ensures(LineMap::new, (branch, size, sender), map),
    ensures
        map.source() == branch,
        size is None ==> map.granularity() == 65536,
        size == Some(0u64) ==> map.granularity() == 1,
        size is Some && size->0 > 0 ==> map.granularity() == size->0,
        map.progress() == 0,
        map.events() is Some <==> sender is Some,
        sender is Some ==> map.events()->0 == sender->0@,
{
}

/// The next segment to scan is the first that is not exact.
pub proof fn lemma_next_is_the_first_unscanned(
    map: LineMap,
    next: Option<usize>,
    idx: usize,
    segment: &LineMapSegment,
)
    requires
        map.wf(),
        idx < map.parts().len(),
        call_ensures(LineMap::next_unscanned, (&map,), next),
        call_ensures(LineMap::segment, (&map, idx), segment),
    ensures
        next is None ==> segment.exact,
        next is Some ==> (segment.exact <==> idx < next->0),
{
}

/// Counts are labelled as what they are.
pub proof fn lemma_counts_are_labelled(value: usize, known: LineCount, guessed: LineCount)
    requires
        call_ensures(LineCount::exact, (value,), known),
        call_ensures(LineCount::estimate, (value,), guessed),
    ensures
        known.exact && known.value == value,
        !guessed.exact && guessed.value == value,
{
}

} // verus!
