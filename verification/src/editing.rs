//! What edits do to the lines and to what views show.

use std::ops::Range;

use vstd::prelude::*;

use crate::branch;
use crate::buffer;
use crate::codec;
use crate::encoding::LineEnding;
use crate::line_map_event::LineMapEvent;
use crate::lines;
use crate::lines::{LineTerminator, Units};
use crate::offset_map;
use crate::round_trip;
use crate::text;
use crate::text::{CR, LF};
use crate::view;
use crate::wide_text;

verus! {

/// An edit can be undone: what was replaced, put back in place of what
/// replaced it, gives the bytes from before.
pub proof fn lemma_splice_undone(c: Seq<u8>, from: int, len: int, replacement: Seq<u8>)
    requires
        0 <= from,
        0 <= len,
        from + len <= c.len(),
    ensures
        branch::spliced(
            branch::spliced(c, from, len, replacement),
            from,
            replacement.len() as int,
            c.subrange(from, from + len),
        ) == c,
{
    assert(branch::spliced(
        branch::spliced(c, from, len, replacement),
        from,
        replacement.len() as int,
        c.subrange(from, from + len),
    ) =~= c);
}

/// A terminator on its own is an empty line.
proof fn lemma_lone_terminator(ending: LineEnding)
    ensures
        ({
            let t = buffer::ending_bytes(ending);
            &&& lines::split_lines(t, Units::Byte) == seq![
                (seq![LF], LineTerminator::Ending(ending)),
            ]
            &&& text::endings(t, 0, t.len() as int) == seq![ending]
            &&& offset_map::normalised(t, t.len() as int) == seq![LF]
            &&& !text::ends_in_line(t, t.len() as int)
            &&& t.len() > 0
        }),
{
    let t = buffer::ending_bytes(ending);
    assert(t[0] == CR || t[0] == LF);
    assert(lines::first_break(t, Units::Byte, 0) == Some(0int));
    assert(lines::ending_of(t, Units::Byte, 0) == ending);
    let split = lines::split_line(t, Units::Byte)->0;
    assert(t.take(0) + seq![LF] =~= seq![LF]);
    assert(t.skip(split.taken) =~= Seq::<u8>::empty());
    assert(lines::split_lines(t.skip(split.taken), Units::Byte) =~= Seq::empty());
    assert(lines::split_lines(t, Units::Byte) =~= seq![
        (seq![LF], LineTerminator::Ending(ending)),
    ]);
    round_trip::lemma_lines_are_normalised(t);
    reveal_with_fuel(round_trip::joined, 2);
    reveal_with_fuel(round_trip::line_endings, 2);
    let all = lines::split_lines(t, Units::Byte);
    assert(all.skip(1) =~= Seq::empty());
    assert(round_trip::joined(all) =~= seq![LF]);
    assert(round_trip::line_endings(all) =~= seq![ending]);
}

/// Where no `\r\n` is torn apart or formed, a terminator put into a text adds
/// one terminator, and to the normalised text one `\n`, and changes nothing
/// else.
pub proof fn lemma_terminator_inserted(c: Seq<u8>, at: int, ending: LineEnding)
    requires
        0 <= at <= c.len(),
        text::meets_cleanly(c.take(at), c.skip(at)),
        text::meets_cleanly(c.take(at), buffer::ending_bytes(ending)),
        text::meets_cleanly(buffer::ending_bytes(ending), c.skip(at)),
    ensures
        ({
            let d = branch::spliced(c, at, 0, buffer::ending_bytes(ending));
            let before = text::endings(c.take(at), 0, at).len() as int;
            let shown = offset_map::normalised(c, at).len() as int;
            &&& text::endings(d, 0, d.len() as int) == text::endings(c, 0, c.len() as int).insert(
                before,
                ending,
            )
            &&& text::break_count(d) == text::break_count(c) + 1
            &&& offset_map::normalised(d, d.len() as int) == offset_map::normalised(
                c,
                c.len() as int,
            ).insert(shown, LF)
        }),
{
    let x = c.take(at);
    let t = buffer::ending_bytes(ending);
    let y = c.skip(at);
    let d = branch::spliced(c, at, 0, t);
    assert(c =~= x + y);
    assert(d =~= x + (t + y));
    lemma_lone_terminator(ending);
    assert((t + y)[0] == t[0]);
    text::lemma_endings_concat(x, y);
    text::lemma_endings_concat(x, t + y);
    text::lemma_endings_concat(t, y);
    offset_map::lemma_normalised_concat(x, y, y.len() as int);
    offset_map::lemma_normalised_concat(x, t + y, (t + y).len() as int);
    offset_map::lemma_normalised_concat(t, y, y.len() as int);
    offset_map::lemma_normalised_take(c, at);
    let before = text::endings(x, 0, at).len() as int;
    assert(text::endings(d, 0, d.len() as int) =~= text::endings(c, 0, c.len() as int).insert(
        before,
        ending,
    ));
    assert(text::endings(d, 0, d.len() as int).len() == text::break_count(d));
    assert(text::endings(c, 0, c.len() as int).len() == text::break_count(c));
    let shown = offset_map::normalised(c, at).len() as int;
    assert(offset_map::normalised(d, d.len() as int) =~= offset_map::normalised(
        c,
        c.len() as int,
    ).insert(shown, LF));
}

/// A terminator inserted where a line starts is an empty line before it, and
/// every other line stays as it is, unless a `\r\n` forms.
pub proof fn lemma_line_inserted(c: Seq<u8>, line: int, ending: LineEnding)
    requires
        0 <= line <= text::break_count(c),
        text::meets_cleanly(
            c.take(text::line_start(c, line)),
            buffer::ending_bytes(ending),
        ),
        text::meets_cleanly(
            buffer::ending_bytes(ending),
            c.skip(text::line_start(c, line)),
        ),
    ensures
        lines::split_lines(
            branch::spliced(c, text::line_start(c, line), 0, buffer::ending_bytes(ending)),
            Units::Byte,
        ) == lines::split_lines(c, Units::Byte).insert(
            line,
            (seq![LF], LineTerminator::Ending(ending)),
        ),
{
    let at = text::line_start(c, line);
    text::lemma_cut_at_line(c, line);
    let x = c.take(at);
    let t = buffer::ending_bytes(ending);
    let y = c.skip(at);
    let d = branch::spliced(c, at, 0, t);
    assert(c =~= x + y);
    assert(d =~= x + (t + y));
    lemma_lone_terminator(ending);
    assert((t + y)[0] == t[0]);
    round_trip::lemma_split_lines_concat(x, y);
    round_trip::lemma_split_lines_concat(x, t + y);
    round_trip::lemma_split_lines_concat(t, y);
    round_trip::lemma_lines_are_normalised(x);
    assert(lines::split_lines(d, Units::Byte) =~= lines::split_lines(c, Units::Byte).insert(
        line,
        (seq![LF], LineTerminator::Ending(ending)),
    ));
}

/// Where the normalised position `at` of a view stands in its branch: between
/// bytes that normalise to what the view shows before it and to what it shows
/// from there on.
proof fn lemma_position_in_view(v: view::View, end: int, at: int)
    requires
        v.shows(end),
        end <= i64::MAX,
        0 <= at <= v.shown().len(),
    ensures
        ({
            let s = v.source_branch()@.subrange(v.range_start() as int, end);
            let p = v.map().source_of(at);
            &&& 0 <= p <= s.len()
            &&& text::meets_cleanly(s.take(p), s.skip(p))
            &&& offset_map::normalised(s.take(p), p) == v.shown().take(at)
            &&& offset_map::normalised(s.skip(p), s.len() - p) == v.shown().skip(at)
        }),
{
    let s = v.source_branch()@.subrange(v.range_start() as int, end);
    let n = s.len() as int;
    let p = if at < v.shown().len() {
        offset_map::lemma_kept_position(s, n, at)
    } else {
        n
    };
    offset_map::lemma_source_of_built(v.map(), s, p);
    assert(v.map().source_of(at) == p);
    let x = s.take(p);
    let y = s.skip(p);
    assert(x + y =~= s);
    offset_map::lemma_normalised_concat(x, y, y.len() as int);
    offset_map::lemma_normalised_take(s, p);
    assert(v.shown().take(at) =~= offset_map::normalised(x, p));
    assert(v.shown().skip(at) =~= offset_map::normalised(y, n - p));
}

/// Every range within a view has its place in the branch: applying an edit to
/// it does not fail, and what it replaces normalises to what the view shows in
/// this range.
pub proof fn lemma_range_in_view(v: view::View, end: int, range: Range<u64>)
    requires
        v.shows(end),
        end <= i64::MAX,
        range.start <= range.end <= v.shown().len(),
    ensures
        v.splice_site(range) is Ok,
        ({
            let (from, len) = v.splice_site(range)->Ok_0;
            let replaced = v.source_branch()@.subrange(from, from + len);
            &&& v.range_start() <= from
            &&& 0 <= len
            &&& from + len <= end
            &&& offset_map::normalised(replaced, len) == v.shown().subrange(
                range.start as int,
                range.end as int,
            )
            &&& forall|replacement: Seq<u8>|
                #[trigger] branch::splice_failure(
                    v.source_branch()@,
                    from as u64,
                    len as u64,
                    replacement,
                ) is None
        }),
{
    let a = range.start as int;
    let b = range.end as int;
    let c = v.source_branch()@;
    let s = c.subrange(v.range_start() as int, end);
    lemma_position_in_view(v, end, a);
    lemma_position_in_view(v, end, b);
    offset_map::lemma_drift_entries(s, s.len() as int);
    let p = v.map().source_of(a);
    let q = v.map().source_of(b);
    if a < b {
        offset_map::lemma_source_of_monotone(v.map(), a, b);
    }
    let x = s.take(q).take(p);
    let y = s.take(q).skip(p);
    assert(x =~= s.take(p));
    assert(x + y =~= s.take(q));
    if y.len() > 0 {
        assert(y[0] == s.skip(p)[0]);
    }
    offset_map::lemma_normalised_concat(x, y, y.len() as int);
    let (from, len) = v.splice_site(range)->Ok_0;
    assert(c.subrange(from, from + len) =~= y);
    assert(offset_map::normalised(s.take(q), q) == offset_map::normalised(x, p)
        + offset_map::normalised(y, len));
    assert(v.shown().take(b) == v.shown().take(a) + offset_map::normalised(y, len));
    assert(v.shown().subrange(a, b) =~= v.shown().take(b).skip(a));
    assert(v.shown().subrange(a, b) =~= offset_map::normalised(y, len));
}

/// Every range within a view of UTF-16 has its place in the branch too: applying
/// an edit to it does not fail, and replaces as many bytes at least as the range
/// has.
pub proof fn lemma_range_in_wide_view(v: view::View, units: Units, end: int, range: Range<u64>)
    requires
        units != Units::Byte,
        v.shows_in(units, end),
        end <= i64::MAX,
        range.start <= range.end <= v.shown().len(),
    ensures
        v.splice_site(range) is Ok,
        ({
            let (from, len) = v.splice_site(range)->Ok_0;
            &&& v.range_start() <= from
            &&& range.end - range.start <= len
            &&& from + len <= end
            &&& forall|replacement: Seq<u8>|
                #[trigger] branch::splice_failure(
                    v.source_branch()@,
                    from as u64,
                    len as u64,
                    replacement,
                ) is None
        }),
{
    let s = v.source_branch()@.subrange(v.range_start() as int, end);
    let a = range.start as int;
    let b = range.end as int;
    wide_text::lemma_wide_position(v.map(), s, units, a);
    wide_text::lemma_wide_position(v.map(), s, units, b);
    lemma_translation_stretches(v.map(), a, b);
}

/// Positions do not come closer to each other by translation.
proof fn lemma_translation_stretches(map: offset_map::OffsetMap, a: int, b: int)
    requires
        map.wf(),
        a <= b,
    ensures
        b - a <= map.source_of(b) - map.source_of(a),
    decreases b - a,
{
    if a < b {
        lemma_translation_stretches(map, a, b - 1);
        offset_map::lemma_source_of_monotone(map, b - 1, b);
    }
}

/// An edit through a view reads back as it was asked for: seen anew, the range
/// of the view shows what it showed before and after the edited part, and in
/// its place the replacement, normalised, unless a `\r\n` forms at either end
/// of the replacement.
pub proof fn lemma_edit_reads_back(
    v: view::View,
    end: int,
    range: Range<u64>,
    replacement: Seq<u8>,
)
    requires
        v.shows(end),
        end <= i64::MAX,
        range.start <= range.end <= v.shown().len(),
        ({
            let c = v.source_branch()@;
            let (from, len) = v.splice_site(range)->Ok_0;
            &&& text::meets_cleanly(c.subrange(v.range_start() as int, from), replacement)
            &&& text::meets_cleanly(
                c.subrange(v.range_start() as int, from) + replacement,
                c.subrange(from + len, end),
            )
        }),
    ensures
        ({
            let (from, len) = v.splice_site(range)->Ok_0;
            let d = branch::spliced(v.source_branch()@, from, len, replacement);
            let s = d.subrange(v.range_start() as int, end - len + replacement.len());
            offset_map::normalised(s, s.len() as int) == v.shown().take(range.start as int)
                + offset_map::normalised(replacement, replacement.len() as int) + v.shown().skip(
                range.end as int,
            )
        }),
{
    let a = range.start as int;
    let b = range.end as int;
    let c = v.source_branch()@;
    let start = v.range_start() as int;
    let s = c.subrange(start, end);
    lemma_range_in_view(v, end, range);
    lemma_position_in_view(v, end, a);
    lemma_position_in_view(v, end, b);
    let (from, len) = v.splice_site(range)->Ok_0;
    let x = c.subrange(start, from);
    let y = c.subrange(from + len, end);
    assert(s.take(v.map().source_of(a)) =~= x);
    assert(s.skip(v.map().source_of(b)) =~= y);
    let d = branch::spliced(c, from, len, replacement);
    let t = d.subrange(start, end - len + replacement.len());
    assert(t =~= (x + replacement) + y);
    offset_map::lemma_normalised_concat(x, replacement, replacement.len() as int);
    offset_map::lemma_normalised_concat(x + replacement, y, y.len() as int);
}

/// Where an even position, or the end, of a view of UTF-16 stands in its branch:
/// between bytes that normalise to what the view shows before it and to what it
/// shows from there on.
proof fn lemma_position_in_wide_view(v: view::View, units: Units, end: int, at: int)
    requires
        units != Units::Byte,
        v.shows_in(units, end),
        end <= i64::MAX,
        0 <= at <= v.shown().len(),
        at % 2 == 0 || at == v.shown().len(),
    ensures
        ({
            let s = v.source_branch()@.subrange(v.range_start() as int, end);
            let p = v.map().source_of(at);
            &&& 0 <= p <= s.len()
            &&& at % 2 == 0 ==> p % 2 == 0
            &&& wide_text::normalised(s.take(p), units, p) == v.shown().take(at)
            &&& wide_text::normalised(s.skip(p), units, s.len() - p) == v.shown().skip(at)
        }),
{
    let s = v.source_branch()@.subrange(v.range_start() as int, end);
    let n = s.len() as int;
    if at < v.shown().len() {
        let p = v.map().source_of(at);
        wide_text::lemma_wide_unit_position(v.map(), s, units, at);
        wide_text::lemma_wide_cut(s, units, p);
        assert(v.shown().take(at) =~= wide_text::normalised(s, units, p));
        assert(v.shown().skip(at) =~= wide_text::normalised(s.skip(p), units, n - p));
    } else {
        wide_text::lemma_wide_source_of_built(v.map(), s, units, n);
        wide_text::lemma_wide_parity(s, units);
        assert(s.take(n) =~= s);
        assert(v.shown().take(at) =~= v.shown());
        assert(v.shown().skip(at) =~= wide_text::normalised(s.skip(n), units, 0));
    }
}

/// In UTF-16 an edit of full code units through a view reads back as it was
/// asked for too, unless a `\r\n` forms at either end of the replacement.
pub proof fn lemma_wide_edit_reads_back(
    v: view::View,
    units: Units,
    end: int,
    range: Range<u64>,
    replacement: Seq<u8>,
)
    requires
        units != Units::Byte,
        v.shows_in(units, end),
        end <= i64::MAX,
        range.start <= range.end <= v.shown().len(),
        range.start % 2 == 0,
        range.end % 2 == 0 || range.end == v.shown().len(),
        ({
            let c = v.source_branch()@;
            let (from, len) = v.splice_site(range)->Ok_0;
            &&& wide_text::meets_cleanly(
                c.subrange(v.range_start() as int, from),
                replacement,
                units,
            )
            &&& wide_text::meets_cleanly(
                c.subrange(v.range_start() as int, from) + replacement,
                c.subrange(from + len, end),
                units,
            )
        }),
    ensures
        ({
            let (from, len) = v.splice_site(range)->Ok_0;
            let d = branch::spliced(v.source_branch()@, from, len, replacement);
            let s = d.subrange(v.range_start() as int, end - len + replacement.len());
            wide_text::normalised(s, units, s.len() as int) == v.shown().take(range.start as int)
                + wide_text::normalised(replacement, units, replacement.len() as int)
                + v.shown().skip(range.end as int)
        }),
{
    let a = range.start as int;
    let b = range.end as int;
    let c = v.source_branch()@;
    let start = v.range_start() as int;
    let s = c.subrange(start, end);
    lemma_range_in_wide_view(v, units, end, range);
    lemma_position_in_wide_view(v, units, end, a);
    lemma_position_in_wide_view(v, units, end, b);
    let (from, len) = v.splice_site(range)->Ok_0;
    let x = c.subrange(start, from);
    let y = c.subrange(from + len, end);
    assert(s.take(v.map().source_of(a)) =~= x);
    assert(s.skip(v.map().source_of(b)) =~= y);
    let d = branch::spliced(c, from, len, replacement);
    let t = d.subrange(start, end - len + replacement.len());
    assert(t =~= (x + replacement) + y);
    wide_text::lemma_wide_normalised_concat(x, replacement, units, replacement.len() as int);
    wide_text::lemma_wide_normalised_concat(x + replacement, y, units, y.len() as int);
}

/// Where all terminators of a text are of one kind, no `\r\n` forms when one
/// more of them is put where a line starts.
pub proof fn lemma_uniform_text_stays_clean(c: Seq<u8>, line: int, ending: LineEnding)
    requires
        0 <= line <= text::break_count(c),
        forall|i: int|
            0 <= i < text::break_count(c) ==> #[trigger] text::endings(c, 0, c.len() as int)[i]
                == ending,
    ensures
        text::meets_cleanly(
            c.take(text::line_start(c, line)),
            buffer::ending_bytes(ending),
        ),
        text::meets_cleanly(
            buffer::ending_bytes(ending),
            c.skip(text::line_start(c, line)),
        ),
{
    let at = text::line_start(c, line);
    let n = c.len() as int;
    text::lemma_cut_at_line(c, line);
    assert forall|p: int| 0 <= p < n && #[trigger] text::is_break(c, p) implies text::ending_at(
        c,
        p,
    ) == ending by {
        text::lemma_breaks_complete(c, 0, n, p);
        let b = text::breaks(c, 0, n);
        let i = choose|i: int| 0 <= i < b.len() && b[i] == p;
        assert(text::endings(c, 0, n)[i] == text::ending_at(c, p));
    }
    if at > 0 {
        assert(c.take(at).last() == c[at - 1]);
        assert(c[at - 1] == CR ==> text::is_break(c, at - 1));
    }
    if at < n {
        assert(c.skip(at)[0] == c[at]);
        assert(c[at] == LF && !(at > 0 && c[at - 1] == CR) ==> text::is_break(c, at));
    }
}

/// Deleting an inserted line undoes inserting it: the view of the line shows
/// nothing but a `\n`, or the terminator itself where views are not normalised,
/// and replacing all that it shows by nothing gives the bytes from before.
pub proof fn lemma_inserted_line_deleted(
    before: buffer::Buffer,
    after: buffer::Buffer,
    line: int,
    events: Option<Seq<LineMapEvent>>,
    v: view::View,
)
    requires
        0 <= line <= text::break_count(before.bytes()),
        text::meets_cleanly(
            before.bytes().take(text::line_start(before.bytes(), line)),
            buffer::ending_bytes(before.source_line_ending()),
        ),
        text::meets_cleanly(
            buffer::ending_bytes(before.source_line_ending()),
            before.bytes().skip(text::line_start(before.bytes(), line)),
        ),
        after.edited_to(
            &before,
            branch::spliced(
                before.bytes(),
                text::line_start(before.bytes(), line),
                0,
                buffer::ending_bytes(before.source_line_ending()),
            ),
            events,
        ),
        after.bytes().len() <= isize::MAX,
        after.is_view(
            v,
            text::line_start(after.bytes(), line),
            buffer::line_end(after.bytes(), line),
        ),
    ensures
        v.source_branch() == after.source_branch(),
        v.shown() == (if codec::is_ascii_superset(before.source_encoding()) {
            seq![LF]
        } else {
            buffer::ending_bytes(before.source_line_ending())
        }),
        v.splice_site(0u64..(v.shown().len() as u64)) is Ok,
        ({
            let (from, len) = v.splice_site(0u64..(v.shown().len() as u64))->Ok_0;
            let nothing = Seq::<u8>::empty();
            &&& 0 <= from
            &&& 0 <= len
            &&& from + len <= after.bytes().len()
            &&& branch::splice_failure(after.bytes(), from as u64, len as u64, nothing) is None
            &&& branch::spliced(after.bytes(), from, len, nothing) == before.bytes()
        }),
{
    let c = before.bytes();
    let d = after.bytes();
    let ending = before.source_line_ending();
    let at = text::line_start(c, line);
    text::lemma_cut_at_line(c, line);
    let x = c.take(at);
    let t = buffer::ending_bytes(ending);
    let y = c.skip(at);
    assert(d =~= x + (t + y));
    lemma_lone_terminator(ending);
    assert(text::endings(t, 0, t.len() as int).len() == text::break_count(t));
    assert((t + y)[0] == t[0]);
    text::lemma_endings_concat(x, t + y);
    text::lemma_endings_concat(t, y);
    text::lemma_last_line_start(x);
    text::lemma_last_line_start(t);
    assert(text::line_start(t + y, 1) == t.len());
    assert(text::line_start(d, line) == at);
    assert(text::line_start(d, line + 1) == at + t.len());
    let s = d.subrange(at, at + t.len());
    assert(s =~= t);
    if codec::is_ascii_superset(after.source_encoding()) {
        offset_map::lemma_source_of_built(v.map(), s, 0);
        offset_map::lemma_source_of_built(v.map(), s, s.len() as int);
        assert(offset_map::normalised(s, 0).len() == 0);
    }
    assert(v.map().source_of(0) == 0);
    assert(v.map().source_of(v.shown().len() as int) == t.len());
    assert(branch::spliced(d, at, t.len() as int, Seq::<u8>::empty()) =~= c);
}

/// An edit makes every view from before it stale, and further edits keep it so:
/// a view of an earlier generation is not a view of the branch that the buffer
/// has now.
pub proof fn lemma_edits_make_stale(
    before: buffer::Buffer,
    after: buffer::Buffer,
    bytes: Seq<u8>,
    events: Option<Seq<LineMapEvent>>,
    v: view::View,
)
    requires
        after.edited_to(&before, bytes, events),
        v.source_branch().generation() <= before.source_branch().generation(),
    ensures
        v.source_branch() != after.source_branch(),
        v.source_branch().generation() <= after.source_branch().generation(),
{
}

} // verus!
