//! What views show and where their positions come from, said byte by byte: `\n`
//! is 10 and `\r` is 13.

use std::ops::Range;

use vstd::prelude::*;

use crate::branch::Branch;
use crate::buffer::{Buffer, BufferError};
use crate::codec;
use crate::codec::Encoding;
use crate::error::IoError;
use crate::lines::{Lines, LinesError, Units};
use crate::offset_map;
use crate::offset_map::{build_offset_map, OffsetMap};
use crate::view;
use crate::wide_text;

verus! {

/// Normalised text goes through a text from its start to its end, byte by byte,
/// with `\r` turned into `\n` and the `\n` of every `\r\n` left out; its
/// positions translate to where the bytes are.
pub proof fn lemma_normalised_byte_by_byte(map: OffsetMap, s: Seq<u8>)
    requires
        s.len() <= i64::MAX,
        map@ == offset_map::drift_entries(s, s.len() as int),
    ensures
        ({
            let shown = offset_map::normalised(s, s.len() as int);
            &&& map.source_of(0) == 0
            &&& map.source_of(shown.len() as int) == s.len()
            &&& forall|i: int|
                0 <= i < shown.len() ==> {
                    let p = #[trigger] map.source_of(i);
                    &&& 0 <= p < s.len()
                    &&& shown[i] == (if s[p] == 13 {
                        10u8
                    } else {
                        s[p]
                    })
                    &&& map.source_of(i + 1) == (if s[p] == 13 && p + 1 < s.len() && s[p + 1] == 10 {
                        p + 2
                    } else {
                        p + 1
                    })
                }
        }),
{
    let n = s.len() as int;
    let shown = offset_map::normalised(s, n);
    offset_map::lemma_source_of_built(map, s, 0);
    offset_map::lemma_source_of_built(map, s, n);
    assert forall|i: int| 0 <= i < shown.len() implies {
        let p = #[trigger] map.source_of(i);
        &&& 0 <= p < s.len()
        &&& shown[i] == (if s[p] == 13 {
            10u8
        } else {
            s[p]
        })
        &&& map.source_of(i + 1) == (if s[p] == 13 && p + 1 < s.len() && s[p + 1] == 10 {
            p + 2
        } else {
            p + 1
        })
    } by {
        let p = offset_map::lemma_kept_position(s, n, i);
        offset_map::lemma_source_of_built(map, s, p);
        assert(offset_map::normalised(s, p + 1).len() == i + 1);
        if p + 1 < n && offset_map::is_dropped(s, p + 1) {
            assert(offset_map::normalised(s, p + 2).len() == i + 1);
            offset_map::lemma_source_of_built(map, s, p + 2);
        } else {
            offset_map::lemma_source_of_built(map, s, p + 1);
        }
    }
}

/// The same in UTF-16, where `\r` and `\n` are code units of two bytes.
pub proof fn lemma_wide_byte_by_byte(map: OffsetMap, s: Seq<u8>, units: Units)
    requires
        units != Units::Byte,
        s.len() <= i64::MAX,
        map@ == wide_text::drift_entries(s, units, s.len() as int),
    ensures
        ({
            let shown = wide_text::normalised(s, units, s.len() as int);
            let low = if units == Units::Utf16Le {
                0int
            } else {
                1int
            };
            &&& map.source_of(0) == 0
            &&& map.source_of(shown.len() as int) == s.len()
            &&& forall|i: int|
                0 <= i < shown.len() ==> {
                    let p = #[trigger] map.source_of(i);
                    let u = p - p % 2;
                    let cr = u + 1 < s.len() && s[u + low] == 13 && s[u + 1 - low] == 0;
                    &&& 0 <= p < s.len()
                    &&& shown[i] == (if !cr {
                        s[p]
                    } else if p == u + low {
                        10u8
                    } else {
                        0u8
                    })
                    &&& map.source_of(i + 1) == (if cr && p == u + 1 && p + 2 < s.len() && s[p + 1 + low]
                        == 10 && s[p + 2 - low] == 0 {
                        p + 3
                    } else {
                        p + 1
                    })
                }
        }),
{
    let n = s.len() as int;
    let shown = wide_text::normalised(s, units, n);
    let low = if units == Units::Utf16Le {
        0int
    } else {
        1int
    };
    wide_text::lemma_wide_source_of_built(map, s, units, 0);
    wide_text::lemma_wide_source_of_built(map, s, units, n);
    assert forall|i: int| 0 <= i < shown.len() implies {
        let p = #[trigger] map.source_of(i);
        let u = p - p % 2;
        let cr = u + 1 < s.len() && s[u + low] == 13 && s[u + 1 - low] == 0;
        &&& 0 <= p < s.len()
        &&& shown[i] == (if !cr {
            s[p]
        } else if p == u + low {
            10u8
        } else {
            0u8
        })
        &&& map.source_of(i + 1) == (if cr && p == u + 1 && p + 2 < s.len() && s[p + 1 + low] == 10
            && s[p + 2 - low] == 0 {
            p + 3
        } else {
            p + 1
        })
    } by {
        let p = wide_text::lemma_kept_position(s, units, n, i);
        wide_text::lemma_wide_source_of_built(map, s, units, p);
        assert(wide_text::normalised(s, units, p + 1).len() == i + 1);
        if p + 1 < n && wide_text::is_dropped(s, units, p + 1) {
            assert(p % 2 == 1) by {
                if p % 2 == 0 {
                    assert(wide_text::unit_start(p) == wide_text::unit_start(p + 1));
                }
            }
            assert(wide_text::unit_start(p + 1) == p + 1);
            assert(wide_text::unit_start(p + 2) == p + 1);
            assert(wide_text::is_dropped(s, units, p + 2));
            assert(wide_text::normalised(s, units, p + 2).len() == i + 1);
            assert(wide_text::normalised(s, units, p + 3).len() == i + 1);
            if p + 3 < n {
                assert(wide_text::unit_start(p + 3) == p + 3);
                assert(!wide_text::is_dropped(s, units, p + 3));
            }
            wide_text::lemma_wide_source_of_built(map, s, units, p + 3);
        } else {
            wide_text::lemma_wide_source_of_built(map, s, units, p + 1);
        }
    }
}

/// A position translates by the drift of the last entry at or before it, and to
/// itself where there is none.
pub proof fn lemma_translation_by_entries(map: OffsetMap, n: int, k: int)
    requires
        0 <= k <= map@.len(),
        forall|i: int| 0 <= i < k ==> (#[trigger] map@[i]).0 <= n,
        forall|i: int| k <= i < map@.len() ==> (#[trigger] map@[i]).0 > n,
    ensures
        map.source_of(n) == (if k == 0 {
            n
        } else {
            n + map@[k - 1].1
        }),
{
    offset_map::lemma_drift_in(map@, k, n);
}

/// The map that is built for a range of a branch translates to its bytes, from
/// the first to the last, but for the `\n` of every `\r\n`.
pub proof fn lemma_built_map_is_faithful(
    source: Branch,
    range: Range<u64>,
    map: Result<OffsetMap, IoError>,
)
    requires
        call_ensures(build_offset_map, (&source, range), map),
        range.start <= range.end,
        range.start <= source@.len() <= isize::MAX,
    ensures
        map is Ok,
        ({
            let end = if range.end <= source@.len() {
                range.end as int
            } else {
                source@.len() as int
            };
            let s = source@.subrange(range.start as int, end);
            let m = map->Ok_0;
            &&& m.source_of(0) == 0
            &&& forall|i: int|
                0 <= i && #[trigger] m.source_of(i) < s.len() ==> {
                    let p = m.source_of(i);
                    &&& 0 <= p
                    &&& m.source_of(i + 1) == (if s[p] == 13 && p + 1 < s.len() && s[p + 1] == 10 {
                        p + 2
                    } else {
                        p + 1
                    })
                }
        }),
{
    let end = if range.end <= source@.len() {
        range.end as int
    } else {
        source@.len() as int
    };
    let s = source@.subrange(range.start as int, end);
    assert(offset_map::clipped(source@, range) =~= s);
    let m = map->Ok_0;
    let shown = offset_map::normalised(s, s.len() as int);
    lemma_normalised_byte_by_byte(m, s);
    assert forall|i: int| 0 <= i && #[trigger] m.source_of(i) < s.len() implies i
        < shown.len() by {
        if i > shown.len() {
            offset_map::lemma_source_of_monotone(m, shown.len() as int, i);
        }
    }
}

/// A view of the bytes `start..end` of a buffer shows them as they are where the
/// encoding is no superset of ASCII; else it goes through them from the first to
/// the last, with `\r` turned into `\n` and the `\n` of every `\r\n` left out.
pub proof fn lemma_buffer_view_is_faithful(b: Buffer, v: view::View, start: int, end: int)
    requires
        b.wf(),
        b.is_view(v, start, end),
    ensures
        0 <= start <= end <= b.source_branch()@.len(),
        v.source_branch() == b.source_branch(),
        v.range_start() == start,
        ({
            let s = b.source_branch()@.subrange(start, end);
            let shown = v.shown();
            let map = v.map();
            if codec::is_ascii_superset(b.source_encoding()) {
                &&& map.source_of(0) == 0
                &&& map.source_of(shown.len() as int) == s.len()
                &&& forall|i: int|
                    0 <= i < shown.len() ==> {
                        let p = #[trigger] map.source_of(i);
                        &&& 0 <= p < s.len()
                        &&& shown[i] == (if s[p] == 13 {
                            10u8
                        } else {
                            s[p]
                        })
                        &&& map.source_of(i + 1) == (if s[p] == 13 && p + 1 < s.len() && s[p + 1] == 10 {
                            p + 2
                        } else {
                            p + 1
                        })
                    }
            } else {
                &&& shown == s
                &&& forall|i: int| #[trigger] map.source_of(i) == i
            }
        }),
{
    let s = b.source_branch()@.subrange(start, end);
    if codec::is_ascii_superset(b.source_encoding()) {
        lemma_normalised_byte_by_byte(v.map(), s);
    }
}

/// Bytes without a `\r` are shown as they are.
pub proof fn lemma_plain_bytes_are_shown(b: Buffer, v: view::View, start: int, end: int)
    requires
        b.wf(),
        b.is_view(v, start, end),
        forall|p: int| start <= p < end ==> #[trigger] b.source_branch()@[p] != 13,
    ensures
        v.shown() == b.source_branch()@.subrange(start, end),
{
    let s = b.source_branch()@.subrange(start, end);
    lemma_buffer_view_is_faithful(b, v, start, end);
    assert forall|p: int| 0 <= p < s.len() implies #[trigger] s[p] != 13 by {
        assert(s[p] == b.source_branch()@[start + p]);
    }
    lemma_without_cr(s, s.len() as int);
    assert(s.take(s.len() as int) =~= s);
}

/// Text without a `\r` is normalised.
pub proof fn lemma_without_cr(s: Seq<u8>, n: int)
    requires
        0 <= n <= s.len(),
        forall|p: int| 0 <= p < s.len() ==> #[trigger] s[p] != 13,
    ensures
        offset_map::normalised(s, n) == s.take(n),
    decreases n,
{
    if n > 0 {
        lemma_without_cr(s, n - 1);
        if n > 1 {
            assert(s[n - 2] != 13);
        }
        assert(s.take(n) =~= s.take(n - 1).push(s[n - 1]));
    } else {
        assert(s.take(0) =~= Seq::<u8>::empty());
    }
}

/// A `\r\n` in a text is one `\n` in its normalised form, between those of what
/// comes before and after.
pub proof fn lemma_crlf_is_one_lf(x: Seq<u8>, y: Seq<u8>)
    ensures
        ({
            let c = x + seq![13u8, 10u8] + y;
            offset_map::normalised(c, c.len() as int) == offset_map::normalised(x, x.len() as int)
                + seq![10u8] + offset_map::normalised(y, y.len() as int)
        }),
{
    let t = seq![13u8, 10u8];
    assert(offset_map::normalised(t, 0) =~= Seq::<u8>::empty());
    assert(offset_map::normalised(t, 1) =~= seq![10u8]);
    assert(offset_map::normalised(t, 2) =~= seq![10u8]);
    assert((x + t).last() == 10);
    offset_map::lemma_normalised_concat(x, t, 2);
    offset_map::lemma_normalised_concat(x + t, y, y.len() as int);
}

/// A `\r` that no `\n` follows is one `\n` too.
pub proof fn lemma_lone_cr_is_one_lf(x: Seq<u8>, y: Seq<u8>)
    requires
        y.len() == 0 || y[0] != 10,
    ensures
        ({
            let c = x + seq![13u8] + y;
            offset_map::normalised(c, c.len() as int) == offset_map::normalised(x, x.len() as int)
                + seq![10u8] + offset_map::normalised(y, y.len() as int)
        }),
{
    let t = seq![13u8];
    assert(offset_map::normalised(t, 0) =~= Seq::<u8>::empty());
    assert(offset_map::normalised(t, 1) =~= seq![10u8]);
    offset_map::lemma_normalised_concat(x, t, 1);
    offset_map::lemma_normalised_concat(x + t, y, y.len() as int);
}

/// A view of a range of a buffer is refused exactly where the part of the range
/// that the buffer has is longer than the ceiling; else it is a view of that
/// part: of `range.start..range.end` itself where the buffer has all of it.
pub proof fn lemma_view_range_shows_the_range(
    b: Buffer,
    range: Range<u64>,
    v: Result<view::View, BufferError>,
)
    requires
        call_ensures(Buffer::view_range, (&b, range), v),
        b.wf(),
    ensures
        ({
            let len = b.source_branch()@.len() as int;
            let from = range.start as int;
            let to = range.end as int;
            &&& from <= to <= len && to - from <= b.ceiling() ==> v is Ok && b.is_view(
                v->Ok_0,
                from,
                to,
            )
            &&& from <= to <= len && to - from > b.ceiling() ==> v is Err
                && v->Err_0 is RangeExceedsCeiling && v->Err_0->requested == to - from
                && v->Err_0->ceiling == b.ceiling()
            &&& from <= len < to && len - from <= b.ceiling() ==> v is Ok && b.is_view(
                v->Ok_0,
                from,
                len,
            )
            &&& from <= len < to && len - from > b.ceiling() ==> v is Err
                && v->Err_0 is RangeExceedsCeiling && v->Err_0->requested == len - from
                && v->Err_0->ceiling == b.ceiling()
            &&& from > len && to >= len ==> v is Ok && b.is_view(v->Ok_0, len, len)
            &&& to < from ==> v is Ok && v->Ok_0.shown().len() == 0
        }),
{
}

/// What a view of a range of a buffer shows, from the call on.
pub proof fn lemma_view_range_is_faithful(
    b: Buffer,
    range: Range<u64>,
    v: Result<view::View, BufferError>,
)
    requires
        call_ensures(Buffer::view_range, (&b, range), v),
        b.wf(),
        codec::is_ascii_superset(b.source_encoding()),
        range.start <= range.end <= b.source_branch()@.len(),
        range.end - range.start <= b.ceiling(),
    ensures
        v is Ok,
        v->Ok_0.range_start() == range.start,
        ({
            let s = b.source_branch()@.subrange(range.start as int, range.end as int);
            let shown = v->Ok_0.shown();
            let map = v->Ok_0.map();
            &&& map.source_of(0) == 0
            &&& map.source_of(shown.len() as int) == s.len()
            &&& forall|i: int|
                0 <= i < shown.len() ==> {
                    let p = #[trigger] map.source_of(i);
                    &&& 0 <= p < s.len()
                    &&& shown[i] == (if s[p] == 13 {
                        10u8
                    } else {
                        s[p]
                    })
                    &&& map.source_of(i + 1) == (if s[p] == 13 && p + 1 < s.len() && s[p + 1] == 10 {
                        p + 2
                    } else {
                        p + 1
                    })
                }
        }),
        (forall|p: int| range.start <= p < range.end ==> #[trigger] b.source_branch()@[p] != 13)
            ==> v->Ok_0.shown() == b.source_branch()@.subrange(
            range.start as int,
            range.end as int,
        ),
{
    lemma_view_range_shows_the_range(b, range, v);
    lemma_buffer_view_is_faithful(b, v->Ok_0, range.start as int, range.end as int);
    if forall|p: int| range.start <= p < range.end ==> #[trigger] b.source_branch()@[p] != 13 {
        lemma_plain_bytes_are_shown(b, v->Ok_0, range.start as int, range.end as int);
    }
}

/// A view of a range of a line reader is refused exactly where the range is
/// longer than the ceiling.  In other encodings than UTF-16 it goes through the
/// bytes of the range that the source has, with `\r` turned into `\n` and the
/// `\n` of every `\r\n` left out.
pub proof fn lemma_lines_view_is_faithful(
    l: Lines,
    range: Range<u64>,
    v: Result<view::View, LinesError>,
)
    requires
        call_ensures(Lines::view_range, (&l, range), v),
        l.source_branch()@.len() <= isize::MAX,
        l.source_encoding() != Encoding::Utf16Le,
        l.source_encoding() != Encoding::Utf16Be,
        range.start <= range.end,
        range.start <= l.source_branch()@.len(),
    ensures
        v is Ok <==> range.end - range.start <= l.ceiling(),
        v is Err ==> v->Err_0 is RangeExceedsCeiling && v->Err_0->requested == range.end
            - range.start && v->Err_0->ceiling == l.ceiling(),
        v is Ok ==> {
            let end = if range.end <= l.source_branch()@.len() {
                range.end as int
            } else {
                l.source_branch()@.len() as int
            };
            let s = l.source_branch()@.subrange(range.start as int, end);
            let shown = v->Ok_0.shown();
            let map = v->Ok_0.map();
            &&& v->Ok_0.source_branch() == l.source_branch()
            &&& v->Ok_0.range_start() == range.start
            &&& map.source_of(0) == 0
            &&& map.source_of(shown.len() as int) == s.len()
            &&& forall|i: int|
                0 <= i < shown.len() ==> {
                    let p = #[trigger] map.source_of(i);
                    &&& 0 <= p < s.len()
                    &&& shown[i] == (if s[p] == 13 {
                        10u8
                    } else {
                        s[p]
                    })
                    &&& map.source_of(i + 1) == (if s[p] == 13 && p + 1 < s.len() && s[p + 1] == 10 {
                        p + 2
                    } else {
                        p + 1
                    })
                }
        },
{
    if v is Ok {
        let end = if range.end <= l.source_branch()@.len() {
            range.end as int
        } else {
            l.source_branch()@.len() as int
        };
        let s = l.source_branch()@.subrange(range.start as int, end);
        assert(offset_map::clipped(l.source_branch()@, range) =~= s);
        lemma_normalised_byte_by_byte(v->Ok_0.map(), s);
    }
}

/// The same in UTF-16, where `\r` and `\n` are code units of two bytes, the
/// lower of which comes first in the little-endian form.
pub proof fn lemma_wide_lines_view_is_faithful(
    l: Lines,
    range: Range<u64>,
    v: Result<view::View, LinesError>,
)
    requires
        call_ensures(Lines::view_range, (&l, range), v),
        l.source_branch()@.len() <= isize::MAX,
        l.source_encoding() == Encoding::Utf16Le || l.source_encoding() == Encoding::Utf16Be,
        range.start <= range.end,
        range.start <= l.source_branch()@.len(),
    ensures
        v is Ok <==> range.end - range.start <= l.ceiling(),
        v is Ok ==> {
            let end = if range.end <= l.source_branch()@.len() {
                range.end as int
            } else {
                l.source_branch()@.len() as int
            };
            let s = l.source_branch()@.subrange(range.start as int, end);
            let shown = v->Ok_0.shown();
            let map = v->Ok_0.map();
            let low = if l.source_encoding() == Encoding::Utf16Le {
                0int
            } else {
                1int
            };
            &&& v->Ok_0.source_branch() == l.source_branch()
            &&& v->Ok_0.range_start() == range.start
            &&& map.source_of(0) == 0
            &&& map.source_of(shown.len() as int) == s.len()
            &&& forall|i: int|
                0 <= i < shown.len() ==> {
                    let p = #[trigger] map.source_of(i);
                    let u = p - p % 2;
                    let cr = u + 1 < s.len() && s[u + low] == 13 && s[u + 1 - low] == 0;
                    &&& 0 <= p < s.len()
                    &&& shown[i] == (if !cr {
                        s[p]
                    } else if p == u + low {
                        10u8
                    } else {
                        0u8
                    })
                    &&& map.source_of(i + 1) == (if cr && p == u + 1 && p + 2 < s.len() && s[p + 1 + low]
                        == 10 && s[p + 2 - low] == 0 {
                        p + 3
                    } else {
                        p + 1
                    })
                }
        },
{
    if v is Ok {
        let end = if range.end <= l.source_branch()@.len() {
            range.end as int
        } else {
            l.source_branch()@.len() as int
        };
        let s = l.source_branch()@.subrange(range.start as int, end);
        assert(offset_map::clipped(l.source_branch()@, range) =~= s);
        let units = if l.source_encoding() == Encoding::Utf16Le {
            Units::Utf16Le
        } else {
            Units::Utf16Be
        };
        lemma_wide_byte_by_byte(v->Ok_0.map(), s, units);
    }
}

/// A range that is inverted, or begins past the end, holds nothing: the map that
/// is built for it translates every position to itself, and the view of a line
/// reader shows nothing, unless the range is longer than the ceiling.
pub proof fn lemma_nothing_in_the_range(
    l: Lines,
    range: Range<u64>,
    map: Result<OffsetMap, IoError>,
    v: Result<view::View, LinesError>,
)
    requires
        call_ensures(build_offset_map, (&l.source_branch(), range), map),
        call_ensures(Lines::view_range, (&l, range), v),
        range.start >= range.end || range.start >= l.source_branch()@.len(),
    ensures
        map is Ok,
        forall|i: int| #[trigger] map->Ok_0.source_of(i) == i,
        v is Ok <==> range.start >= range.end || range.end - range.start <= l.ceiling(),
        v is Ok ==> {
            &&& v->Ok_0.shown().len() == 0
            &&& forall|i: int| #[trigger] v->Ok_0.map().source_of(i) == i
            &&& v->Ok_0.range_start() == range.start
            &&& v->Ok_0.source_branch() == l.source_branch()
        },
{
    let s = offset_map::clipped(l.source_branch()@, range);
    assert(s.len() == 0);
    assert(offset_map::drift_entries(s, 0).len() == 0);
    assert(offset_map::normalised(s, 0).len() == 0);
}

} // verus!
