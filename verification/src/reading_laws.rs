//! What lines are read and how terminators are put back, said of the bytes: `\n`
//! is 10 and `\r` is 13.

use vstd::prelude::*;

use crate::buffer;
use crate::codec::Encoding;
use crate::denormalise;
use crate::encoding::LineEnding;
use crate::lines;
use crate::lines::{LineTerminator, Lines, Units};
use crate::round_trip;

verus! {

/// The first break is the first code unit that is a `\r` or a `\n`.
proof fn lemma_first_break_is_first(r: Seq<u8>, units: Units, p: int)
    requires
        0 <= p,
    ensures
        ({
            let w = lines::unit_width(units);
            match lines::first_break(r, units, p) {
                Some(q) => {
                    &&& p <= q
                    &&& q + w <= r.len()
                    &&& (q - p) % w == 0
                    &&& lines::is_unit(r, units, q, 13) || lines::is_unit(r, units, q, 10)
                    &&& forall|k: int|
                        #![trigger lines::is_unit(r, units, k, 13)]
                        #![trigger lines::is_unit(r, units, k, 10)]
                        p <= k < q && (k - p) % w == 0 ==> !lines::is_unit(r, units, k, 13)
                            && !lines::is_unit(r, units, k, 10)
                },
                None => forall|k: int|
                    #![trigger lines::is_unit(r, units, k, 13)]
                    #![trigger lines::is_unit(r, units, k, 10)]
                    p <= k && (k - p) % w == 0 ==> !lines::is_unit(r, units, k, 13)
                        && !lines::is_unit(r, units, k, 10),
            }
        }),
    decreases r.len() - p,
{
    let w = lines::unit_width(units);
    if p + w <= r.len() && !lines::is_unit(r, units, p, 13) && !lines::is_unit(r, units, p, 10) {
        lemma_first_break_is_first(r, units, p + w);
    }
}

/// The next line, in other encodings than UTF-16, goes up to the first `\r` or
/// `\n`, which is a single `\n` in it, and the `\n` after a `\r` goes with that;
/// the last line goes up to the end.  What is left comes after it.
pub proof fn lemma_next_line(
    before: Lines,
    after: Lines,
    line: Option<(Vec<u8>, LineTerminator)>,
    encoding: Encoding,
)
    requires
        lines::yields_line(before, after, line, lines::units_of(encoding)),
        encoding != Encoding::Utf16Le,
        encoding != Encoding::Utf16Be,
    ensures
        ({
            let r = before.remaining();
            match line {
                None => r.len() == 0 && after.remaining() == r && after.consumed()
                    == before.consumed(),
                Some((bytes, LineTerminator::End)) => {
                    &&& r.len() > 0
                    &&& bytes@ == r
                    &&& after.remaining().len() == 0
                    &&& after.consumed() == before.consumed() + r.len()
                    &&& forall|k: int| 0 <= k < r.len() ==> #[trigger] r[k] != 10 && r[k] != 13
                },
                Some((bytes, LineTerminator::Ending(ending))) => {
                    let n = bytes@.len() - 1;
                    let taken = if ending == LineEnding::CrLf {
                        n + 2
                    } else {
                        n + 1
                    };
                    &&& 0 <= n < r.len()
                    &&& bytes@ == r.take(n) + seq![10u8]
                    &&& forall|k: int| 0 <= k < n ==> #[trigger] r[k] != 10 && r[k] != 13
                    &&& ending == LineEnding::Lf <==> r[n] == 10
                    &&& ending != LineEnding::Lf <==> r[n] == 13
                    &&& ending == LineEnding::CrLf <==> r[n] == 13 && n + 1 < r.len() && r[n + 1]
                        == 10
                    &&& after.remaining() == r.skip(taken)
                    &&& after.consumed() == before.consumed() + taken
                },
            }
        }),
{
    let r = before.remaining();
    lemma_first_break_is_first(r, Units::Byte, 0);
    match lines::first_break(r, Units::Byte, 0) {
        Some(q) => {
            assert forall|k: int| 0 <= k < q implies #[trigger] r[k] != 10 && r[k] != 13 by {
                assert(!lines::is_unit(r, Units::Byte, k, 10));
            }
        },
        None => {
            assert forall|k: int| 0 <= k < r.len() implies #[trigger] r[k] != 10 && r[k] != 13 by {
                assert(!lines::is_unit(r, Units::Byte, k, 10));
            }
        },
    }
}

/// The same in UTF-16, in code units of two bytes that are counted from where
/// the line begins.
pub proof fn lemma_next_wide_line(
    before: Lines,
    after: Lines,
    line: Option<(Vec<u8>, LineTerminator)>,
    encoding: Encoding,
)
    requires
        lines::yields_line(before, after, line, lines::units_of(encoding)),
        encoding == Encoding::Utf16Le || encoding == Encoding::Utf16Be,
    ensures
        ({
            let r = before.remaining();
            let low = if encoding == Encoding::Utf16Le {
                0int
            } else {
                1int
            };
            match line {
                None => r.len() == 0 && after.remaining() == r && after.consumed()
                    == before.consumed(),
                Some((bytes, LineTerminator::End)) => {
                    &&& r.len() > 0
                    &&& bytes@ == r
                    &&& after.remaining().len() == 0
                    &&& after.consumed() == before.consumed() + r.len()
                    &&& forall|k: int|
                        #![trigger r[2 * k + low]]
                        0 <= k && 2 * k + 1 < r.len() ==> !((r[2 * k + low] == 10 || r[2 * k + low]
                            == 13) && r[2 * k + 1 - low] == 0)
                },
                Some((bytes, LineTerminator::Ending(ending))) => {
                    let n = bytes@.len() - 2;
                    let taken = if ending == LineEnding::CrLf {
                        n + 4
                    } else {
                        n + 2
                    };
                    &&& 0 <= n
                    &&& n % 2 == 0
                    &&& n + 2 <= r.len()
                    &&& bytes@ == r.take(n) + (if low == 0 {
                        seq![10u8, 0u8]
                    } else {
                        seq![0u8, 10u8]
                    })
                    &&& forall|k: int|
                        #![trigger r[2 * k + low]]
                        0 <= k && 2 * k < n ==> !((r[2 * k + low] == 10 || r[2 * k + low] == 13)
                            && r[2 * k + 1 - low] == 0)
                    &&& r[n + 1 - low] == 0
                    &&& ending == LineEnding::Lf <==> r[n + low] == 10
                    &&& ending != LineEnding::Lf <==> r[n + low] == 13
                    &&& ending == LineEnding::CrLf <==> r[n + low] == 13 && n + 3 < r.len() && r[n
                        + 2 + low] == 10 && r[n + 3 - low] == 0
                    &&& after.remaining() == r.skip(taken)
                    &&& after.consumed() == before.consumed() + taken
                },
            }
        }),
{
    let r = before.remaining();
    let units = lines::units_of(encoding);
    let low = if encoding == Encoding::Utf16Le {
        0int
    } else {
        1int
    };
    lemma_first_break_is_first(r, units, 0);
    match lines::first_break(r, units, 0) {
        Some(q) => {
            assert forall|k: int|
                #![trigger r[2 * k + low]]
                0 <= k && 2 * k < q implies !((r[2 * k + low] == 10 || r[2 * k + low] == 13) && r[2
                * k + 1 - low] == 0) by {
                assert((2 * k) % 2 == 0);
                assert(!lines::is_unit(r, units, 2 * k, 10));
            }
        },
        None => {
            assert forall|k: int|
                #![trigger r[2 * k + low]]
                0 <= k && 2 * k + 1 < r.len() implies !((r[2 * k + low] == 10 || r[2 * k + low]
                == 13) && r[2 * k + 1 - low] == 0) by {
                assert((2 * k) % 2 == 0);
                assert(!lines::is_unit(r, units, 2 * k, 10));
            }
        },
    }
}

/// A source is read in chunks of 4096 bytes, and no further than up to the chunk
/// that decides where the line ends.
pub proof fn lemma_reads_in_chunks(c: Seq<u8>, units: Units, from: int, cursor: int)
    requires
        0 <= from <= cursor <= c.len(),
    ensures
        ({
            let q = lines::read_ahead(c, units, from, cursor);
            &&& cursor <= q <= c.len()
            &&& q == c.len() || lines::line_decided(c.subrange(from, q), units)
            &&& q == c.len() || (q - cursor) % 4096 == 0
            &&& forall|k: int|
                #![trigger c.subrange(from, cursor + 4096 * k)]
                0 <= k && cursor + 4096 * k < q ==> !lines::line_decided(
                    c.subrange(from, cursor + 4096 * k),
                    units,
                )
        }),
    decreases c.len() - cursor,
{
    let q = lines::read_ahead(c, units, from, cursor);
    if cursor >= c.len() || lines::line_decided(c.subrange(from, cursor), units) {
    } else if cursor + 4096 >= c.len() {
        assert forall|k: int|
            #![trigger c.subrange(from, cursor + 4096 * k)]
            0 <= k && cursor + 4096 * k < q implies !lines::line_decided(
            c.subrange(from, cursor + 4096 * k),
            units,
        ) by {
            assert(k == 0);
        }
    } else {
        lemma_reads_in_chunks(c, units, from, cursor + 4096);
        assert forall|k: int|
            #![trigger c.subrange(from, cursor + 4096 * k)]
            0 <= k && cursor + 4096 * k < q implies !lines::line_decided(
            c.subrange(from, cursor + 4096 * k),
            units,
        ) by {
            if k > 0 {
                assert(c.subrange(from, cursor + 4096 * k) == c.subrange(
                    from,
                    (cursor + 4096) + 4096 * (k - 1),
                ));
            }
        }
    }
}

/// In single bytes a line is decided by a `\n`, or by a `\r` and the byte after
/// it, whichever comes first.
pub proof fn lemma_when_a_line_is_decided(b: Seq<u8>)
    ensures
        lines::line_decided(b, Units::Byte) <==> exists|p: int|
            {
                &&& 0 <= p < b.len()
                &&& #[trigger] b[p] == 10 || (b[p] == 13 && p + 1 < b.len())
                &&& forall|k: int| 0 <= k < p ==> b[k] != 10 && b[k] != 13
            },
{
    lemma_first_break_is_first(b, Units::Byte, 0);
    match lines::first_break(b, Units::Byte, 0) {
        Some(q) => {
            assert forall|k: int| 0 <= k < q implies b[k] != 10 && b[k] != 13 by {
                assert(!lines::is_unit(b, Units::Byte, k, 10));
            }
            assert(b[q] == 10 || b[q] == 13);
        },
        None => {
            assert forall|k: int| 0 <= k < b.len() implies b[k] != 10 && b[k] != 13 by {
                assert(!lines::is_unit(b, Units::Byte, k, 10));
            }
        },
    }
}

/// A log holds the last endings, as many as fit, in the order in which they were
/// pushed.
pub proof fn lemma_log_holds_the_last(endings: Seq<LineEnding>, capacity: int)
    requires
        0 <= capacity,
    ensures
        ({
            let kept = lines::last_endings(endings, capacity);
            &&& kept.len() <= capacity
            &&& kept.len() == capacity || kept.len() == endings.len()
            &&& kept.len() <= endings.len()
            &&& forall|i: int|
                0 <= i < kept.len() ==> #[trigger] kept[i] == endings[endings.len() - kept.len()
                    + i]
        }),
{
}

/// The bytes of the line endings.
pub proof fn lemma_bytes_of_endings()
    ensures
        buffer::ending_bytes(LineEnding::Lf) == seq![10u8],
        buffer::ending_bytes(LineEnding::CrLf) == seq![13u8, 10u8],
        buffer::ending_bytes(LineEnding::Cr) == seq![13u8],
{
}

/// Bytes without a `\n` are written as they are.
pub proof fn lemma_plain_bytes_are_written(
    b: Seq<u8>,
    n: int,
    listed: Seq<LineEnding>,
    afterwards: Option<LineEnding>,
)
    requires
        0 <= n <= b.len(),
        forall|k: int| 0 <= k < n ==> #[trigger] b[k] != 10,
    ensures
        denormalise::reterminated(b, n, listed, afterwards) == b.take(n),
        denormalise::newlines(b, n) == 0,
    decreases n,
{
    if n > 0 {
        lemma_plain_bytes_are_written(b, n - 1, listed, afterwards);
        assert(b.take(n) =~= b.take(n - 1).push(b[n - 1]));
    } else {
        assert(b.take(0) =~= Seq::<u8>::empty());
    }
}

/// The first `\n` of what is written becomes the first terminator that is listed,
/// or else the one that comes afterwards, or a `\n`; the rest is written with the
/// other terminators.
pub proof fn lemma_terminators_are_put_back(
    x: Seq<u8>,
    y: Seq<u8>,
    listed: Seq<LineEnding>,
    afterwards: Option<LineEnding>,
)
    requires
        forall|k: int| 0 <= k < x.len() ==> #[trigger] x[k] != 10,
    ensures
        ({
            let b = x + seq![10u8] + y;
            let ending = if listed.len() > 0 {
                listed[0]
            } else if afterwards is Some {
                afterwards->0
            } else {
                LineEnding::Lf
            };
            let rest = if listed.len() > 0 {
                listed.skip(1)
            } else {
                listed
            };
            let put = match ending {
                LineEnding::Lf => seq![10u8],
                LineEnding::CrLf => seq![13u8, 10u8],
                LineEnding::Cr => seq![13u8],
            };
            &&& denormalise::reterminated(b, b.len() as int, listed, afterwards) == x + put
                + denormalise::reterminated(y, y.len() as int, rest, afterwards)
            &&& denormalise::newlines(b, b.len() as int) == 1 + denormalise::newlines(
                y,
                y.len() as int,
            )
        }),
{
    let lf = seq![10u8];
    let a = x + lf;
    let b = a + y;
    lemma_plain_bytes_are_written(x, x.len() as int, listed, afterwards);
    assert(x.take(x.len() as int) =~= x);
    round_trip::lemma_writes_add_up(x, lf, 1, listed, afterwards);
    assert(denormalise::newlines(lf, 0) == 0);
    assert(denormalise::newlines(lf, 1) == 1);
    assert(listed.skip(0) =~= listed);
    let one = denormalise::reterminated(lf, 1, listed, afterwards);
    assert(denormalise::reterminated(lf, 0, listed, afterwards) =~= Seq::<u8>::empty());
    assert(one =~= buffer::ending_bytes(denormalise::terminator_for(listed, afterwards, 0)));
    round_trip::lemma_writes_add_up(a, y, y.len() as int, listed, afterwards);
    assert(denormalise::newlines(a, a.len() as int) == 1);
    if listed.len() == 0 {
        assert(denormalise::without_first(listed, 1) =~= listed);
    }
}

/// As many terminators are used up as there are `\n`.
pub proof fn lemma_terminators_used_up(b: Seq<u8>, n: int, listed: Seq<LineEnding>)
    requires
        0 <= n <= b.len(),
    ensures
        denormalise::newlines(b, n) == b.take(n).to_multiset().count(10),
        ({
            let left = denormalise::without_first(listed, denormalise::newlines(b, n) as int);
            &&& left.len() == (if denormalise::newlines(b, n) <= listed.len() {
                listed.len() - denormalise::newlines(b, n)
            } else {
                0
            })
            &&& forall|i: int|
                0 <= i < left.len() ==> #[trigger] left[i] == listed[listed.len() - left.len() + i]
        }),
    decreases n,
{
    broadcast use vstd::seq_lib::group_to_multiset_ensures;

    if n > 0 {
        lemma_terminators_used_up(b, n - 1, listed);
        assert(b.take(n) =~= b.take(n - 1).push(b[n - 1]));
    } else {
        assert(b.take(0) =~= Seq::<u8>::empty());
    }
}

/// A write that failed stopped in a piece of the bytes, of which some may have
/// been written: all before the piece was written and nothing after it, and the
/// terminators up to its end are used up.
pub proof fn lemma_where_a_write_stopped(
    b: Seq<u8>,
    i: int,
    e: int,
    listed: Seq<LineEnding>,
    afterwards: Option<LineEnding>,
    before: Seq<u8>,
    written: Seq<u8>,
    upcoming: Seq<LineEnding>,
)
    requires
        denormalise::stopped_in(b, i, e, listed, afterwards, before, written, upcoming),
    ensures
        0 <= i < e <= b.len(),
        ({
            let least = before + denormalise::reterminated(b, i, listed, afterwards);
            let most = before + denormalise::reterminated(b, e, listed, afterwards);
            &&& least.len() <= written.len() <= most.len()
            &&& written.take(least.len() as int) == least
            &&& most.take(written.len() as int) == written
        }),
        e == i + 1 || b.take(e).to_multiset().count(10) == b.take(i).to_multiset().count(10),
        ({
            let used = b.take(e).to_multiset().count(10);
            &&& used <= listed.len() ==> upcoming == listed.skip(used as int)
            &&& used > listed.len() ==> upcoming.len() == 0
        }),
{
    lemma_terminators_used_up(b, i, listed);
    lemma_terminators_used_up(b, e, listed);
}

/// The terminators that are left at the end are written one after the other.
pub proof fn lemma_terminators_left(endings: Seq<LineEnding>, ending: LineEnding)
    ensures
        denormalise::all_ending_bytes(Seq::empty()) == Seq::<u8>::empty(),
        denormalise::all_ending_bytes(endings.push(ending)) == denormalise::all_ending_bytes(endings)
            + (match ending {
            LineEnding::Lf => seq![10u8],
            LineEnding::CrLf => seq![13u8, 10u8],
            LineEnding::Cr => seq![13u8],
        }),
    decreases endings.len(),
{
    let more = endings.push(ending);
    if endings.len() == 0 {
        assert(denormalise::all_ending_bytes(Seq::empty()) =~= Seq::<u8>::empty());
        assert(more.skip(1) =~= Seq::<LineEnding>::empty());
        assert(denormalise::all_ending_bytes(more) =~= buffer::ending_bytes(ending));
        assert(endings =~= Seq::<LineEnding>::empty());
        assert(denormalise::all_ending_bytes(endings) + buffer::ending_bytes(ending)
            =~= buffer::ending_bytes(ending));
    } else {
        lemma_terminators_left(endings.skip(1), ending);
        assert(more.skip(1) =~= endings.skip(1).push(ending));
        assert(denormalise::all_ending_bytes(more) =~= denormalise::all_ending_bytes(endings)
            + buffer::ending_bytes(ending));
    }
}

} // verus!
