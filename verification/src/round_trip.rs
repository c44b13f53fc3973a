//! How the ways to look at the same bytes agree: lines read one by one, the
//! normalised text, the terminators and the line numbers.

use vstd::prelude::*;

use crate::buffer;
use crate::denormalise;
use crate::encoding::LineEnding;
use crate::line_map;
use crate::lines;
use crate::lines::{LineTerminator, Units};
use crate::offset_map;
use crate::text;
use crate::text::{CR, LF};
use crate::wide_text;

verus! {

/// The code units of a line ending.
pub open spec fn ending_units(ending: LineEnding, units: Units) -> Seq<u8> {
    match ending {
        LineEnding::Lf => lines::unit_bytes(units, LF),
        LineEnding::CrLf => lines::unit_bytes(units, CR) + lines::unit_bytes(units, LF),
        LineEnding::Cr => lines::unit_bytes(units, CR),
    }
}

/// A line as it stands in the source: its `\n` turned back into what
/// terminated it.
pub open spec fn source_line(line: (Seq<u8>, LineTerminator), units: Units) -> Seq<u8> {
    match line.1 {
        LineTerminator::Ending(ending) => line.0.take(line.0.len() - lines::unit_width(units))
            + ending_units(ending, units),
        LineTerminator::End => line.0,
    }
}

/// All lines, one after the other, as they stand in the source.
pub open spec fn source_lines(all: Seq<(Seq<u8>, LineTerminator)>, units: Units) -> Seq<u8>
    decreases all.len(),
{
    if all.len() == 0 {
        Seq::empty()
    } else {
        source_line(all[0], units) + source_lines(all.skip(1), units)
    }
}

proof fn lemma_source_line(r: Seq<u8>, units: Units)
    requires
        r.len() > 0,
    ensures
        ({
            let split = lines::split_line(r, units)->0;
            source_line((split.line, split.terminator), units) == r.take(split.taken)
        }),
{
    lines::lemma_split_line_takes(r, units);
    lines::lemma_split_line_break(r, units);
    let split = lines::split_line(r, units)->0;
    let w = lines::unit_width(units);
    match lines::first_break(r, units, 0) {
        Some(p) => {
            assert(split.line.take(split.line.len() - w) =~= r.take(p));
            assert(source_line((split.line, split.terminator), units) =~= r.take(split.taken));
        },
        None => {
            assert(r.take(r.len() as int) =~= r);
        },
    }
}

/// Reading lines loses nothing: put back together with their terminators, the
/// lines of `r` are `r`, in any encoding.
pub proof fn lemma_lines_lose_nothing(r: Seq<u8>, units: Units)
    ensures
        source_lines(lines::split_lines(r, units), units) == r,
    decreases r.len(),
{
    if r.len() > 0 {
        lines::lemma_split_line_takes(r, units);
        lemma_source_line(r, units);
        let split = lines::split_line(r, units)->0;
        let rest = r.skip(split.taken);
        lemma_lines_lose_nothing(rest, units);
        let all = lines::split_lines(r, units);
        assert(all.skip(1) =~= lines::split_lines(rest, units));
        assert(r.take(split.taken) + rest =~= r);
    }
}

/// What terminates the lines that a reader yields, where something does.
pub open spec fn line_endings(all: Seq<(Seq<u8>, LineTerminator)>) -> Seq<LineEnding>
    decreases all.len(),
{
    if all.len() == 0 {
        Seq::empty()
    } else {
        (match all[0].1 {
            LineTerminator::Ending(ending) => seq![ending],
            LineTerminator::End => Seq::empty(),
        }) + line_endings(all.skip(1))
    }
}

/// The bytes of the lines that a reader yields, one after the other.
pub open spec fn joined(all: Seq<(Seq<u8>, LineTerminator)>) -> Seq<u8>
    decreases all.len(),
{
    if all.len() == 0 {
        Seq::empty()
    } else {
        all[0].0 + joined(all.skip(1))
    }
}

/// The first line of `r`, where terminators are single bytes: it holds one
/// terminator at most, and what follows starts a line of its own.
proof fn lemma_first_line(r: Seq<u8>)
    requires
        r.len() > 0,
    ensures
        ({
            let split = lines::split_line(r, Units::Byte)->0;
            let head = r.take(split.taken);
            let rest = r.skip(split.taken);
            &&& 0 < split.taken <= r.len()
            &&& head + rest == r
            &&& text::meets_cleanly(head, rest)
            &&& offset_map::normalised(head, head.len() as int) == split.line
            &&& match split.terminator {
                LineTerminator::Ending(ending) => {
                    &&& text::endings(head, 0, head.len() as int) == seq![ending]
                    &&& !text::ends_in_line(head, head.len() as int)
                },
                LineTerminator::End => {
                    &&& text::endings(head, 0, head.len() as int).len() == 0
                    &&& rest.len() == 0
                    &&& text::ends_in_line(head, head.len() as int)
                },
            }
        }),
{
    lines::lemma_split_line_takes(r, Units::Byte);
    lines::lemma_split_line_break(r, Units::Byte);
    lemma_first_break_first(r, 0);
    let split = lines::split_line(r, Units::Byte)->0;
    let head = r.take(split.taken);
    let rest = r.skip(split.taken);
    assert(head + rest =~= r);
    match lines::first_break(r, Units::Byte, 0) {
        Some(p) => {
            let ending = lines::ending_of(r, Units::Byte, p);
            text::lemma_no_endings(head, 0, p);
            text::lemma_endings_step(head, 0, p);
            offset_map::lemma_normalised_plain(head, p);
            assert(head.take(p) =~= r.take(p));
            assert(text::is_break(head, p));
            assert(text::ending_at(head, p) == ending);
            assert(text::endings(head, 0, p) =~= Seq::empty());
            assert(text::endings(head, 0, p + 1) =~= seq![ending]);
            assert(offset_map::normalised(head, p + 1) == r.take(p).push(LF));
            if ending == LineEnding::CrLf {
                text::lemma_endings_step(head, 0, p + 1);
                assert(offset_map::is_dropped(head, p + 1));
            }
            assert(offset_map::normalised(head, head.len() as int) =~= split.line);
        },
        None => {
            assert(head =~= r);
            text::lemma_no_endings(head, 0, head.len() as int);
            offset_map::lemma_normalised_plain(head, head.len() as int);
            assert(head.take(head.len() as int) =~= head);
        },
    }
}

proof fn lemma_first_break_first(r: Seq<u8>, p: int)
    requires
        0 <= p,
    ensures
        match lines::first_break(r, Units::Byte, p) {
            Some(q) => forall|i: int| p <= i < q ==> r[i] != CR && r[i] != LF,
            None => forall|i: int| p <= i < r.len() ==> r[i] != CR && r[i] != LF,
        },
    decreases r.len() - p,
{
    if p < r.len() && !(r[p] == CR || r[p] == LF) {
        lemma_first_break_first(r, p + 1);
    }
}

/// The lines that a reader yields are the normalised text, their terminators
/// are those of the text, and there are as many lines as a full line map
/// counts.
pub proof fn lemma_lines_are_normalised(r: Seq<u8>)
    ensures
        ({
            let all = lines::split_lines(r, Units::Byte);
            &&& joined(all) == offset_map::normalised(r, r.len() as int)
            &&& line_endings(all) == text::endings(r, 0, r.len() as int)
            &&& all.len() == text::line_total(r)
        }),
    decreases r.len(),
{
    let all = lines::split_lines(r, Units::Byte);
    if r.len() > 0 {
        lemma_first_line(r);
        let split = lines::split_line(r, Units::Byte)->0;
        let head = r.take(split.taken);
        let rest = r.skip(split.taken);
        lemma_lines_are_normalised(rest);
        assert(all.skip(1) =~= lines::split_lines(rest, Units::Byte));
        text::lemma_endings_concat(head, rest);
        offset_map::lemma_normalised_concat(head, rest, rest.len() as int);
        assert(text::endings(rest, 0, rest.len() as int).len() == text::break_count(rest));
        assert(text::endings(head, 0, head.len() as int).len() == text::break_count(head));
        if rest.len() > 0 {
            assert(r[r.len() - 1] == rest[rest.len() - 1]);
        }
        match split.terminator {
            LineTerminator::Ending(ending) => {},
            LineTerminator::End => {
                assert(line_endings(all) =~= text::endings(r, 0, r.len() as int));
            },
        }
    } else {
        assert(joined(all) =~= offset_map::normalised(r, 0));
        assert(line_endings(all) =~= text::endings(r, 0, 0));
    }
}

/// In UTF-16 the lines that a reader yields are the normalised text too.
pub proof fn lemma_wide_lines_are_normalised(r: Seq<u8>, units: Units)
    requires
        units != Units::Byte,
    ensures
        joined(lines::split_lines(r, units)) == wide_text::normalised(r, units, r.len() as int),
    decreases r.len(),
{
    let all = lines::split_lines(r, units);
    if r.len() > 0 {
        lines::lemma_split_line_takes(r, units);
        lines::lemma_split_line_break(r, units);
        lemma_first_wide_break(r, units, 0);
        let split = lines::split_line(r, units)->0;
        let rest = r.skip(split.taken);
        lemma_wide_lines_are_normalised(rest, units);
        assert(all.skip(1) =~= lines::split_lines(rest, units));
        match lines::first_break(r, units, 0) {
            Some(p) => {
                lemma_first_wide_line(r, units, p);
            },
            None => {
                wide_text::lemma_wide_normalised_plain(r, units, r.len() as int);
                assert(r.take(r.len() as int) =~= r);
                assert(rest =~= Seq::<u8>::empty());
                assert(joined(all) =~= r);
            },
        }
    } else {
        assert(joined(all) =~= wide_text::normalised(r, units, 0));
    }
}

proof fn lemma_first_wide_break(r: Seq<u8>, units: Units, p: int)
    requires
        units != Units::Byte,
        0 <= p,
        p % 2 == 0,
    ensures
        match lines::first_break(r, units, p) {
            Some(q) => {
                &&& q % 2 == 0
                &&& forall|u: int|
                    p <= u < q && u % 2 == 0 ==> !(#[trigger] lines::is_unit(r, units, u, CR))
                        && !lines::is_unit(r, units, u, LF)
            },
            None => forall|u: int|
                p <= u < r.len() && u % 2 == 0 ==> !(#[trigger] lines::is_unit(r, units, u, CR))
                    && !lines::is_unit(r, units, u, LF),
        },
    decreases r.len() - p,
{
    if p + 2 <= r.len() && !(lines::is_unit(r, units, p, CR) || lines::is_unit(r, units, p, LF)) {
        lemma_first_wide_break(r, units, p + 2);
    }
}

/// The first line of `r`, which a `\r` or `\n` code unit at `p` ends, is
/// normalised on its own.
proof fn lemma_first_wide_line(r: Seq<u8>, units: Units, p: int)
    requires
        units != Units::Byte,
        lines::first_break(r, units, 0) == Some(p),
    ensures
        ({
            let split = lines::split_line(r, units)->0;
            wide_text::normalised(r, units, r.len() as int) == split.line + wide_text::normalised(
                r.skip(split.taken),
                units,
                r.len() - split.taken,
            )
        }),
{
    lines::lemma_split_line_takes(r, units);
    lines::lemma_split_line_break(r, units);
    lemma_first_wide_break(r, units, 0);
    let split = lines::split_line(r, units)->0;
    let ending = lines::ending_of(r, units, p);
    let head = r.take(split.taken);
    let rest = r.skip(split.taken);
    assert(head + rest =~= r);
    assert(head.len() % 2 == 0);
    assert forall|u: int, v: u8| 0 <= u && u + 1 < head.len() implies #[trigger]
        lines::is_unit(head, units, u, v) == lines::is_unit(r, units, u, v) by {
        assert(head[u] == r[u] && head[u + 1] == r[u + 1]);
    }
    assert forall|u: int| 0 <= u < p && u % 2 == 0 implies !(#[trigger] lines::is_unit(
        head,
        units,
        u,
        CR,
    )) && !lines::is_unit(head, units, u, LF) by {
        assert(u + 1 < head.len());
        assert(!lines::is_unit(r, units, u, CR));
        assert(lines::is_unit(head, units, u, CR) == lines::is_unit(r, units, u, CR));
        assert(lines::is_unit(head, units, u, LF) == lines::is_unit(r, units, u, LF));
    }
    wide_text::lemma_wide_normalised_plain(head, units, p);
    assert(head.take(p) =~= r.take(p));
    assert(lines::is_unit(head, units, p, CR) == lines::is_unit(r, units, p, CR));
    assert(lines::is_unit(head, units, p, LF) == lines::is_unit(r, units, p, LF));
    let lf = lines::unit_bytes(units, LF);
    if p >= 2 {
        assert(!lines::is_unit(head, units, p - 2, CR));
    }
    assert(!wide_text::is_dropped(head, units, p));
    assert(!wide_text::is_dropped(head, units, p + 1));
    assert(wide_text::normal_byte(head, units, p) == lf[0]);
    assert(wide_text::normal_byte(head, units, p + 1) == lf[1]);
    assert(wide_text::normalised(head, units, p + 1) == r.take(p).push(lf[0]));
    assert(wide_text::normalised(head, units, p + 2) == r.take(p).push(lf[0]).push(lf[1]));
    if ending == LineEnding::CrLf {
        assert(lines::is_unit(head, units, p + 2, LF) == lines::is_unit(r, units, p + 2, LF));
        assert(wide_text::is_dropped(head, units, p + 2));
        assert(wide_text::is_dropped(head, units, p + 3));
        assert(wide_text::normalised(head, units, p + 3) == wide_text::normalised(
            head,
            units,
            p + 2,
        ));
    }
    assert(wide_text::normalised(head, units, head.len() as int) =~= split.line);
    assert(lines::is_unit(head, units, head.len() - 2, CR) == lines::is_unit(
        r,
        units,
        head.len() - 2,
        CR,
    ));
    if lines::is_unit(rest, units, 0, LF) {
        assert(rest[0] == r[split.taken] && rest[1] == r[split.taken + 1]);
        assert(lines::is_unit(r, units, split.taken, LF));
    }
    wide_text::lemma_wide_normalised_concat(head, rest, units, rest.len() as int);
}

/// Denormalising undoes normalising: the normalised text, every `\n` of it
/// replaced by the terminator that stood there, is the text.
pub proof fn lemma_denormalise_restores(s: Seq<u8>, afterwards: Option<LineEnding>)
    ensures
        ({
            let plain = offset_map::normalised(s, s.len() as int);
            let listed = text::endings(s, 0, s.len() as int);
            &&& denormalise::reterminated(plain, plain.len() as int, listed, afterwards) == s
            &&& denormalise::newlines(plain, plain.len() as int) == listed.len()
        }),
{
    lemma_denormalise_prefix(s, s.len() as int, afterwards);
    assert(s.take(s.len() as int) =~= s);
}

proof fn lemma_denormalise_prefix(s: Seq<u8>, n: int, afterwards: Option<LineEnding>)
    requires
        0 <= n <= s.len(),
    ensures
        ({
            let plain = offset_map::normalised(s, n);
            let listed = text::endings(s, 0, s.len() as int);
            let done = if line_map::splits_crlf(s, n) {
                n + 1
            } else {
                n
            };
            &&& denormalise::reterminated(plain, plain.len() as int, listed, afterwards) == s.take(
                done,
            )
            &&& denormalise::newlines(plain, plain.len() as int) == text::endings(s, 0, n).len()
        }),
    decreases n,
{
    let listed = text::endings(s, 0, s.len() as int);
    if n == 0 {
        assert(s.take(0) =~= Seq::<u8>::empty());
    } else {
        lemma_denormalise_prefix(s, n - 1, afterwards);
        let before = offset_map::normalised(s, n - 1);
        let plain = offset_map::normalised(s, n);
        let k = text::endings(s, 0, n - 1).len() as int;
        text::lemma_endings_step(s, 0, n - 1);
        text::lemma_breaks_split(s, 0, n, s.len() as int);
        if offset_map::is_dropped(s, n - 1) {
        } else {
            lemma_reterminated_alike(plain, before, before.len() as int, listed, afterwards);
            if text::is_break(s, n - 1) {
                assert(listed[k] == text::endings(s, 0, n)[k]);
            }
            let done = if line_map::splits_crlf(s, n) {
                n + 1
            } else {
                n
            };
            assert(denormalise::reterminated(plain, plain.len() as int, listed, afterwards)
                =~= s.take(done));
        }
    }
}

proof fn lemma_reterminated_alike(
    b: Seq<u8>,
    d: Seq<u8>,
    n: int,
    listed: Seq<LineEnding>,
    afterwards: Option<LineEnding>,
)
    requires
        n <= b.len(),
        n <= d.len(),
        forall|q: int| 0 <= q < n ==> b[q] == d[q],
    ensures
        denormalise::reterminated(b, n, listed, afterwards) == denormalise::reterminated(
            d,
            n,
            listed,
            afterwards,
        ),
        denormalise::newlines(b, n) == denormalise::newlines(d, n),
    decreases n,
{
    if n > 0 {
        lemma_reterminated_alike(b, d, n - 1, listed, afterwards);
    }
}

/// What a reader yields, written through a denormalising writer with the
/// terminators that it yields, is the source again.
pub proof fn lemma_read_then_write_restores(r: Seq<u8>)
    ensures
        ({
            let all = lines::split_lines(r, Units::Byte);
            let plain = joined(all);
            denormalise::reterminated(plain, plain.len() as int, line_endings(all), None) == r
        }),
{
    lemma_lines_are_normalised(r);
    lemma_denormalise_restores(r, None);
}

/// It does not matter how a text is divided between writes: the second part is
/// written with the terminators that the first has left over.
pub proof fn lemma_writes_add_up(
    a: Seq<u8>,
    b: Seq<u8>,
    n: int,
    listed: Seq<LineEnding>,
    afterwards: Option<LineEnding>,
)
    requires
        0 <= n <= b.len(),
    ensures
        ({
            let k = denormalise::newlines(a, a.len() as int) as int;
            &&& denormalise::reterminated(a + b, a.len() + n, listed, afterwards)
                == denormalise::reterminated(a, a.len() as int, listed, afterwards)
                + denormalise::reterminated(
                b,
                n,
                denormalise::without_first(listed, k),
                afterwards,
            )
            &&& denormalise::newlines(a + b, a.len() + n) == k + denormalise::newlines(b, n)
        }),
    decreases n,
{
    let c = a + b;
    let m = a.len() as int;
    let k = denormalise::newlines(a, m) as int;
    let left = denormalise::without_first(listed, k);
    if n == 0 {
        lemma_reterminated_alike(c, a, m, listed, afterwards);
        assert(denormalise::reterminated(c, m, listed, afterwards) =~= denormalise::reterminated(
            a,
            m,
            listed,
            afterwards,
        ) + denormalise::reterminated(b, 0, left, afterwards));
    } else {
        lemma_writes_add_up(a, b, n - 1, listed, afterwards);
        assert(c[m + n - 1] == b[n - 1]);
        let j = denormalise::newlines(b, n - 1) as int;
        assert(denormalise::terminator_for(listed, afterwards, k + j)
            == denormalise::terminator_for(left, afterwards, j));
        assert(denormalise::reterminated(c, m + n, listed, afterwards)
            =~= denormalise::reterminated(a, m, listed, afterwards) + denormalise::reterminated(
            b,
            n,
            left,
            afterwards,
        ));
    }
}

/// Reading line by line and looking a line up by its number agree: the bytes
/// from where a line starts to where it ends, normalised, are the line that a
/// reader yields in its turn.
pub proof fn lemma_line_is_read(c: Seq<u8>, line: int)
    requires
        0 <= line < text::line_total(c),
    ensures
        ({
            let s = c.subrange(text::line_start(c, line), buffer::line_end(c, line));
            offset_map::normalised(s, s.len() as int) == lines::split_lines(c, Units::Byte)[line].0
        }),
    decreases c.len(),
{
    lemma_first_line(c);
    let split = lines::split_line(c, Units::Byte)->0;
    let x = c.take(split.taken);
    let y = c.skip(split.taken);
    let all = lines::split_lines(c, Units::Byte);
    text::lemma_endings_concat(x, y);
    assert(all.skip(1) =~= lines::split_lines(y, Units::Byte));
    assert(text::endings(x, 0, x.len() as int).len() == text::break_count(x));
    if split.terminator is End {
        text::lemma_breaks_sound(y, 0, 0);
        assert(c.subrange(0, c.len() as int) =~= x);
    } else {
        text::lemma_last_line_start(x);
        assert(text::line_start(c, 1) == x.len());
        if line == 0 {
            assert(c.subrange(0, x.len() as int) =~= x);
        } else {
            lemma_lines_are_normalised(y);
            if y.len() > 0 {
                assert(c[c.len() - 1] == y[y.len() - 1]);
            } else {
                assert(c =~= x);
            }
            lemma_line_is_read(y, line - 1);
            let from = text::line_start(y, line - 1);
            let to = buffer::line_end(y, line - 1);
            assert(text::line_start(c, line) == x.len() + from);
            assert(buffer::line_end(c, line) == x.len() + to);
            if line - 1 > 0 {
                text::lemma_line_start_ascends(y, 0, line - 1);
            }
            if line - 1 < text::break_count(y) {
                text::lemma_line_start_ascends(y, line - 1, line);
            }
            assert(c.subrange(x.len() + from, x.len() + to) =~= y.subrange(from, to));
            assert(all[line] == all.skip(1)[line - 1]);
        }
    }
}

/// Lines that are terminated are the same lines whatever follows them, unless
/// a `\r\n` forms there.
pub proof fn lemma_split_lines_concat(x: Seq<u8>, y: Seq<u8>)
    requires
        text::meets_cleanly(x, y),
        !text::ends_in_line(x, x.len() as int),
    ensures
        lines::split_lines(x + y, Units::Byte) == lines::split_lines(x, Units::Byte)
            + lines::split_lines(y, Units::Byte),
    decreases x.len(),
{
    let c = x + y;
    if x.len() == 0 {
        assert(c =~= y);
        assert(lines::split_lines(x, Units::Byte) + lines::split_lines(y, Units::Byte)
            =~= lines::split_lines(y, Units::Byte));
    } else {
        lemma_first_break_first(x, 0);
        lemma_first_break_alike(x, y, 0);
        lines::lemma_split_line_takes(x, Units::Byte);
        lines::lemma_split_line_break(x, Units::Byte);
        let p = lines::first_break(x, Units::Byte, 0);
        assert(p is Some) by {
            assert(x[x.len() - 1] == CR || x[x.len() - 1] == LF);
        }
        let at = p->0;
        if at + 1 < x.len() {
            assert(c[at + 1] == x[at + 1]);
        } else if y.len() > 0 {
            assert(c[at + 1] == y[0]);
        }
        let split = lines::split_line(x, Units::Byte)->0;
        assert(c.take(at) =~= x.take(at));
        assert(lines::split_line(c, Units::Byte) == Some(split));
        let rest = x.skip(split.taken);
        assert(c.skip(split.taken) =~= rest + y);
        lemma_split_lines_concat(rest, y);
        assert(lines::split_lines(c, Units::Byte) =~= lines::split_lines(x, Units::Byte)
            + lines::split_lines(y, Units::Byte));
    }
}

proof fn lemma_first_break_alike(x: Seq<u8>, y: Seq<u8>, p: int)
    requires
        0 <= p,
    ensures
        lines::first_break(x, Units::Byte, p) is Some ==> lines::first_break(
            x + y,
            Units::Byte,
            p,
        ) == lines::first_break(x, Units::Byte, p),
    decreases x.len() - p,
{
    if p < x.len() {
        assert((x + y)[p] == x[p]);
        if !(x[p] == CR || x[p] == LF) {
            lemma_first_break_alike(x, y, p + 1);
        }
    }
}

/// With no terminators to insert, text is written as it is.
pub proof fn lemma_no_terminators_no_change(b: Seq<u8>, n: int)
    requires
        0 <= n <= b.len(),
    ensures
        denormalise::reterminated(b, n, Seq::empty(), None) == b.take(n),
    decreases n,
{
    if n > 0 {
        lemma_no_terminators_no_change(b, n - 1);
    }
    assert(denormalise::reterminated(b, n, Seq::empty(), None) =~= b.take(n));
}

/// Converting to one kind of terminator leaves the text as it is but for the
/// terminators, and there are no others than the one asked for.
pub proof fn lemma_uniform_conversion(b: Seq<u8>, n: int, ending: LineEnding)
    requires
        0 <= n <= b.len(),
        !b.contains(CR),
    ensures
        ({
            let out = denormalise::reterminated(b, n, Seq::empty(), Some(ending));
            let found = text::endings(out, 0, out.len() as int);
            &&& offset_map::normalised(out, out.len() as int) == b.take(n)
            &&& found.len() == denormalise::newlines(b, n)
            &&& forall|i: int| 0 <= i < found.len() ==> #[trigger] found[i] == ending
        }),
    decreases n,
{
    let none = Seq::<LineEnding>::empty();
    let out = denormalise::reterminated(b, n, none, Some(ending));
    if n == 0 {
        assert(b.take(0) =~= Seq::<u8>::empty());
    } else {
        lemma_uniform_conversion(b, n - 1, ending);
        let x = denormalise::reterminated(b, n - 1, none, Some(ending));
        let y = if b[n - 1] == LF {
            buffer::ending_bytes(ending)
        } else {
            seq![b[n - 1]]
        };
        assert(out =~= x + y);
        assert(b[n - 1] != CR);
        lemma_uniform_end(b, n - 1, ending);
        offset_map::lemma_normalised_concat(x, y, y.len() as int);
        text::lemma_endings_concat(x, y);
        assert(b.take(n) =~= b.take(n - 1).push(b[n - 1]));
        text::lemma_endings_step(y, 0, 0);
        if y.len() == 2 {
            text::lemma_endings_step(y, 0, 1);
        }
        assert(text::endings(y, 0, 0) =~= Seq::empty());
        assert(text::endings(y, 0, y.len() as int) =~= if b[n - 1] == LF {
            seq![ending]
        } else {
            Seq::empty()
        });
        reveal_with_fuel(offset_map::normalised, 3);
        assert(offset_map::normalised(y, y.len() as int) =~= seq![b[n - 1]]);
        assert(offset_map::normalised(out, out.len() as int) =~= b.take(n));
    }
}

/// What is converted ends in `\r` only where this is the terminator.
proof fn lemma_uniform_end(b: Seq<u8>, n: int, ending: LineEnding)
    requires
        0 <= n <= b.len(),
        !b.contains(CR),
    ensures
        ({
            let out = denormalise::reterminated(b, n, Seq::empty(), Some(ending));
            out.len() > 0 && out.last() == CR ==> ending == LineEnding::Cr
        }),
{
    if n > 0 {
        assert(b[n - 1] != CR);
    }
}

} // verus!
