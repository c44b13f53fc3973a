//! What a line is: line terminators in a byte sequence and what they delimit.
//!
//! A terminator is `\n`, `\r\n` or a `\r` that no `\n` follows.  Whether one
//! begins at a position depends on that byte and its two neighbours only.

use vstd::prelude::*;

use crate::encoding::LineEnding;

verus! {

pub const CR: u8 = 13;

pub const LF: u8 = 10;

/// Whether a line terminator begins at `p`.
pub open spec fn is_break(c: Seq<u8>, p: int) -> bool {
    c[p] == CR || (c[p] == LF && !(p > 0 && c[p - 1] == CR))
}

/// The kind of the terminator that begins at `p`.
pub open spec fn ending_at(c: Seq<u8>, p: int) -> LineEnding {
    if c[p] == LF {
        LineEnding::Lf
    } else if p + 1 < c.len() && c[p + 1] == LF {
        LineEnding::CrLf
    } else {
        LineEnding::Cr
    }
}

/// How many bytes a terminator takes up.
pub open spec fn ending_len(e: LineEnding) -> int {
    if e == LineEnding::CrLf {
        2
    } else {
        1
    }
}

/// The first position after the terminator that begins at `p`.
pub open spec fn after_break(c: Seq<u8>, p: int) -> int {
    p + ending_len(ending_at(c, p))
}

/// The positions in `a..b` at which a terminator of `c` begins, in order.
pub open spec fn breaks(c: Seq<u8>, a: int, b: int) -> Seq<int>
    decreases b - a,
{
    if b <= a {
        Seq::empty()
    } else if is_break(c, b - 1) {
        breaks(c, a, b - 1).push(b - 1)
    } else {
        breaks(c, a, b - 1)
    }
}

/// The kinds of the terminators of `c` that begin in `a..b`, in order.
pub open spec fn endings(c: Seq<u8>, a: int, b: int) -> Seq<LineEnding> {
    breaks(c, a, b).map_values(|p: int| ending_at(c, p))
}

/// Every entry of [`breaks`] is a terminator in range, and they ascend.
pub proof fn lemma_breaks_sound(c: Seq<u8>, a: int, b: int)
    ensures
        forall|i: int|
            0 <= i < breaks(c, a, b).len() ==> a <= #[trigger] breaks(c, a, b)[i] < b && is_break(
                c,
                breaks(c, a, b)[i],
            ),
        forall|i: int, j: int|
            0 <= i < j < breaks(c, a, b).len() ==> #[trigger] breaks(c, a, b)[i] < #[trigger] breaks(
                c,
                a,
                b,
            )[j],
        breaks(c, a, b).len() <= (if b <= a {
            0
        } else {
            b - a
        }),
    decreases b - a,
{
    if b > a {
        lemma_breaks_sound(c, a, b - 1);
    }
}

/// Every terminator in range is an entry of [`breaks`].
pub proof fn lemma_breaks_complete(c: Seq<u8>, a: int, b: int, p: int)
    requires
        a <= p < b,
        is_break(c, p),
    ensures
        breaks(c, a, b).contains(p),
    decreases b - a,
{
    if p == b - 1 {
        assert(breaks(c, a, b)[breaks(c, a, b).len() - 1] == p);
    } else {
        lemma_breaks_complete(c, a, b - 1, p);
        let shorter = breaks(c, a, b - 1);
        let i = choose|i: int| 0 <= i < shorter.len() && shorter[i] == p;
        assert(breaks(c, a, b)[i] == p);
    }
}

/// The terminators of adjacent ranges are those of the joined range.
pub proof fn lemma_breaks_split(c: Seq<u8>, a: int, m: int, b: int)
    requires
        a <= m <= b,
    ensures
        breaks(c, a, b) == breaks(c, a, m) + breaks(c, m, b),
        endings(c, a, b) == endings(c, a, m) + endings(c, m, b),
    decreases b - m,
{
    if m < b {
        lemma_breaks_split(c, a, m, b - 1);
    }
    assert(breaks(c, a, b) =~= breaks(c, a, m) + breaks(c, m, b));
    assert(endings(c, a, b) =~= endings(c, a, m) + endings(c, m, b));
}

/// One more byte brings at most one more terminator.
pub proof fn lemma_endings_step(c: Seq<u8>, a: int, p: int)
    requires
        a <= p,
    ensures
        endings(c, a, p + 1) == (if is_break(c, p) {
            endings(c, a, p).push(ending_at(c, p))
        } else {
            endings(c, a, p)
        }),
{
    assert(endings(c, a, p + 1) =~= (if is_break(c, p) {
        endings(c, a, p).push(ending_at(c, p))
    } else {
        endings(c, a, p)
    }));
}

/// How often `e` occurs in `s`.
pub open spec fn occurrences(s: Seq<LineEnding>, e: LineEnding) -> nat
    decreases s.len(),
{
    if s.len() == 0 {
        0
    } else {
        occurrences(s.drop_last(), e) + if s.last() == e {
            1nat
        } else {
            0nat
        }
    }
}

/// Whether no kind occurs more often in `s` than `e`.
pub open spec fn leads(s: Seq<LineEnding>, e: LineEnding) -> bool {
    forall|f: LineEnding| #[trigger] occurrences(s, f) <= occurrences(s, e)
}

/// The first of `s[k..]` that [`leads`] in `s`.
pub open spec fn first_leader(s: Seq<LineEnding>, k: int) -> LineEnding
    decreases s.len() - k,
{
    if k >= s.len() {
        LineEnding::Lf
    } else if leads(s, s[k]) {
        s[k]
    } else {
        first_leader(s, k + 1)
    }
}

/// The majority vote over the terminators `s`: the preferred kind where it
/// leads, else the leading kind that appears first.
pub open spec fn dominant_ending(s: Seq<LineEnding>, preferred: Option<LineEnding>) -> Option<
    LineEnding,
> {
    if s.len() == 0 {
        None
    } else if preferred matches Some(e) && leads(s, e) {
        preferred
    } else {
        Some(first_leader(s, 0))
    }
}

proof fn lemma_occurs(s: Seq<LineEnding>, e: LineEnding) -> (i: int)
    requires
        occurrences(s, e) > 0,
    ensures
        0 <= i < s.len(),
        s[i] == e,
    decreases s.len(),
{
    if s.last() == e {
        s.len() - 1
    } else {
        lemma_occurs(s.drop_last(), e)
    }
}

proof fn lemma_first_leader_leads(s: Seq<LineEnding>, k: int, i: int)
    requires
        0 <= k <= i < s.len(),
        leads(s, s[i]),
    ensures
        leads(s, first_leader(s, k)),
        occurrences(s, first_leader(s, k)) > 0,
    decreases s.len() - k,
{
    if leads(s, s[k]) {
        assert(occurrences(s, s[s.len() - 1]) > 0);
        assert(occurrences(s, s[k]) >= occurrences(s, s[s.len() - 1]));
    } else {
        lemma_first_leader_leads(s, k + 1, i);
    }
}

/// The vote elects a kind that occurs at least as often as any other, and
/// elects none only where there is no terminator.
pub proof fn lemma_dominant_ending_leads(s: Seq<LineEnding>, preferred: Option<LineEnding>)
    ensures
        match dominant_ending(s, preferred) {
            None => s.len() == 0,
            Some(e) => leads(s, e) && occurrences(s, e) > 0,
        },
{
    if s.len() > 0 {
        let last = s[s.len() - 1];
        assert(occurrences(s, last) > 0);
        let lf = occurrences(s, LineEnding::Lf);
        let crlf = occurrences(s, LineEnding::CrLf);
        let cr = occurrences(s, LineEnding::Cr);
        let top = if lf >= crlf && lf >= cr {
            LineEnding::Lf
        } else if crlf >= cr {
            LineEnding::CrLf
        } else {
            LineEnding::Cr
        };
        assert(leads(s, top));
        let i = lemma_occurs(s, top);
        lemma_first_leader_leads(s, 0, i);
    }
}

/// How many terminators `c` holds.
pub open spec fn break_count(c: Seq<u8>) -> nat {
    breaks(c, 0, c.len() as int).len()
}

/// Where the line with the given 0-based number starts: line 0 at 0, every
/// other line right after a terminator.
pub open spec fn line_start(c: Seq<u8>, line: int) -> int {
    if line <= 0 {
        0
    } else {
        after_break(c, breaks(c, 0, c.len() as int)[line - 1])
    }
}

/// Whether `offset` lies `col` bytes into the line numbered `line`, its
/// terminator counted in.
pub open spec fn is_line_col(c: Seq<u8>, offset: int, line: int, col: int) -> bool {
    &&& 0 <= line <= break_count(c)
    &&& 0 <= col
    &&& line_start(c, line) + col == offset
    &&& line < break_count(c) ==> offset < line_start(c, line + 1)
}

/// Whether the bytes end in the middle of a line.
pub open spec fn ends_in_line(c: Seq<u8>, end: int) -> bool {
    end > 0 && c[end - 1] != CR && c[end - 1] != LF
}

/// How many lines `c` holds: one per terminator, and one for bytes after the
/// last terminator.
pub open spec fn line_total(c: Seq<u8>) -> nat {
    break_count(c) + if ends_in_line(c, c.len() as int) {
        1nat
    } else {
        0nat
    }
}

/// Successive terminators do not overlap.
pub proof fn lemma_after_break_ascends(c: Seq<u8>, p: int, q: int)
    requires
        0 <= p < q < c.len(),
        is_break(c, p),
        is_break(c, q),
    ensures
        after_break(c, p) <= q,
        after_break(c, p) < after_break(c, q),
{
}

/// Lines start in ascending order, at the latest where the bytes end.
pub proof fn lemma_line_start_ascends(c: Seq<u8>, i: int, j: int)
    requires
        0 <= i < j <= break_count(c),
    ensures
        0 <= line_start(c, i) < line_start(c, j) <= c.len(),
{
    let b = breaks(c, 0, c.len() as int);
    lemma_breaks_sound(c, 0, c.len() as int);
    assert(is_break(c, b[j - 1]));
    if i > 0 {
        assert(is_break(c, b[i - 1]));
        lemma_after_break_ascends(c, b[i - 1], b[j - 1]);
    }
}

/// An offset has one line and one column.
pub proof fn lemma_line_col_unique(
    c: Seq<u8>,
    offset: int,
    line1: int,
    col1: int,
    line2: int,
    col2: int,
)
    requires
        is_line_col(c, offset, line1, col1),
        is_line_col(c, offset, line2, col2),
    ensures
        line1 == line2,
        col1 == col2,
{
    if line1 < line2 {
        if line1 + 1 < line2 {
            lemma_line_start_ascends(c, line1 + 1, line2);
        }
    } else if line2 < line1 {
        if line2 + 1 < line1 {
            lemma_line_start_ascends(c, line2 + 1, line1);
        }
    }
}

/// Alike bytes have alike terminators, `off` bytes apart.
proof fn lemma_endings_alike(c: Seq<u8>, off: int, d: Seq<u8>, n: int)
    requires
        forall|q: int|
            0 <= q < n ==> {
                &&& is_break(c, off + q) == #[trigger] is_break(d, q)
                &&& is_break(d, q) ==> ending_at(c, off + q) == ending_at(d, q)
            },
    ensures
        endings(c, off, off + n) == endings(d, 0, n),
        breaks(c, off, off + n).len() == breaks(d, 0, n).len(),
        forall|i: int|
            0 <= i < breaks(d, 0, n).len() ==> #[trigger] breaks(c, off, off + n)[i] == off
                + breaks(d, 0, n)[i],
    decreases n,
{
    if n > 0 {
        lemma_endings_alike(c, off, d, n - 1);
        lemma_endings_step(c, off, off + n - 1);
        lemma_endings_step(d, 0, n - 1);
        assert(is_break(d, n - 1) == is_break(c, off + n - 1));
    } else {
        assert(endings(c, off, off + n) =~= endings(d, 0, n));
    }
}

/// Whether no `\r\n` forms where `x` and `y` meet.
pub open spec fn meets_cleanly(x: Seq<u8>, y: Seq<u8>) -> bool {
    !(x.len() > 0 && y.len() > 0 && x.last() == CR && y[0] == LF)
}

/// The terminators of two texts put together are those of the one and those
/// of the other, unless a `\r\n` forms between them; so are the lines they
/// start.
pub proof fn lemma_endings_concat(x: Seq<u8>, y: Seq<u8>)
    requires
        meets_cleanly(x, y),
    ensures
        forall|i: int|
            0 <= i <= break_count(x) ==> #[trigger] line_start(x + y, i) == line_start(x, i),
        forall|i: int|
            0 < i <= break_count(y) ==> line_start(x + y, break_count(x) + i) == x.len()
                + #[trigger] line_start(y, i),
        endings(x + y, 0, (x + y).len() as int) == endings(x, 0, x.len() as int) + endings(
            y,
            0,
            y.len() as int,
        ),
        break_count(x + y) == break_count(x) + break_count(y),
{
    let c = x + y;
    let m = x.len() as int;
    let n = y.len() as int;
    assert forall|q: int| 0 <= q < m implies {
        &&& is_break(c, 0 + q) == #[trigger] is_break(x, q)
        &&& is_break(x, q) ==> ending_at(c, 0 + q) == ending_at(x, q)
    } by {
        assert(c[q] == x[q]);
        if q > 0 {
            assert(c[q - 1] == x[q - 1]);
        }
        if q + 1 < m {
            assert(c[q + 1] == x[q + 1]);
        } else if n > 0 {
            assert(c[q + 1] == y[0]);
        }
    }
    lemma_endings_alike(c, 0, x, m);
    assert forall|q: int| 0 <= q < n implies {
        &&& is_break(c, m + q) == #[trigger] is_break(y, q)
        &&& is_break(y, q) ==> ending_at(c, m + q) == ending_at(y, q)
    } by {
        assert(c[m + q] == y[q]);
        if q > 0 {
            assert(c[m + q - 1] == y[q - 1]);
        } else if m > 0 {
            assert(c[m + q - 1] == x[m - 1]);
        }
        if q + 1 < n {
            assert(c[m + q + 1] == y[q + 1]);
        }
    }
    lemma_endings_alike(c, m, y, n);
    lemma_breaks_split(c, 0, m, m + n);
    lemma_breaks_sound(x, 0, m);
    lemma_breaks_sound(y, 0, n);
    assert forall|i: int| 0 <= i <= break_count(x) implies #[trigger] line_start(x + y, i)
        == line_start(x, i) by {
        if i > 0 {
            let p = breaks(x, 0, m)[i - 1];
            assert(breaks(c, 0, m)[i - 1] == p);
            assert(breaks(c, 0, m + n)[i - 1] == p);
            assert(is_break(x, p));
        }
    }
    assert forall|i: int| 0 < i <= break_count(y) implies line_start(x + y, break_count(x) + i)
        == x.len() + #[trigger] line_start(y, i) by {
        let p = breaks(y, 0, n)[i - 1];
        assert(breaks(c, m, m + n)[i - 1] == m + p);
        assert(breaks(c, 0, m + n)[break_count(x) + i - 1] == m + p);
        assert(is_break(y, p));
    }
}

/// After the last terminator of a text that one ends, a line would start.
pub proof fn lemma_last_line_start(x: Seq<u8>)
    requires
        !ends_in_line(x, x.len() as int),
    ensures
        line_start(x, break_count(x) as int) == x.len(),
        x.len() > 0 ==> break_count(x) > 0,
{
    let n = x.len() as int;
    if n > 0 {
        if !is_break(x, n - 1) {
            assert(x[n - 2] == CR);
            assert(is_break(x, n - 2));
            assert(breaks(x, 0, n - 1) == breaks(x, 0, n - 2).push(n - 2));
        }
    }
}

/// The bytes before the start of a line and those from there on meet cleanly:
/// the ones before end with a terminator, and number as many as there are
/// lines before.
pub proof fn lemma_cut_at_line(c: Seq<u8>, line: int)
    requires
        0 <= line <= break_count(c),
    ensures
        ({
            let at = line_start(c, line);
            let x = c.take(at);
            &&& 0 <= at <= c.len()
            &&& meets_cleanly(x, c.skip(at))
            &&& !ends_in_line(x, at)
            &&& break_count(x) == line
        }),
{
    let at = line_start(c, line);
    let x = c.take(at);
    let y = c.skip(at);
    if line > 0 {
        let n = c.len() as int;
        lemma_line_start_ascends(c, 0, line);
        lemma_breaks_sound(c, 0, n);
        let p = breaks(c, 0, n)[line - 1];
        assert(is_break(c, p));
        assert(x[at - 1] == c[at - 1]);
        if y.len() > 0 {
            assert(y[0] == c[at]);
        }
        assert(x + y =~= c);
        lemma_endings_concat(x, y);
        lemma_last_line_start(x);
        if break_count(x) < line {
            lemma_line_start_ascends(c, break_count(x) as int, line);
        } else if break_count(x) > line {
            lemma_line_start_ascends(c, line, break_count(x) as int);
        }
    } else {
        assert(x =~= Seq::<u8>::empty());
    }
}

/// The offset at which a line starts lies in this line, at its first column.
pub proof fn lemma_line_starts_at_column_zero(c: Seq<u8>, line: int)
    requires
        0 <= line <= break_count(c),
    ensures
        is_line_col(c, line_start(c, line), line, 0),
{
    if line < break_count(c) {
        lemma_line_start_ascends(c, line, line + 1);
    }
}

/// Bytes other than `\r` and `\n` terminate nothing.
pub proof fn lemma_no_endings(c: Seq<u8>, a: int, b: int)
    requires
        forall|q: int| a <= q < b ==> c[q] != CR && c[q] != LF,
    ensures
        breaks(c, a, b).len() == 0,
        endings(c, a, b).len() == 0,
    decreases b - a,
{
    if a < b {
        lemma_no_endings(c, a, b - 1);
    }
}

} // verus!
