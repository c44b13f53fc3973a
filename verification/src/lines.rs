//! `Lines`: a forward-only line reader over a source.
//!
//! [`Lines`] keeps a forward-only byte cursor and yields the content of each
//! logical line as normalised (LF-only) bytes, with the [`LineEnding`] that
//! terminated it in the source.  The final line of a file that has no trailing
//! terminator is yielded with [`LineTerminator::End`].

use std::ops::Range;

use vstd::prelude::*;
use vstd::string::StringExecFns;

use crate::branch::Branch;
use crate::codec::Encoding;
use crate::denormalise::{TerminatorList, TerminatorSource};
use crate::encoded::Encoded;
use crate::encoding::LineEnding;
use crate::error;
use crate::error::{decimal_text, IoError};
use crate::offset_map;
use crate::offset_map::{build_offset_map, normalise};
use crate::source::Source;
use crate::text::{CR, LF};
use crate::view;
use crate::wide_text;
use crate::wide_text::normalise_wide;

verus! {

/// Errors that can occur while constructing or using a [`Lines`] value.
#[derive(Debug, Clone, Copy, PartialEq, Eq, Structural)]
pub enum LinesError {
    /// An I/O error occurred while reading bytes from the underlying branch.
    Io(IoError),
    /// The requested byte range would require materialising more bytes than
    /// the configured memory ceiling allows.
    RangeExceedsCeiling { requested: u64, ceiling: u64 },
}

impl LinesError {
    /// What [`LinesError::to_string`] returns.
    pub open spec fn message(self) -> Seq<char> {
        match self {
            LinesError::Io(e) => "I/O error in Lines: "@ + e.message(),
            LinesError::RangeExceedsCeiling { requested, ceiling } => "byte range ("@
                + error::decimal(requested as nat) + " bytes) exceeds memory ceiling ("@
                + error::decimal(ceiling as nat) + " bytes)"@,
        }
    }

    /// A description for people.
    pub fn to_string(&self) -> (text: String)
        ensures
            text@ == self.message(),
    {
        match *self {
            LinesError::Io(e) => {
                let mut text = "I/O error in Lines: ".to_owned();
                text.append(e.to_string().as_str());
                text
            },
            LinesError::RangeExceedsCeiling { requested, ceiling } => {
                let mut text = "byte range (".to_owned();
                text.append(decimal_text(requested).as_str());
                text.append(" bytes) exceeds memory ceiling (");
                text.append(decimal_text(ceiling).as_str());
                text.append(" bytes)");
                text
            },
        }
    }
}

impl From<IoError> for LinesError {
    fn from(e: IoError) -> (error: Self) {
        LinesError::Io(e)
    }
}

impl vstd::std_specs::convert::FromSpecImpl<IoError> for LinesError {
    open spec fn obeys_from_spec() -> bool {
        true
    }

    open spec fn from_spec(e: IoError) -> LinesError {
        LinesError::Io(e)
    }
}

/// What ended a line that [`Lines::next`] yields.
#[derive(Debug, Clone, Copy, PartialEq, Eq, Structural)]
pub enum LineTerminator {
    /// The line was terminated like this in the source.
    Ending(LineEnding),
    /// The line is the final partial line with no trailing terminator.
    End,
}

/// How `\r` and `\n` stand in the bytes of an encoding.
#[derive(Debug, Clone, Copy, PartialEq, Eq, Structural)]
pub enum Units {
    /// One byte each.
    Byte,
    /// A code unit of two bytes, the low one first.
    Utf16Le,
    /// A code unit of two bytes, the high one first.
    Utf16Be,
}

/// How the line terminators of `encoding` stand in its bytes.
pub open spec fn units_of(encoding: Encoding) -> Units {
    match encoding {
        Encoding::Utf16Le => Units::Utf16Le,
        Encoding::Utf16Be => Units::Utf16Be,
        _ => Units::Byte,
    }
}

/// How many bytes a code unit takes.
pub open spec fn unit_width(units: Units) -> int {
    match units {
        Units::Byte => 1,
        _ => 2,
    }
}

/// The bytes of the code unit with the value `v`.
pub open spec fn unit_bytes(units: Units, v: u8) -> Seq<u8> {
    match units {
        Units::Byte => seq![v],
        Units::Utf16Le => seq![v, 0],
        Units::Utf16Be => seq![0, v],
    }
}

/// Whether the code unit with the value `v` stands at `p`.
pub open spec fn is_unit(r: Seq<u8>, units: Units, p: int, v: u8) -> bool {
    match units {
        Units::Byte => p < r.len() && r[p] == v,
        Units::Utf16Le => p + 1 < r.len() && r[p] == v && r[p + 1] == 0,
        Units::Utf16Be => p + 1 < r.len() && r[p] == 0 && r[p + 1] == v,
    }
}

/// The first code unit of `r`, `p` or later, that is a `\r` or a `\n`.
pub open spec fn first_break(r: Seq<u8>, units: Units, p: int) -> Option<int>
    decreases r.len() - p,
{
    if p + unit_width(units) > r.len() {
        None
    } else if is_unit(r, units, p, CR) || is_unit(r, units, p, LF) {
        Some(p)
    } else {
        first_break(r, units, p + unit_width(units))
    }
}

/// The kind of the terminator whose first code unit stands at `p`.
pub open spec fn ending_of(r: Seq<u8>, units: Units, p: int) -> LineEnding {
    if is_unit(r, units, p, LF) {
        LineEnding::Lf
    } else if is_unit(r, units, p + unit_width(units), LF) {
        LineEnding::CrLf
    } else {
        LineEnding::Cr
    }
}

/// One line off the front of some bytes.
pub struct LineSplit {
    /// The line, its terminator replaced by a `\n` code unit.
    pub line: Seq<u8>,
    /// What terminated the line.
    pub terminator: LineTerminator,
    /// How many bytes the line and its terminator take.
    pub taken: int,
}

/// The first line of `r`; `None` where there is nothing left.
pub open spec fn split_line(r: Seq<u8>, units: Units) -> Option<LineSplit> {
    if r.len() == 0 {
        None
    } else {
        match first_break(r, units, 0) {
            Some(p) => {
                let ending = ending_of(r, units, p);
                Some(
                    LineSplit {
                        line: r.take(p) + unit_bytes(units, LF),
                        terminator: LineTerminator::Ending(ending),
                        taken: p + crate::text::ending_len(ending) * unit_width(units),
                    },
                )
            },
            None => Some(
                LineSplit { line: r, terminator: LineTerminator::End, taken: r.len() as int },
            ),
        }
    }
}

/// A line takes at least one byte, and no more than there are.
pub proof fn lemma_split_line_takes(r: Seq<u8>, units: Units)
    requires
        r.len() > 0,
    ensures
        split_line(r, units) is Some,
        0 < split_line(r, units)->0.taken <= r.len(),
{
    lemma_first_break(r, units, 0);
}

/// A terminated line holds at least its `\n`, and no line holds more bytes than
/// it takes and a `\n`.
pub proof fn lemma_split_line_len(r: Seq<u8>, units: Units)
    requires
        r.len() > 0,
    ensures
        ({
            let split = split_line(r, units)->0;
            &&& split.line.len() <= r.len()
            &&& split.terminator is Ending ==> split.line.len() >= unit_width(units)
        }),
{
    lemma_first_break(r, units, 0);
}

/// Where the first line ends, a code unit `\r` or `\n` stands, and a second one
/// where its terminator is `\r\n`.
pub proof fn lemma_split_line_break(r: Seq<u8>, units: Units)
    ensures
        match first_break(r, units, 0) {
            Some(p) => {
                let ending = ending_of(r, units, p);
                &&& 0 <= p
                &&& p + unit_width(units) <= r.len()
                &&& ending == LineEnding::Lf <==> is_unit(r, units, p, LF)
                &&& ending != LineEnding::Lf ==> is_unit(r, units, p, CR)
                &&& ending == LineEnding::CrLf ==> is_unit(r, units, p + unit_width(units), LF)
            },
            None => true,
        },
{
    lemma_first_break(r, units, 0);
}

proof fn lemma_first_break(r: Seq<u8>, units: Units, p: int)
    requires
        0 <= p,
    ensures
        match first_break(r, units, p) {
            Some(q) => p <= q && q + unit_width(units) <= r.len() && (is_unit(r, units, q, CR)
                || is_unit(r, units, q, LF)),
            None => true,
        },
    decreases r.len() - p,
{
    if p + unit_width(units) > r.len() {
    } else if is_unit(r, units, p, CR) || is_unit(r, units, p, LF) {
    } else {
        lemma_first_break(r, units, p + unit_width(units));
    }
}

/// All lines of `r`, each with what terminated it.
pub open spec fn split_lines(r: Seq<u8>, units: Units) -> Seq<(Seq<u8>, LineTerminator)>
    decreases r.len(),
    via split_lines_decreases
{
    match split_line(r, units) {
        Some(split) => seq![(split.line, split.terminator)] + split_lines(
            r.skip(split.taken),
            units,
        ),
        None => Seq::empty(),
    }
}

#[via_fn]
proof fn split_lines_decreases(r: Seq<u8>, units: Units) {
    if r.len() > 0 {
        lemma_split_line_takes(r, units);
    }
}

/// How many bytes a refill reads.
pub const READ_CHUNK: usize = 4096;

/// Default maximum number of bytes that [`Lines::view_range`] will materialise
/// into a single view unless overridden by [`Lines::with_view_ceiling`].
pub const DEFAULT_VIEW_CEILING: u64 = 67108864;

/// Whether the first line of the bytes that start with `b` can be told from
/// `b` alone.
pub open spec fn line_decided(b: Seq<u8>, units: Units) -> bool {
    match first_break(b, units, 0) {
        Some(p) => is_unit(b, units, p, LF) || p + 2 * unit_width(units) <= b.len(),
        None => false,
    }
}

/// How far `c` is read, in steps of 4096 bytes from `cursor` on, until the
/// line that starts at `from` is decided or the end is reached.
pub open spec fn read_ahead(c: Seq<u8>, units: Units, from: int, cursor: int) -> int
    decreases c.len() - cursor,
{
    if cursor >= c.len() || line_decided(c.subrange(from, cursor), units) {
        cursor
    } else if cursor + READ_CHUNK >= c.len() {
        c.len() as int
    } else {
        read_ahead(c, units, from, cursor + READ_CHUNK)
    }
}

proof fn lemma_first_break_extends(b: Seq<u8>, r: Seq<u8>, units: Units, p: int)
    requires
        0 <= p,
        b.len() <= r.len(),
        b == r.take(b.len() as int),
        first_break(b, units, p) is Some,
    ensures
        first_break(r, units, p) == first_break(b, units, p),
    decreases b.len() - p,
{
    assert(forall|i: int| 0 <= i < b.len() ==> #[trigger] b[i] == r[i]);
    if !(is_unit(b, units, p, CR) || is_unit(b, units, p, LF)) {
        lemma_first_break_extends(b, r, units, p + unit_width(units));
    }
}

/// What `b`, with which `r` starts, tells of the first line of `r`: where its
/// terminator begins, and its kind where that is decided.
proof fn lemma_break_in_prefix(b: Seq<u8>, r: Seq<u8>, units: Units, p: int)
    requires
        b.len() <= r.len(),
        b == r.take(b.len() as int),
        first_break(b, units, 0) == Some(p),
        is_unit(b, units, p, LF) || p + 2 * unit_width(units) <= b.len() || b.len() == r.len(),
    ensures
        first_break(r, units, 0) == Some(p),
        ending_of(r, units, p) == ending_of(b, units, p),
        b.take(p) == r.take(p),
        0 <= p,
        p + unit_width(units) <= b.len(),
{
    lemma_first_break_extends(b, r, units, 0);
    lemma_first_break(b, units, 0);
    assert(forall|i: int| 0 <= i < b.len() ==> #[trigger] b[i] == r[i]);
    assert(b.take(p) =~= r.take(p));
}

fn unit_at(buf: &Vec<u8>, units: Units, p: usize, v: u8) -> (found: bool)
    ensures
        found == is_unit(buf@, units, p as int, v),
{
    match units {
        Units::Byte => p < buf.len() && buf[p] == v,
        Units::Utf16Le => buf.len() >= 2 && p <= buf.len() - 2 && buf[p] == v && buf[p + 1] == 0,
        Units::Utf16Be => buf.len() >= 2 && p <= buf.len() - 2 && buf[p] == 0 && buf[p + 1] == v,
    }
}

/// The first code unit of `buf` that is a `\r` or a `\n`.
fn find_break(buf: &Vec<u8>, units: Units) -> (found: Option<usize>)
    ensures
        match found {
            Some(p) => first_break(buf@, units, 0) == Some(p as int),
            None => first_break(buf@, units, 0) is None,
        },
{
    let width: usize = match units {
        Units::Byte => 1,
        _ => 2,
    };
    let mut p: usize = 0;
    while p < buf.len() && width <= buf.len() - p
        invariant
            width == unit_width(units),
            p <= buf@.len(),
            first_break(buf@, units, 0) == first_break(buf@, units, p as int),
        decreases buf@.len() - p,
    {
        if unit_at(buf, units, p, CR) || unit_at(buf, units, p, LF) {
            return Some(p);
        }
        p = p + width;
    }
    None
}

/// A forward-only line reader over a source.
///
/// Yields each logical line as `(normalised_bytes, terminator)`.  CRLFs and
/// lone CRs in the source are delivered as a single `\n` in
/// `normalised_bytes`; the original terminator is recorded in the companion
/// `terminator`.
pub struct Lines {
    branch: Branch,
    encoding: Encoding,
    line_ending: LineEnding,
    /// How far the branch has been read.
    cursor: u64,
    view_ceiling: u64,
    /// Bytes read from the branch that have not yet been formed into a line.
    buf: Vec<u8>,
    /// Whether the end of the branch has been seen.
    eof: bool,
}

impl Lines {
    /// The branch that is read.
    pub closed spec fn source_branch(&self) -> Branch {
        self.branch
    }

    /// The encoding of the source.
    pub closed spec fn source_encoding(&self) -> Encoding {
        self.encoding
    }

    /// The dominant line ending of the source.
    pub closed spec fn source_line_ending(&self) -> LineEnding {
        self.line_ending
    }

    /// How far the branch has been read.
    pub closed spec fn position(&self) -> int {
        self.cursor as int
    }

    /// Where the next line starts.
    pub closed spec fn consumed(&self) -> int {
        self.cursor - self.buf@.len()
    }

    /// The most bytes that a view may hold.
    pub closed spec fn ceiling(&self) -> u64 {
        self.view_ceiling
    }

    /// The bytes not yet formed into lines.
    pub open spec fn remaining(&self) -> Seq<u8> {
        self.source_branch()@.skip(self.consumed())
    }

    /// What is buffered lies in the branch right before the cursor.
    pub closed spec fn wf(&self) -> bool {
        &&& self.branch@.len() <= isize::MAX
        &&& self.cursor <= self.branch@.len()
        &&& self.buf@.len() <= self.cursor
        &&& self.buf@ == self.branch@.subrange(
            self.cursor - self.buf@.len(),
            self.cursor as int,
        )
        &&& self.eof ==> self.cursor == self.branch@.len()
    }

    /// Everything but the reading position.
    pub open spec fn same_source(&self, other: &Lines) -> bool {
        &&& self.source_branch() == other.source_branch()
        &&& self.source_encoding() == other.source_encoding()
        &&& self.source_line_ending() == other.source_line_ending()
        &&& self.ceiling() == other.ceiling()
    }

    /// Construct a `Lines` from a `Source`; reading starts after a byte-order
    /// mark that is skipped.
    pub(crate) fn from_source(source: Source) -> (lines: Self)
        requires
            source.wf(),
        ensures
            lines.wf(),
            lines.source_branch() == source.source_branch(),
            lines.source_encoding() == source.source_encoding(),
            lines.source_line_ending() == source.source_line_ending(),
            lines.consumed() == source.source_bom_len(),
            lines.position() == source.source_bom_len(),
            lines.ceiling() == DEFAULT_VIEW_CEILING,
    {
        let branch = source.branch();
        let len: u64 = branch.byte_len();
        let lines = Lines {
            branch,
            encoding: source.encoding(),
            line_ending: source.line_ending(),
            cursor: source.bom_len() as u64,
            view_ceiling: DEFAULT_VIEW_CEILING,
            buf: Vec::new(),
            eof: false,
        };
        assert(lines.buf@ =~= lines.branch@.subrange(lines.cursor as int, lines.cursor as int));
        lines
    }

    /// Read the next chunk of the branch into `buf`.
    ///
    /// Returns `true` if bytes were added, `false` at the end.
    fn refill(&mut self) -> (added: bool)
        requires
            old(self).wf(),
        ensures
            final(self).wf(),
            final(self).same_source(old(self)),
            final(self).consumed() == old(self).consumed(),
            final(self).cursor == (if old(self).cursor + READ_CHUNK >= old(self).branch@.len() {
                old(self).branch@.len() as int
            } else {
                old(self).cursor + READ_CHUNK
            }),
            added == (old(self).cursor < old(self).branch@.len()),
            !added ==> final(self).eof && final(self).buf@ == old(self).buf@,
    {
        if self.eof {
            return false;
        }
        let ghost c = self.branch@;
        let mut chunk = self.branch.read_at(self.cursor, READ_CHUNK);
        if chunk.len() == 0 {
            self.eof = true;
            return false;
        }
        let ghost before = self.buf@;
        let ghost from = self.cursor - self.buf@.len();
        let count: usize = chunk.len();
        self.buf.append(&mut chunk);
        self.cursor = self.cursor + count as u64;
        assert(self.buf@ =~= c.subrange(from, self.cursor as int));
        true
    }

    /// The next line, in code units of the given kind.
    #[verifier::rlimit(40)]
    #[verifier::spinoff_prover]
    fn next_in_units(&mut self, units: Units) -> (line: Option<(Vec<u8>, LineTerminator)>)
        requires
            old(self).wf(),
        ensures
            final(self).wf(),
            final(self).same_source(old(self)),
            yields_line(*old(self), *final(self), line, units),
    {
        let ghost c = self.branch@;
        let ghost from = self.consumed();
        let ghost r = self.remaining();
        loop
            invariant
                self.wf(),
                self.same_source(old(self)),
                c == self.branch@,
                c == old(self).branch@,
                from == self.consumed(),
                from == old(self).consumed(),
                r == c.skip(from),
                read_ahead(c, units, from, self.cursor as int) == read_ahead(
                    c,
                    units,
                    from,
                    old(self).cursor as int,
                ),
            decreases
                    (if self.eof {
                        0
                    } else {
                        1 + c.len() - self.cursor
                    }),
        {
            let ghost b = self.buf@;
            assert(b =~= r.take(b.len() as int));
            let found = find_break(&self.buf, units);
            if let Some(p) = found {
                proof {
                    lemma_first_break(b, units, 0);
                }
                let width: usize = match units {
                    Units::Byte => 1,
                    _ => 2,
                };
                let is_lf: bool = unit_at(&self.buf, units, p, LF);
                if is_lf || self.buf.len() - p >= 2 * width || self.eof {
                    let ending: LineEnding = if is_lf {
                        LineEnding::Lf
                    } else if unit_at(&self.buf, units, p + width, LF) {
                        LineEnding::CrLf
                    } else {
                        LineEnding::Cr
                    };
                    proof {
                        lemma_break_in_prefix(b, r, units, p as int);
                        assert(ending == ending_of(r, units, p as int));
                        assert(b =~= c.subrange(from, self.cursor as int));
                    }
                    let taken: usize = match ending {
                        LineEnding::CrLf => p + width + width,
                        _ => p + width,
                    };
                    let line = self.take_front(p, taken, units);
                    assert(self.remaining() =~= r.skip(taken as int));
                    return Some((line, LineTerminator::Ending(ending)));
                }
            }
            if self.eof {
                assert(b =~= r);
                if self.buf.len() == 0 {
                    return None;
                }
                let mut line: Vec<u8> = Vec::new();
                line.append(&mut self.buf);
                proof {
                    assert(self.buf@ =~= c.subrange(self.cursor as int, self.cursor as int));
                    assert(self.remaining() =~= r.skip(r.len() as int));
                }
                return Some((line, LineTerminator::End));
            }
            assert(b =~= c.subrange(from, self.cursor as int));
            let _added = self.refill();
        }
    }

    /// Take the first `taken` buffered bytes out and make a line of the first
    /// `len` of them.
    fn take_front(&mut self, len: usize, taken: usize, units: Units) -> (line: Vec<u8>)
        requires
            old(self).wf(),
            len <= taken <= old(self).buf@.len(),
        ensures
            final(self).wf(),
            final(self).same_source(old(self)),
            final(self).consumed() == old(self).consumed() + taken,
            final(self).cursor == old(self).cursor,
            line@ == old(self).buf@.take(len as int) + unit_bytes(units, LF),
    {
        let ghost b = self.buf@;
        let mut rest = self.buf.split_off(taken);
        let mut line: Vec<u8> = Vec::new();
        line.append(&mut self.buf);
        self.buf.append(&mut rest);
        line.truncate(len);
        assert(line@ =~= b.take(len as int));
        match units {
            Units::Byte => {
                line.push(LF);
            },
            Units::Utf16Le => {
                line.push(LF);
                line.push(0);
            },
            Units::Utf16Be => {
                line.push(0);
                line.push(LF);
            },
        }
        assert(line@ =~= b.take(len as int) + unit_bytes(units, LF));
        assert(self.buf@ =~= self.branch@.subrange(
            self.cursor - self.buf@.len(),
            self.cursor as int,
        ));
        line
    }

    /// The next line with the kind of terminator that ended it.
    ///
    /// A terminated line ends with a `\n` code unit of the source encoding,
    /// whatever its terminator was; a final line without a terminator is
    /// yielded as it is.  Returns `None` when the branch is fully consumed.
    pub fn next(&mut self) -> (line: Option<(Vec<u8>, LineTerminator)>)
        requires
            old(self).wf(),
        ensures
            final(self).wf(),
            final(self).same_source(old(self)),
            yields_line(*old(self), *final(self), line, units_of(old(self).source_encoding())),
    {
        let units: Units = match self.encoding {
            Encoding::Utf16Le => Units::Utf16Le,
            Encoding::Utf16Be => Units::Utf16Be,
            _ => Units::Byte,
        };
        self.next_in_units(units)
    }
}

/// How many bytes a range asks for: none where it is inverted.
pub open spec fn range_len(range: Range<u64>) -> int {
    if range.start <= range.end {
        range.end - range.start
    } else {
        0
    }
}

impl Lines {
    /// Materialise the source bytes in `byte_range` as a normalised [`view::View`].
    ///
    /// An inverted range is an empty one.  A range that reaches past the end of
    /// the branch is shown as far as the branch goes.  In UTF-16 the range is
    /// normalised by code unit, from its first byte on.
    ///
    /// # Errors
    ///
    /// [`LinesError::RangeExceedsCeiling`] when the range length exceeds the
    /// view ceiling.
    pub fn view_range(&self, byte_range: Range<u64>) -> (view: Result<view::View, LinesError>)
        requires
            self.wf(),
        ensures
            match view {
                Ok(v) => {
                    let c = self.source_branch()@;
                    let s = offset_map::clipped(c, byte_range);
                    let units = units_of(self.source_encoding());
                    &&& range_len(byte_range) <= self.ceiling()
                    &&& if units == Units::Byte {
                        &&& v.shown() == offset_map::normalised(s, s.len() as int)
                        &&& v.map()@ == offset_map::drift_entries(s, s.len() as int)
                    } else {
                        &&& v.shown() == wide_text::normalised(s, units, s.len() as int)
                        &&& v.map()@ == wide_text::drift_entries(s, units, s.len() as int)
                    }
                    &&& v.map().wf()
                    &&& v.source_branch() == self.source_branch()
                    &&& v.range_start() == byte_range.start
                    &&& byte_range.start <= byte_range.end && byte_range.start <= c.len()
                        ==> v.shows_in(units, byte_range.start + s.len())
                },
                Err(e) => {
                    &&& range_len(byte_range) > self.ceiling()
                    &&& e == (LinesError::RangeExceedsCeiling {
                        requested: range_len(byte_range) as u64,
                        ceiling: self.ceiling(),
                    })
                },
            },
    {
        let len: u64 = if byte_range.start <= byte_range.end {
            byte_range.end - byte_range.start
        } else {
            0
        };
        if len > self.view_ceiling {
            return Err(
                LinesError::RangeExceedsCeiling { requested: len, ceiling: self.view_ceiling },
            );
        }
        let ghost s = offset_map::clipped(self.branch@, byte_range);
        let start: u64 = byte_range.start;
        let branch_len: u64 = self.branch.byte_len();
        let held: u64 = if start >= branch_len {
            0
        } else if branch_len - start < len {
            branch_len - start
        } else {
            len
        };
        let raw = self.branch.read_at(start, held as usize);
        assert(raw@ =~= s);
        proof {
            if byte_range.start <= byte_range.end && start <= self.branch@.len() {
                assert(s =~= self.branch@.subrange(start as int, start + s.len()));
            }
        }
        let units: Units = match self.encoding {
            Encoding::Utf16Le => Units::Utf16Le,
            Encoding::Utf16Be => Units::Utf16Be,
            _ => Units::Byte,
        };
        if units != Units::Byte {
            let (normal, map) = normalise_wide(&raw, units);
            return Ok(view::View::new(normal, map, self.branch.clone(), start));
        }
        match build_offset_map(&self.branch, byte_range) {
            Ok(map) => Ok(view::View::new(normalise(&raw), map, self.branch.clone(), start)),
            Err(e) => Err(LinesError::from(e)),
        }
    }

    /// Set the maximum number of bytes that [`Lines::view_range`] will
    /// materialise into a single [`view::View`].
    pub fn with_view_ceiling(self, ceiling: u64) -> (lines: Self)
        requires
            self.wf(),
        ensures
            lines.wf(),
            lines.source_branch() == self.source_branch(),
            lines.source_encoding() == self.source_encoding(),
            lines.source_line_ending() == self.source_line_ending(),
            lines.consumed() == self.consumed(),
            lines.position() == self.position(),
            lines.ceiling() == ceiling,
    {
        let mut lines = self;
        lines.view_ceiling = ceiling;
        lines
    }

    /// The branch this `Lines` is reading from.
    pub fn branch(&self) -> (branch: Branch)
        ensures
            branch == self.source_branch(),
    {
        self.branch.clone()
    }

    /// The WHATWG encoding of the source.
    pub fn encoding(&self) -> (encoding: Encoding)
        ensures
            encoding == self.source_encoding(),
    {
        self.encoding
    }

    /// The dominant line-ending convention detected for the source.
    pub fn line_ending(&self) -> (line_ending: LineEnding)
        ensures
            line_ending == self.source_line_ending(),
    {
        self.line_ending
    }

    /// The current byte cursor position (branch-absolute): how far the branch
    /// has been read.
    pub fn cursor(&self) -> (cursor: u64)
        ensures
            cursor == self.position(),
    {
        self.cursor
    }
}

/// `after` is `before` with the first of its lines taken out: `line`.
pub open spec fn yields_line(
    before: Lines,
    after: Lines,
    line: Option<(Vec<u8>, LineTerminator)>,
    units: Units,
) -> bool {
    &&& match split_line(before.remaining(), units) {
        Some(split) => {
            &&& line is Some
            &&& (line->0).0@ == split.line
            &&& (line->0).1 == split.terminator
            &&& after.consumed() == before.consumed() + split.taken
            &&& after.remaining() == before.remaining().skip(split.taken)
        },
        None => {
            &&& line is None
            &&& after.consumed() == before.consumed()
            &&& after.remaining() == before.remaining()
        },
    }
    &&& after.position() == read_ahead(
        before.source_branch()@,
        units,
        before.consumed(),
        before.position(),
    )
}

/// Called again and again, a reader yields the lines of what remains in turn,
/// and nothing once there are none.
pub proof fn lemma_lines_in_turn(
    before: Lines,
    after: Lines,
    line: Option<(Vec<u8>, LineTerminator)>,
    units: Units,
)
    requires
        yields_line(before, after, line, units),
    ensures
        match line {
            Some((bytes, terminator)) => split_lines(before.remaining(), units) == seq![
                (bytes@, terminator),
            ] + split_lines(after.remaining(), units),
            None => split_lines(before.remaining(), units).len() == 0,
        },
{
}

impl Encoded for Lines {
    open spec fn encoded_branch(&self) -> Branch {
        self.source_branch()
    }

    open spec fn encoded_as(&self) -> Encoding {
        self.source_encoding()
    }

    open spec fn encoded_line_ending(&self) -> LineEnding {
        self.source_line_ending()
    }

    fn branch(&self) -> (branch: Branch) {
        self.branch.clone()
    }

    fn encoding(&self) -> (encoding: Encoding) {
        self.encoding
    }

    fn line_ending(&self) -> (line_ending: LineEnding) {
        self.line_ending
    }
}

/// A fixed-capacity ring recording per-line [`LineEnding`] values as the lines
/// of a source are consumed.
///
/// When the ring is full, the oldest entry is silently overwritten.
pub struct TerminatorLog {
    buf: Vec<LineEnding>,
    /// Index of the oldest entry.
    head: usize,
    /// Number of entries currently stored.
    len: usize,
}

/// Where entry `i` of a ring of `capacity` slots lies that starts at `head`.
spec fn slot(head: int, i: int, capacity: int) -> int {
    if head + i < capacity {
        head + i
    } else {
        head + i - capacity
    }
}

/// What a log holds once `endings` have been pushed: the last ones, as many as
/// fit.
pub open spec fn last_endings(endings: Seq<LineEnding>, capacity: int) -> Seq<LineEnding> {
    if endings.len() <= capacity {
        endings
    } else {
        endings.skip(endings.len() - capacity)
    }
}

/// Pushing onto the last entries gives the last entries.
pub proof fn lemma_last_endings_push(endings: Seq<LineEnding>, capacity: int, le: LineEnding)
    requires
        capacity >= 0,
    ensures
        last_endings(endings.push(le), capacity) == last_endings(
            last_endings(endings, capacity).push(le),
            capacity,
        ),
{
    assert(last_endings(endings.push(le), capacity) =~= last_endings(
        last_endings(endings, capacity).push(le),
        capacity,
    ));
}

impl TerminatorLog {
    spec fn entry(&self, i: int) -> LineEnding {
        self.buf@[slot(self.head as int, i, self.buf@.len() as int)]
    }

    /// The entries, from oldest to newest.
    pub closed spec fn view(&self) -> Seq<LineEnding> {
        Seq::new(self.len as nat, |i: int| self.entry(i))
    }

    /// The most entries that the log holds.
    pub closed spec fn limit(&self) -> int {
        self.buf@.len() as int
    }

    /// The oldest entry lies in the ring, and no more entries are counted than
    /// it has slots.
    pub closed spec fn wf(&self) -> bool {
        &&& self.len <= self.buf@.len()
        &&& self.head < self.buf@.len() || (self.head == 0 && self.buf@.len() == 0)
    }

    /// Create a new `TerminatorLog` with the given fixed `capacity`.
    ///
    /// A capacity of 0 is valid; nothing is ever stored.
    pub fn new(capacity: usize) -> (log: Self)
        requires
            capacity <= isize::MAX,
        ensures
            log.wf(),
            log.limit() == capacity,
            log@ == Seq::<LineEnding>::empty(),
    {
        let mut buf: Vec<LineEnding> = Vec::new();
        let mut i: usize = 0;
        while i < capacity
            invariant
                i <= capacity,
                buf@.len() == i,
            decreases capacity - i,
        {
            buf.push(LineEnding::Lf);
            i = i + 1;
        }
        let log = TerminatorLog { buf, head: 0, len: 0 };
        assert(log@ =~= Seq::<LineEnding>::empty());
        log
    }

    /// Record `le` as the next line terminator.
    ///
    /// If the ring is full the oldest entry is overwritten.
    pub fn push(&mut self, le: LineEnding)
        requires
            old(self).wf(),
        ensures
            final(self).wf(),
            final(self).limit() == old(self).limit(),
            final(self)@ == last_endings(old(self)@.push(le), old(self).limit()),
    {
        let capacity: usize = self.buf.len();
        if capacity == 0 {
            assert(self@ =~= last_endings(old(self)@.push(le), 0));
            return;
        }
        if self.len < capacity {
            let tail: usize = if self.len < capacity - self.head {
                self.head + self.len
            } else {
                self.len - (capacity - self.head)
            };
            self.buf.set(tail, le);
            self.len = self.len + 1;
        } else {
            self.buf.set(self.head, le);
            self.head = if self.head + 1 < capacity {
                self.head + 1
            } else {
                0
            };
        }
        assert(self@ =~= last_endings(old(self)@.push(le), old(self).limit()));
    }

    /// The number of entries currently stored.
    pub fn len(&self) -> (len: usize)
        ensures
            len == self@.len(),
    {
        self.len
    }

    /// `true` when no entries are stored.
    pub fn is_empty(&self) -> (empty: bool)
        ensures
            empty == (self@.len() == 0),
    {
        self.len == 0
    }

    /// The maximum number of entries the ring can hold.
    pub fn capacity(&self) -> (capacity: usize)
        ensures
            capacity == self.limit(),
    {
        self.buf.len()
    }

    /// Iterate over stored entries from oldest to newest.
    ///
    /// The returned reader copies the entries; the log itself is unchanged.
    pub fn iter(&self) -> (iter: TerminatorLogIter)
        requires
            self.wf(),
        ensures
            iter.remaining() == self@,
    {
        let capacity: usize = self.buf.len();
        let mut entries: Vec<LineEnding> = Vec::new();
        let mut i: usize = 0;
        while i < self.len
            invariant
                self.wf(),
                capacity == self.buf@.len(),
                i <= self.len,
                entries@ == self@.take(i as int),
            decreases self.len - i,
        {
            let idx: usize = if i < capacity - self.head {
                self.head + i
            } else {
                i - (capacity - self.head)
            };
            let ending: LineEnding = self.buf[idx];
            assert(ending == self@[i as int]);
            entries.push(ending);
            i = i + 1;
            assert(entries@ =~= self@.take(i as int));
        }
        assert(entries@ =~= self@);
        TerminatorLogIter { entries: TerminatorList::new(entries) }
    }
}

/// Reader of the entries of a [`TerminatorLog`] from oldest to newest.
pub struct TerminatorLogIter {
    entries: TerminatorList,
}

impl TerminatorLogIter {
    /// The entries still to come.
    pub closed spec fn remaining(&self) -> Seq<LineEnding> {
        self.entries.upcoming()
    }

    /// The next entry; `None` at the end.
    pub fn next(&mut self) -> (ending: Option<LineEnding>)
        ensures
            match ending {
                Some(e) => {
                    &&& old(self).remaining().len() > 0
                    &&& e == old(self).remaining()[0]
                    &&& final(self).remaining() == old(self).remaining().skip(1)
                },
                None => old(self).remaining().len() == 0 && final(self).remaining().len() == 0,
            },
    {
        self.entries.next_terminator()
    }
}

impl TerminatorSource for TerminatorLogIter {
    open spec fn upcoming(&self) -> Seq<LineEnding> {
        self.remaining()
    }

    open spec fn afterwards(&self) -> Option<LineEnding> {
        None
    }

    fn next_terminator(&mut self) -> (ending: Option<LineEnding>) {
        self.next()
    }
}

} // verus!
