//! `Buffer`: random-access, line-map-backed editor buffer.
//!
//! [`Buffer`] wraps a `Source` and a lazy segmented [`LineMap`].  It is the
//! type for editor-style workflows that need random access by line number,
//! byte offset, or multi-line byte range.

use std::ops::Range;

use vstd::prelude::*;
use vstd::string::StringExecFns;

use crate::branch;
use crate::branch::Branch;
use crate::codec;
use crate::codec::Encoding;
use crate::encoded::{encode_with, Encoded};
use crate::encoding::LineEnding;
use crate::error;
use crate::error::{decimal_text, IoError};
use crate::line_map;
use crate::line_map::LineMap;
use crate::line_map_event::{EventSender, LineMapEvent};
use crate::lines::DEFAULT_VIEW_CEILING;
use crate::offset_map;
use crate::offset_map::{build_offset_map, normalise, OffsetMap};
use crate::source::Source;
use crate::text;
use crate::text::{CR, LF};
use crate::view;

verus! {

/// Errors that can occur while constructing or using a [`Buffer`].
#[derive(Debug, Clone, Copy)]
pub enum BufferError {
    /// An I/O error occurred while reading bytes from the underlying branch.
    Io(IoError),
    /// The requested byte range would require materialising more bytes than
    /// the configured memory ceiling allows.
    RangeExceedsCeiling { requested: u64, ceiling: u64 },
    /// The requested line number is past the end of the file.
    LineOutOfRange { line: usize, total: usize },
    /// The view passed to [`Buffer::apply_edit`] was created from a previous
    /// branch state and is no longer valid against the buffer's current
    /// branch.
    StaleView,
    /// The encoding of the source has no encoder of its own (UTF-16LE and
    /// UTF-16BE), so bytes cannot be written back without corrupting the
    /// file.
    EncodeUnsupported { encoding_name: &'static str },
}

impl BufferError {
    /// What [`BufferError::to_string`] returns.
    pub open spec fn message(self) -> Seq<char> {
        match self {
            BufferError::Io(e) => "I/O error in Buffer: "@ + e.message(),
            BufferError::RangeExceedsCeiling { requested, ceiling } => "byte range ("@
                + error::decimal(requested as nat) + " bytes) exceeds memory ceiling ("@
                + error::decimal(ceiling as nat) + " bytes)"@,
            BufferError::LineOutOfRange { line, total } => "line "@ + error::decimal(line as nat)
                + " is out of range (file has "@ + error::decimal(total as nat) + " lines)"@,
            BufferError::StaleView =>
                "View was created from a stale branch state; re-create it after the previous edit"@,
            BufferError::EncodeUnsupported { encoding_name } => "encoding '"@ + encoding_name@
                + "' has no usable encoder in encoding_rs; use Source::as_chars or Source::as_lines for read-only access"@,
        }
    }

    /// A description for people.
    pub fn to_string(&self) -> (text: String)
        ensures
            text@ == self.message(),
    {
        match *self {
            BufferError::Io(e) => {
                let mut text = "I/O error in Buffer: ".to_owned();
                text.append(e.to_string().as_str());
                text
            },
            BufferError::RangeExceedsCeiling { requested, ceiling } => {
                let mut text = "byte range (".to_owned();
                text.append(decimal_text(requested).as_str());
                text.append(" bytes) exceeds memory ceiling (");
                text.append(decimal_text(ceiling).as_str());
                text.append(" bytes)");
                text
            },
            BufferError::LineOutOfRange { line, total } => {
                let mut text = "line ".to_owned();
                text.append(decimal_text(line as u64).as_str());
                text.append(" is out of range (file has ");
                text.append(decimal_text(total as u64).as_str());
                text.append(" lines)");
                text
            },
            BufferError::StaleView => {
                "View was created from a stale branch state; re-create it after the previous edit".to_owned()
            },
            BufferError::EncodeUnsupported { encoding_name } => {
                let mut text = "encoding '".to_owned();
                text.append(encoding_name);
                text.append(
                    "' has no usable encoder in encoding_rs; use Source::as_chars or Source::as_lines for read-only access",
                );
                text
            },
        }
    }
}

impl From<IoError> for BufferError {
    fn from(e: IoError) -> (error: Self) {
        BufferError::Io(e)
    }
}

impl vstd::std_specs::convert::FromSpecImpl<IoError> for BufferError {
    open spec fn obeys_from_spec() -> bool {
        true
    }

    open spec fn from_spec(e: IoError) -> BufferError {
        BufferError::Io(e)
    }
}

/// The bytes of a line ending.
pub open spec fn ending_bytes(ending: LineEnding) -> Seq<u8> {
    match ending {
        LineEnding::Lf => seq![LF],
        LineEnding::CrLf => seq![CR, LF],
        LineEnding::Cr => seq![CR],
    }
}

/// A random-access, line-map-backed editor buffer.
///
/// `Buffer` combines the resolved encoding metadata from a `Source` with a
/// lazy segmented [`LineMap`] for line-to-offset and offset-to-line lookups.
pub struct Buffer {
    branch: Branch,
    encoding: Encoding,
    bom_len: usize,
    line_ending: LineEnding,
    line_map: LineMap,
    view_ceiling: u64,
}

impl Buffer {
    /// The underlying byte stream.
    pub closed spec fn source_branch(&self) -> Branch {
        self.branch
    }

    /// The encoding of the source.
    pub closed spec fn source_encoding(&self) -> Encoding {
        self.encoding
    }

    /// The number of byte-order mark bytes at the start of the branch.
    pub closed spec fn source_bom_len(&self) -> int {
        self.bom_len as int
    }

    /// The line ending that new lines get.
    pub closed spec fn source_line_ending(&self) -> LineEnding {
        self.line_ending
    }

    /// The line map.
    pub closed spec fn map(&self) -> LineMap {
        self.line_map
    }

    /// The most bytes that a view may hold.
    pub closed spec fn ceiling(&self) -> u64 {
        self.view_ceiling
    }

    /// The bytes of the buffer.
    pub open spec fn bytes(&self) -> Seq<u8> {
        self.source_branch()@
    }

    /// The line map maps the buffer's own branch, and the encoding can be
    /// written.
    pub open spec fn wf(&self) -> bool {
        &&& self.map().wf()
        &&& self.map().source() == self.source_branch()
        &&& self.source_encoding() != Encoding::Utf16Le
        &&& self.source_encoding() != Encoding::Utf16Be
        &&& self.source_encoding() != Encoding::Replacement
    }

    /// Everything but the branch and the line map.
    pub open spec fn same_settings(&self, other: &Buffer) -> bool {
        &&& self.source_encoding() == other.source_encoding()
        &&& self.source_bom_len() == other.source_bom_len()
        &&& self.source_line_ending() == other.source_line_ending()
        &&& self.ceiling() == other.ceiling()
    }

    /// Whether nothing but the line map's knowledge differs: its first
    /// `scanned` segments are scanned now.
    pub open spec fn scanned_from(&self, before: &Buffer, scanned: int) -> bool {
        &&& self.wf()
        &&& self.same_settings(before)
        &&& self.source_branch() == before.source_branch()
        &&& self.map().same_map(&before.map())
        &&& self.map().progress() == scanned
        &&& self.map().events() == line_map::events_after_scans(before.map(), scanned)
    }

    /// Whether the buffer holds `bytes` in a new branch, with a line map that
    /// starts anew and goes on sending after `events`.
    pub open spec fn edited_to(
        &self,
        before: &Buffer,
        bytes: Seq<u8>,
        events: Option<Seq<LineMapEvent>>,
    ) -> bool {
        &&& self.wf()
        &&& self.same_settings(before)
        &&& self.bytes() == bytes
        &&& self.source_branch().generation() == before.source_branch().generation() + 1
        &&& self.map().granularity() == line_map::DEFAULT_SEGMENT_SIZE
        &&& self.map().progress() == 0
        &&& self.map().events() == events
    }

    /// Whether `v` is a view of the bytes `start..end`: normalised, with
    /// positions translated back, where the encoding is a superset of ASCII;
    /// else as they are, with positions that translate to themselves.
    pub open spec fn is_view(&self, v: view::View, start: int, end: int) -> bool {
        let s = self.bytes().subrange(start, end);
        &&& 0 <= start <= end <= self.bytes().len()
        &&& v.source_branch() == self.source_branch()
        &&& v.range_start() == start
        &&& v.map().wf()
        &&& if codec::is_ascii_superset(self.source_encoding()) {
            v.shows(end)
        } else {
            v.shown() == s && v.map()@ == Seq::<(u64, i64)>::empty()
        }
    }

    /// Construct a `Buffer` from a `Source`, with no event sender.
    ///
    /// # Errors
    ///
    /// [`BufferError::EncodeUnsupported`] when the source encoding is UTF-16LE
    /// or UTF-16BE.
    pub(crate) fn from_source(source: Source) -> (buffer: Result<Self, BufferError>)
        requires
            source.wf(),
        ensures
            made_buffer(source, buffer),
    {
        let encoding: Encoding = source.encoding();
        if encoding == Encoding::Utf16Le || encoding == Encoding::Utf16Be {
            return Err(BufferError::EncodeUnsupported { encoding_name: encoding.name() });
        }
        let branch = source.branch();
        let line_map = LineMap::new(branch.clone(), None, None);
        Ok(
            Buffer {
                branch,
                encoding,
                bom_len: source.bom_len(),
                line_ending: source.line_ending(),
                line_map,
                view_ceiling: DEFAULT_VIEW_CEILING,
            },
        )
    }

    /// Attach an event sender and return `self`.
    ///
    /// Any segments scanned before this call are preserved; future scans and
    /// invalidations send events through the new sender.
    pub fn with_sender(self, sender: EventSender) -> (buffer: Self)
        requires
            self.wf(),
        ensures
            buffer.wf(),
            buffer.same_settings(&self),
            buffer.source_branch() == self.source_branch(),
            buffer.map().same_map(&self.map()),
            buffer.map().progress() == self.map().progress(),
            buffer.map().events() == Some(sender@),
    {
        let mut buffer = self;
        buffer.line_map.set_sender(sender);
        buffer
    }

    /// Set the maximum number of bytes that [`Buffer::view_range`] will
    /// materialise into a single view and return `self`.
    pub fn with_view_ceiling(self, ceiling: u64) -> (buffer: Self)
        requires
            self.wf(),
        ensures
            buffer.wf(),
            buffer.source_branch() == self.source_branch(),
            buffer.source_encoding() == self.source_encoding(),
            buffer.source_bom_len() == self.source_bom_len(),
            buffer.source_line_ending() == self.source_line_ending(),
            buffer.map() == self.map(),
            buffer.ceiling() == ceiling,
    {
        let mut buffer = self;
        buffer.view_ceiling = ceiling;
        buffer
    }

    /// The branch this `Buffer` is backed by.
    pub fn branch(&self) -> (branch: Branch)
        ensures
            branch == self.source_branch(),
    {
        self.branch.clone()
    }

    /// The WHATWG encoding of the source.
    pub fn encoding(&self) -> (encoding: Encoding)
        ensures
            encoding == self.source_encoding(),
    {
        self.encoding
    }

    /// The dominant line-ending convention detected for the source.
    pub fn line_ending(&self) -> (line_ending: LineEnding)
        ensures
            line_ending == self.source_line_ending(),
    {
        self.line_ending
    }

    /// The number of BOM bytes at the start of the branch (may be 0).
    pub fn bom_len(&self) -> (bom_len: usize)
        ensures
            bom_len == self.source_bom_len(),
    {
        self.bom_len
    }

    /// A reference to the internal lazy line map (read-only).
    pub fn line_map(&self) -> (map: &LineMap)
        ensures
            *map == self.map(),
    {
        &self.line_map
    }

    /// A mutable reference to the internal lazy line map.
    pub fn line_map_mut(&mut self) -> (map: &mut LineMap)
        ensures
            *map == old(self).map(),
            final(self).map() == *final(map),
            final(self).same_settings(old(self)),
            final(self).source_branch() == old(self).source_branch(),
    {
        &mut self.line_map
    }

    /// Return the byte offset of the start of `line` (0-based).
    ///
    /// Scans the line map as needed until the terminator before `line` is
    /// known.  Returns [`BufferError::LineOutOfRange`] when `line` is past the
    /// last line.  Line 0 always starts at byte 0, even where a byte-order
    /// mark stands there.
    pub fn line_offset(&mut self, line: usize) -> (offset: Result<u64, BufferError>)
        requires
            old(self).wf(),
        ensures
            final(self).scanned_from(
                old(self),
                line_map::progress_for_line(old(self).map(), line as int),
            ),
            match offset {
                Ok(at) => line <= text::break_count(old(self).bytes()) && at == text::line_start(
                    old(self).bytes(),
                    line as int,
                ),
                Err(e) => line > text::break_count(old(self).bytes()) && e
                    == (BufferError::LineOutOfRange {
                    line,
                    total: text::line_total(old(self).bytes()) as usize,
                }),
            },
    {
        match self.line_map.line_offset(line) {
            Ok(Some(at)) => Ok(at),
            Ok(None) => {
                proof {
                    line_map::lemma_all_scanned(old(self).map(), line as int);
                }
                let total: usize = self.line_map.current_line_count().value;
                Err(BufferError::LineOutOfRange { line, total })
            },
            Err(e) => Err(BufferError::from(e)),
        }
    }

    /// Return the `(line, col)` pair for the given byte `offset` (both
    /// 0-based).
    ///
    /// `col` is the raw byte distance from the start of the line to `offset`.
    /// Returns `Ok((0, 0))` when the branch is empty and `offset == 0`, and
    /// [`BufferError::LineOutOfRange`] when `offset` is beyond the branch;
    /// the error then carries the line count as far as it is known.
    pub fn offset_to_line_col(&mut self, offset: u64) -> (at: Result<(usize, usize), BufferError>)
        requires
            old(self).wf(),
        ensures
            final(self).scanned_from(
                old(self),
                line_map::progress_for_offset(old(self).map(), offset as int),
            ),
            match at {
                Ok((line, col)) => {
                    &&& offset < old(self).bytes().len() || (offset == 0 && old(
                        self,
                    ).bytes().len() == 0)
                    &&& text::is_line_col(
                        old(self).bytes(),
                        offset as int,
                        line as int,
                        col as int,
                    )
                },
                Err(e) => {
                    let total = line_map::known_line_count(
                        old(self).bytes(),
                        old(self).map().granularity(),
                        old(self).map().progress(),
                    ).value;
                    &&& offset >= old(self).bytes().len()
                    &&& !(offset == 0 && old(self).bytes().len() == 0)
                    &&& e == (BufferError::LineOutOfRange { line: total, total })
                },
            },
    {
        match self.line_map.offset_to_line_col(offset) {
            Ok(Some(at)) => Ok(at),
            Ok(None) => {
                let total: usize = self.line_map.current_line_count().value;
                Err(BufferError::LineOutOfRange { line: total, total })
            },
            Err(e) => Err(BufferError::from(e)),
        }
    }
}

/// The part of `range` that lies in `len` bytes; empty, at its start or the
/// end, where there is none.
pub open spec fn clamped(range: Range<u64>, len: int) -> (int, int) {
    let start = if range.start <= len {
        range.start as int
    } else {
        len
    };
    let end = if range.end <= start {
        start
    } else if range.end <= len {
        range.end as int
    } else {
        len
    };
    (start, end)
}

/// Where `line` ends in `c`, its terminator included.
pub open spec fn line_end(c: Seq<u8>, line: int) -> int {
    if line < text::break_count(c) {
        text::line_start(c, line + 1)
    } else {
        c.len() as int
    }
}

impl Buffer {
    /// A view of the bytes `start..end`.
    fn make_view(&self, start: u64, end: u64) -> (v: view::View)
        requires
            self.wf(),
            start <= end <= self.bytes().len(),
        ensures
            self.is_view(v, start as int, end as int),
    {
        let branch_len: u64 = self.branch.byte_len();
        let ghost s = self.bytes().subrange(start as int, end as int);
        let raw = self.branch.read_at(start, (end - start) as usize);
        assert(raw@ =~= s);
        if self.encoding.is_ascii_compatible() {
            assert(offset_map::clipped(self.bytes(), (start..end)) =~= s);
            match build_offset_map(&self.branch, start..end) {
                Ok(map) => view::View::new(normalise(&raw), map, self.branch.clone(), start),
                Err(_) => {
                    proof {
                        assert(false);
                    }
                    view::View::new(raw, OffsetMap::identity(), self.branch.clone(), start)
                },
            }
        } else {
            view::View::new(raw, OffsetMap::identity(), self.branch.clone(), start)
        }
    }

    /// Return a view of line `line` (0-based) in normalised (LF-only) bytes.
    ///
    /// The view covers the line up to the start of the next one, so the
    /// terminator is included for terminated lines.  For the final line of a
    /// file that has no trailing newline the view ends at the end of the
    /// branch.
    ///
    /// # Errors
    ///
    /// [`BufferError::LineOutOfRange`] if `line` exceeds the total line count.
    pub fn line_content(&mut self, line: usize) -> (v: Result<view::View, BufferError>)
        requires
            old(self).wf(),
        ensures
            match v {
                Ok(shown) => {
                    &&& line <= text::break_count(old(self).bytes())
                    &&& old(self).is_view(
                        shown,
                        text::line_start(old(self).bytes(), line as int),
                        line_end(old(self).bytes(), line as int),
                    )
                    &&& final(self).scanned_from(
                        old(self),
                        line_map::progress_for_line(old(self).map(), line + 1),
                    )
                },
                Err(e) => {
                    &&& line > text::break_count(old(self).bytes())
                    &&& e == (BufferError::LineOutOfRange {
                        line,
                        total: text::line_total(old(self).bytes()) as usize,
                    })
                    &&& final(self).scanned_from(
                        old(self),
                        line_map::progress_for_line(old(self).map(), line as int),
                    )
                },
            },
    {
        let start: u64 = match self.line_offset(line) {
            Ok(start) => start,
            Err(e) => {
                return Err(e);
            },
        };
        let ghost mid = *self;
        let branch_len: u64 = self.branch.byte_len();
        proof {
            text::lemma_breaks_sound(self.bytes(), 0, self.bytes().len() as int);
        }
        let end: u64 = match self.line_map.line_offset(line + 1) {
            Ok(Some(end)) => end,
            _ => branch_len,
        };
        proof {
            line_map::lemma_progress_again(old(self).map(), mid.map(), line as int, line + 1);
            line_map::lemma_events_again(
                old(self).map(),
                mid.map(),
                self.map(),
            );
            let c = self.bytes();
            if line < text::break_count(c) {
                text::lemma_line_start_ascends(c, line as int, line + 1);
            } else if line > 0 {
                text::lemma_line_start_ascends(c, 0, line as int);
            }
        }
        Ok(self.make_view(start, end))
    }

    /// Return a view of an arbitrary byte range in normalised (LF-only) bytes.
    ///
    /// The range is cut down to the bytes that the branch has; an inverted one
    /// is empty.
    ///
    /// # Errors
    ///
    /// [`BufferError::RangeExceedsCeiling`] if the length of what is left of
    /// the range exceeds the view ceiling.
    pub fn view_range(&self, byte_range: Range<u64>) -> (v: Result<view::View, BufferError>)
        requires
            self.wf(),
        ensures
            ({
                let (start, end) = clamped(byte_range, self.bytes().len() as int);
                match v {
                    Ok(shown) => end - start <= self.ceiling() && self.is_view(shown, start, end),
                    Err(e) => end - start > self.ceiling() && e
                        == (BufferError::RangeExceedsCeiling {
                        requested: (end - start) as u64,
                        ceiling: self.ceiling(),
                    }),
                }
            }),
            byte_range.start <= byte_range.end <= self.bytes().len() && byte_range.end
                - byte_range.start <= self.ceiling() ==> v is Ok && self.is_view(
                v->Ok_0,
                byte_range.start as int,
                byte_range.end as int,
            ),
    {
        let branch_len: u64 = self.branch.byte_len();
        let start: u64 = if byte_range.start <= branch_len {
            byte_range.start
        } else {
            branch_len
        };
        let end: u64 = if byte_range.end <= start {
            start
        } else if byte_range.end <= branch_len {
            byte_range.end
        } else {
            branch_len
        };
        let len: u64 = end - start;
        if len > self.view_ceiling {
            return Err(
                BufferError::RangeExceedsCeiling { requested: len, ceiling: self.view_ceiling },
            );
        }
        Ok(self.make_view(start, end))
    }

    /// The source line-ending bytes for this buffer (LF, CRLF, or CR), encoded
    /// in the buffer's source encoding.
    fn terminator_bytes(&self) -> (bytes: Vec<u8>)
        requires
            self.wf(),
        ensures
            bytes@ == ending_bytes(self.source_line_ending()),
    {
        let text: &str = match self.line_ending {
            LineEnding::Lf => "\n",
            LineEnding::CrLf => "\r\n",
            LineEnding::Cr => "\r",
        };
        proof {
            reveal_strlit("\n");
            reveal_strlit("\r\n");
            reveal_strlit("\r");
            vstd::utf8::is_ascii_chars_encode_utf8(text@);
            assert(vstd::utf8::encode_utf8(text@) =~= ending_bytes(self.line_ending));
        }
        match encode_with(self.encoding, text) {
            Ok(bytes) => bytes,
            Err(_) => {
                proof {
                    assert(false);
                }
                Vec::new()
            },
        }
    }

    /// Replace the buffer's branch with `new_branch` and rebuild the line map,
    /// unscanned.
    fn replace_branch(&mut self, new_branch: Branch)
        requires
            old(self).wf(),
            new_branch.generation() == old(self).source_branch().generation() + 1,
        ensures
            final(self).edited_to(old(self), new_branch@, old(self).map().events()),
            final(self).source_branch() == new_branch,
    {
        let sender = self.line_map.take_sender();
        self.line_map = LineMap::new(new_branch.clone(), None, sender);
        self.branch = new_branch;
    }

    /// Insert the buffer's line terminator at `offset`.
    fn insert_terminator(&mut self, offset: u64) -> (done: Result<(), BufferError>)
        requires
            old(self).wf(),
            old(self).bytes().len() + 2 <= isize::MAX,
        ensures
            match done {
                Ok(_) => {
                    &&& offset <= old(self).bytes().len()
                    &&& final(self).edited_to(
                        old(self),
                        branch::spliced(
                            old(self).bytes(),
                            offset as int,
                            0,
                            ending_bytes(old(self).source_line_ending()),
                        ),
                        old(self).map().events(),
                    )
                },
                Err(e) => {
                    &&& offset > old(self).bytes().len()
                    &&& e == BufferError::Io(IoError::OutOfBounds)
                    &&& *final(self) == *old(self)
                },
            },
    {
        let terminator = self.terminator_bytes();
        match self.branch.insert_before(offset, terminator.as_slice()) {
            Ok(branch) => {
                self.replace_branch(branch);
                Ok(())
            },
            Err(e) => Err(BufferError::from(e)),
        }
    }

    /// Split line `line` at byte column `byte_col` by inserting the file's
    /// native line terminator at that position.
    ///
    /// `byte_col` is the number of raw source bytes from the start of the line
    /// to the desired split point (before normalisation).  The line map is
    /// rebuilt from scratch.
    ///
    /// # Errors
    ///
    /// [`BufferError::LineOutOfRange`] if `line` does not exist, and
    /// [`BufferError::Io`] if the split point lies past the end of the branch.
    pub fn split_line(&mut self, line: usize, byte_col: usize) -> (done: Result<(), BufferError>)
        requires
            old(self).wf(),
            old(self).bytes().len() + 2 <= isize::MAX,
            line <= text::break_count(old(self).bytes()) ==> text::line_start(
                old(self).bytes(),
                line as int,
            ) + byte_col <= u64::MAX,
        ensures
            ({
                let c = old(self).bytes();
                let at = text::line_start(c, line as int) + byte_col;
                let scanned = line_map::progress_for_line(old(self).map(), line as int);
                match done {
                    Ok(_) => {
                        &&& line <= text::break_count(c)
                        &&& at <= c.len()
                        &&& final(self).edited_to(
                            old(self),
                            branch::spliced(
                                c,
                                at,
                                0,
                                ending_bytes(old(self).source_line_ending()),
                            ),
                            line_map::events_after_scans(old(self).map(), scanned),
                        )
                    },
                    Err(e) => {
                        &&& final(self).scanned_from(old(self), scanned)
                        &&& if line <= text::break_count(c) {
                            at > c.len() && e == BufferError::Io(IoError::OutOfBounds)
                        } else {
                            e == (BufferError::LineOutOfRange {
                                line,
                                total: text::line_total(c) as usize,
                            })
                        }
                    },
                }
            }),
    {
        match self.line_offset(line) {
            Ok(line_start) => self.insert_terminator(line_start + byte_col as u64),
            Err(e) => Err(e),
        }
    }

    /// Insert a new empty line (just the file's native terminator) before line
    /// number `at`.  The line map is rebuilt from scratch.
    ///
    /// # Errors
    ///
    /// [`BufferError::LineOutOfRange`] if `at` is past the last valid line.
    pub fn insert_line(&mut self, at: usize) -> (done: Result<(), BufferError>)
        requires
            old(self).wf(),
            old(self).bytes().len() + 2 <= isize::MAX,
        ensures
            ({
                let c = old(self).bytes();
                let scanned = line_map::progress_for_line(old(self).map(), at as int);
                match done {
                    Ok(_) => {
                        &&& at <= text::break_count(c)
                        &&& final(self).edited_to(
                            old(self),
                            branch::spliced(
                                c,
                                text::line_start(c, at as int),
                                0,
                                ending_bytes(old(self).source_line_ending()),
                            ),
                            line_map::events_after_scans(old(self).map(), scanned),
                        )
                    },
                    Err(e) => {
                        &&& at > text::break_count(c)
                        &&& final(self).scanned_from(old(self), scanned)
                        &&& e == (BufferError::LineOutOfRange {
                            line: at,
                            total: text::line_total(c) as usize,
                        })
                    },
                }
            }),
    {
        match self.line_offset(at) {
            Ok(at_byte) => {
                proof {
                    if at > 0 {
                        text::lemma_line_start_ascends(self.bytes(), 0, at as int);
                    }
                }
                self.insert_terminator(at_byte)
            },
            Err(e) => Err(e),
        }
    }

    /// Append a new empty line (just the file's native terminator) at the end
    /// of the buffer.
    pub fn append_line(&mut self) -> (done: Result<(), BufferError>)
        requires
            old(self).wf(),
            old(self).bytes().len() + 2 <= isize::MAX,
        ensures
            done is Ok,
            final(self).edited_to(
                old(self),
                old(self).bytes() + ending_bytes(old(self).source_line_ending()),
                old(self).map().events(),
            ),
    {
        let eof: u64 = self.branch.byte_len();
        proof {
            let c = self.bytes();
            let t = ending_bytes(self.source_line_ending());
            assert(branch::spliced(c, c.len() as int, 0, t) =~= c + t);
        }
        self.insert_terminator(eof)
    }

    /// Apply an edit described by a view and a `normalised_range` to this
    /// buffer, replacing those normalised bytes with `replacement`.
    ///
    /// # Errors
    ///
    /// [`BufferError::StaleView`] if `view` was not made from the buffer's
    /// current branch (for instance because an edit has occurred since), and
    /// [`BufferError::Io`] for what `View::apply` rejects.  The buffer is then
    /// unchanged.
    pub fn apply_edit(
        &mut self,
        view: &view::View,
        normalised_range: Range<u64>,
        replacement: &[u8],
    ) -> (done: Result<(), BufferError>)
        requires
            old(self).wf(),
            view.source_branch() == old(self).source_branch() ==> {
                &&& view.map().wf()
                &&& old(self).bytes().len() + replacement@.len() <= isize::MAX
                &&& view.splice_site(normalised_range) matches Ok((from, len)) ==> from + len
                    <= u64::MAX
            },
        ensures
            if view.source_branch() != old(self).source_branch() {
                &&& done matches Err(BufferError::StaleView)
                &&& *final(self) == *old(self)
            } else {
                match view.splice_site(normalised_range) {
                    Err(e) => done == Err::<(), BufferError>(BufferError::Io(e)) && *final(self)
                        == *old(self),
                    Ok((from, len)) => match branch::splice_failure(
                        old(self).bytes(),
                        from as u64,
                        len as u64,
                        replacement@,
                    ) {
                        Some(e) => done == Err::<(), BufferError>(BufferError::Io(e))
                            && *final(self) == *old(self),
                        None => {
                            &&& done is Ok
                            &&& final(self).edited_to(
                                old(self),
                                branch::spliced(old(self).bytes(), from, len, replacement@),
                                old(self).map().events(),
                            )
                        },
                    },
                }
            },
    {
        if !view.branch().same_branch(&self.branch) {
            return Err(BufferError::StaleView);
        }
        match view.apply(normalised_range, replacement) {
            Ok(branch) => {
                self.replace_branch(branch);
                Ok(())
            },
            Err(e) => Err(BufferError::from(e)),
        }
    }
}

/// What making a buffer of `source` comes to.
pub open spec fn made_buffer(source: Source, buffer: Result<Buffer, BufferError>) -> bool {
    let encoding = source.source_encoding();
    match buffer {
        Ok(b) => {
            &&& encoding != Encoding::Utf16Le && encoding != Encoding::Utf16Be
            &&& b.wf()
            &&& b.source_branch() == source.source_branch()
            &&& b.source_encoding() == encoding
            &&& b.source_bom_len() == source.source_bom_len()
            &&& b.source_line_ending() == source.source_line_ending()
            &&& b.ceiling() == DEFAULT_VIEW_CEILING
            &&& b.map().granularity() == line_map::DEFAULT_SEGMENT_SIZE
            &&& b.map().progress() == 0
            &&& b.map().events() is None
        },
        Err(e) => {
            &&& encoding == Encoding::Utf16Le || encoding == Encoding::Utf16Be
            &&& e matches BufferError::EncodeUnsupported { encoding_name }
            &&& encoding_name@ == codec::encoding_name(encoding)
        },
    }
}

impl Encoded for Buffer {
    open spec fn encoded_branch(&self) -> Branch {
        self.source_branch()
    }

    open spec fn encoded_as(&self) -> Encoding {
        self.source_encoding()
    }

    open spec fn encoded_line_ending(&self) -> LineEnding {
        self.source_line_ending()
    }

    fn branch(&self) -> (branch: Branch) {
        self.branch.clone()
    }

    fn encoding(&self) -> (encoding: Encoding) {
        self.encoding
    }

    fn line_ending(&self) -> (line_ending: LineEnding) {
        self.line_ending
    }
}

} // verus!
