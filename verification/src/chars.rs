//! `Chars`: the encoding-only operating mode.
//!
//! `Chars` is a pure decoding layer: character sync points and boundary
//! queries, forward character iteration from a sync point, and re-encoding of
//! strings back to the source encoding.

use vstd::prelude::*;
use vstd::string::StringExecFns;

use crate::branch;
use crate::branch::Branch;
use crate::codec;
use crate::codec::{decode_chunk, start_decoder, Encoding};
use crate::encoded::Encoded;
use crate::encoding::LineEnding;
use crate::error::IoError;
use crate::source::Source;
use crate::text::{CR, LF};

verus! {

/// Errors that can occur while operating on a [`Chars`] value.
#[derive(Debug, Clone, Copy, PartialEq, Eq, Structural)]
pub enum CharsError {
    /// An I/O error occurred while reading from the branch.
    Io(IoError),
}

impl CharsError {
    /// What [`CharsError::to_string`] returns.
    pub open spec fn message(self) -> Seq<char> {
        match self {
            CharsError::Io(e) => "I/O error in Chars: "@ + e.message(),
        }
    }

    /// A description for people.
    pub fn to_string(&self) -> (text: String)
        ensures
            text@ == self.message(),
    {
        match *self {
            CharsError::Io(e) => {
                let mut text = "I/O error in Chars: ".to_owned();
                text.append(e.to_string().as_str());
                text
            },
        }
    }
}

impl From<IoError> for CharsError {
    fn from(e: IoError) -> (error: Self) {
        CharsError::Io(e)
    }
}

impl vstd::std_specs::convert::FromSpecImpl<IoError> for CharsError {
    open spec fn obeys_from_spec() -> bool {
        true
    }

    open spec fn from_spec(e: IoError) -> CharsError {
        CharsError::Io(e)
    }
}

/// How character boundaries are detected for a given encoding.
#[derive(Debug, Clone, Copy, PartialEq, Eq, Structural)]
pub enum SyncKind {
    /// UTF-8: a byte is a boundary unless it is a continuation byte.
    Utf8,
    /// UTF-16 little-endian: an even offset is a boundary unless its word is a
    /// low surrogate.
    Utf16Le,
    /// UTF-16 big-endian: same as `Utf16Le` but byte-swapped.
    Utf16Be,
    /// Single-byte encoding: every byte offset is a character boundary.
    SingleByte,
    /// Multi-byte encoding that is not self-synchronising: only LF and CR
    /// bytes, which are never trail bytes, are known boundaries.
    Dbcs,
}

/// How character boundaries are detected in `encoding`.
pub open spec fn sync_kind_of(encoding: Encoding) -> SyncKind {
    match encoding {
        Encoding::Utf8 => SyncKind::Utf8,
        Encoding::Utf16Le => SyncKind::Utf16Le,
        Encoding::Utf16Be => SyncKind::Utf16Be,
        Encoding::ShiftJis => SyncKind::Dbcs,
        Encoding::Gbk => SyncKind::Dbcs,
        Encoding::Gb18030 => SyncKind::Dbcs,
        Encoding::Big5 => SyncKind::Dbcs,
        Encoding::EucJp => SyncKind::Dbcs,
        Encoding::EucKr => SyncKind::Dbcs,
        Encoding::Iso2022Jp => SyncKind::Dbcs,
        _ => SyncKind::SingleByte,
    }
}

/// Map `encoding` to its [`SyncKind`].
pub fn sync_kind(encoding: Encoding) -> (kind: SyncKind)
    ensures
        kind == sync_kind_of(encoding),
{
    match encoding {
        Encoding::Utf8 => SyncKind::Utf8,
        Encoding::Utf16Le => SyncKind::Utf16Le,
        Encoding::Utf16Be => SyncKind::Utf16Be,
        Encoding::ShiftJis => SyncKind::Dbcs,
        Encoding::Gbk => SyncKind::Dbcs,
        Encoding::Gb18030 => SyncKind::Dbcs,
        Encoding::Big5 => SyncKind::Dbcs,
        Encoding::EucJp => SyncKind::Dbcs,
        Encoding::EucKr => SyncKind::Dbcs,
        Encoding::Iso2022Jp => SyncKind::Dbcs,
        _ => SyncKind::SingleByte,
    }
}

/// Whether `byte` is the first byte of a UTF-8 character sequence: any byte
/// but a continuation byte.
pub fn is_utf8_boundary_byte(byte: u8) -> (boundary: bool)
    ensures
        boundary == !(0x80 <= byte <= 0xBF),
{
    assert((byte & 0xC0 != 0x80) == !(0x80 <= byte <= 0xBF)) by (bit_vector);
    (byte & 0xC0) != 0x80
}

/// Whether `high_byte` marks a low surrogate.
pub open spec fn is_low_surrogate_byte(high_byte: u8) -> bool {
    0xDC <= high_byte <= 0xDF
}

/// Whether a UTF-16LE character starts at `offset`, where `high_byte` is the
/// byte at `offset + 1`: at an even offset, unless the word is a low
/// surrogate.
pub fn is_utf16le_boundary(offset: u64, high_byte: u8) -> (boundary: bool)
    ensures
        boundary == (offset % 2 == 0 && !is_low_surrogate_byte(high_byte)),
{
    offset % 2 == 0 && !(0xDC <= high_byte && high_byte <= 0xDF)
}

/// Whether a UTF-16BE character starts at `offset`, where `first_byte` is the
/// byte at `offset`: at an even offset, unless the word is a low surrogate.
pub fn is_utf16be_boundary(offset: u64, first_byte: u8) -> (boundary: bool)
    ensures
        boundary == (offset % 2 == 0 && !is_low_surrogate_byte(first_byte)),
{
    offset % 2 == 0 && !(0xDC <= first_byte && first_byte <= 0xDF)
}

/// Whether a character of the given kind of encoding can start at `p`.
///
/// In UTF-16, a code unit that the bytes do not hold in full counts as a
/// boundary.  For encodings that are not self-synchronising only the first
/// byte and those of LF and CR do.
pub open spec fn is_sync_point(c: Seq<u8>, kind: SyncKind, p: int) -> bool {
    match kind {
        SyncKind::SingleByte => true,
        SyncKind::Utf8 => !(0x80 <= c[p] <= 0xBF),
        SyncKind::Utf16Le => p % 2 == 0 && (p + 1 >= c.len() || !is_low_surrogate_byte(c[p + 1])),
        SyncKind::Utf16Be => p % 2 == 0 && (p >= c.len() || !is_low_surrogate_byte(c[p])),
        SyncKind::Dbcs => p == 0 || (p < c.len() && (c[p] == LF || c[p] == CR)),
    }
}

/// The largest sync point at or before `p`, or 0 where there is none.
pub open spec fn sync_point_at(c: Seq<u8>, kind: SyncKind, p: int) -> int
    decreases p,
{
    if p <= 0 {
        0
    } else if is_sync_point(c, kind, p) {
        p
    } else {
        sync_point_at(c, kind, p - 1)
    }
}

/// Whether looking at `offset` needs a byte that is not there.
pub open spec fn reads_past_end(c: Seq<u8>, kind: SyncKind, offset: int) -> bool {
    kind == SyncKind::Utf8 && offset >= c.len()
}

/// The anchors among the first `n` bytes: 0, and every later LF and CR.
pub open spec fn anchors(c: Seq<u8>, n: int) -> Seq<u64>
    decreases n,
{
    if n <= 1 {
        seq![0]
    } else if c[n - 1] == LF || c[n - 1] == CR {
        anchors(c, n - 1).push((n - 1) as u64)
    } else {
        anchors(c, n - 1)
    }
}

proof fn lemma_anchors(c: Seq<u8>, n: int)
    requires
        n <= c.len() || n <= 1,
        n <= u64::MAX,
    ensures
        anchors(c, n).len() >= 1,
        anchors(c, n)[0] == 0,
        forall|i: int|
            0 <= i < anchors(c, n).len() ==> {
                let p = #[trigger] anchors(c, n)[i] as int;
                &&& 0 <= p < (if n <= 1 {
                    1
                } else {
                    n
                })
                &&& is_sync_point(c, SyncKind::Dbcs, p)
            },
        forall|i: int, j: int|
            0 <= i < j < anchors(c, n).len() ==> #[trigger] anchors(c, n)[i] < #[trigger] anchors(
                c,
                n,
            )[j],
    decreases n,
{
    if n > 1 {
        lemma_anchors(c, n - 1);
    }
}

/// Bytes after the last anchor add none.
proof fn lemma_anchors_last(c: Seq<u8>, n: int)
    requires
        n <= c.len() || n <= 1,
        n <= u64::MAX,
    ensures
        anchors(c, n).last() < n || anchors(c, n).last() == 0,
        anchors(c, anchors(c, n).last() + 1) == anchors(c, n),
    decreases n,
{
    if n > 1 {
        lemma_anchors_last(c, n - 1);
    }
}

/// The greatest anchor at or before `p` is the nearest sync point.
proof fn lemma_anchor_is_sync_point(c: Seq<u8>, n: int, k: int, p: int)
    requires
        1 <= n <= u64::MAX,
        n <= c.len() || n <= 1,
        0 <= p,
        p < n || n == c.len() || (n == 1 && c.len() == 0),
        0 < k <= anchors(c, n).len(),
        anchors(c, n)[k - 1] <= p,
        k < anchors(c, n).len() ==> anchors(c, n)[k] > p,
    ensures
        sync_point_at(c, SyncKind::Dbcs, p) == anchors(c, n)[k - 1],
    decreases n + p,
{
    lemma_anchors(c, n);
    if p == 0 {
    } else if p >= n {
        lemma_anchor_is_sync_point(c, n, k, p - 1);
    } else if p < n - 1 {
        let shorter = anchors(c, n - 1);
        if c[n - 1] == LF || c[n - 1] == CR {
            assert(k <= shorter.len()) by {
                if k == anchors(c, n).len() {
                    assert(anchors(c, n)[k - 1] == n - 1);
                }
            }
            assert(shorter[k - 1] == anchors(c, n)[k - 1]);
            if k < shorter.len() {
                assert(shorter[k] == anchors(c, n)[k]);
            }
        }
        lemma_anchor_is_sync_point(c, n - 1, k, p);
    } else {
        // The last of the `n` bytes.
        if c[n - 1] == LF || c[n - 1] == CR {
            let all = anchors(c, n);
            if k < all.len() {
                assert(all[k] <= all[all.len() - 1]);
            }
        } else {
            lemma_anchors(c, n - 1);
            assert(anchors(c, n)[k - 1] < n - 1 || n - 1 <= 1);
            lemma_anchor_is_sync_point(c, n - 1, k, p - 1);
        }
    }
}

/// The offsets of the LF and CR bytes of `c` in `a..b`, in order.
pub open spec fn anchors_in(c: Seq<u8>, a: int, b: int) -> Seq<u64>
    decreases b - a,
{
    if b <= a {
        Seq::empty()
    } else if c[b - 1] == LF || c[b - 1] == CR {
        anchors_in(c, a, b - 1).push((b - 1) as u64)
    } else {
        anchors_in(c, a, b - 1)
    }
}

/// Whether `points` ascend strictly.
pub open spec fn ascends(points: Seq<u64>) -> bool {
    forall|i: int, j: int|
        0 <= i < j < points.len() ==> #[trigger] points[i] < #[trigger] points[j]
}

/// The anchors in a range lie in it, and ascend; they are all LF and CR bytes
/// there.
pub proof fn lemma_anchors_in(c: Seq<u8>, a: int, b: int)
    requires
        0 <= a,
        b <= u64::MAX,
    ensures
        ascends(anchors_in(c, a, b)),
        forall|i: int|
            0 <= i < anchors_in(c, a, b).len() ==> {
                let p = #[trigger] anchors_in(c, a, b)[i] as int;
                a <= p < b && (c[p] == LF || c[p] == CR)
            },
        forall|p: int|
            a <= p < b && (#[trigger] c[p] == LF || c[p] == CR) ==> anchors_in(c, a, b).contains(
                p as u64,
            ),
    decreases b - a,
{
    if b > a {
        lemma_anchors_in(c, a, b - 1);
        let shorter = anchors_in(c, a, b - 1);
        let all = anchors_in(c, a, b);
        assert forall|p: int| a <= p < b && (#[trigger] c[p] == LF || c[p] == CR) implies
            all.contains(p as u64) by {
            if p == b - 1 {
                assert(all[all.len() - 1] == p as u64);
            } else {
                let i = choose|i: int| 0 <= i < shorter.len() && shorter[i] == p as u64;
                assert(all[i] == p as u64);
            }
        }
    }
}

/// Anchors up to a point and those after it are all of them.
proof fn lemma_anchors_extended(c: Seq<u8>, m: int, n: int)
    requires
        1 <= m <= n,
    ensures
        anchors(c, m) + anchors_in(c, m, n) == anchors(c, n),
    decreases n,
{
    if m < n {
        lemma_anchors_extended(c, m, n - 1);
    }
    assert(anchors(c, m) + anchors_in(c, m, n) =~= anchors(c, n));
}

/// How many bytes a scan reads at a time.
const SCAN_CHUNK: u64 = 4096;

/// Where the scan that extends an index starts: one past its last entry, or at
/// the first content byte where it is empty.
pub open spec fn scan_start(sync_points: Seq<u64>, bom_len: u64) -> int {
    if sync_points.len() == 0 {
        bom_len as int
    } else {
        sync_points.last() + 1
    }
}

/// Where a scan of `len` bytes that is to cover `upto` ends.
pub open spec fn scan_end(len: int, upto: u64) -> int {
    if upto < len {
        upto + 1
    } else {
        len
    }
}

/// Extend the sync-point index until it covers `upto`, or all of the branch.
///
/// The scan starts one past the last entry of `sync_points`, or at the first
/// content byte where there is none, and appends the offset of every LF and CR
/// byte.  An index that ascends strictly still does.  A branch is read without
/// failure, so the result is always `Ok`.
pub fn extend_sync_index_to(
    branch: &Branch,
    bom_len: u64,
    sync_points: &mut Vec<u64>,
    upto: u64,
) -> (done: Result<(), IoError>)
    ensures
        done is Ok,
        final(sync_points)@ == old(sync_points)@ + anchors_in(
            branch@,
            scan_start(old(sync_points)@, bom_len),
            scan_end(branch@.len() as int, upto),
        ),
        ascends(old(sync_points)@) ==> ascends(final(sync_points)@),
{
    let ghost c = branch@;
    let ghost before = sync_points@;
    let ghost a = scan_start(before, bom_len);
    let len: u64 = branch.byte_len();
    let end: u64 = if upto < len {
        upto + 1
    } else {
        len
    };
    let start: u64 = if sync_points.len() == 0 {
        bom_len
    } else if sync_points[sync_points.len() - 1] < end {
        sync_points[sync_points.len() - 1] + 1
    } else {
        end
    };
    proof {
        lemma_anchors_in(c, a, end as int);
    }
    if start >= end {
        assert(before + anchors_in(c, a, end as int) =~= before);
        return Ok(());
    }
    let mut pos: u64 = start;
    assert(before + anchors_in(c, a, a) =~= before);
    while pos < end
        invariant
            c == branch@,
            len == c.len(),
            len <= isize::MAX,
            end <= len,
            a <= pos <= end,
            sync_points@ == before + anchors_in(c, a, pos as int),
        decreases end - pos,
    {
        let want: u64 = if end - pos < SCAN_CHUNK {
            end - pos
        } else {
            SCAN_CHUNK
        };
        let chunk = branch.read_at(pos, want as usize);
        let mut i: usize = 0;
        while i < chunk.len()
            invariant
                c == branch@,
                len == c.len(),
                len <= isize::MAX,
                a <= pos,
                pos + chunk@.len() <= end <= len,
                chunk@ == c.subrange(pos as int, pos + chunk@.len()),
                i <= chunk@.len(),
                sync_points@ == before + anchors_in(c, a, pos + i),
            decreases chunk@.len() - i,
        {
            let byte: u8 = chunk[i];
            assert(byte == c[pos + i]);
            if byte == LF || byte == CR {
                sync_points.push(pos + i as u64);
            }
            assert(sync_points@ =~= before + anchors_in(c, a, pos + i + 1));
            i = i + 1;
        }
        pos = pos + chunk.len() as u64;
    }
    proof {
        if ascends(before) {
            let more = anchors_in(c, a, end as int);
            let all = before + more;
            assert forall|i: int, j: int| 0 <= i < j < all.len() implies #[trigger] all[i]
                < #[trigger] all[j] by {
                if j >= before.len() {
                    assert(all[j] == more[j - before.len()]);
                    if i < before.len() {
                        if i < before.len() - 1 {
                            assert(before[i] < before[before.len() - 1]);
                        }
                    } else {
                        assert(all[i] == more[i - before.len()]);
                    }
                }
            }
        }
    }
    Ok(())
}

/// Walk backward from `offset` until landing on a byte that is no continuation
/// byte, or on byte 0.
fn nearest_utf8_sync(branch: &Branch, offset: u64) -> (point: Result<u64, CharsError>)
    ensures
        if offset < branch@.len() {
            point == Ok::<u64, CharsError>(
                sync_point_at(branch@, SyncKind::Utf8, offset as int) as u64,
            ) && 0 <= sync_point_at(branch@, SyncKind::Utf8, offset as int) <= offset
        } else {
            point == Err::<u64, CharsError>(CharsError::Io(IoError::OutOfBounds))
        },
{
    let ghost c = branch@;
    let mut pos: u64 = offset;
    loop
        invariant
            c == branch@,
            pos <= offset,
            offset >= c.len() ==> pos == offset,
            sync_point_at(c, SyncKind::Utf8, pos as int) == sync_point_at(
                c,
                SyncKind::Utf8,
                offset as int,
            ),
        decreases pos,
    {
        match branch.read_byte(pos) {
            Ok(byte) => {
                if is_utf8_boundary_byte(byte) || pos == 0 {
                    return Ok(pos);
                }
                pos = pos - 1;
            },
            Err(e) => {
                return Err(CharsError::from(e));
            },
        }
    }
}

/// Walk backward from `offset` to the start of the UTF-16 character that
/// contains it; the most significant byte of a code unit comes first if
/// `big_endian` is set.
fn nearest_utf16_sync(branch: &Branch, offset: u64, big_endian: bool) -> (point: Result<
    u64,
    CharsError,
>)
    ensures
        ({
            let kind = if big_endian {
                SyncKind::Utf16Be
            } else {
                SyncKind::Utf16Le
            };
            &&& 0 <= sync_point_at(branch@, kind, offset as int) <= offset
            &&& point == Ok::<u64, CharsError>(
                sync_point_at(branch@, kind, offset as int) as u64,
            )
        }),
{
    let ghost c = branch@;
    let ghost kind = if big_endian {
        SyncKind::Utf16Be
    } else {
        SyncKind::Utf16Le
    };
    let mut pos: u64 = if offset % 2 == 0 {
        offset
    } else {
        offset - 1
    };
    loop
        invariant
            c == branch@,
            kind == (if big_endian {
                SyncKind::Utf16Be
            } else {
                SyncKind::Utf16Le
            }),
            pos <= offset,
            pos % 2 == 0,
            sync_point_at(c, kind, pos as int) == sync_point_at(c, kind, offset as int),
        decreases pos,
    {
        let high_byte_at: u64 = if big_endian {
            pos
        } else {
            pos + 1
        };
        match branch.read_byte(high_byte_at) {
            Ok(byte) => {
                let boundary: bool = if big_endian {
                    is_utf16be_boundary(pos, byte)
                } else {
                    is_utf16le_boundary(pos, byte)
                };
                if boundary || pos < 2 {
                    return Ok(pos);
                }
            },
            Err(_) => {
                return Ok(pos);
            },
        }
        proof {
            assert(sync_point_at(c, kind, pos as int) == sync_point_at(c, kind, pos - 1));
            assert(!is_sync_point(c, kind, pos - 1));
        }
        pos = pos - 2;
    }
}

/// Encoding-only view of a byte-stream branch.
///
/// For self-synchronising encodings (UTF-8, UTF-16) character boundaries are
/// told from the bytes around an offset.  For other multi-byte encodings a
/// lazy, sorted index of the LF and CR bytes, which are never trail bytes, is
/// built on demand.
///
/// Byte offset 0 is always a sync point.  The bytes of a byte-order mark that
/// is skipped are never part of the decoded characters.
pub struct Chars {
    source: Source,
    sync_kind: SyncKind,
    sync_points: Vec<u64>,
}

impl Chars {
    /// The branch that is decoded.
    pub closed spec fn source_branch(&self) -> Branch {
        self.source.source_branch()
    }

    /// The encoding of the source.
    pub closed spec fn source_encoding(&self) -> Encoding {
        self.source.source_encoding()
    }

    /// The dominant line ending of the source.
    pub closed spec fn source_line_ending(&self) -> LineEnding {
        self.source.source_line_ending()
    }

    /// The number of byte-order mark bytes.
    pub closed spec fn source_bom_len(&self) -> int {
        self.source.source_bom_len()
    }

    /// The index holds the first anchors of the branch.
    pub closed spec fn wf(&self) -> bool {
        &&& self.source.wf()
        &&& self.source_branch()@.len() <= isize::MAX
        &&& self.sync_kind == sync_kind_of(self.source_encoding())
        &&& self.sync_points@.len() > 0
        &&& self.sync_points@.last() < self.source_branch()@.len() || self.sync_points@.last() == 0
        &&& self.sync_points@ == anchors(self.source_branch()@, self.sync_points@.last() + 1)
    }

    /// Everything but the index.
    pub open spec fn same_source(&self, other: &Chars) -> bool {
        &&& self.source_branch() == other.source_branch()
        &&& self.source_encoding() == other.source_encoding()
        &&& self.source_line_ending() == other.source_line_ending()
        &&& self.source_bom_len() == other.source_bom_len()
    }

    /// Create a `Chars` from a fully-resolved `Source`.
    pub(crate) fn from_source(source: Source) -> (chars: Self)
        requires
            source.wf(),
        ensures
            chars.wf(),
            chars.source_branch() == source.source_branch(),
            chars.source_encoding() == source.source_encoding(),
            chars.source_line_ending() == source.source_line_ending(),
            chars.source_bom_len() == source.source_bom_len(),
    {
        let kind: SyncKind = sync_kind(source.encoding());
        let branch_len: u64 = source.branch().byte_len();
        let mut sync_points: Vec<u64> = Vec::new();
        sync_points.push(0);
        assert(sync_points@ =~= seq![0u64]);
        Chars { source, sync_kind: kind, sync_points }
    }

    /// The underlying byte-stream branch.
    pub fn branch(&self) -> (branch: Branch)
        ensures
            branch == self.source_branch(),
    {
        self.source.branch()
    }

    /// The WHATWG encoding for this source.
    pub fn encoding(&self) -> (encoding: Encoding)
        ensures
            encoding == self.source_encoding(),
    {
        self.source.encoding()
    }

    /// The dominant line-ending convention detected during source probing.
    pub fn line_ending(&self) -> (line_ending: LineEnding)
        ensures
            line_ending == self.source_line_ending(),
    {
        self.source.line_ending()
    }

    /// The number of BOM bytes at the start of the branch to skip.  The first
    /// decoded character begins at this byte offset.
    pub fn bom_len(&self) -> (bom_len: usize)
        ensures
            bom_len == self.source_bom_len(),
    {
        self.source.bom_len()
    }

    /// Return the largest byte offset at or before `offset` that is a
    /// character boundary in the branch's encoding, or 0 where there is none.
    ///
    /// # Errors
    ///
    /// [`CharsError::Io`] in UTF-8 for an offset at or past the end of the
    /// branch.
    pub fn nearest_sync_point(&mut self, offset: u64) -> (point: Result<u64, CharsError>)
        requires
            old(self).wf(),
        ensures
            final(self).wf(),
            final(self).same_source(old(self)),
            ({
                let c = old(self).source_branch()@;
                let kind = sync_kind_of(old(self).source_encoding());
                if reads_past_end(c, kind, offset as int) {
                    point == Err::<u64, CharsError>(CharsError::Io(IoError::OutOfBounds))
                } else {
                    &&& 0 <= sync_point_at(c, kind, offset as int) <= offset
                    &&& point == Ok::<u64, CharsError>(
                        sync_point_at(c, kind, offset as int) as u64,
                    )
                }
            }),
    {
        match self.sync_kind {
            SyncKind::SingleByte => Ok(offset),
            SyncKind::Utf8 => nearest_utf8_sync(&self.branch(), offset),
            SyncKind::Utf16Le => nearest_utf16_sync(&self.branch(), offset, false),
            SyncKind::Utf16Be => nearest_utf16_sync(&self.branch(), offset, true),
            SyncKind::Dbcs => Ok(self.nearest_anchor(offset)),
        }
    }

    /// The greatest anchor at or before `offset`, by the lazy index.
    fn nearest_anchor(&mut self, offset: u64) -> (point: u64)
        requires
            old(self).wf(),
        ensures
            final(self).wf(),
            final(self).same_source(old(self)),
            point == sync_point_at(old(self).source_branch()@, SyncKind::Dbcs, offset as int),
            point <= offset,
    {
        let branch = self.source.branch();
        let len: u64 = branch.byte_len();
        let ghost c = branch@;
        let ghost first = self.sync_points@.last() + 1;
        let bom_len: u64 = self.source.bom_len() as u64;
        let _done = extend_sync_index_to(&branch, bom_len, &mut self.sync_points, offset);
        let ghost end = scan_end(c.len() as int, offset);
        let ghost n = if end <= first {
            first
        } else {
            end
        };
        let ghost e = self.sync_points@;
        proof {
            if end <= first {
                assert(e =~= anchors(c, first));
            } else {
                lemma_anchors_extended(c, first, end);
            }
            lemma_anchors(c, n);
            lemma_anchors_last(c, n);
        }
        let mut lo: usize = 1;
        let mut hi: usize = self.sync_points.len();
        while lo < hi
            invariant
                e == self.sync_points@,
                e == anchors(c, n),
                forall|i: int, j: int| 0 <= i < j < e.len() ==> #[trigger] e[i] < #[trigger] e[j],
                1 <= lo <= hi <= e.len(),
                e[lo - 1] <= offset,
                hi < e.len() ==> e[hi as int] > offset,
            decreases hi - lo,
        {
            let mid: usize = lo + (hi - lo) / 2;
            if self.sync_points[mid] <= offset {
                lo = mid + 1;
            } else {
                hi = mid;
            }
        }
        proof {
            lemma_anchor_is_sync_point(c, n, lo as int, offset as int);
        }
        self.sync_points[lo - 1]
    }

    /// Whether `offset` is the start byte of a character in the branch's
    /// encoding.
    ///
    /// For encodings that are not self-synchronising only the first byte and
    /// those of LF and CR are recognised.
    ///
    /// # Errors
    ///
    /// [`CharsError::Io`] in UTF-8 for an offset at or past the end of the
    /// branch.
    pub fn is_boundary(&mut self, offset: u64) -> (boundary: Result<bool, CharsError>)
        requires
            old(self).wf(),
        ensures
            final(self).wf(),
            final(self).same_source(old(self)),
            ({
                let c = old(self).source_branch()@;
                let kind = sync_kind_of(old(self).source_encoding());
                if reads_past_end(c, kind, offset as int) {
                    boundary == Err::<bool, CharsError>(CharsError::Io(IoError::OutOfBounds))
                } else {
                    boundary == Ok::<bool, CharsError>(is_sync_point(c, kind, offset as int))
                }
            }),
    {
        let ghost c = self.source_branch()@;
        match self.sync_kind {
            SyncKind::SingleByte => Ok(true),
            SyncKind::Utf8 => match self.branch().read_byte(offset) {
                Ok(byte) => Ok(is_utf8_boundary_byte(byte)),
                Err(e) => Err(CharsError::from(e)),
            },
            SyncKind::Utf16Le => {
                if offset % 2 != 0 {
                    return Ok(false);
                }
                match self.branch().read_byte(offset + 1) {
                    Ok(high_byte) => Ok(is_utf16le_boundary(offset, high_byte)),
                    Err(_) => Ok(true),
                }
            },
            SyncKind::Utf16Be => {
                if offset % 2 != 0 {
                    return Ok(false);
                }
                match self.branch().read_byte(offset) {
                    Ok(first_byte) => Ok(is_utf16be_boundary(offset, first_byte)),
                    Err(_) => Ok(true),
                }
            },
            SyncKind::Dbcs => {
                proof {
                    lemma_sync_point_below(c, SyncKind::Dbcs, offset - 1);
                }
                Ok(self.nearest_anchor(offset) == offset)
            },
        }
    }
}

proof fn lemma_sync_point_below(c: Seq<u8>, kind: SyncKind, p: int)
    ensures
        p >= 0 ==> 0 <= sync_point_at(c, kind, p) <= p,
    decreases p,
{
    if p > 0 {
        lemma_sync_point_below(c, kind, p - 1);
    }
}

/// The nearest sync point lies at or before the offset and is one, or is 0;
/// none lies between it and the offset, and it is its own nearest one.
pub proof fn lemma_sync_point_is_nearest(c: Seq<u8>, kind: SyncKind, p: int)
    requires
        0 <= p,
    ensures
        ({
            let q = sync_point_at(c, kind, p);
            &&& 0 <= q <= p
            &&& q > 0 ==> is_sync_point(c, kind, q)
            &&& forall|r: int| q < r <= p ==> !#[trigger] is_sync_point(c, kind, r)
            &&& sync_point_at(c, kind, q) == q
        }),
    decreases p,
{
    if p > 0 && !is_sync_point(c, kind, p) {
        lemma_sync_point_is_nearest(c, kind, p - 1);
    }
}

/// After the first offset, the boundaries are the offsets that are their own
/// nearest sync points.
pub proof fn lemma_boundaries_are_sync_points(c: Seq<u8>, kind: SyncKind, p: int)
    requires
        0 < p,
    ensures
        is_sync_point(c, kind, p) <==> sync_point_at(c, kind, p) == p,
{
    lemma_sync_point_below(c, kind, p - 1);
}

/// In well-formed UTF-8 the boundaries are those of the characters.
pub proof fn lemma_utf8_boundaries(c: Seq<u8>, p: int)
    requires
        vstd::utf8::valid_utf8(c),
        0 <= p < c.len(),
    ensures
        is_sync_point(c, SyncKind::Utf8, p) <==> vstd::utf8::is_char_boundary(c, p),
{
    vstd::utf8::is_char_boundary_iff_not_is_continuation_byte(c, p);
}

/// In well-formed UTF-8, the characters from a boundary on are the rest of the
/// characters: those before it and those after it make up all of them.
pub proof fn lemma_chars_from_boundary(c: Seq<u8>, p: int)
    requires
        vstd::utf8::valid_utf8(c),
        0 <= p < c.len(),
        is_sync_point(c, SyncKind::Utf8, p),
    ensures
        codec::decodes_as_utf8(Encoding::Utf8, bytes_from(c, p)),
        vstd::utf8::decode_utf8(c) == vstd::utf8::decode_utf8(c.take(p))
            + vstd::utf8::decode_utf8(bytes_from(c, p)),
{
    lemma_utf8_boundaries(c, p);
    vstd::utf8::valid_utf8_split(c, p);
    vstd::utf8::decode_utf8_split(c, p);
    assert(c.take(p) =~= c.subrange(0, p));
    assert(bytes_from(c, p) =~= c.subrange(p, c.len() as int));
}

impl Encoded for Chars {
    open spec fn encoded_branch(&self) -> Branch {
        self.source_branch()
    }

    open spec fn encoded_as(&self) -> Encoding {
        self.source_encoding()
    }

    open spec fn encoded_line_ending(&self) -> LineEnding {
        self.source_line_ending()
    }

    fn branch(&self) -> (branch: Branch) {
        self.source.branch()
    }

    fn encoding(&self) -> (encoding: Encoding) {
        self.source.encoding()
    }

    fn line_ending(&self) -> (line_ending: LineEnding) {
        self.source.line_ending()
    }
}

/// How many bytes are decoded at a time.
const DECODE_CHUNK: usize = 4096;

/// The bytes of `c` from `offset` on; none past its end.
pub open spec fn bytes_from(c: Seq<u8>, offset: int) -> Seq<u8> {
    if offset <= c.len() {
        c.skip(offset)
    } else {
        Seq::empty()
    }
}

/// Where decoding starts that is to start at `offset`: not before the content,
/// which a byte-order mark of `bom_len` bytes precedes.
pub open spec fn content_offset(offset: u64, bom_len: int) -> int {
    if offset < bom_len {
        bom_len
    } else {
        offset as int
    }
}

fn chars_of(text: &str) -> (chars: Vec<char>)
    ensures
        chars@ == text@,
{
    let mut chars: Vec<char> = Vec::new();
    for c in it: text.chars()
        invariant
            chars@ == it.seq().take(it.index() as int),
            it.seq() == text@,
    {
        chars.push(c);
    }
    chars
}

/// Character reader produced by [`Chars::chars_from`].
///
/// Reads the branch in chunks and feeds them through a streaming decoder.
pub struct CharsIter {
    branch: Branch,
    decoder: encoding_rs::Decoder,
    /// How far the branch has been read.
    pos: u64,
    /// The characters that came out of the decoder last.
    pending: Vec<char>,
    /// How many of them have been yielded.
    pending_pos: usize,
    /// Whether the decoder has been told that its input has ended.
    eof_fed: bool,
}

impl CharsIter {
    spec fn encoding_name(&self) -> Seq<char> {
        codec::decoder_state(&self.decoder).0
    }

    spec fn fed(&self) -> Seq<u8> {
        codec::decoder_state(&self.decoder).1
    }

    /// All that the decoder puts out from first to last.
    spec fn whole(&self) -> Seq<char> {
        codec::decoder_output(
            self.encoding_name(),
            self.fed() + bytes_from(self.branch@, self.pos as int),
            true,
        )
    }

    /// What the decoder has put out.
    spec fn emitted(&self) -> Seq<char> {
        codec::decoder_output(self.encoding_name(), self.fed(), self.eof_fed)
    }

    /// The characters still to come.
    pub closed spec fn remaining(&self) -> Seq<char> {
        self.pending@.skip(self.pending_pos as int) + self.whole().skip(self.emitted().len() as int)
    }

    /// What the decoder has put out is the start of what it will.
    pub closed spec fn wf(&self) -> bool {
        &&& self.branch@.len() <= isize::MAX
        &&& self.pending_pos <= self.pending@.len()
        &&& codec::decoder_state(&self.decoder).2 == self.eof_fed
        &&& self.emitted().is_prefix_of(self.whole())
        &&& self.eof_fed ==> bytes_from(self.branch@, self.pos as int).len() == 0
    }

    /// Decode the next chunk.
    fn refill(&mut self)
        requires
            old(self).wf(),
            !old(self).eof_fed,
            old(self).pending_pos == old(self).pending@.len(),
        ensures
            final(self).wf(),
            final(self).remaining() == old(self).remaining(),
            final(self).branch == old(self).branch,
            final(self).pending_pos == 0,
            !final(self).eof_fed ==> old(self).pos < final(self).pos <= final(self).branch@.len(),
    {
        let ghost c = self.branch@;
        let ghost rest = bytes_from(c, self.pos as int);
        let ghost whole = self.whole();
        let ghost emitted = self.emitted();
        let chunk = self.branch.read_at(self.pos, DECODE_CHUNK);
        let last: bool = chunk.len() == 0;
        let ghost fed = self.fed();
        let text = decode_chunk(&mut self.decoder, chunk.as_slice(), last);
        self.pending = chars_of(text.as_str());
        self.pending_pos = 0;
        self.eof_fed = last;
        if !last {
            self.pos = self.pos + chunk.len() as u64;
        }
        proof {
            let left = bytes_from(c, self.pos as int);
            assert(self.fed() + left =~= fed + rest);
            assert(self.emitted() == emitted + text@);
            if last {
                assert(left =~= Seq::<u8>::empty());
                assert(self.fed() + left =~= self.fed());
            }
            assert(self.emitted().is_prefix_of(whole));
            assert(self.whole() == whole);
            assert(self.pending@.skip(0) =~= text@);
            assert forall|i: int| 0 <= i < text@.len() implies whole[emitted.len() + i]
                == text@[i] by {
                assert(self.emitted()[emitted.len() + i] == text@[i]);
            }
            assert(self.remaining() =~= whole.skip(emitted.len() as int));
            assert(old(self).remaining() =~= whole.skip(emitted.len() as int));
        }
    }

    /// The next character; `None` at the end.
    pub fn next(&mut self) -> (c: Option<char>)
        requires
            old(self).wf(),
        ensures
            final(self).wf(),
            match c {
                Some(ch) => {
                    &&& old(self).remaining().len() > 0
                    &&& ch == old(self).remaining()[0]
                    &&& final(self).remaining() == old(self).remaining().skip(1)
                },
                None => old(self).remaining().len() == 0 && final(self).remaining().len() == 0,
            },
    {
        loop
            invariant
                self.wf(),
                self.remaining() == old(self).remaining(),
                self.branch == old(self).branch,
            decreases
                    (if self.eof_fed {
                        0
                    } else if self.pos >= self.branch@.len() {
                        1
                    } else {
                        1 + self.branch@.len() - self.pos
                    }),
        {
            if self.pending_pos < self.pending.len() {
                let ch: char = self.pending[self.pending_pos];
                self.pending_pos = self.pending_pos + 1;
                assert(self.remaining() =~= old(self).remaining().skip(1));
                return Some(ch);
            }
            if self.eof_fed {
                proof {
                    let left = bytes_from(self.branch@, self.pos as int);
                    assert(self.fed() + left =~= self.fed());
                    assert(self.remaining() =~= Seq::<char>::empty());
                }
                return None;
            }
            self.refill();
        }
    }
}

impl Chars {
    /// Return a reader of the decoded characters in the branch starting at
    /// `offset`, or after the byte-order mark where `offset` lies in it.
    ///
    /// `offset` should be a character boundary, such as
    /// [`Chars::nearest_sync_point`] returns; another one produces garbled
    /// output.  An offset past the end of the branch produces nothing.
    pub fn chars_from(&self, offset: u64) -> (iter: CharsIter)
        requires
            self.wf(),
        ensures
            iter.wf(),
            ({
                let content = bytes_from(
                    self.source_branch()@,
                    content_offset(offset, self.source_bom_len()),
                );
                &&& iter.remaining() == codec::decoder_output(
                    codec::encoding_name(self.source_encoding()),
                    content,
                    true,
                )
                &&& content.len() == 0 ==> iter.remaining().len() == 0
                &&& codec::decodes_as_utf8(self.source_encoding(), content) ==> iter.remaining()
                    == vstd::utf8::decode_utf8(content)
            }),
            self.source_bom_len() <= offset <= self.source_branch()@.len() ==> iter.remaining()
                == codec::decoder_output(
                codec::encoding_name(self.source_encoding()),
                self.source_branch()@.skip(offset as int),
                true,
            ),
    {
        let bom_len: u64 = self.bom_len() as u64;
        let start: u64 = if offset < bom_len {
            bom_len
        } else {
            offset
        };
        let iter = CharsIter {
            branch: self.branch(),
            decoder: start_decoder(self.encoding()),
            pos: start,
            pending: Vec::new(),
            pending_pos: 0,
            eof_fed: false,
        };
        proof {
            let rest = bytes_from(iter.branch@, start as int);
            assert(iter.fed() + rest =~= rest);
            assert(iter.emitted() =~= Seq::<char>::empty());
            assert(iter.remaining() =~= iter.whole());
            if rest.len() == 0 {
                assert(rest =~= Seq::<u8>::empty());
            }
        }
        iter
    }
}

} // verus!
