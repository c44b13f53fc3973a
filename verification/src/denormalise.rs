//! `DenormaliseWriter`: re-inserts original line terminators into normalised
//! (LF-only) text.
//!
//! Let **M** be the number of original terminators and **N** the number of
//! `\n` bytes in the text.  The first `\n` bytes are replaced by the original
//! terminators, in order.  If M < N, the remaining `\n` bytes stay as they
//! are.  If M > N, the remaining terminators are written by
//! [`DenormaliseWriter::finish`].

use vstd::prelude::*;
use vstd::slice::slice_subrange;

use crate::buffer;
use crate::encoding::LineEnding;
use crate::error::IoError;
use crate::text::{CR, LF};

verus! {

/// Where bytes are written to.
pub trait ByteSink: Sized {
    /// How a write fails.
    type Error;

    /// The bytes written so far.
    open spec fn written(&self) -> Seq<u8> {
        arbitrary()
    }

    /// The bytes that have been handed on: those written, but for what is still
    /// held back.
    open spec fn delivered(&self) -> Seq<u8> {
        arbitrary()
    }

    /// Whether no write fails.
    open spec fn reliable(&self) -> bool {
        arbitrary()
    }

    /// Write all of `bytes`; on failure, a part of them may have been written.
    fn write_all(&mut self, bytes: &[u8]) -> (done: Result<(), Self::Error>)
        ensures
            final(self).reliable() == old(self).reliable(),
            old(self).reliable() ==> done is Ok,
            match done {
                Ok(_) => final(self).written() == old(self).written() + bytes@,
                Err(_) => old(self).written().is_prefix_of(final(self).written())
                    && final(self).written().is_prefix_of(old(self).written() + bytes@),
            },
    ;

    /// Hand on what may still be held back; on failure, a part of it may have
    /// been handed on.
    fn flush(&mut self) -> (done: Result<(), Self::Error>)
        ensures
            final(self).reliable() == old(self).reliable(),
            old(self).reliable() ==> done is Ok,
            final(self).written() == old(self).written(),
            match done {
                Ok(_) => final(self).delivered() == old(self).written(),
                Err(_) => old(self).delivered().is_prefix_of(final(self).delivered()),
            },
    ;
}

impl ByteSink for Vec<u8> {
    type Error = IoError;

    open spec fn written(&self) -> Seq<u8> {
        self@
    }

    open spec fn delivered(&self) -> Seq<u8> {
        self@
    }

    open spec fn reliable(&self) -> bool {
        true
    }

    fn write_all(&mut self, bytes: &[u8]) -> (done: Result<(), IoError>) {
        let ghost before = self@;
        self.extend_from_slice(bytes);
        assert(self@ =~= before + bytes@);
        Ok(())
    }

    fn flush(&mut self) -> (done: Result<(), IoError>) {
        Ok(())
    }
}

/// Where original line terminators come from: some that are listed, then one
/// and the same for ever, or none.
pub trait TerminatorSource: Sized {
    /// The listed terminators still to come.
    open spec fn upcoming(&self) -> Seq<LineEnding> {
        arbitrary()
    }

    /// What comes once those are exhausted.
    open spec fn afterwards(&self) -> Option<LineEnding> {
        arbitrary()
    }

    /// The next terminator.
    fn next_terminator(&mut self) -> (ending: Option<LineEnding>)
        ensures
            final(self).afterwards() == old(self).afterwards(),
            old(self).upcoming().len() > 0 ==> ending == Some(old(self).upcoming()[0])
                && final(self).upcoming() == old(self).upcoming().skip(1),
            old(self).upcoming().len() == 0 ==> ending == old(self).afterwards()
                && final(self).upcoming() == old(self).upcoming(),
    ;
}

/// A given list of terminators.
pub struct TerminatorList {
    endings: Vec<LineEnding>,
    next: usize,
}

impl TerminatorList {
    /// The terminators of `endings`, in order.
    pub fn new(endings: Vec<LineEnding>) -> (list: Self)
        ensures
            list.upcoming() == endings@,
            list.afterwards() is None,
    {
        let list = TerminatorList { endings, next: 0 };
        assert(list.upcoming() =~= endings@);
        list
    }
}

impl TerminatorSource for TerminatorList {
    closed spec fn upcoming(&self) -> Seq<LineEnding> {
        if self.next <= self.endings@.len() {
            self.endings@.skip(self.next as int)
        } else {
            Seq::empty()
        }
    }

    open spec fn afterwards(&self) -> Option<LineEnding> {
        None
    }

    fn next_terminator(&mut self) -> (ending: Option<LineEnding>) {
        if self.next < self.endings.len() {
            let ending: LineEnding = self.endings[self.next];
            let ghost before = self.upcoming();
            self.next = self.next + 1;
            assert(self.upcoming() =~= before.skip(1));
            Some(ending)
        } else {
            None
        }
    }
}

/// One terminator for every line.
pub struct RepeatTerminator {
    ending: LineEnding,
}

impl RepeatTerminator {
    /// `ending` for every line.
    pub fn new(ending: LineEnding) -> (source: Self)
        ensures
            source.upcoming().len() == 0,
            source.afterwards() == Some(ending),
    {
        RepeatTerminator { ending }
    }
}

impl TerminatorSource for RepeatTerminator {
    open spec fn upcoming(&self) -> Seq<LineEnding> {
        Seq::empty()
    }

    closed spec fn afterwards(&self) -> Option<LineEnding> {
        Some(self.ending)
    }

    fn next_terminator(&mut self) -> (ending: Option<LineEnding>) {
        Some(self.ending)
    }
}

/// How many of the first `n` bytes of `b` are `\n`.
pub open spec fn newlines(b: Seq<u8>, n: int) -> nat
    decreases n,
{
    if n <= 0 {
        0
    } else if b[n - 1] == LF {
        newlines(b, n - 1) + 1
    } else {
        newlines(b, n - 1)
    }
}

/// What the `k`-th `\n` is replaced by.
pub open spec fn terminator_for(
    listed: Seq<LineEnding>,
    afterwards: Option<LineEnding>,
    k: int,
) -> LineEnding {
    if k < listed.len() {
        listed[k]
    } else {
        match afterwards {
            Some(ending) => ending,
            None => LineEnding::Lf,
        }
    }
}

/// The first `n` bytes of `b` with every `\n` replaced by the terminator that
/// is its due.
pub open spec fn reterminated(
    b: Seq<u8>,
    n: int,
    listed: Seq<LineEnding>,
    afterwards: Option<LineEnding>,
) -> Seq<u8>
    decreases n,
{
    if n <= 0 {
        Seq::empty()
    } else if b[n - 1] == LF {
        reterminated(b, n - 1, listed, afterwards) + buffer::ending_bytes(
            terminator_for(listed, afterwards, newlines(b, n - 1) as int),
        )
    } else {
        reterminated(b, n - 1, listed, afterwards).push(b[n - 1])
    }
}

/// `listed` without its first `k`, or without any where there are fewer.
pub open spec fn without_first(listed: Seq<LineEnding>, k: int) -> Seq<LineEnding> {
    if k <= listed.len() {
        listed.skip(k)
    } else {
        Seq::empty()
    }
}

/// Whether writing `b` has stopped in the piece `i..e` of it: one byte, or bytes
/// without a `\n`.  All before the piece has been written, and of the piece a
/// part at most; the terminators up to its end have been drawn.
pub open spec fn stopped_in(
    b: Seq<u8>,
    i: int,
    e: int,
    listed: Seq<LineEnding>,
    afterwards: Option<LineEnding>,
    before: Seq<u8>,
    written: Seq<u8>,
    upcoming: Seq<LineEnding>,
) -> bool {
    &&& 0 <= i < e <= b.len()
    &&& e == i + 1 || newlines(b, e) == newlines(b, i)
    &&& (before + reterminated(b, i, listed, afterwards)).is_prefix_of(written)
    &&& written.is_prefix_of(before + reterminated(b, e, listed, afterwards))
    &&& upcoming == without_first(listed, newlines(b, e) as int)
}

/// The bytes of all of `endings`.
pub open spec fn all_ending_bytes(endings: Seq<LineEnding>) -> Seq<u8>
    decreases endings.len(),
{
    if endings.len() == 0 {
        Seq::empty()
    } else {
        buffer::ending_bytes(endings[0]) + all_ending_bytes(endings.skip(1))
    }
}

/// Write the byte sequence that represents `le` to `w`.
pub fn write_line_ending<W: ByteSink>(w: &mut W, le: LineEnding) -> (done: Result<(), W::Error>)
    ensures
        final(w).reliable() == old(w).reliable(),
        old(w).reliable() ==> done is Ok,
        match done {
            Ok(_) => final(w).written() == old(w).written() + buffer::ending_bytes(le),
            Err(_) => old(w).written().is_prefix_of(final(w).written())
                && final(w).written().is_prefix_of(old(w).written() + buffer::ending_bytes(le)),
        },
{
    match le {
        LineEnding::Lf => w.write_all(vec![LF].as_slice()),
        LineEnding::CrLf => w.write_all(vec![CR, LF].as_slice()),
        LineEnding::Cr => w.write_all(vec![CR].as_slice()),
    }
}

/// A longer text has a longer result that starts alike.
proof fn lemma_reterminated_grows(
    b: Seq<u8>,
    m: int,
    n: int,
    listed: Seq<LineEnding>,
    afterwards: Option<LineEnding>,
)
    requires
        0 <= m <= n,
    ensures
        reterminated(b, m, listed, afterwards).is_prefix_of(
            reterminated(b, n, listed, afterwards),
        ),
        newlines(b, m) <= newlines(b, n),
    decreases n,
{
    if m < n {
        lemma_reterminated_grows(b, m, n - 1, listed, afterwards);
    }
}

/// Bytes without a `\n` stay as they are.
proof fn lemma_reterminated_plain(
    b: Seq<u8>,
    m: int,
    n: int,
    listed: Seq<LineEnding>,
    afterwards: Option<LineEnding>,
)
    requires
        0 <= m <= n <= b.len(),
        forall|i: int| m <= i < n ==> b[i] != LF,
    ensures
        reterminated(b, n, listed, afterwards) == reterminated(b, m, listed, afterwards)
            + b.subrange(m, n),
        newlines(b, n) == newlines(b, m),
    decreases n - m,
{
    if m < n {
        lemma_reterminated_plain(b, m, n - 1, listed, afterwards);
        assert(b.subrange(m, n) =~= b.subrange(m, n - 1).push(b[n - 1]));
    }
    assert(reterminated(b, n, listed, afterwards) =~= reterminated(b, m, listed, afterwards)
        + b.subrange(m, n));
}

/// A writer that re-inserts original line terminators into normalised
/// (LF-only) text.
///
/// Each `\n` byte is substituted with the next terminator; if there is none,
/// the `\n` is written verbatim.  Other bytes are passed through unchanged.
/// After all bytes have been written, call [`DenormaliseWriter::finish`] to
/// emit any surplus terminators.
pub struct DenormaliseWriter<W: ByteSink, I: TerminatorSource> {
    inner: W,
    terminators: I,
}

impl<W: ByteSink, I: TerminatorSource> DenormaliseWriter<W, I> {
    /// What has been written.
    pub closed spec fn written(&self) -> Seq<u8> {
        self.inner.written()
    }

    /// What the underlying sink has handed on.
    pub closed spec fn delivered(&self) -> Seq<u8> {
        self.inner.delivered()
    }

    /// Whether no write fails.
    pub closed spec fn reliable(&self) -> bool {
        self.inner.reliable()
    }

    /// The listed terminators still to come.
    pub closed spec fn upcoming(&self) -> Seq<LineEnding> {
        self.terminators.upcoming()
    }

    /// What comes once those are exhausted.
    pub closed spec fn afterwards(&self) -> Option<LineEnding> {
        self.terminators.afterwards()
    }

    /// Create a `DenormaliseWriter` wrapping `inner` and drawing original
    /// terminators from `terminators`.
    pub fn new(inner: W, terminators: I) -> (writer: Self)
        ensures
            writer.written() == inner.written(),
            writer.delivered() == inner.delivered(),
            writer.reliable() == inner.reliable(),
            writer.upcoming() == terminators.upcoming(),
            writer.afterwards() == terminators.afterwards(),
    {
        DenormaliseWriter { inner, terminators }
    }

    /// Write `buf` to the underlying sink, substituting each `\n` byte with
    /// the next terminator.
    ///
    /// Returns the number of bytes consumed from `buf`: all of them, unless
    /// the sink fails.  It then has got no more than `buf` came to, and no
    /// terminator has been drawn whose `\n` it was not to get next.
    pub fn write(&mut self, buf: &[u8]) -> (count: Result<usize, W::Error>)
        ensures
            final(self).reliable() == old(self).reliable(),
            final(self).afterwards() == old(self).afterwards(),
            old(self).reliable() ==> count is Ok,
            ({
                let out = reterminated(
                    buf@,
                    buf@.len() as int,
                    old(self).upcoming(),
                    old(self).afterwards(),
                );
                match count {
                    Ok(n) => {
                        &&& n == buf@.len()
                        &&& final(self).written() == old(self).written() + out
                        &&& final(self).upcoming() == without_first(
                            old(self).upcoming(),
                            newlines(buf@, buf@.len() as int) as int,
                        )
                    },
                    Err(_) => {
                        &&& old(self).written().is_prefix_of(final(self).written())
                        &&& final(self).written().is_prefix_of(old(self).written() + out)
                        &&& exists|i: int, e: int| #[trigger]
                            stopped_in(
                                buf@,
                                i,
                                e,
                                old(self).upcoming(),
                                old(self).afterwards(),
                                old(self).written(),
                                final(self).written(),
                                final(self).upcoming(),
                            )
                    },
                }
            }),
    {
        let ghost b = buf@;
        let ghost listed = self.upcoming();
        let ghost more = self.afterwards();
        let ghost before = self.written();
        let ghost out = reterminated(b, b.len() as int, listed, more);
        let mut i: usize = 0;
        proof {
            assert(before + Seq::<u8>::empty() =~= before);
            assert(listed.skip(0) =~= listed);
        }
        while i < buf.len()
            invariant
                b == buf@,
                i <= b.len(),
                listed == old(self).upcoming(),
                more == old(self).afterwards(),
                before == old(self).written(),
                out == reterminated(b, b.len() as int, listed, more),
                self.reliable() == old(self).reliable(),
                self.afterwards() == more,
                self.written() == before + reterminated(b, i as int, listed, more),
                self.upcoming() == without_first(listed, newlines(b, i as int) as int),
            decreases b.len() - i,
        {
            let end: usize = next_newline(buf, i);
            proof {
                lemma_reterminated_plain(b, i as int, end as int, listed, more);
                lemma_reterminated_grows(b, i as int, b.len() as int, listed, more);
                lemma_reterminated_grows(b, end as int, b.len() as int, listed, more);
            }
            if i < end {
                let ghost written = self.written();
                let done = self.inner.write_all(slice_subrange(buf, i, end));
                proof {
                    assert(written + b.subrange(i as int, end as int) =~= before + reterminated(
                        b,
                        end as int,
                        listed,
                        more,
                    ));
                    if done is Err {
                        lemma_between(before, written, self.written(), b.subrange(i as int, end as int), out);
                        assert(stopped_in(
                            b,
                            i as int,
                            end as int,
                            listed,
                            more,
                            before,
                            self.written(),
                            self.upcoming(),
                        ));
                    }
                }
                match done {
                    Ok(()) => {},
                    Err(e) => {
                        return Err(e);
                    },
                }
            }
            if end < buf.len() {
                let ghost k = newlines(b, end as int) as int;
                let ghost written = self.written();
                let next = self.terminators.next_terminator();
                let ending: LineEnding = match next {
                    Some(ending) => ending,
                    None => LineEnding::Lf,
                };
                proof {
                    lemma_reterminated_grows(b, end + 1, b.len() as int, listed, more);
                    assert(ending == terminator_for(listed, more, k));
                    assert(self.upcoming() =~= without_first(listed, k + 1));
                }
                let done = write_line_ending(&mut self.inner, ending);
                proof {
                    assert(written + buffer::ending_bytes(ending) =~= before + reterminated(
                        b,
                        end + 1,
                        listed,
                        more,
                    ));
                    if done is Err {
                        lemma_between(before, written, self.written(), buffer::ending_bytes(ending), out);
                        assert(stopped_in(
                            b,
                            end as int,
                            end + 1,
                            listed,
                            more,
                            before,
                            self.written(),
                            self.upcoming(),
                        ));
                    }
                }
                match done {
                    Ok(()) => {},
                    Err(e) => {
                        return Err(e);
                    },
                }
                i = end + 1;
            } else {
                i = end;
            }
        }
        Ok(buf.len())
    }

    /// Flush the underlying sink: all that has been written is handed on.  Does
    /// not emit surplus terminators.
    pub fn flush(&mut self) -> (done: Result<(), W::Error>)
        ensures
            match done {
                Ok(_) => final(self).delivered() == old(self).written(),
                Err(_) => old(self).delivered().is_prefix_of(final(self).delivered()),
            },
            final(self).written() == old(self).written(),
            final(self).upcoming() == old(self).upcoming(),
            final(self).afterwards() == old(self).afterwards(),
            final(self).reliable() == old(self).reliable(),
            old(self).reliable() ==> done is Ok,
    {
        self.inner.flush()
    }

    /// Emit any terminators still to come and return the underlying sink.
    ///
    /// Must be called after the last `write` call.  The terminators must come
    /// to an end.
    pub fn finish(self) -> (inner: Result<W, W::Error>)
        requires
            self.afterwards() is None,
        ensures
            self.reliable() ==> inner is Ok,
            match inner {
                Ok(w) => w.written() == self.written() + all_ending_bytes(self.upcoming()),
                Err(_) => !self.reliable(),
            },
    {
        let ghost out = self.written() + all_ending_bytes(self.upcoming());
        let mut inner = self.inner;
        let mut terminators = self.terminators;
        loop
            invariant
                terminators.afterwards() is None,
                inner.reliable() == self.reliable(),
                inner.written() + all_ending_bytes(terminators.upcoming()) == out,
                out == self.written() + all_ending_bytes(self.upcoming()),
            decreases terminators.upcoming().len(),
        {
            let ghost rest = terminators.upcoming();
            match terminators.next_terminator() {
                None => {
                    assert(inner.written() =~= out);
                    return Ok(inner);
                },
                Some(ending) => {
                    match write_line_ending(&mut inner, ending) {
                        Ok(()) => {},
                        Err(e) => {
                            return Err(e);
                        },
                    }
                    assert(inner.written() + all_ending_bytes(rest.skip(1)) =~= out);
                },
            }
        }
    }

    /// Consume the writer and return the underlying sink without writing
    /// surplus terminators.
    pub fn into_inner(self) -> (inner: W)
        ensures
            inner.written() == self.written(),
            inner.delivered() == self.delivered(),
            inner.reliable() == self.reliable(),
    {
        self.inner
    }
}

/// A part of a piece of the output is a part of the output.
proof fn lemma_between(
    before: Seq<u8>,
    written: Seq<u8>,
    now: Seq<u8>,
    piece: Seq<u8>,
    out: Seq<u8>,
)
    requires
        before.is_prefix_of(written),
        written.is_prefix_of(now),
        now.is_prefix_of(written + piece),
        (written + piece).is_prefix_of(before + out),
    ensures
        before.is_prefix_of(now),
        now.is_prefix_of(before + out),
{
    let whole = written + piece;
    assert forall|i: int| 0 <= i < now.len() implies now[i] == (before + out)[i] by {
        assert(now[i] == whole[i]);
        assert(whole[i] == (before + out)[i]);
    }
    assert(now =~= (before + out).take(now.len() as int));
    assert forall|i: int| 0 <= i < before.len() implies before[i] == now[i] by {
        assert(before[i] == written[i]);
    }
    assert(before =~= now.take(before.len() as int));
}

/// The first `\n` of `buf` at or after `from`, or the end.
fn next_newline(buf: &[u8], from: usize) -> (at: usize)
    requires
        from <= buf@.len(),
    ensures
        from <= at <= buf@.len(),
        forall|i: int| from <= i < at ==> buf@[i] != LF,
        at < buf@.len() ==> buf@[at as int] == LF,
{
    let mut at: usize = from;
    while at < buf.len()
        invariant
            from <= at <= buf@.len(),
            forall|i: int| from <= i < at ==> buf@[i] != LF,
        ensures
            from <= at <= buf@.len(),
            forall|i: int| from <= i < at ==> buf@[i] != LF,
            at < buf@.len() ==> buf@[at as int] == LF,
        decreases buf@.len() - at,
    {
        if buf[at] == LF {
            break;
        }
        at = at + 1;
    }
    at
}

} // verus!
