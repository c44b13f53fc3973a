//! `OffsetMap`: normalised-to-source position translation.
//!
//! When bytes with CRLF or lone-CR line endings are normalised to LF-only,
//! each CRLF becomes a single LF.  For every CRLF, every normalised position
//! after the replacement is one less than the corresponding source position.
//!
//! An [`OffsetMap`] records this drift as a sorted list of
//! `(normalised_pos, cumulative_drift)` pairs: for every normalised position
//! from `normalised_pos` up to the next pair, the source position is larger by
//! `cumulative_drift`.  An entry lies immediately after the replacement LF, so
//! the LF itself maps to the CR of the source.

use std::ops::Range;

use vstd::prelude::*;

use crate::branch;
use crate::branch::Branch;
use crate::error::IoError;
use crate::text;
use crate::text::{CR, LF};

verus! {

/// Whether the byte at `p` is the `\n` of a `\r\n`, which normalisation drops.
pub open spec fn is_dropped(s: Seq<u8>, p: int) -> bool {
    s[p] == LF && p > 0 && s[p - 1] == CR
}

/// The first `n` bytes of `s`, normalised: every `\r\n` and every lone `\r` is
/// a single `\n`.
pub open spec fn normalised(s: Seq<u8>, n: int) -> Seq<u8>
    decreases n,
{
    if n <= 0 {
        Seq::empty()
    } else if is_dropped(s, n - 1) {
        normalised(s, n - 1)
    } else if s[n - 1] == CR {
        normalised(s, n - 1).push(LF)
    } else {
        normalised(s, n - 1).push(s[n - 1])
    }
}

/// How many of the first `n` bytes of `s` normalisation drops.
pub open spec fn dropped(s: Seq<u8>, n: int) -> nat
    decreases n,
{
    if n <= 0 {
        0
    } else if is_dropped(s, n - 1) {
        dropped(s, n - 1) + 1
    } else {
        dropped(s, n - 1)
    }
}

/// The drift entries for the first `n` bytes of `s`: one for every dropped
/// byte.
pub open spec fn drift_entries(s: Seq<u8>, n: int) -> Seq<(u64, i64)>
    decreases n,
{
    if n <= 0 {
        Seq::empty()
    } else if is_dropped(s, n - 1) {
        drift_entries(s, n - 1).push(
            (normalised(s, n - 1).len() as u64, dropped(s, n) as i64),
        )
    } else {
        drift_entries(s, n - 1)
    }
}

/// The drift at `n`: that of the last entry at or before it.
pub open spec fn drift_in(entries: Seq<(u64, i64)>, n: int) -> int
    decreases entries.len(),
{
    if entries.len() == 0 {
        0
    } else if entries.last().0 <= n {
        entries.last().1 as int
    } else {
        drift_in(entries.drop_last(), n)
    }
}

/// Positions ascend strictly.
pub open spec fn positions_ascend(entries: Seq<(u64, i64)>) -> bool {
    forall|i: int, j: int|
        0 <= i < j < entries.len() ==> #[trigger] entries[i].0 < #[trigger] entries[j].0
}

/// Positions ascend strictly; drifts are never negative and never fall.
pub open spec fn entries_sorted(entries: Seq<(u64, i64)>) -> bool {
    &&& positions_ascend(entries)
    &&& forall|i: int, j: int|
        0 <= i < j < entries.len() ==> #[trigger] entries[i].1 <= #[trigger] entries[j].1
    &&& forall|i: int| 0 <= i < entries.len() ==> 0 <= (#[trigger] entries[i]).1
}

/// Translation table from normalised byte positions (LF-only) to source byte
/// positions.
pub struct OffsetMap {
    entries: Vec<(u64, i64)>,
}

impl OffsetMap {
    /// The drift entries, sorted by position.
    pub closed spec fn view(&self) -> Seq<(u64, i64)> {
        self.entries@
    }

    /// The entries are sorted and their drifts do not fall.
    pub open spec fn wf(&self) -> bool {
        entries_sorted(self@)
    }

    /// The source position of the normalised position `n`.
    pub open spec fn source_of(&self, n: int) -> int {
        n + drift_in(self@, n)
    }

    /// A map with no drift entries: suitable for sources that use LF-only line
    /// endings and require no position translation.
    pub fn identity() -> (map: Self)
        ensures
            map@ == Seq::<(u64, i64)>::empty(),
            map.wf(),
            forall|n: int| #[trigger] map.source_of(n) == n,
    {
        OffsetMap { entries: Vec::new() }
    }

    /// Construct an `OffsetMap` from a list of drift entries whose positions
    /// ascend strictly.
    pub fn from_entries(entries: Vec<(u64, i64)>) -> (map: Self)
        requires
            positions_ascend(entries@),
        ensures
            map@ == entries@,
    {
        OffsetMap { entries }
    }

    /// Append a drift entry, at a position after that of the last one.
    pub fn push_entry(&mut self, normalised_pos: u64, cumulative_drift: i64)
        requires
            positions_ascend(old(self)@),
            old(self)@.len() > 0 ==> old(self)@.last().0 < normalised_pos,
        ensures
            final(self)@ == old(self)@.push((normalised_pos, cumulative_drift)),
            positions_ascend(final(self)@),
    {
        self.entries.push((normalised_pos, cumulative_drift));
    }

    /// Convert a normalised byte offset to the corresponding source byte
    /// offset: add the drift of the last entry at or before it.
    pub fn to_source(&self, normalised: u64) -> (source: u64)
        requires
            positions_ascend(self@),
            0 <= self.source_of(normalised as int) <= u64::MAX,
        ensures
            source == self.source_of(normalised as int),
            self.wf() ==> source >= normalised,
    {
        let drift: i64 = self.drift_at(normalised);
        if drift >= 0 {
            normalised + drift as u64
        } else {
            normalised - 1 - (-(drift + 1)) as u64
        }
    }

    /// The cumulative drift applicable at `normalised`: that of the last entry
    /// whose position is at most `normalised`, or zero if no such entry exists.
    pub fn drift_at(&self, normalised: u64) -> (drift: i64)
        requires
            positions_ascend(self@),
        ensures
            drift == drift_in(self@, normalised as int),
            self.wf() ==> drift >= 0,
    {
        let ghost e = self.entries@;
        let mut lo: usize = 0;
        let mut hi: usize = self.entries.len();
        while lo < hi
            invariant
                e == self.entries@,
                positions_ascend(e),
                0 <= lo <= hi <= e.len(),
                forall|i: int| 0 <= i < lo ==> (#[trigger] e[i]).0 <= normalised,
                forall|i: int| hi <= i < e.len() ==> (#[trigger] e[i]).0 > normalised,
            decreases hi - lo,
        {
            let mid: usize = lo + (hi - lo) / 2;
            if self.entries[mid].0 <= normalised {
                lo = mid + 1;
            } else {
                hi = mid;
            }
        }
        proof {
            lemma_drift_in(e, lo as int, normalised as int);
        }
        if lo == 0 {
            0
        } else {
            self.entries[lo - 1].1
        }
    }
}

/// The drift at `n` is that of entry `k - 1` when exactly the first `k` lie at
/// or before `n`.
pub proof fn lemma_drift_in(entries: Seq<(u64, i64)>, k: int, n: int)
    requires
        0 <= k <= entries.len(),
        forall|i: int| 0 <= i < k ==> (#[trigger] entries[i]).0 <= n,
        forall|i: int| k <= i < entries.len() ==> (#[trigger] entries[i]).0 > n,
    ensures
        drift_in(entries, n) == (if k == 0 {
            0
        } else {
            entries[k - 1].1 as int
        }),
    decreases entries.len(),
{
    if entries.len() > k {
        lemma_drift_in(entries.drop_last(), k, n);
    }
}

/// The drift never falls as the position grows.
proof fn lemma_drift_monotone(entries: Seq<(u64, i64)>, m: int, n: int)
    requires
        entries_sorted(entries),
        m <= n,
    ensures
        0 <= drift_in(entries, m) <= drift_in(entries, n),
    decreases entries.len(),
{
    if entries.len() > 0 {
        lemma_drift_monotone(entries.drop_last(), m, n);
        if entries.last().0 <= n && entries.last().0 > m {
            let shorter = entries.drop_last();
            let last = entries.len() - 1;
            assert forall|i: int| 0 <= i < shorter.len() implies (#[trigger] shorter[i]).1
                <= entries.last().1 by {
                assert(entries[i].0 < entries[last].0);
            }
            lemma_drift_bounded(shorter, m, entries.last().1 as int);
        }
    }
}

proof fn lemma_drift_bounded(entries: Seq<(u64, i64)>, n: int, bound: int)
    requires
        forall|i: int| 0 <= i < entries.len() ==> (#[trigger] entries[i]).1 <= bound,
        0 <= bound,
    ensures
        drift_in(entries, n) <= bound,
    decreases entries.len(),
{
    if entries.len() > 0 {
        lemma_drift_bounded(entries.drop_last(), n, bound);
    }
}

/// Translation keeps the order of positions, strictly, and never yields a
/// smaller position than it was given.
pub proof fn lemma_source_of_monotone(map: OffsetMap, m: int, n: int)
    requires
        map.wf(),
        m < n,
    ensures
        m <= map.source_of(m) < map.source_of(n),
{
    lemma_drift_monotone(map@, m, n);
}

/// Every byte is either kept or dropped.
pub proof fn lemma_normalised_len(s: Seq<u8>, n: int)
    requires
        0 <= n,
    ensures
        normalised(s, n).len() + dropped(s, n) == n,
    decreases n,
{
    if n > 0 {
        lemma_normalised_len(s, n - 1);
    }
}

/// More bytes give more normalised bytes, after the same ones.
pub proof fn lemma_normalised_grows(s: Seq<u8>, m: int, n: int)
    requires
        0 <= m <= n,
    ensures
        normalised(s, m).is_prefix_of(normalised(s, n)),
        normalised(s, m).len() <= normalised(s, n).len(),
        dropped(s, m) <= dropped(s, n),
    decreases n,
{
    if m < n {
        lemma_normalised_grows(s, m, n - 1);
        assert(normalised(s, m).is_prefix_of(normalised(s, n)));
    }
}

/// Drift entries are sorted.
pub proof fn lemma_drift_entries(s: Seq<u8>, n: int)
    requires
        0 <= n <= i64::MAX,
        n <= s.len(),
    ensures
        entries_sorted(drift_entries(s, n)),
        forall|i: int|
            0 <= i < drift_entries(s, n).len() ==> (#[trigger] drift_entries(s, n)[i]).0
                < normalised(s, n).len() + 1 && drift_entries(s, n)[i].1 <= dropped(s, n),
        n > 0 && s[n - 1] == CR ==> forall|i: int|
            0 <= i < drift_entries(s, n).len() ==> (#[trigger] drift_entries(s, n)[i]).0
                < normalised(s, n).len(),
    decreases n,
{
    if n > 0 {
        lemma_drift_entries(s, n - 1);
        lemma_normalised_len(s, n - 1);
        lemma_normalised_len(s, n);
    }
}

/// The drift of a map at a position that is yet to come in `n..` is what was
/// dropped before `n`.
proof fn lemma_drift_of_entries(s: Seq<u8>, n: int, at: int)
    requires
        0 <= n <= i64::MAX,
        n <= s.len(),
        normalised(s, n).len() <= at,
    ensures
        drift_in(drift_entries(s, n), at) == dropped(s, n),
    decreases n,
{
    if n > 0 {
        lemma_normalised_len(s, n);
        lemma_normalised_len(s, n - 1);
        lemma_drift_of_entries(s, n - 1, at);
        if is_dropped(s, n - 1) {
            let e = drift_entries(s, n);
            assert(e.last().0 == normalised(s, n - 1).len());
            assert(e.last().1 == dropped(s, n));
        }
    }
}

proof fn lemma_later_entries(s: Seq<u8>, m: int, n: int, at: int)
    requires
        0 <= m <= n <= i64::MAX,
        n <= s.len(),
        normalised(s, m).len() == at,
        m < n ==> !is_dropped(s, m),
    ensures
        drift_in(drift_entries(s, n), at) == dropped(s, m),
    decreases n - m,
{
    if m == n {
        lemma_drift_of_entries(s, n, at);
    } else if m == n - 1 {
        lemma_drift_of_entries(s, m, at);
    } else {
        lemma_later_entries(s, m, n - 1, at);
        if is_dropped(s, n - 1) {
            let e = drift_entries(s, n);
            lemma_normalised_grows(s, m + 1, n - 1);
            lemma_normalised_len(s, n - 1);
            assert(e.last().0 == normalised(s, n - 1).len());
            assert(e.drop_last() =~= drift_entries(s, n - 1));
        }
    }
}

/// The map of `s` sends the normalised position of every byte that is kept,
/// and of the end, back to where the byte, or the end, is in `s`.
pub proof fn lemma_source_of_built(map: OffsetMap, s: Seq<u8>, p: int)
    requires
        s.len() <= i64::MAX,
        map@ == drift_entries(s, s.len() as int),
        0 <= p <= s.len(),
        p < s.len() ==> !is_dropped(s, p),
    ensures
        map.source_of(normalised(s, p).len() as int) == p,
        normalised(s, p).len() <= normalised(s, s.len() as int).len(),
        p < s.len() ==> normalised(s, s.len() as int)[normalised(s, p).len() as int] == (if s[p]
            == CR {
            LF
        } else {
            s[p]
        }),
{
    let n = s.len() as int;
    lemma_later_entries(s, p, n, normalised(s, p).len() as int);
    lemma_normalised_len(s, p);
    lemma_normalised_grows(s, p, n);
    if p < n {
        lemma_normalised_grows(s, p + 1, n);
        let at = normalised(s, p).len() as int;
        assert(normalised(s, n)[at] == normalised(s, p + 1)[at]);
    }
}

/// Every normalised position is that of a byte that is kept, or of the end.
pub proof fn lemma_kept_position(s: Seq<u8>, n: int, at: int) -> (p: int)
    requires
        0 <= n <= s.len(),
        0 <= at < normalised(s, n).len(),
    ensures
        0 <= p < n,
        !is_dropped(s, p),
        normalised(s, p).len() == at,
    decreases n,
{
    if at < normalised(s, n - 1).len() {
        lemma_kept_position(s, n - 1, at)
    } else {
        n - 1
    }
}

/// The normalised form of two texts put together is that of the one and that
/// of the other, unless a `\r\n` forms between them.
pub proof fn lemma_normalised_concat(x: Seq<u8>, y: Seq<u8>, n: int)
    requires
        text::meets_cleanly(x, y),
        0 <= n <= y.len(),
    ensures
        normalised(x + y, x.len() + n) == normalised(x, x.len() as int) + normalised(y, n),
    decreases n,
{
    let c = x + y;
    let m = x.len() as int;
    if n == 0 {
        lemma_normalised_alike(c, x, m);
        assert(normalised(x, m) + normalised(y, 0) =~= normalised(x, m));
    } else {
        lemma_normalised_concat(x, y, n - 1);
        assert(c[m + n - 1] == y[n - 1]);
        if n > 1 {
            assert(c[m + n - 2] == y[n - 2]);
        } else if m > 0 {
            assert(c[m + n - 2] == x[m - 1]);
        }
        assert(normalised(c, m + n) =~= normalised(x, m) + normalised(y, n));
    }
}

proof fn lemma_normalised_alike(c: Seq<u8>, d: Seq<u8>, n: int)
    requires
        n <= c.len(),
        n <= d.len(),
        forall|q: int| 0 <= q < n ==> c[q] == d[q],
    ensures
        normalised(c, n) == normalised(d, n),
    decreases n,
{
    if n > 0 {
        lemma_normalised_alike(c, d, n - 1);
    }
}

/// The normalised form of the start of a text depends on nothing after it.
pub proof fn lemma_normalised_take(c: Seq<u8>, n: int)
    requires
        0 <= n <= c.len(),
    ensures
        normalised(c.take(n), n) == normalised(c, n),
{
    lemma_normalised_alike(c.take(n), c, n);
}

/// Bytes other than `\r` and `\n` are normalised to themselves.
pub proof fn lemma_normalised_plain(c: Seq<u8>, n: int)
    requires
        0 <= n <= c.len(),
        forall|q: int| 0 <= q < n ==> c[q] != CR && c[q] != LF,
    ensures
        normalised(c, n) == c.take(n),
    decreases n,
{
    if n > 0 {
        lemma_normalised_plain(c, n - 1);
        assert(c.take(n) =~= c.take(n - 1).push(c[n - 1]));
    } else {
        assert(c.take(0) =~= Seq::<u8>::empty());
    }
}

/// There is one drift entry for every `\r\n`, so none where lines end in `\n`
/// or `\r` alone.
pub proof fn lemma_one_entry_per_crlf(s: Seq<u8>, n: int)
    ensures
        drift_entries(s, n).len() == dropped(s, n),
    decreases n,
{
    if n > 0 {
        lemma_one_entry_per_crlf(s, n - 1);
    }
}

/// Normalised text holds no `\r`, and is normalised to itself.
pub proof fn lemma_normalised_is_normal(s: Seq<u8>, n: int)
    ensures
        !normalised(s, n).contains(CR),
        normalised(normalised(s, n), normalised(s, n).len() as int) == normalised(s, n),
    decreases n,
{
    if n > 0 {
        lemma_normalised_is_normal(s, n - 1);
        let x = normalised(s, n - 1);
        let y = normalised(s, n);
        if !is_dropped(s, n - 1) {
            assert(!y.contains(CR)) by {
                if y.contains(CR) {
                    let i = choose|i: int| 0 <= i < y.len() && y[i] == CR;
                    if i < x.len() {
                        assert(x[i] == CR);
                    }
                }
            }
            if x.len() > 0 {
                assert(x[x.len() - 1] != CR);
            }
            lemma_normalised_take(y, x.len() as int);
            assert(y.take(x.len() as int) =~= x);
        }
    }
}

/// How many bytes a scan reads at a time.
const SCAN_CHUNK: u64 = 4096;

/// The bytes of `c` in `range`, as far as `c` goes.
pub open spec fn clipped(c: Seq<u8>, range: Range<u64>) -> Seq<u8> {
    branch::bytes_at(c, range.start as int, range.end - range.start)
}

/// Scan `branch[byte_range]` and produce an [`OffsetMap`] that records the
/// cumulative drift introduced by each CRLF to LF normalisation.
///
/// A range that reaches past the end of the branch is scanned as far as the
/// branch goes.  A branch is read without failure, so the result is always
/// `Ok`.
pub fn build_offset_map(branch: &Branch, byte_range: Range<u64>) -> (map: Result<
    OffsetMap,
    IoError,
>)
    ensures
        map is Ok,
        map->Ok_0.wf(),
        map->Ok_0@ == drift_entries(
            clipped(branch@, byte_range),
            clipped(branch@, byte_range).len() as int,
        ),
{
    let mut map = OffsetMap::identity();
    let ghost s = clipped(branch@, byte_range);
    let branch_len: u64 = branch.byte_len();
    if byte_range.start >= byte_range.end || byte_range.start >= branch_len {
        return Ok(map);
    }
    let start: u64 = byte_range.start;
    let end: u64 = if byte_range.end < branch_len {
        byte_range.end
    } else {
        branch_len
    };
    assert(s =~= branch@.subrange(start as int, end as int));
    let mut source_pos: u64 = start;
    let mut normalised_pos: u64 = 0;
    let mut cumulative_drift: i64 = 0;
    // Whether the byte before `source_pos` is a `\r` of the range.
    let mut prev_cr: bool = false;
    while source_pos < end
        invariant
            start <= source_pos <= end <= branch@.len(),
            branch@.len() <= isize::MAX,
            s == branch@.subrange(start as int, end as int),
            map.wf(),
            map@ == drift_entries(s, source_pos - start),
            normalised_pos == normalised(s, source_pos - start).len(),
            cumulative_drift == dropped(s, source_pos - start),
            prev_cr == (source_pos > start && s[source_pos - start - 1] == CR),
        decreases end - source_pos,
    {
        let to_read: u64 = if end - source_pos < SCAN_CHUNK {
            end - source_pos
        } else {
            SCAN_CHUNK
        };
        let chunk = branch.read_at(source_pos, to_read as usize);
        let mut i: usize = 0;
        while i < chunk.len()
            invariant
                start <= source_pos,
                source_pos + chunk@.len() <= end <= branch@.len(),
                branch@.len() <= isize::MAX,
                s == branch@.subrange(start as int, end as int),
                chunk@ == branch@.subrange(source_pos as int, source_pos + chunk@.len()),
                i <= chunk@.len(),
                map.wf(),
                map@ == drift_entries(s, source_pos + i - start),
                normalised_pos == normalised(s, source_pos + i - start).len(),
                cumulative_drift == dropped(s, source_pos + i - start),
                prev_cr == (source_pos + i > start && s[source_pos + i - start - 1] == CR),
            decreases chunk@.len() - i,
        {
            let byte: u8 = chunk[i];
            let ghost n = source_pos + i - start;
            proof {
                assert(byte == s[n]);
                lemma_normalised_len(s, n);
                lemma_normalised_len(s, n + 1);
                lemma_drift_entries(s, n);
                lemma_drift_entries(s, n + 1);
            }
            if prev_cr && byte == LF {
                cumulative_drift = cumulative_drift + 1;
                map.push_entry(normalised_pos, cumulative_drift);
            } else {
                normalised_pos = normalised_pos + 1;
            }
            prev_cr = byte == CR;
            i = i + 1;
        }
        source_pos = source_pos + chunk.len() as u64;
    }
    Ok(map)
}

/// Normalise bytes in memory: CRLF and lone CR become LF.
pub(crate) fn normalise(raw: &Vec<u8>) -> (bytes: Vec<u8>)
    ensures
        bytes@ == normalised(raw@, raw@.len() as int),
{
    let mut bytes: Vec<u8> = Vec::new();
    let mut i: usize = 0;
    while i < raw.len()
        invariant
            i <= raw@.len(),
            bytes@ == normalised(raw@, i as int),
        decreases raw@.len() - i,
    {
        let byte: u8 = raw[i];
        if byte == LF && i > 0 && raw[i - 1] == CR {
        } else if byte == CR {
            bytes.push(LF);
        } else {
            bytes.push(byte);
        }
        i = i + 1;
    }
    bytes
}

} // verus!
