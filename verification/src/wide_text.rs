//! Normalised text in UTF-16, where `\r` and `\n` are code units of two bytes.
//!
//! Code units are counted from the first byte on.  A last byte that is no full
//! code unit is left as it is.

use vstd::prelude::*;

use crate::lines;
use crate::lines::Units;
use crate::offset_map;
use crate::offset_map::OffsetMap;
use crate::text::{CR, LF};

verus! {

/// Where the code unit begins to which the byte at `p` belongs.
pub open spec fn unit_start(p: int) -> int {
    p - p % 2
}

/// Whether the byte at `p` belongs to the `\n` of a `\r\n`, which normalisation
/// drops.
pub open spec fn is_dropped(s: Seq<u8>, units: Units, p: int) -> bool {
    let u = unit_start(p);
    u >= 2 && lines::is_unit(s, units, u, LF) && lines::is_unit(s, units, u - 2, CR)
}

/// What the byte at `p` becomes, if it is kept: a `\r` becomes a `\n`.
pub open spec fn normal_byte(s: Seq<u8>, units: Units, p: int) -> u8 {
    if lines::is_unit(s, units, unit_start(p), CR) {
        lines::unit_bytes(units, LF)[p % 2]
    } else {
        s[p]
    }
}

/// The first `n` bytes of `s`, normalised: every `\r\n` and every lone `\r` is
/// a single `\n`.
pub open spec fn normalised(s: Seq<u8>, units: Units, n: int) -> Seq<u8>
    decreases n,
{
    if n <= 0 {
        Seq::empty()
    } else if is_dropped(s, units, n - 1) {
        normalised(s, units, n - 1)
    } else {
        normalised(s, units, n - 1).push(normal_byte(s, units, n - 1))
    }
}

/// How many of the first `n` bytes of `s` normalisation drops.
pub open spec fn dropped(s: Seq<u8>, units: Units, n: int) -> nat
    decreases n,
{
    if n <= 0 {
        0
    } else if is_dropped(s, units, n - 1) {
        dropped(s, units, n - 1) + 1
    } else {
        dropped(s, units, n - 1)
    }
}

/// The drift entries for the first `n` bytes of `s`: one for every dropped code
/// unit.
pub open spec fn drift_entries(s: Seq<u8>, units: Units, n: int) -> Seq<(u64, i64)>
    decreases n,
{
    if n <= 0 {
        Seq::empty()
    } else if n % 2 == 0 && is_dropped(s, units, n - 1) {
        drift_entries(s, units, n - 1).push(
            (normalised(s, units, n - 1).len() as u64, dropped(s, units, n) as i64),
        )
    } else {
        drift_entries(s, units, n - 1)
    }
}

/// Every byte is either kept or dropped.
proof fn lemma_len(s: Seq<u8>, units: Units, n: int)
    requires
        0 <= n,
    ensures
        normalised(s, units, n).len() + dropped(s, units, n) == n,
    decreases n,
{
    if n > 0 {
        lemma_len(s, units, n - 1);
    }
}

/// More bytes give more normalised bytes, after the same ones.
proof fn lemma_grows(s: Seq<u8>, units: Units, m: int, n: int)
    requires
        0 <= m <= n,
    ensures
        normalised(s, units, m).is_prefix_of(normalised(s, units, n)),
        normalised(s, units, m).len() <= normalised(s, units, n).len(),
        dropped(s, units, m) <= dropped(s, units, n),
    decreases n,
{
    if m < n {
        lemma_grows(s, units, m, n - 1);
        assert(normalised(s, units, m).is_prefix_of(normalised(s, units, n)));
    }
}

/// Drift entries are sorted.
proof fn lemma_drift_entries(s: Seq<u8>, units: Units, n: int)
    requires
        units != Units::Byte,
        0 <= n <= i64::MAX,
        n <= s.len(),
    ensures
        offset_map::entries_sorted(drift_entries(s, units, n)),
        forall|i: int|
            0 <= i < drift_entries(s, units, n).len() ==> (#[trigger] drift_entries(
                s,
                units,
                n,
            )[i]).0 <= normalised(s, units, n).len() && drift_entries(s, units, n)[i].1 <= dropped(
                s,
                units,
                n,
            ),
        (n % 2 == 0 && n >= 2 && lines::is_unit(s, units, n - 2, CR)) || (n % 2 == 1 && is_dropped(
            s,
            units,
            n - 1,
        )) ==> forall|i: int|
            0 <= i < drift_entries(s, units, n).len() ==> (#[trigger] drift_entries(
                s,
                units,
                n,
            )[i]).0 < normalised(s, units, n).len(),
    decreases n,
{
    if n > 0 {
        lemma_drift_entries(s, units, n - 1);
        lemma_len(s, units, n - 1);
        lemma_len(s, units, n);
    }
}

/// The drift at a position that is yet to come in `n..` is what was dropped
/// before `n`.
proof fn lemma_drift_of_entries(s: Seq<u8>, units: Units, n: int, at: int)
    requires
        0 <= n <= i64::MAX,
        n <= s.len(),
        n % 2 == 0 || !is_dropped(s, units, n - 1),
        normalised(s, units, n).len() <= at,
    ensures
        offset_map::drift_in(drift_entries(s, units, n), at) == dropped(s, units, n),
    decreases n,
{
    if n > 0 {
        lemma_len(s, units, n);
        lemma_len(s, units, n - 1);
        if is_dropped(s, units, n - 1) {
            let e = drift_entries(s, units, n);
            assert(e.last().0 == normalised(s, units, n - 1).len());
            assert(e.last().1 == dropped(s, units, n));
        } else {
            lemma_drift_of_entries(s, units, n - 1, at);
        }
    }
}

proof fn lemma_later_entries(s: Seq<u8>, units: Units, m: int, n: int, at: int)
    requires
        0 <= m <= n <= i64::MAX,
        n <= s.len(),
        normalised(s, units, m).len() == at,
        m % 2 == 0 || !is_dropped(s, units, m - 1),
        m < n ==> !is_dropped(s, units, m),
    ensures
        offset_map::drift_in(drift_entries(s, units, n), at) == dropped(s, units, m),
    decreases n - m,
{
    if m >= n - 1 {
        lemma_drift_of_entries(s, units, m, at);
    } else {
        lemma_later_entries(s, units, m, n - 1, at);
        if n % 2 == 0 && is_dropped(s, units, n - 1) {
            let e = drift_entries(s, units, n);
            lemma_grows(s, units, m + 1, n - 1);
            lemma_len(s, units, n - 1);
            assert(e.last().0 == normalised(s, units, n - 1).len());
            assert(e.drop_last() =~= drift_entries(s, units, n - 1));
        }
    }
}

/// The map of `s` sends the normalised position of every byte that is kept,
/// and of the end, back to where the byte, or the end, is in `s`.
pub proof fn lemma_wide_source_of_built(map: OffsetMap, s: Seq<u8>, units: Units, p: int)
    requires
        units != Units::Byte,
        s.len() <= i64::MAX,
        map@ == drift_entries(s, units, s.len() as int),
        0 <= p <= s.len(),
        p < s.len() ==> !is_dropped(s, units, p),
    ensures
        map.source_of(normalised(s, units, p).len() as int) == p,
        normalised(s, units, p).len() <= normalised(s, units, s.len() as int).len(),
        p < s.len() ==> normalised(s, units, s.len() as int)[normalised(s, units, p).len() as int]
            == normal_byte(s, units, p),
{
    let n = s.len() as int;
    lemma_later_entries(s, units, p, n, normalised(s, units, p).len() as int);
    lemma_len(s, units, p);
    lemma_grows(s, units, p, n);
    if p < n {
        lemma_grows(s, units, p + 1, n);
        let at = normalised(s, units, p).len() as int;
        assert(normalised(s, units, n)[at] == normalised(s, units, p + 1)[at]);
    }
}

/// Every position in the normalised text has its place in the text, and those
/// of later positions come later.
pub proof fn lemma_wide_position(map: OffsetMap, s: Seq<u8>, units: Units, at: int)
    requires
        units != Units::Byte,
        s.len() <= i64::MAX,
        map@ == drift_entries(s, units, s.len() as int),
        0 <= at <= normalised(s, units, s.len() as int).len(),
    ensures
        map.wf(),
        at <= map.source_of(at) <= s.len(),
        at < normalised(s, units, s.len() as int).len() ==> {
            &&& map.source_of(at) < map.source_of(at + 1)
            &&& normalised(s, units, s.len() as int)[at] == normal_byte(
                s,
                units,
                map.source_of(at),
            )
        },
{
    let n = s.len() as int;
    lemma_drift_entries(s, units, n);
    offset_map::lemma_source_of_monotone(map, at, at + 1);
    lemma_wide_source_of_built(map, s, units, n);
    if at < normalised(s, units, n).len() {
        let p = lemma_kept_position(s, units, n, at);
        lemma_wide_source_of_built(map, s, units, p);
    }
}

/// Every position in the normalised text is that of a byte that is kept.
pub proof fn lemma_kept_position(s: Seq<u8>, units: Units, n: int, at: int) -> (p: int)
    requires
        0 <= n <= s.len(),
        0 <= at < normalised(s, units, n).len(),
    ensures
        0 <= p < n,
        !is_dropped(s, units, p),
        normalised(s, units, p).len() == at,
    decreases n,
{
    if at < normalised(s, units, n - 1).len() {
        lemma_kept_position(s, units, n - 1, at)
    } else {
        n - 1
    }
}

/// There is one drift entry for every `\r\n`, of two bytes each.
pub proof fn lemma_wide_entry_per_crlf(s: Seq<u8>, units: Units, n: int)
    requires
        0 <= n,
        n % 2 == 0,
    ensures
        2 * drift_entries(s, units, n).len() == dropped(s, units, n),
    decreases n,
{
    if n > 0 {
        lemma_wide_entry_per_crlf(s, units, n - 2);
        assert(is_dropped(s, units, n - 2) == is_dropped(s, units, n - 1));
        assert(dropped(s, units, n - 1) == dropped(s, units, n - 2) + if is_dropped(
            s,
            units,
            n - 2,
        ) {
            1int
        } else {
            0int
        });
        assert(drift_entries(s, units, n - 1) == drift_entries(s, units, n - 2));
    }
}

/// Normalised text has as many bytes beyond full code units as the text.
pub proof fn lemma_wide_parity(s: Seq<u8>, units: Units)
    requires
        units != Units::Byte,
    ensures
        normalised(s, units, s.len() as int).len() % 2 == s.len() % 2,
{
    let n = s.len() as int;
    lemma_len(s, units, n);
    if n % 2 == 0 {
        lemma_wide_entry_per_crlf(s, units, n);
    } else {
        assert(!is_dropped(s, units, n - 1));
        lemma_wide_entry_per_crlf(s, units, n - 1);
    }
}

/// Whether no `\r\n` forms where `x` and `y` meet, and code units of the one are
/// not continued in the other.
pub open spec fn meets_cleanly(x: Seq<u8>, y: Seq<u8>, units: Units) -> bool {
    &&& x.len() % 2 == 0
    &&& !(x.len() > 0 && lines::is_unit(x, units, x.len() - 2, CR) && lines::is_unit(
        y,
        units,
        0,
        LF,
    ))
}

/// Where a code unit begins that is kept, a text can be cut: the two parts meet
/// cleanly, and are normalised to what comes before and after.
pub proof fn lemma_wide_cut(s: Seq<u8>, units: Units, p: int)
    requires
        units != Units::Byte,
        0 <= p <= s.len(),
        p % 2 == 0,
        p < s.len() ==> !is_dropped(s, units, p),
    ensures
        meets_cleanly(s.take(p), s.skip(p), units),
        normalised(s.take(p), units, p) == normalised(s, units, p),
        normalised(s, units, s.len() as int) == normalised(s, units, p) + normalised(
            s.skip(p),
            units,
            s.len() - p,
        ),
{
    let x = s.take(p);
    let y = s.skip(p);
    assert(x + y =~= s);
    if p > 0 && lines::is_unit(x, units, p - 2, CR) && lines::is_unit(y, units, 0, LF) {
        lemma_unit_shifted(x, y, units, 0);
        lemma_unit_kept(x, y, units, p - 2);
        assert(lines::is_unit(s, units, p, LF));
        assert(lines::is_unit(s, units, p - 2, CR));
    }
    lemma_alike(s, x, units, p);
    lemma_wide_normalised_concat(x, y, units, y.len() as int);
}

/// The place in the text of an even position in the normalised text is the
/// beginning of a code unit that is kept, or the end.
pub proof fn lemma_wide_unit_position(map: OffsetMap, s: Seq<u8>, units: Units, at: int)
    requires
        units != Units::Byte,
        s.len() <= i64::MAX,
        map@ == drift_entries(s, units, s.len() as int),
        0 <= at < normalised(s, units, s.len() as int).len(),
        at % 2 == 0,
    ensures
        ({
            let p = map.source_of(at);
            &&& 0 <= p < s.len()
            &&& p % 2 == 0
            &&& !is_dropped(s, units, p)
            &&& normalised(s, units, p).len() == at
        }),
{
    let p = lemma_kept_position(s, units, s.len() as int, at);
    lemma_wide_source_of_built(map, s, units, p);
    lemma_len(s, units, p);
    if p % 2 == 0 {
        lemma_wide_entry_per_crlf(s, units, p);
    } else {
        assert(is_dropped(s, units, p) == is_dropped(s, units, p - 1));
        lemma_wide_entry_per_crlf(s, units, p - 1);
    }
}

/// The normalised form of two texts put together is that of the one and that
/// of the other, where the first is made of full code units and no `\r\n` forms
/// between them.
pub proof fn lemma_wide_normalised_concat(x: Seq<u8>, y: Seq<u8>, units: Units, n: int)
    requires
        units != Units::Byte,
        meets_cleanly(x, y, units),
        0 <= n <= y.len(),
    ensures
        normalised(x + y, units, x.len() + n) == normalised(x, units, x.len() as int) + normalised(
            y,
            units,
            n,
        ),
    decreases n,
{
    let c = x + y;
    let m = x.len() as int;
    if n == 0 {
        lemma_alike(c, x, units, m);
        assert(normalised(x, units, m) + normalised(y, units, 0) =~= normalised(x, units, m));
    } else {
        lemma_wide_normalised_concat(x, y, units, n - 1);
        let q = n - 1;
        let u = unit_start(q);
        assert(unit_start(m + q) == m + u);
        lemma_unit_shifted(x, y, units, u);
        if u >= 2 {
            lemma_unit_shifted(x, y, units, u - 2);
        } else if m > 0 {
            lemma_unit_kept(x, y, units, m - 2);
        }
        assert(c[m + q] == y[q]);
        assert((m + q) % 2 == q % 2);
        assert(is_dropped(c, units, m + q) == is_dropped(y, units, q));
        assert(normal_byte(c, units, m + q) == normal_byte(y, units, q));
        assert(normalised(c, units, m + n) =~= normalised(x, units, m) + normalised(y, units, n));
    }
}

/// A code unit of `y` is one of `x + y`, further on.
proof fn lemma_unit_shifted(x: Seq<u8>, y: Seq<u8>, units: Units, p: int)
    requires
        units != Units::Byte,
        0 <= p,
    ensures
        forall|v: u8|
            lines::is_unit(x + y, units, x.len() + p, v) == #[trigger] lines::is_unit(
                y,
                units,
                p,
                v,
            ),
{
    let c = x + y;
    if p + 1 < y.len() {
        assert(c[x.len() + p] == y[p]);
        assert(c[x.len() + p + 1] == y[p + 1]);
    }
}

/// A code unit that ends in `x` is one of `x + y`.
proof fn lemma_unit_kept(x: Seq<u8>, y: Seq<u8>, units: Units, p: int)
    requires
        units != Units::Byte,
        0 <= p,
        p + 1 < x.len(),
    ensures
        forall|v: u8|
            lines::is_unit(x + y, units, p, v) == #[trigger] lines::is_unit(x, units, p, v),
{
    let c = x + y;
    assert(c[p] == x[p]);
    assert(c[p + 1] == x[p + 1]);
}

/// Full code units that are alike are normalised alike.
proof fn lemma_alike(c: Seq<u8>, d: Seq<u8>, units: Units, n: int)
    requires
        units != Units::Byte,
        0 <= n <= d.len(),
        d.len() <= c.len(),
        d.len() % 2 == 0,
        forall|q: int| 0 <= q < d.len() ==> c[q] == d[q],
    ensures
        normalised(c, units, n) == normalised(d, units, n),
    decreases n,
{
    if n > 0 {
        lemma_alike(c, d, units, n - 1);
        let u = unit_start(n - 1);
        assert(u + 1 < d.len());
        assert(c[u] == d[u] && c[u + 1] == d[u + 1]);
        if u >= 2 {
            assert(c[u - 2] == d[u - 2] && c[u - 1] == d[u - 1]);
        }
    }
}

/// Bytes without a `\r` or `\n` code unit are normalised to themselves.
pub proof fn lemma_wide_normalised_plain(c: Seq<u8>, units: Units, n: int)
    requires
        units != Units::Byte,
        0 <= n <= c.len(),
        forall|u: int|
            0 <= u < n && u % 2 == 0 ==> !(#[trigger] lines::is_unit(c, units, u, CR))
                && !lines::is_unit(c, units, u, LF),
    ensures
        normalised(c, units, n) == c.take(n),
    decreases n,
{
    if n > 0 {
        lemma_wide_normalised_plain(c, units, n - 1);
        let u = unit_start(n - 1);
        assert(u % 2 == 0);
        assert(!lines::is_unit(c, units, u, CR));
        assert(c.take(n) =~= c.take(n - 1).push(c[n - 1]));
    } else {
        assert(c.take(0) =~= Seq::<u8>::empty());
    }
}

/// Whether the code unit with the value `v` stands at `p`.
fn unit_at(raw: &Vec<u8>, units: Units, p: usize, v: u8) -> (found: bool)
    requires
        units != Units::Byte,
        p < raw@.len(),
    ensures
        found == lines::is_unit(raw@, units, p as int, v),
{
    if p >= raw.len() - 1 {
        false
    } else if units == Units::Utf16Le {
        raw[p] == v && raw[p + 1] == 0
    } else {
        raw[p] == 0 && raw[p + 1] == v
    }
}

/// Normalise UTF-16 in memory, and record the drift that this introduces.
pub(crate) fn normalise_wide(raw: &Vec<u8>, units: Units) -> (normal: (Vec<u8>, OffsetMap))
    requires
        units != Units::Byte,
        raw@.len() <= isize::MAX,
    ensures
        normal.0@ == normalised(raw@, units, raw@.len() as int),
        normal.1@ == drift_entries(raw@, units, raw@.len() as int),
        normal.1.wf(),
{
    let ghost s = raw@;
    let mut bytes: Vec<u8> = Vec::new();
    let mut map = OffsetMap::identity();
    let mut drift: i64 = 0;
    let mut i: usize = 0;
    while i < raw.len()
        invariant
            units != Units::Byte,
            s == raw@,
            s.len() <= isize::MAX,
            i <= s.len(),
            bytes@ == normalised(s, units, i as int),
            map@ == drift_entries(s, units, i as int),
            map.wf(),
            drift == dropped(s, units, i as int),
        decreases s.len() - i,
    {
        let start: usize = i - i % 2;
        proof {
            lemma_len(s, units, i as int);
            lemma_len(s, units, i + 1);
            lemma_drift_entries(s, units, i as int);
            lemma_drift_entries(s, units, i + 1);
        }
        if start >= 2 && unit_at(raw, units, start, LF) && unit_at(raw, units, start - 2, CR) {
            drift = drift + 1;
            if i % 2 == 1 {
                map.push_entry(bytes.len() as u64, drift);
            }
        } else if unit_at(raw, units, start, CR) {
            let low_byte: usize = if units == Units::Utf16Le {
                0
            } else {
                1
            };
            bytes.push(
                if i % 2 == low_byte {
                    LF
                } else {
                    0
                },
            );
        } else {
            bytes.push(raw[i]);
        }
        i = i + 1;
    }
    (bytes, map)
}

} // verus!
