//! Whether bytes are well-formed UTF-8, whole or cut off.

use vstd::prelude::*;
use vstd::slice::slice_subrange;

use crate::branch::Branch;

verus! {

/// How many bytes the character takes that starts with `lead`; 0 where none
/// does.
pub open spec fn scalar_len(lead: u8) -> int {
    if lead <= 0x7F {
        1
    } else if 0xC2 <= lead <= 0xDF {
        2
    } else if 0xE0 <= lead <= 0xEF {
        3
    } else if 0xF0 <= lead <= 0xF4 {
        4
    } else {
        0
    }
}

/// Whether `second` may follow `lead` in a character of more than one byte.
pub open spec fn second_fits(lead: u8, second: u8) -> bool {
    &&& 0x80 <= second <= 0xBF
    &&& lead == 0xE0 ==> second >= 0xA0
    &&& lead == 0xED ==> second <= 0x9F
    &&& lead == 0xF0 ==> second >= 0x90
    &&& lead == 0xF4 ==> second <= 0x8F
}

/// Whether the first `n` bytes of `s`, which are at most one character, can
/// stand at the start of one.
spec fn starts_scalar(s: Seq<u8>, n: int) -> bool {
    &&& n >= 1 ==> scalar_len(s[0]) >= 1
    &&& n >= 2 ==> second_fits(s[0], s[1])
    &&& n >= 3 ==> 0x80 <= s[2] <= 0xBF
    &&& n >= 4 ==> 0x80 <= s[3] <= 0xBF
}

/// Whether `s` is the start of a character, but not all of it.
pub open spec fn is_cut_scalar(s: Seq<u8>) -> bool {
    &&& 0 < s.len() < scalar_len(s[0])
    &&& s.len() >= 2 ==> second_fits(s[0], s[1])
    &&& s.len() >= 3 ==> 0x80 <= s[2] <= 0xBF
}

/// Whether `s` is well-formed UTF-8, or can be made so by more bytes.
pub open spec fn is_utf8_prefix(s: Seq<u8>) -> bool {
    exists|more: Seq<u8>| #[trigger] vstd::utf8::valid_utf8(s + more)
}

proof fn lemma_width_2(a: u8, b: u8)
    requires
        0xC0 <= a <= 0xDF,
        0x80 <= b <= 0xBF,
    ensures
        vstd::utf8::codepoint_width_2(a, b) <= 0x7FF,
        vstd::utf8::codepoint_width_2(a, b) >= 0x80 <==> a >= 0xC2,
{
    let cp = vstd::utf8::codepoint_width_2(a, b);
    assert(cp == ((((a & 0x1F) as u32) << 6u32) | ((b & 0x3f) as u32)));
    assert(((((a & 0x1F) as u32) << 6u32) | ((b & 0x3f) as u32)) <= 0x7FF && (((((a & 0x1F) as u32)
        << 6u32) | ((b & 0x3f) as u32)) >= 0x80 <==> a >= 0xC2)) by (bit_vector)
        requires
            0xC0 <= a <= 0xDF,
            0x80 <= b <= 0xBF,
    ;
}

proof fn lemma_width_3(a: u8, b: u8, c: u8)
    requires
        0xE0 <= a <= 0xEF,
        0x80 <= b <= 0xBF,
        0x80 <= c <= 0xBF,
    ensures
        vstd::utf8::codepoint_width_3(a, b, c) >= 0x800 <==> (a == 0xE0 ==> b >= 0xA0),
        vstd::utf8::not_surrogate(vstd::utf8::codepoint_width_3(a, b, c)) <==> (a == 0xED ==> b
            <= 0x9F),
{
    let cp = vstd::utf8::codepoint_width_3(a, b, c);
    assert(cp == ((((a & 0x0F) as u32) << 12u32) | (((b & 0x3f) as u32) << 6u32) | ((c & 0x3f)
        as u32)));
    assert(({
        let v = (((a & 0x0F) as u32) << 12u32) | (((b & 0x3f) as u32) << 6u32) | ((c & 0x3f)
            as u32);
        &&& (v >= 0x800 <==> (a == 0xE0 ==> b >= 0xA0))
        &&& (!(0xD800 <= v && v <= 0xDFFF) <==> (a == 0xED ==> b <= 0x9F))
    })) by (bit_vector)
        requires
            0xE0 <= a <= 0xEF,
            0x80 <= b <= 0xBF,
            0x80 <= c <= 0xBF,
    ;
}

proof fn lemma_width_4(a: u8, b: u8, c: u8, d: u8)
    requires
        0xF0 <= a <= 0xF7,
        0x80 <= b <= 0xBF,
        0x80 <= c <= 0xBF,
        0x80 <= d <= 0xBF,
    ensures
        0x10000 <= vstd::utf8::codepoint_width_4(a, b, c, d) <= 0x10FFFF <==> (a <= 0xF4 && (a
            == 0xF0 ==> b >= 0x90) && (a == 0xF4 ==> b <= 0x8F)),
{
    let cp = vstd::utf8::codepoint_width_4(a, b, c, d);
    assert(cp == ((((a & 0x07) as u32) << 18u32) | (((b & 0x3f) as u32) << 12u32) | (((c & 0x3f)
        as u32) << 6u32) | ((d & 0x3f) as u32)));
    assert(({
        let v = (((a & 0x07) as u32) << 18u32) | (((b & 0x3f) as u32) << 12u32) | (((c & 0x3f)
            as u32) << 6u32) | ((d & 0x3f) as u32);
        (0x10000 <= v && v <= 0x10FFFF) <==> (a <= 0xF4 && (a == 0xF0 ==> b >= 0x90) && (a == 0xF4
            ==> b <= 0x8F))
    })) by (bit_vector)
        requires
            0xF0 <= a <= 0xF7,
            0x80 <= b <= 0xBF,
            0x80 <= c <= 0xBF,
            0x80 <= d <= 0xBF,
    ;
}

/// A character is well-formed exactly when its bytes lie in the ranges that
/// [`scalar_len`] and [`second_fits`] give.
proof fn lemma_first_scalar(s: Seq<u8>)
    ensures
        vstd::utf8::valid_first_scalar(s) <==> {
            &&& s.len() > 0
            &&& 0 < scalar_len(s[0]) <= s.len()
            &&& starts_scalar(s, scalar_len(s[0]))
        },
        vstd::utf8::valid_first_scalar(s) ==> vstd::utf8::length_of_first_scalar(s) == scalar_len(
            s[0],
        ),
{
    if s.len() > 0 {
        let a = s[0];
        if a <= 0x7F {
            assert((a & 0x7F) as u32 <= 0x7F) by (bit_vector);
        } else if 0xC0 <= a <= 0xDF {
            if s.len() >= 2 && 0x80 <= s[1] <= 0xBF {
                lemma_width_2(a, s[1]);
            }
        } else if 0xE0 <= a <= 0xEF {
            if s.len() >= 3 && 0x80 <= s[1] <= 0xBF && 0x80 <= s[2] <= 0xBF {
                lemma_width_3(a, s[1], s[2]);
            }
        } else if 0xF0 <= a <= 0xF7 {
            if s.len() >= 4 && 0x80 <= s[1] <= 0xBF && 0x80 <= s[2] <= 0xBF && 0x80 <= s[3]
                <= 0xBF {
                lemma_width_4(a, s[1], s[2], s[3]);
            }
        }
    }
}

/// What the bytes of a slice are as UTF-8.
#[derive(Debug, Clone, Copy, PartialEq, Eq, Structural)]
pub enum Utf8Check {
    /// Well-formed.
    Valid,
    /// Well-formed up to a character that is cut off at the end.
    Cut { valid_up_to: usize },
    /// Not well-formed, whatever may follow.
    Malformed,
}

/// Check `bytes` for UTF-8.
pub fn check_utf8(bytes: &[u8]) -> (check: Utf8Check)
    ensures
        match check {
            Utf8Check::Valid => vstd::utf8::valid_utf8(bytes@),
            Utf8Check::Cut { valid_up_to } => {
                &&& valid_up_to < bytes@.len()
                &&& vstd::utf8::valid_utf8(bytes@.subrange(0, valid_up_to as int))
                &&& is_cut_scalar(bytes@.subrange(valid_up_to as int, bytes@.len() as int))
            },
            Utf8Check::Malformed => !is_utf8_prefix(bytes@),
        },
{
    let ghost s = bytes@;
    let ghost n = bytes@.len() as int;
    let mut i: usize = 0;
    assert(s.subrange(0, 0) =~= Seq::<u8>::empty());
    while i < bytes.len()
        invariant
            s == bytes@,
            n == s.len(),
            i <= n,
            vstd::utf8::valid_utf8(s.subrange(0, i as int)),
        decreases n - i,
    {
        let ghost tail = s.subrange(i as int, n);
        let lead: u8 = bytes[i];
        let have: usize = bytes.len() - i;
        let need: usize = if lead <= 0x7F {
            1
        } else if 0xC2 <= lead && lead <= 0xDF {
            2
        } else if 0xE0 <= lead && lead <= 0xEF {
            3
        } else if 0xF0 <= lead && lead <= 0xF4 {
            4
        } else {
            0
        };
        let second_ok: bool = need < 2 || have < 2 || {
            let second: u8 = bytes[i + 1];
            let low: u8 = if lead == 0xE0 {
                0xA0
            } else if lead == 0xF0 {
                0x90
            } else {
                0x80
            };
            let high: u8 = if lead == 0xED {
                0x9F
            } else if lead == 0xF4 {
                0x8F
            } else {
                0xBF
            };
            low <= second && second <= high
        };
        let third_ok: bool = need < 3 || have < 3 || (0x80 <= bytes[i + 2] && bytes[i + 2] <= 0xBF);
        let fourth_ok: bool = need < 4 || have < 4 || (0x80 <= bytes[i + 3] && bytes[i + 3] <= 0xBF);
        if need == 0 || !second_ok || !third_ok || !fourth_ok {
            proof {
                lemma_malformed(s, i as int);
            }
            return Utf8Check::Malformed;
        }
        if have < need {
            assert(tail[0] == lead);
            return Utf8Check::Cut { valid_up_to: i };
        }
        proof {
            lemma_first_scalar(tail);
            assert(starts_scalar(tail, need as int));
            vstd::utf8::partial_valid_utf8_extend(s, i as int);
        }
        i = i + need;
    }
    assert(s.subrange(0, n) =~= s);
    Utf8Check::Valid
}

/// A valid start followed by something that can start no character leads
/// nowhere.
proof fn lemma_malformed(s: Seq<u8>, i: int)
    requires
        0 <= i < s.len(),
        vstd::utf8::valid_utf8(s.subrange(0, i)),
        ({
            let tail = s.subrange(i, s.len() as int);
            let need = scalar_len(tail[0]);
            !(need > 0 && starts_scalar(
                tail,
                if need <= tail.len() {
                    need
                } else {
                    tail.len() as int
                },
            ))
        }),
    ensures
        !is_utf8_prefix(s),
{
    let tail = s.subrange(i, s.len() as int);
    assert forall|more: Seq<u8>| !#[trigger] vstd::utf8::valid_utf8(s + more) by {
        let t = s + more;
        let rest = t.subrange(i, t.len() as int);
        assert(t.subrange(0, i) =~= s.subrange(0, i));
        assert(rest =~= tail + more);
        assert(forall|k: int| 0 <= k < tail.len() ==> rest[k] == tail[k]);
        lemma_first_scalar(rest);
        assert(!vstd::utf8::valid_first_scalar(rest));
        assert(!vstd::utf8::valid_utf8(rest));
        vstd::utf8::partial_valid_partial_invalid_utf8(t, i);
    }
}

/// Where valid bytes are followed by others, the whole is valid exactly when
/// the others are.
pub proof fn lemma_valid_after(s: Seq<u8>, i: int)
    requires
        0 <= i <= s.len(),
        vstd::utf8::valid_utf8(s.subrange(0, i)),
    ensures
        vstd::utf8::valid_utf8(s) == vstd::utf8::valid_utf8(s.subrange(i, s.len() as int)),
{
    let rest = s.subrange(i, s.len() as int);
    if vstd::utf8::valid_utf8(rest) {
        vstd::utf8::valid_utf8_concat(s.subrange(0, i), rest);
        assert(s.subrange(0, i) + rest =~= s);
    } else {
        vstd::utf8::partial_valid_partial_invalid_utf8(s, i);
    }
}

/// A cut character is not valid as it stands.
pub proof fn lemma_cut_invalid(s: Seq<u8>)
    requires
        is_cut_scalar(s),
    ensures
        !vstd::utf8::valid_utf8(s),
{
    lemma_first_scalar(s);
}

/// Continuation bytes complete a cut character.
pub proof fn lemma_cut_completes(s: Seq<u8>) -> (more: Seq<u8>)
    requires
        is_cut_scalar(s),
    ensures
        vstd::utf8::valid_utf8(s + more),
{
    let need = scalar_len(s[0]);
    // The first two continuation bytes that fit after any lead, then others.
    let second: u8 = if s[0] == 0xE0 || s[0] == 0xF0 {
        0xA0
    } else {
        0x80
    };
    let more = Seq::new(
        (need - s.len()) as nat,
        |k: int|
            if k + s.len() == 1 {
                second
            } else {
                0x80u8
            },
    );
    let t = s + more;
    assert(t.len() == need);
    lemma_first_scalar(t);
    assert(vstd::utf8::valid_first_scalar(t));
    reveal_with_fuel(vstd::utf8::valid_utf8, 2);
    assert(vstd::utf8::pop_first_scalar(t) =~= Seq::<u8>::empty());
    more
}

/// Whether `probe` is well-formed UTF-8, tolerating a single incomplete
/// multi-byte sequence at the very end of the slice.
pub fn probe_is_well_formed_utf8(probe: &[u8]) -> (well_formed: bool)
    ensures
        well_formed == is_utf8_prefix(probe@),
{
    let check = check_utf8(probe);
    proof {
        let s = probe@;
        match check {
            Utf8Check::Valid => {
                assert(s + Seq::<u8>::empty() =~= s);
            },
            Utf8Check::Cut { valid_up_to } => {
                let v = valid_up_to as int;
                let tail = s.subrange(v, s.len() as int);
                let more = lemma_cut_completes(tail);
                let t = s + more;
                assert(t.subrange(0, v) =~= s.subrange(0, v));
                assert(t.subrange(v, t.len() as int) =~= tail + more);
                lemma_valid_after(t, v);
            },
            Utf8Check::Malformed => {},
        }
    }
    match check {
        Utf8Check::Malformed => false,
        _ => true,
    }
}

/// Whether `bytes` are well-formed UTF-8.
pub(crate) fn is_well_formed_utf8(bytes: &[u8]) -> (well_formed: bool)
    ensures
        well_formed == vstd::utf8::valid_utf8(bytes@),
{
    let check = check_utf8(bytes);
    proof {
        let s = bytes@;
        match check {
            Utf8Check::Valid => {},
            Utf8Check::Cut { valid_up_to } => {
                let v = valid_up_to as int;
                lemma_valid_after(s, v);
                lemma_cut_invalid(s.subrange(v, s.len() as int));
            },
            Utf8Check::Malformed => {
                assert(s + Seq::<u8>::empty() =~= s);
            },
        }
    }
    match check {
        Utf8Check::Valid => true,
        _ => false,
    }
}

/// Valid bytes that go on past `v`, where a character starts, hold all of it.
proof fn lemma_cut_at(c: Seq<u8>, v: int, k: int)
    requires
        0 <= v < k <= c.len(),
        vstd::utf8::valid_utf8(c.subrange(0, v)),
        vstd::utf8::valid_utf8(c.take(k)),
    ensures
        v + scalar_len(c[v]) <= k,
        vstd::utf8::valid_utf8(c.subrange(v, v + scalar_len(c[v]))),
{
    let t = c.take(k);
    let rest = t.subrange(v, k);
    let need = scalar_len(c[v]);
    assert(t.subrange(0, v) =~= c.subrange(0, v));
    lemma_valid_after(t, v);
    assert(rest[0] == c[v]);
    lemma_first_scalar(rest);
    let one = c.subrange(v, v + need);
    assert(one =~= rest.take(need));
    lemma_first_scalar(one);
    reveal_with_fuel(vstd::utf8::valid_utf8, 2);
    assert(vstd::utf8::pop_first_scalar(one) =~= Seq::<u8>::empty());
}

/// Whether the first `n` bytes of `c` are well-formed UTF-8, or become so with
/// the up to three bytes that follow them in `c`.
pub open spec fn is_utf8_up_to(c: Seq<u8>, n: int) -> bool {
    exists|k: int|
        n <= k <= n + 3 && k <= c.len() && #[trigger] vstd::utf8::valid_utf8(c.take(k))
}

/// However many bytes of well-formed UTF-8 are looked at, no more than three
/// further ones complete the last character.
pub proof fn lemma_valid_up_to_any(c: Seq<u8>, n: int)
    requires
        vstd::utf8::valid_utf8(c),
        0 <= n <= c.len(),
    ensures
        is_utf8_up_to(c, n),
    decreases c.len(),
{
    if n == 0 {
        assert(c.take(0) =~= Seq::<u8>::empty());
        assert(vstd::utf8::valid_utf8(c.take(0)));
    } else {
        lemma_first_scalar(c);
        let w = scalar_len(c[0]);
        let first = c.take(w);
        assert(first[0] == c[0]);
        lemma_first_scalar(first);
        reveal_with_fuel(vstd::utf8::valid_utf8, 2);
        assert(vstd::utf8::pop_first_scalar(first) =~= Seq::<u8>::empty());
        assert(vstd::utf8::valid_utf8(first));
        if n > w {
            let rest = c.subrange(w, c.len() as int);
            lemma_valid_up_to_any(rest, n - w);
            let k = choose|k: int|
                n - w <= k <= n - w + 3 && k <= rest.len() && #[trigger] vstd::utf8::valid_utf8(
                    rest.take(k),
                );
            let t = c.take(w + k);
            assert(t.subrange(0, w) =~= first);
            assert(t.subrange(w, w + k) =~= rest.take(k));
            lemma_valid_after(t, w);
        }
    }
}

/// Whether `probe`, which `branch` starts with, is well-formed UTF-8; a
/// character that is cut off at its end must be completed by the bytes that
/// follow it in the branch.
pub(crate) fn prefix_is_well_formed_utf8(branch: &Branch, probe: &[u8]) -> (well_formed: bool)
    requires
        probe@.len() <= branch@.len(),
        probe@ == branch@.take(probe@.len() as int),
    ensures
        well_formed == is_utf8_up_to(branch@, probe@.len() as int),
{
    let ghost c = branch@;
    let ghost n = probe@.len() as int;
    let branch_len: u64 = branch.byte_len();
    match check_utf8(probe) {
        Utf8Check::Valid => {
            assert(vstd::utf8::valid_utf8(c.take(n)));
            true
        },
        Utf8Check::Malformed => {
            proof {
                assert forall|k: int| n <= k <= n + 3 && k <= c.len() implies
                    !#[trigger] vstd::utf8::valid_utf8(c.take(k)) by {
                    assert(c.take(k) =~= probe@ + c.subrange(n, k));
                }
            }
            false
        },
        Utf8Check::Cut { valid_up_to } => {
            let ghost v = valid_up_to as int;
            let ghost tail = probe@.subrange(v, n);
            assert(tail[0] == probe@[v]);
            assert(probe@.subrange(0, v) =~= c.subrange(0, v));
            let lead: u8 = probe[valid_up_to];
            let have: usize = probe.len() - valid_up_to;
            let need: usize = if lead <= 0xDF {
                2
            } else if lead <= 0xEF {
                3
            } else {
                4
            };
            let mut completed = vstd::slice::slice_to_vec(
                slice_subrange(probe, valid_up_to, probe.len()),
            );
            let mut extra = branch.read_at(probe.len() as u64, need - have);
            completed.append(&mut extra);
            proof {
                assert(need == scalar_len(tail[0]));
                let end = if n + need - have <= c.len() {
                    n + need - have
                } else {
                    c.len() as int
                };
                assert(completed@ =~= c.subrange(v, end));
            }
            if completed.len() < need {
                proof {
                    assert forall|k: int| n <= k <= n + 3 && k <= c.len() implies
                        !#[trigger] vstd::utf8::valid_utf8(c.take(k)) by {
                        if vstd::utf8::valid_utf8(c.take(k)) {
                            lemma_cut_at(c, v, k);
                        }
                    }
                }
                return false;
            }
            let result: bool = is_well_formed_utf8(completed.as_slice());
            proof {
                let full = v + need;
                if result {
                    let t = c.take(full);
                    assert(t.subrange(0, v) =~= probe@.subrange(0, v));
                    assert(t.subrange(v, full) =~= completed@);
                    lemma_valid_after(t, v);
                    assert(n <= full <= n + 3);
                } else {
                    assert forall|k: int| n <= k <= n + 3 && k <= c.len() implies
                        !#[trigger] vstd::utf8::valid_utf8(c.take(k)) by {
                        if vstd::utf8::valid_utf8(c.take(k)) {
                            lemma_cut_at(c, v, k);
                            assert(c.subrange(v, full) =~= completed@);
                        }
                    }
                }
            }
            result
        },
    }
}

/// How many bytes of a branch are validated at a time.
const CHUNK_LEN: u64 = 131072;

/// Whether `bytes` hold a zero byte.
pub(crate) fn contains_nul(bytes: &[u8]) -> (found: bool)
    ensures
        found == bytes@.contains(0),
{
    let mut i: usize = 0;
    while i < bytes.len()
        invariant
            i <= bytes@.len(),
            forall|j: int| 0 <= j < i ==> bytes@[j] != 0,
        decreases bytes@.len() - i,
    {
        if bytes[i] == 0 {
            assert(bytes@[i as int] == 0);
            return true;
        }
        i = i + 1;
    }
    false
}

/// Whether the first `n` bytes of `c` hold no zero byte.
spec fn nul_free(c: Seq<u8>, n: int) -> bool {
    forall|j: int| 0 <= j < n ==> c[j] != 0
}

proof fn lemma_nul_free_extends(c: Seq<u8>, n: int, fresh: Seq<u8>)
    requires
        0 <= n,
        n + fresh.len() <= c.len(),
        nul_free(c, n),
        fresh == c.subrange(n, n + fresh.len()),
    ensures
        fresh.contains(0) ==> c.contains(0),
        !fresh.contains(0) ==> nul_free(c, n + fresh.len()),
{
    if fresh.contains(0) {
        let j = choose|j: int| 0 <= j < fresh.len() && fresh[j] == 0;
        assert(c[n + j] == 0);
    } else {
        assert forall|j: int| 0 <= j < n + fresh.len() implies c[j] != 0 by {
            if j >= n {
                assert(fresh[j - n] == c[j]);
            }
        }
    }
}

/// Whether the first `n` bytes of `c` are well-formed UTF-8.
#[verifier::opaque]
spec fn valid_to(c: Seq<u8>, n: int) -> bool {
    vstd::utf8::valid_utf8(c.subrange(0, n))
}

/// What becomes of bytes that were carried over and read after `from`.
proof fn lemma_checked(c: Seq<u8>, from: int, data: Seq<u8>, check: Utf8Check)
    requires
        0 <= from,
        from + data.len() <= c.len(),
        data == c.subrange(from, from + data.len()),
        valid_to(c, from),
        match check {
            Utf8Check::Valid => vstd::utf8::valid_utf8(data),
            Utf8Check::Cut { valid_up_to } => {
                &&& valid_up_to < data.len()
                &&& vstd::utf8::valid_utf8(data.subrange(0, valid_up_to as int))
            },
            Utf8Check::Malformed => !is_utf8_prefix(data),
        },
    ensures
        match check {
            Utf8Check::Valid => valid_to(c, from + data.len()),
            Utf8Check::Cut { valid_up_to } => valid_to(c, from + valid_up_to),
            Utf8Check::Malformed => !vstd::utf8::valid_utf8(c),
        },
{
    reveal(valid_to);
    match check {
        Utf8Check::Malformed => {
            let rest = c.subrange(from, c.len() as int);
            assert(rest =~= data + c.subrange(from + data.len(), c.len() as int));
            lemma_valid_after(c, from);
        },
        _ => {
            let v = match check {
                Utf8Check::Cut { valid_up_to } => valid_up_to as int,
                _ => data.len() as int,
            };
            let t = c.subrange(0, from + v);
            assert(t.subrange(0, from) =~= c.subrange(0, from));
            assert(t.subrange(from, from + v) =~= data.subrange(0, v));
            assert(data.subrange(0, data.len() as int) =~= data);
            lemma_valid_after(t, from);
        },
    }
}

/// Whether the entire branch is well-formed UTF-8 and contains no NUL bytes.
///
/// The branch is read in fixed chunks; a character that straddles a chunk
/// boundary is carried over to the next chunk.
pub fn branch_is_well_formed_utf8(branch: &Branch) -> (well_formed: bool)
    ensures
        well_formed == (vstd::utf8::valid_utf8(branch@) && !branch@.contains(0)),
{
    let ghost c = branch@;
    let len: u64 = branch.byte_len();
    let mut carry: Vec<u8> = Vec::new();
    let mut offset: u64 = 0;
    proof {
        reveal(valid_to);
        assert(c.subrange(0, 0) =~= Seq::<u8>::empty());
    }
    while offset < len
        invariant
            c == branch@,
            len == c.len(),
            len <= isize::MAX,
            offset <= len,
            carry@.len() <= offset,
            carry@ == c.subrange(offset - carry@.len(), offset as int),
            valid_to(c, offset - carry@.len()),
            carry@.len() > 0 ==> is_cut_scalar(carry@),
            nul_free(c, offset as int),
        decreases len - offset,
    {
        let ghost from = offset - carry@.len();
        let want: u64 = if len - offset < CHUNK_LEN {
            len - offset
        } else {
            CHUNK_LEN
        };
        let mut fresh = branch.read_at(offset, want as usize);
        proof {
            lemma_nul_free_extends(c, offset as int, fresh@);
        }
        if contains_nul(fresh.as_slice()) {
            return false;
        }
        offset = offset + want;
        let mut data: Vec<u8> = Vec::new();
        data.append(&mut carry);
        data.append(&mut fresh);
        assert(data@ =~= c.subrange(from, offset as int));
        let check = check_utf8(data.as_slice());
        proof {
            lemma_checked(c, from, data@, check);
        }
        match check {
            Utf8Check::Valid => {
                carry = Vec::new();
                assert(carry@ =~= c.subrange(offset as int, offset as int));
            },
            Utf8Check::Malformed => {
                return false;
            },
            Utf8Check::Cut { valid_up_to } => {
                carry = data.split_off(valid_up_to);
                assert(carry@ =~= c.subrange(offset - carry@.len(), offset as int));
            },
        }
    }
    proof {
        let from = offset - carry@.len();
        reveal(valid_to);
        lemma_valid_after(c, from);
        if carry@.len() > 0 {
            lemma_cut_invalid(carry@);
        } else {
            assert(c.subrange(from, len as int) =~= Seq::<u8>::empty());
        }
    }
    carry.len() == 0
}

} // verus!
