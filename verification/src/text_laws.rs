//! Which bytes terminate lines, where lines start, and which kind of terminator
//! wins the vote, said of the bytes alone: `\n` is 10 and `\r` is 13.

use vstd::prelude::*;

use crate::encoding::{detect_line_ending, LineEnding};
use crate::text;

verus! {

/// A terminator begins at every `\r`, and at every `\n` that no `\r` precedes,
/// and nowhere else.
pub proof fn lemma_where_terminators_begin(c: Seq<u8>, a: int, b: int)
    requires
        0 <= a <= b <= c.len(),
    ensures
        text::endings(c, a, b).len() == text::breaks(c, a, b).len(),
        forall|i: int, j: int|
            0 <= i < j < text::breaks(c, a, b).len() ==> #[trigger] text::breaks(c, a, b)[i]
                < #[trigger] text::breaks(c, a, b)[j],
        forall|i: int|
            0 <= i < text::breaks(c, a, b).len() ==> {
                let p = #[trigger] text::breaks(c, a, b)[i];
                &&& a <= p < b
                &&& c[p] == 13 || (c[p] == 10 && !(p > 0 && c[p - 1] == 13))
            },
        forall|p: int|
            a <= p < b && (#[trigger] c[p] == 13 || (c[p] == 10 && !(p > 0 && c[p - 1] == 13)))
                ==> text::breaks(c, a, b).contains(p),
{
    text::lemma_breaks_sound(c, a, b);
    assert forall|p: int|
        a <= p < b && (#[trigger] c[p] == 13 || (c[p] == 10 && !(p > 0 && c[p - 1] == 13))) implies
        text::breaks(c, a, b).contains(p) by {
        text::lemma_breaks_complete(c, a, b, p);
    }
}

/// A `\n` on its own, a `\r` on its own and the two together are told apart.
pub proof fn lemma_kinds_of_terminators(c: Seq<u8>, a: int, b: int, i: int)
    requires
        0 <= a <= b <= c.len(),
        0 <= i < text::endings(c, a, b).len(),
    ensures
        ({
            let p = text::breaks(c, a, b)[i];
            text::endings(c, a, b)[i] == (if c[p] == 10 {
                LineEnding::Lf
            } else if p + 1 < c.len() && c[p + 1] == 10 {
                LineEnding::CrLf
            } else {
                LineEnding::Cr
            })
        }),
{
    text::lemma_breaks_sound(c, a, b);
}

/// The first line starts where the bytes do, and every other one right after a
/// terminator; one starts after each of them, in order.
pub proof fn lemma_where_lines_start(c: Seq<u8>)
    ensures
        text::line_start(c, 0) == 0,
        forall|i: int, j: int|
            0 <= i < j <= text::break_count(c) ==> #[trigger] text::line_start(c, i)
                < #[trigger] text::line_start(c, j),
        forall|i: int|
            0 < i <= text::break_count(c) ==> {
                let q = #[trigger] text::line_start(c, i);
                &&& 0 < q <= c.len()
                &&& c[q - 1] == 10 || (c[q - 1] == 13 && !(q < c.len() && c[q] == 10))
            },
        forall|q: int|
            0 < q <= c.len() && (#[trigger] c[q - 1] == 10 || (c[q - 1] == 13 && !(q < c.len()
                && c[q] == 10))) ==> exists|i: int|
                0 < i <= text::break_count(c) && #[trigger] text::line_start(c, i) == q,
{
    let n = c.len() as int;
    let b = text::breaks(c, 0, n);
    text::lemma_breaks_sound(c, 0, n);
    assert forall|i: int, j: int| 0 <= i < j <= text::break_count(c) implies
        #[trigger] text::line_start(c, i) < #[trigger] text::line_start(c, j) by {
        text::lemma_line_start_ascends(c, i, j);
    }
    assert forall|i: int| 0 < i <= text::break_count(c) implies {
        let q = #[trigger] text::line_start(c, i);
        &&& 0 < q <= c.len()
        &&& c[q - 1] == 10 || (c[q - 1] == 13 && !(q < c.len() && c[q] == 10))
    } by {
        assert(text::is_break(c, b[i - 1]));
    }
    assert forall|q: int|
        0 < q <= c.len() && (#[trigger] c[q - 1] == 10 || (c[q - 1] == 13 && !(q < c.len() && c[q]
            == 10))) implies exists|i: int|
        0 < i <= text::break_count(c) && #[trigger] text::line_start(c, i) == q by {
        let p = if c[q - 1] == 10 && q > 1 && c[q - 2] == 13 {
            q - 2
        } else {
            q - 1
        };
        assert(text::is_break(c, p));
        text::lemma_breaks_complete(c, 0, n, p);
        let k = choose|k: int| 0 <= k < b.len() && b[k] == p;
        assert(text::line_start(c, k + 1) == q);
    }
}

/// The line of an offset starts at or before it, right after a terminator or
/// where the bytes do, and no other line starts in between.
pub proof fn lemma_line_of_an_offset(c: Seq<u8>, offset: int, line: int, col: int)
    requires
        text::is_line_col(c, offset, line, col),
        offset < c.len() || (offset == 0 && c.len() == 0),
    ensures
        0 <= line <= text::break_count(c),
        0 <= col <= offset,
        text::line_start(c, line) == offset - col,
        line == 0 <==> offset == col,
        forall|q: int|
            offset - col < q <= offset ==> !(#[trigger] c[q - 1] == 10 || (c[q - 1] == 13 && !(q
                < c.len() && c[q] == 10))),
{
    lemma_where_lines_start(c);
    if line > 0 {
        text::lemma_line_start_ascends(c, 0, line);
    }
    assert forall|q: int| offset - col < q <= offset implies !(#[trigger] c[q - 1] == 10 || (c[q
        - 1] == 13 && !(q < c.len() && c[q] == 10))) by {
        if c[q - 1] == 10 || (c[q - 1] == 13 && !(q < c.len() && c[q] == 10)) {
            let i = choose|i: int|
                0 < i <= text::break_count(c) && #[trigger] text::line_start(c, i) == q;
            if i <= line {
                if i < line {
                    text::lemma_line_start_ascends(c, i, line);
                }
            } else if i > line + 1 {
                text::lemma_line_start_ascends(c, line + 1, i);
            }
        }
    }
}

/// Every terminator ends a line, and bytes after the last one are a line more.
pub proof fn lemma_how_many_lines(c: Seq<u8>)
    ensures
        text::break_count(c) == text::endings(c, 0, c.len() as int).len(),
        text::line_total(c) == text::break_count(c) + (if c.len() > 0 && c[c.len() - 1] != 10
            && c[c.len() - 1] != 13 {
            1nat
        } else {
            0nat
        }),
        text::break_count(c) == 0 <==> forall|p: int|
            0 <= p < c.len() ==> #[trigger] c[p] != 10 && c[p] != 13,
{
    let n = c.len() as int;
    lemma_where_terminators_begin(c, 0, n);
    if forall|p: int| 0 <= p < c.len() ==> #[trigger] c[p] != 10 && c[p] != 13 {
        text::lemma_no_endings(c, 0, n);
    } else {
        let p = choose|p: int| 0 <= p < c.len() && !(#[trigger] c[p] != 10 && c[p] != 13);
        let q = if c[p] == 10 && p > 0 && c[p - 1] == 13 {
            p - 1
        } else {
            p
        };
        assert(c[q] == 13 || c[q] == 10);
        assert(text::breaks(c, 0, n).contains(q));
    }
}

/// Counting a kind of terminator.
pub proof fn lemma_occurrences_counted(s: Seq<LineEnding>, e: LineEnding)
    ensures
        text::occurrences(s, e) == s.to_multiset().count(e),
    decreases s.len(),
{
    broadcast use vstd::seq_lib::group_to_multiset_ensures;

    if s.len() > 0 {
        lemma_occurrences_counted(s.drop_last(), e);
        assert(s =~= s.drop_last().push(s.last()));
    }
}

/// The kind that wins the vote over some bytes is none exactly where they hold
/// neither `\r` nor `\n`.  It occurs, and no kind occurs more often; where the
/// preferred kind occurs as often as any, it wins; else the winner is the first
/// to appear of those that occur most often.
pub proof fn lemma_majority(
    c: Seq<u8>,
    preferred: Option<LineEnding>,
    winner: Option<LineEnding>,
)
    requires
        winner == text::dominant_ending(text::endings(c, 0, c.len() as int), preferred),
    ensures
        winner is None <==> forall|p: int|
            0 <= p < c.len() ==> #[trigger] c[p] != 10 && c[p] != 13,
        ({
            let all = text::endings(c, 0, c.len() as int);
            let votes = all.to_multiset();
            winner matches Some(e) ==> {
                &&& votes.count(e) > 0
                &&& forall|f: LineEnding| #[trigger] votes.count(f) <= votes.count(e)
                &&& preferred is Some && votes.count(preferred->0) == votes.count(e) ==> e
                    == preferred->0
                &&& (preferred is Some && votes.count(preferred->0) == votes.count(e)) || exists|i: int|
                    {
                        &&& 0 <= i < all.len()
                        &&& #[trigger] all[i] == e
                        &&& forall|j: int|
                            0 <= j < i ==> votes.count(#[trigger] all[j]) < votes.count(e)
                    }
            }
        }),
{
    let all = text::endings(c, 0, c.len() as int);
    let votes = all.to_multiset();
    lemma_how_many_lines(c);
    text::lemma_dominant_ending_leads(all, preferred);
    assert forall|f: LineEnding| text::occurrences(all, f) == #[trigger] votes.count(f) by {
        lemma_occurrences_counted(all, f);
    }
    if let Some(e) = winner {
        assert forall|f: LineEnding| #[trigger] votes.count(f) <= votes.count(e) by {
            assert(text::occurrences(all, f) <= text::occurrences(all, e));
        }
        if let Some(d) = preferred {
            if votes.count(d) == votes.count(e) {
                assert(text::leads(all, d)) by {
                    assert forall|f: LineEnding| #[trigger]
                        text::occurrences(all, f) <= text::occurrences(all, d) by {
                        assert(votes.count(f) <= votes.count(e));
                    }
                }
            }
        }
        if !(preferred is Some && text::leads(all, preferred->0)) {
            let i = lemma_first_of_leaders(all, 0, e);
            assert forall|j: int| 0 <= j < i implies votes.count(#[trigger] all[j]) < votes.count(
                e,
            ) by {
                assert(!text::leads(all, all[j]));
                let f = choose|f: LineEnding|
                    !(#[trigger] text::occurrences(all, f) <= text::occurrences(all, all[j]));
                assert(votes.count(f) <= votes.count(e));
                assert(votes.count(all[j]) < votes.count(f));
            }
        }
    }
}

/// The same, from the call on.
pub proof fn lemma_vote_is_won(
    probe: &[u8],
    preferred: Option<LineEnding>,
    winner: Option<LineEnding>,
)
    requires
        call_ensures(detect_line_ending, (probe, preferred), winner),
    ensures
        winner is None <==> forall|p: int|
            0 <= p < probe@.len() ==> #[trigger] probe@[p] != 10 && probe@[p] != 13,
        ({
            let all = text::endings(probe@, 0, probe@.len() as int);
            let votes = all.to_multiset();
            winner matches Some(e) ==> {
                &&& votes.count(e) > 0
                &&& forall|f: LineEnding| #[trigger] votes.count(f) <= votes.count(e)
                &&& preferred is Some && votes.count(preferred->0) == votes.count(e) ==> e
                    == preferred->0
                &&& (preferred is Some && votes.count(preferred->0) == votes.count(e)) || exists|i: int|
                    {
                        &&& 0 <= i < all.len()
                        &&& #[trigger] all[i] == e
                        &&& forall|j: int|
                            0 <= j < i ==> votes.count(#[trigger] all[j]) < votes.count(e)
                    }
            }
        }),
{
    lemma_majority(probe@, preferred, winner);
}

proof fn lemma_first_of_leaders(s: Seq<LineEnding>, k: int, e: LineEnding) -> (i: int)
    requires
        0 <= k <= s.len(),
        text::first_leader(s, k) == e,
        text::leads(s, e),
        text::occurrences(s, e) > 0,
        forall|j: int| 0 <= j < k ==> !text::leads(s, #[trigger] s[j]),
    ensures
        0 <= i < s.len(),
        s[i] == e,
        forall|j: int| 0 <= j < i ==> !text::leads(s, #[trigger] s[j]),
    decreases s.len() - k,
{
    if k >= s.len() {
        lemma_occurrences_counted(s, e);
        broadcast use vstd::seq_lib::group_to_multiset_ensures;

        assert(s.contains(e));
        let m = choose|m: int| 0 <= m < s.len() && s[m] == e;
        assert(!text::leads(s, s[m]));
        0
    } else if text::leads(s, s[k]) {
        k
    } else {
        lemma_first_of_leaders(s, k + 1, e)
    }
}

} // verus!
