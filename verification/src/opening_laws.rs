//! What opening a source comes to, said of its bytes: `\n` is 10 and `\r` is 13.

use vstd::prelude::*;

use crate::branch::Branch;
use crate::buffer::{Buffer, BufferError};
use crate::chars::{Chars, CharsError};
use crate::codec;
use crate::codec::Encoding;
use crate::encoding;
use crate::encoding::{
    detect_bom, BomPolicy, BomResult, DecodeErrorPolicy, LineEnding, SourceConfig,
};
use crate::lines::{Lines, LinesError};
use crate::source;
use crate::source::{Source, SourceError};
use crate::text;
use crate::text_laws;

verus! {

/// A branch is opened in the given encoding, unless that can only be decoded.
pub proof fn lemma_opened_as_told(
    branch: Branch,
    config: SourceConfig,
    encoding: Encoding,
    bom_len: usize,
    opened: Result<Source, SourceError>,
)
    requires
        call_ensures(Source::open_as, (branch, config, encoding, bom_len), opened),
    ensures
        opened is Ok <==> encoding != Encoding::Replacement,
        opened is Ok ==> {
            let s = opened->Ok_0;
            &&& s.source_branch() == branch
            &&& s.source_encoding() == encoding
            &&& s.source_bom_len() == bom_len
        },
        opened is Err ==> opened->Err_0 is EncodeDecodeAsymmetry && opened->Err_0->encoding_name@
            == codec::encoding_name(Encoding::Replacement),
{
}

/// The line ending of a source that is no longer than its probe, in a superset
/// of ASCII: a kind of terminator that occurs in what comes after the byte-order
/// mark, from its first byte to its last, at least as often as any other; the
/// preferred kind where it is one of those, else the first of them to appear;
/// and without any terminator the preferred kind, or `\n`.
pub proof fn lemma_line_ending_is_the_majority(
    branch: Branch,
    config: SourceConfig,
    encoding: Encoding,
    bom_len: usize,
    opened: Result<Source, SourceError>,
)
    requires
        call_ensures(Source::open_as, (branch, config, encoding, bom_len), opened),
        opened is Ok,
        codec::is_ascii_superset(encoding),
        bom_len <= branch@.len() <= config.probe_len,
    ensures
        ({
            let c = branch@.skip(bom_len as int);
            let all = text::endings(c, 0, c.len() as int);
            let votes = all.to_multiset();
            let e = opened->Ok_0.source_line_ending();
            let preferred = config.line_ending_default;
            if forall|p: int| 0 <= p < c.len() ==> #[trigger] c[p] != 10 && c[p] != 13 {
                e == (if preferred is Some {
                    preferred->0
                } else {
                    LineEnding::Lf
                })
            } else {
                &&& votes.count(e) > 0
                &&& forall|f: LineEnding| #[trigger] votes.count(f) <= votes.count(e)
                &&& preferred is Some && votes.count(preferred->0) == votes.count(e) ==> e
                    == preferred->0
                &&& (preferred is Some && votes.count(preferred->0) == votes.count(e)) || exists|i: int|
                    {
                        &&& 0 <= i < all.len()
                        &&& #[trigger] all[i] == e
                        &&& forall|j: int|
                            0 <= j < i ==> votes.count(#[trigger] all[j]) < votes.count(e)
                    }
            }
        }),
{
    let c = branch@.skip(bom_len as int);
    assert(branch@.take(branch@.len() as int) =~= branch@);
    lemma_line_ending_is_voted(branch, config, encoding, bom_len, opened, c);
}

/// The line ending of any source, which is that of its probe: of the first
/// `probe_len` bytes, or 3 if that is less, without the byte-order mark, and
/// decoded where the encoding is no superset of ASCII.
pub proof fn lemma_line_ending_is_voted(
    branch: Branch,
    config: SourceConfig,
    encoding: Encoding,
    bom_len: usize,
    opened: Result<Source, SourceError>,
    c: Seq<u8>,
)
    requires
        call_ensures(Source::open_as, (branch, config, encoding, bom_len), opened),
        opened is Ok,
        ({
            let wanted = if config.probe_len < 3 {
                3int
            } else {
                config.probe_len as int
            };
            let probe = if wanted <= branch@.len() {
                branch@.take(wanted)
            } else {
                branch@
            };
            let content = probe.skip(bom_len as int);
            c == if codec::is_ascii_superset(encoding) {
                content
            } else {
                vstd::utf8::encode_utf8(
                    codec::decoder_output(codec::encoding_name(encoding), content, true),
                )
            }
        }),
    ensures
        ({
            let all = text::endings(c, 0, c.len() as int);
            let votes = all.to_multiset();
            let e = opened->Ok_0.source_line_ending();
            let preferred = config.line_ending_default;
            if forall|p: int| 0 <= p < c.len() ==> #[trigger] c[p] != 10 && c[p] != 13 {
                e == (if preferred is Some {
                    preferred->0
                } else {
                    LineEnding::Lf
                })
            } else {
                &&& votes.count(e) > 0
                &&& forall|f: LineEnding| #[trigger] votes.count(f) <= votes.count(e)
                &&& preferred is Some && votes.count(preferred->0) == votes.count(e) ==> e
                    == preferred->0
                &&& (preferred is Some && votes.count(preferred->0) == votes.count(e)) || exists|i: int|
                    {
                        &&& 0 <= i < all.len()
                        &&& #[trigger] all[i] == e
                        &&& forall|j: int|
                            0 <= j < i ==> votes.count(#[trigger] all[j]) < votes.count(e)
                    }
            }
        }),
{
    let preferred = config.line_ending_default;
    assert(branch@.take(branch@.len() as int) =~= branch@);
    assert(source::voting_bytes(branch@, config, encoding, bom_len as int) == c);
    let winner = text::dominant_ending(text::endings(c, 0, c.len() as int), preferred);
    text_laws::lemma_majority(c, preferred, winner);
}

/// A byte-order mark at the start is honoured whatever else the configuration
/// says, unless it says to ignore it.
pub proof fn lemma_bom_decides(
    branch: Branch,
    config: SourceConfig,
    opened: Result<Source, SourceError>,
)
    requires
        call_ensures(Source::new, (branch, config), opened),
        config.bom_policy == BomPolicy::Honour,
    ensures
        ({
            let c = branch@;
            let s = opened->Ok_0;
            &&& c.len() >= 3 && c[0] == 0xEF && c[1] == 0xBB && c[2] == 0xBF ==> opened is Ok
                && s.source_encoding() == Encoding::Utf8 && s.source_bom_len() == 3
            &&& c.len() >= 2 && c[0] == 0xFF && c[1] == 0xFE ==> opened is Ok && s.source_encoding()
                == Encoding::Utf16Le && s.source_bom_len() == 2
            &&& c.len() >= 2 && c[0] == 0xFE && c[1] == 0xFF ==> opened is Ok && s.source_encoding()
                == Encoding::Utf16Be && s.source_bom_len() == 2
            &&& opened is Ok ==> s.source_branch() == branch && (s.source_bom_len() == 0
                || s.source_bom_len() == 2 || s.source_bom_len() == 3)
        }),
{
}

/// Without a byte-order mark, or where it is ignored, nothing is skipped and the
/// hint decides; without a hint, text that is UTF-8 and holds no NUL is UTF-8 if
/// that is preferred, and all else is what the detector says of the probe: text
/// that is not UTF-8 in the probe, or, on request, anywhere, and text with a NUL.
pub proof fn lemma_encoding_without_bom(
    branch: Branch,
    config: SourceConfig,
    opened: Result<Source, SourceError>,
    probe: Seq<u8>,
)
    requires
        call_ensures(Source::new, (branch, config), opened),
        config.bom_policy == BomPolicy::Ignore || ({
            let c = branch@;
            &&& !(c.len() >= 3 && c[0] == 0xEF && c[1] == 0xBB && c[2] == 0xBF)
            &&& !(c.len() >= 2 && c[0] == 0xFF && c[1] == 0xFE)
            &&& !(c.len() >= 2 && c[0] == 0xFE && c[1] == 0xFF)
        }),
        ({
            let wanted = if config.probe_len < 3 {
                3int
            } else {
                config.probe_len as int
            };
            probe == if wanted <= branch@.len() {
                branch@.take(wanted)
            } else {
                branch@
            }
        }),
    ensures
        ({
            let c = branch@;
            let s = opened->Ok_0;
            let guess = codec::encoding_named(encoding::guessed_name(seq![(probe, true)], true));
            &&& opened is Ok ==> s.source_bom_len() == 0 && s.source_branch() == branch
            &&& opened is Err ==> opened->Err_0 is EncodeDecodeAsymmetry
            &&& config.encoding_hint is Some ==> {
                &&& opened is Ok <==> config.encoding_hint->0 != Encoding::Replacement
                &&& opened is Ok ==> s.source_encoding() == config.encoding_hint->0
            }
            &&& config.encoding_hint is None && config.prefer_utf8_when_valid
                && vstd::utf8::valid_utf8(c) && (forall|i: int|
                0 <= i < c.len() ==> #[trigger] c[i] != 0) ==> opened is Ok && s.source_encoding()
                == Encoding::Utf8
            &&& config.encoding_hint is None && (!config.prefer_utf8_when_valid || (exists|i: int|
                0 <= i < probe.len() && #[trigger] probe[i] == 0) || (probe.len() == c.len()
                && !vstd::utf8::valid_utf8(c)) || (config.validate_full_stream_utf8 && (
            !vstd::utf8::valid_utf8(c) || exists|i: int| 0 <= i < c.len() && #[trigger] c[i] == 0)))
                ==> {
                &&& opened is Ok <==> guess != Encoding::Replacement
                &&& opened is Ok ==> s.source_encoding() == guess
            }
            &&& config.encoding_hint is None && config.prefer_utf8_when_valid && probe.len()
                < c.len() && !config.validate_full_stream_utf8 && (forall|i: int|
                0 <= i < probe.len() ==> #[trigger] probe[i] != 0) && (exists|k: int|
                probe.len() <= k <= probe.len() + 3 && k <= c.len()
                    && #[trigger] vstd::utf8::valid_utf8(c.take(k))) ==> opened is Ok && s.source_encoding() == Encoding::Utf8
            &&& config.encoding_hint is None && probe.len() < c.len() && !(exists|k: int|
                probe.len() <= k <= probe.len() + 3 && k <= c.len()
                    && #[trigger] vstd::utf8::valid_utf8(c.take(k))) ==> (opened is Ok ==> s.source_encoding() == guess)
        }),
{
    let c = branch@;
    assert(c.take(c.len() as int) =~= c);
    assert(source::probe_of(c, config) == probe);
    let guess = source::guessed_encoding(c, config);
    if config.prefer_utf8_when_valid && config.encoding_hint is None && vstd::utf8::valid_utf8(c)
        && !c.contains(0) {
        source::lemma_utf8_is_recognised(c, config, guess);
    }
    assert(c.contains(0) <==> exists|i: int| 0 <= i < c.len() && #[trigger] c[i] == 0);
    assert(probe.contains(0) <==> exists|i: int| 0 <= i < probe.len() && #[trigger] probe[i] == 0);
}

/// What is opened by its bytes alone is what is opened when told the encoding and
/// the byte-order mark that were found.
pub proof fn lemma_opened_again_as_found(
    branch: Branch,
    config: SourceConfig,
    opened: Result<Source, SourceError>,
    bom_len: usize,
    again: Result<Source, SourceError>,
)
    requires
        call_ensures(Source::new, (branch, config), opened),
        opened is Ok,
        bom_len == opened->Ok_0.source_bom_len(),
        call_ensures(
            Source::open_as,
            (branch, config, opened->Ok_0.source_encoding(), bom_len),
            again,
        ),
    ensures
        again is Ok,
        again->Ok_0.source_branch() == opened->Ok_0.source_branch(),
        again->Ok_0.source_encoding() == opened->Ok_0.source_encoding(),
        again->Ok_0.source_bom_len() == opened->Ok_0.source_bom_len(),
        again->Ok_0.source_line_ending() == opened->Ok_0.source_line_ending(),
{
}

/// A byte-order mark is one of three.
pub proof fn lemma_marks_are_detected(probe: &[u8], bom: BomResult)
    requires
        call_ensures(detect_bom, (probe,), bom),
    ensures
        ({
            let c = probe@;
            &&& c.len() >= 3 && c[0] == 0xEF && c[1] == 0xBB && c[2] == 0xBF ==> bom.encoding == Some(
                Encoding::Utf8,
            ) && bom.bom_len == 3
            &&& c.len() >= 2 && c[0] == 0xFF && c[1] == 0xFE ==> bom.encoding == Some(
                Encoding::Utf16Le,
            ) && bom.bom_len == 2
            &&& c.len() >= 2 && c[0] == 0xFE && c[1] == 0xFF ==> bom.encoding == Some(
                Encoding::Utf16Be,
            ) && bom.bom_len == 2
            &&& !(c.len() >= 3 && c[0] == 0xEF && c[1] == 0xBB && c[2] == 0xBF) && !(c.len() >= 2
                && c[0] == 0xFF && c[1] == 0xFE) && !(c.len() >= 2 && c[0] == 0xFE && c[1] == 0xFF)
                ==> bom.encoding is None && bom.bom_len == 0
        }),
{
}

/// What a source is opened with by default.
pub proof fn lemma_defaults(config: SourceConfig)
    requires
        call_ensures(SourceConfig::default, (), config),
    ensures
        config.encoding_hint is None,
        config.bom_policy == BomPolicy::Honour,
        config.decode_error_policy == DecodeErrorPolicy::Substitute,
        config.line_ending_default is None,
        config.probe_len == 8192,
        config.prefer_utf8_when_valid,
        !config.validate_full_stream_utf8,
{
}

/// Characters are read from what was opened.
pub proof fn lemma_chars_of_a_source(opened: Source, made: Result<Chars, CharsError>)
    requires
        call_ensures(Source::as_chars, (opened,), made),
    ensures
        made is Ok,
        made->Ok_0.source_branch() == opened.source_branch(),
        made->Ok_0.source_encoding() == opened.source_encoding(),
        made->Ok_0.source_line_ending() == opened.source_line_ending(),
        made->Ok_0.source_bom_len() == opened.source_bom_len(),
{
}

/// Lines are read from what was opened, from after the byte-order mark on, and
/// views of up to 64 MiB are made.
pub proof fn lemma_lines_of_a_source(opened: Source, made: Result<Lines, LinesError>)
    requires
        call_ensures(Source::as_lines, (opened,), made),
    ensures
        made is Ok,
        made->Ok_0.source_branch() == opened.source_branch(),
        made->Ok_0.source_encoding() == opened.source_encoding(),
        made->Ok_0.source_line_ending() == opened.source_line_ending(),
        made->Ok_0.remaining() == opened.source_branch()@.skip(opened.source_bom_len()),
        made->Ok_0.position() == opened.source_bom_len(),
        made->Ok_0.ceiling() == 67108864,
{
}

/// A buffer holds what was opened, unless that is UTF-16, which it cannot write
/// back; views of up to 64 MiB are made, and nothing is scanned.
pub proof fn lemma_buffer_of_a_source(opened: Source, made: Result<Buffer, BufferError>)
    requires
        call_ensures(Source::as_buffer, (opened,), made),
    ensures
        made is Err <==> opened.source_encoding() == Encoding::Utf16Le || opened.source_encoding()
            == Encoding::Utf16Be,
        made is Err ==> made->Err_0 is EncodeUnsupported && made->Err_0->encoding_name@
            == codec::encoding_name(opened.source_encoding()),
        made is Ok ==> {
            let b = made->Ok_0;
            &&& b.source_branch() == opened.source_branch()
            &&& b.source_encoding() == opened.source_encoding()
            &&& b.source_bom_len() == opened.source_bom_len()
            &&& b.source_line_ending() == opened.source_line_ending()
            &&& b.ceiling() == 67108864
            &&& b.map().source() == opened.source_branch()
            &&& b.map().granularity() == 65536
            &&& b.map().progress() == 0
            &&& b.map().events() is None
        },
{
}

} // verus!
