//! Line-ending conventions, encoding detection and the options for opening a
//! source.

use chardetng::EncodingDetector as ChardetngState;
use vstd::prelude::*;

use crate::codec;
use crate::codec::{sniff_bom, Encoding};
use crate::text;
use crate::text::{CR, LF};

verus! {

/// The line-terminator convention used by a source document or output stream.
///
/// The declaration order fixes the wire constants: `Lf` is 0, `CrLf` is 1 and
/// `Cr` is 2.
#[derive(Debug, Clone, Copy, PartialEq, Eq, Hash, Structural)]
pub enum LineEnding {
    /// Unix-style: a single `\n` (U+000A).
    Lf,
    /// Windows-style: `\r\n` (U+000D U+000A).
    CrLf,
    /// Legacy Mac (pre-OS X): a single `\r` (U+000D).
    Cr,
}

/// Detect the dominant line-ending convention in a byte slice.
///
/// 1. The kind with the highest count wins.
/// 2. When two or more kinds tie, `tiebreak_default` wins if it is one of the
///    tied kinds.
/// 3. Otherwise the tied kind that appears earliest in `probe` wins.
///
/// `\r\n` counts as one terminator.  Returns `None` when `probe` contains no
/// line terminators of any kind.
pub fn detect_line_ending(probe: &[u8], tiebreak_default: Option<LineEnding>) -> (winner: Option<
    LineEnding,
>)
    ensures
        winner == text::dominant_ending(
            text::endings(probe@, 0, probe@.len() as int),
            tiebreak_default,
        ),
{
    let ghost c = probe@;
    let ghost n = probe@.len() as int;
    let ghost all = text::endings(c, 0, n);
    let mut lf_count: u64 = 0;
    let mut crlf_count: u64 = 0;
    let mut cr_count: u64 = 0;
    let mut i: usize = 0;
    while i < probe.len()
        invariant
            c == probe@,
            n == c.len(),
            i <= n,
            lf_count <= i,
            crlf_count <= i,
            cr_count <= i,
            lf_count == text::occurrences(
                text::endings(c, 0, i as int),
                LineEnding::Lf,
            ),
            crlf_count == text::occurrences(
                text::endings(c, 0, i as int),
                LineEnding::CrLf,
            ),
            cr_count == text::occurrences(
                text::endings(c, 0, i as int),
                LineEnding::Cr,
            ),
            i < n && c[i as int] == LF ==> !(i > 0 && c[i - 1] == CR),
        decreases n - i,
    {
        proof {
            let before = text::endings(c, 0, i as int);
            let after = text::endings(c, 0, i + 1);
            if text::is_break(c, i as int) {
                assert(after =~= before.push(text::ending_at(c, i as int)));
                assert(after.drop_last() =~= before);
            } else {
                assert(after =~= before);
            }
            if i + 1 < n && c[i as int] == CR && c[i + 1] == LF {
                assert(text::endings(c, 0, i + 2) =~= after);
            }
        }
        let byte: u8 = probe[i];
        if byte == CR {
            if i + 1 < probe.len() && probe[i + 1] == LF {
                crlf_count = crlf_count + 1;
                i = i + 2;
            } else {
                cr_count = cr_count + 1;
                i = i + 1;
            }
        } else {
            if byte == LF {
                lf_count = lf_count + 1;
            }
            i = i + 1;
        }
    }
    if lf_count == 0 && crlf_count == 0 && cr_count == 0 {
        proof {
            if all.len() > 0 {
                assert(text::occurrences(all, all.last()) > 0);
            }
        }
        return None;
    }
    let lf_leads: bool = lf_count >= crlf_count && lf_count >= cr_count;
    let crlf_leads: bool = crlf_count >= lf_count && crlf_count >= cr_count;
    let cr_leads: bool = cr_count >= lf_count && cr_count >= crlf_count;
    assert(lf_leads == text::leads(all, LineEnding::Lf));
    assert(crlf_leads == text::leads(all, LineEnding::CrLf));
    assert(cr_leads == text::leads(all, LineEnding::Cr));
    assert(all.len() > 0);
    match tiebreak_default {
        Some(LineEnding::Lf) => {
            if lf_leads {
                return tiebreak_default;
            }
        },
        Some(LineEnding::CrLf) => {
            if crlf_leads {
                return tiebreak_default;
            }
        },
        Some(LineEnding::Cr) => {
            if cr_leads {
                return tiebreak_default;
            }
        },
        None => {},
    }
    Some(first_leading(probe, lf_leads, crlf_leads, cr_leads))
}

/// The first terminator of `probe` whose kind is one of the marked leaders.
fn first_leading(probe: &[u8], lf_leads: bool, crlf_leads: bool, cr_leads: bool) -> (winner:
    LineEnding)
    requires
        ({
            let all = text::endings(probe@, 0, probe@.len() as int);
            &&& lf_leads == text::leads(all, LineEnding::Lf)
            &&& crlf_leads == text::leads(all, LineEnding::CrLf)
            &&& cr_leads == text::leads(all, LineEnding::Cr)
        }),
    ensures
        winner == text::first_leader(
            text::endings(probe@, 0, probe@.len() as int),
            0,
        ),
{
    let ghost c = probe@;
    let ghost n = probe@.len() as int;
    let ghost all = text::endings(c, 0, n);
    let mut i: usize = 0;
    while i < probe.len()
        invariant
            c == probe@,
            n == c.len(),
            i <= n,
            all == text::endings(c, 0, n),
            lf_leads == text::leads(all, LineEnding::Lf),
            crlf_leads == text::leads(all, LineEnding::CrLf),
            cr_leads == text::leads(all, LineEnding::Cr),
            text::first_leader(all, 0) == text::first_leader(
                all,
                text::endings(c, 0, i as int).len() as int,
            ),
        decreases n - i,
    {
        let byte: u8 = probe[i];
        if byte == CR || (byte == LF && !(i > 0 && probe[i - 1] == CR)) {
            let ending: LineEnding = if byte == LF {
                LineEnding::Lf
            } else if i + 1 < probe.len() && probe[i + 1] == LF {
                LineEnding::CrLf
            } else {
                LineEnding::Cr
            };
            let leading: bool = match ending {
                LineEnding::Lf => lf_leads,
                LineEnding::CrLf => crlf_leads,
                LineEnding::Cr => cr_leads,
            };
            proof {
                let k = text::endings(c, 0, i as int).len() as int;
                text::lemma_breaks_split(c, 0, i as int, n);
                text::lemma_breaks_split(c, i as int, i + 1, n);
                assert(text::breaks(c, i as int, i as int).len() == 0);
                assert(text::breaks(c, i as int, i + 1) =~= seq![i as int]);
                assert(text::endings(c, i as int, i + 1)[0] == ending);
                assert(all[k] == ending);
                assert(text::endings(c, 0, i + 1).len() == k + 1);
            }
            if leading {
                return ending;
            }
        }
        i = i + 1;
    }
    LineEnding::Lf
}

/// How bytes that cannot be decoded in the detected encoding are handled, from
/// strictest to most permissive.
#[derive(Debug, Clone, Copy, PartialEq, Eq, Structural)]
pub enum DecodeErrorPolicy {
    /// Treat the first undecodable byte sequence as a hard error.
    Fatal,
    /// Replace every undecodable byte sequence with the Unicode replacement
    /// character U+FFFD and continue.
    Substitute,
    /// Scan the entire source up front and fail if any byte is undecodable.
    ValidateFirst,
    /// Re-run encoding detection each time a segment that cannot be decoded is
    /// encountered.
    ContinuousDetection,
}

/// Heuristic byte-stream encoding detection.
///
/// Implementations accumulate evidence by consuming byte slices via `feed`
/// and then produce a best guess on demand via `guess`.
pub trait EncodingDetector {
    /// Whether the detector still takes bytes.
    open spec fn takes_bytes(&self) -> bool {
        arbitrary()
    }

    /// Feed a slice of source bytes to the detector.
    ///
    /// Set `last` to `true` on the final call to signal end-of-stream; nothing
    /// may be fed after that.
    fn feed(&mut self, bytes: &[u8], last: bool)
        requires
            old(self).takes_bytes(),
        ensures
            final(self).takes_bytes() == !last,
    ;

    /// Return the best-guess encoding based on bytes fed so far; it is not
    /// UTF-8 unless `allow_utf8` is set.
    ///
    /// This method may be called multiple times as more bytes are fed.
    fn guess(&self, allow_utf8: bool) -> (encoding: Encoding)
        ensures
            !allow_utf8 ==> encoding != Encoding::Utf8,
    ;
}

/// The detector of chardetng.
#[verifier::external_type_specification]
#[verifier::external_body]
pub struct ExChardetngState(ChardetngState);

/// What a chardetng detector has been fed: every chunk, and whether it was
/// declared to be the last.
pub uninterp spec fn detector_chunks(detector: &ChardetngState) -> Seq<
    (Seq<u8>, bool),
>;

/// The name of the encoding that chardetng guesses, without a hint from a
/// domain name, after being fed `chunks`.
pub uninterp spec fn guessed_name(chunks: Seq<(Seq<u8>, bool)>, allow_utf8: bool) -> Seq<char>;

/// Whether the input ended with the last of `chunks`.
pub open spec fn input_ended(chunks: Seq<(Seq<u8>, bool)>) -> bool {
    chunks.len() > 0 && chunks.last().1
}

/// `chardetng::EncodingDetector::new`: a detector that has been fed nothing.
#[verifier::external_body]
fn new_detector() -> (detector: ChardetngState)
    ensures
        detector_chunks(&detector) == Seq::<(Seq<u8>, bool)>::empty(),
{
    ChardetngState::new()
}

/// `chardetng::EncodingDetector::feed`: one more chunk.
#[verifier::external_body]
fn feed_detector(detector: &mut ChardetngState, bytes: &[u8], last: bool)
    requires
        !input_ended(detector_chunks(old(detector))),
    ensures
        detector_chunks(final(detector)) == detector_chunks(old(detector)).push((bytes@, last)),
{
    detector.feed(bytes, last);
}

/// `chardetng::EncodingDetector::guess` without a domain name: the name of one
/// of the encodings of encoding_rs, and not that of UTF-8 unless it is
/// allowed.
#[verifier::external_body]
fn guess_name(detector: &ChardetngState, allow_utf8: bool) -> (name: &'static str)
    ensures
        name@ == guessed_name(detector_chunks(detector), allow_utf8),
        codec::is_encoding_name(name@),
        !allow_utf8 ==> name@ != codec::encoding_name(Encoding::Utf8),
{
    detector.guess(None, allow_utf8).name()
}

/// An [`EncodingDetector`] backed by the `chardetng` crate.
pub struct ChardetngDetector {
    inner: ChardetngState,
}

impl ChardetngDetector {
    /// Everything the detector has been fed.
    pub closed spec fn chunks(&self) -> Seq<(Seq<u8>, bool)> {
        detector_chunks(&self.inner)
    }

    /// Create a new detector in its initial, unfed state.
    pub fn new() -> (detector: Self)
        ensures
            detector.chunks() == Seq::<(Seq<u8>, bool)>::empty(),
            detector.takes_bytes(),
    {
        ChardetngDetector { inner: new_detector() }
    }
}

impl Default for ChardetngDetector {
    fn default() -> (detector: Self)
        ensures
            detector.chunks() == Seq::<(Seq<u8>, bool)>::empty(),
            detector.takes_bytes(),
    {
        Self::new()
    }
}

impl EncodingDetector for ChardetngDetector {
    open spec fn takes_bytes(&self) -> bool {
        !input_ended(self.chunks())
    }

    fn feed(&mut self, bytes: &[u8], last: bool)
        ensures
            final(self).chunks() == old(self).chunks().push((bytes@, last)),
    {
        feed_detector(&mut self.inner, bytes, last);
    }

    fn guess(&self, allow_utf8: bool) -> (encoding: Encoding)
        ensures
            codec::encoding_name(encoding) == guessed_name(self.chunks(), allow_utf8),
    {
        match Encoding::for_name(guess_name(&self.inner, allow_utf8)) {
            Some(encoding) => encoding,
            None => {
                proof {
                    assert(false);
                }
                Encoding::Windows1252
            },
        }
    }
}

/// Result of inspecting the leading bytes of a source for a Unicode BOM.
#[derive(Debug, Clone, Copy, PartialEq, Eq, Structural)]
pub struct BomResult {
    /// The encoding implied by the BOM, or `None` if no recognised BOM was
    /// found.
    pub encoding: Option<Encoding>,
    /// Number of bytes consumed by the BOM (0 when `encoding` is `None`).
    pub bom_len: usize,
}

/// Inspect `probe` for a leading Unicode byte-order mark and return the
/// implied encoding and BOM length.
pub fn detect_bom(probe: &[u8]) -> (bom: BomResult)
    ensures
        match codec::bom_of(probe@) {
            Some((encoding, len)) => bom.encoding == Some(encoding) && bom.bom_len == len,
            None => bom.encoding is None && bom.bom_len == 0,
        },
{
    match sniff_bom(probe) {
        Some((encoding, bom_len)) => BomResult { encoding: Some(encoding), bom_len },
        None => BomResult { encoding: None, bom_len: 0 },
    }
}

/// The default number of bytes read from the start of a source to probe for
/// a BOM and to run the encoding detector and line-ending majority vote.
pub const DEFAULT_PROBE_LEN: usize = 8192;

/// How a BOM found at the start of the source should be treated.
#[derive(Debug, Clone, Copy, PartialEq, Eq, Structural)]
pub enum BomPolicy {
    /// Use the BOM to determine the encoding and skip the BOM bytes from the
    /// decoded content (standard behaviour).
    Honour,
    /// Ignore any BOM present; run the encoding detector on all bytes
    /// including the BOM bytes, and include them verbatim in decoded content.
    Ignore,
}

/// Configuration for opening a source document via `Source::new`.
#[derive(Debug, Clone, Copy)]
pub struct SourceConfig {
    /// An optional caller-supplied encoding hint, used directly unless a BOM
    /// is found and `bom_policy` is `Honour`.
    pub encoding_hint: Option<Encoding>,
    /// How to handle a BOM found at the start of the source.
    pub bom_policy: BomPolicy,
    /// What to do when bytes cannot be decoded in the selected encoding.
    pub decode_error_policy: DecodeErrorPolicy,
    /// Preferred line-ending convention: the tiebreaker in majority-vote
    /// detection, and the result where the probe has no terminator.
    pub line_ending_default: Option<LineEnding>,
    /// Number of bytes to read from the start of the source for BOM
    /// detection, encoding detection, and line-ending majority vote.  Values
    /// below 3 (the length of a UTF-8 BOM) are taken as 3.
    pub probe_len: usize,
    /// Whether a probe that is well-formed UTF-8 and free of NUL bytes is
    /// taken for UTF-8 without asking the heuristic detector.
    pub prefer_utf8_when_valid: bool,
    /// Whether the entire source, and not only the probe, must be well-formed
    /// UTF-8 for that.
    pub validate_full_stream_utf8: bool,
}

impl Default for SourceConfig {
    fn default() -> (config: Self)
        ensures
            config == (SourceConfig {
                encoding_hint: None,
                bom_policy: BomPolicy::Honour,
                decode_error_policy: DecodeErrorPolicy::Substitute,
                line_ending_default: None,
                probe_len: DEFAULT_PROBE_LEN,
                prefer_utf8_when_valid: true,
                validate_full_stream_utf8: false,
            }),
    {
        SourceConfig {
            encoding_hint: None,
            bom_policy: BomPolicy::Honour,
            decode_error_policy: DecodeErrorPolicy::Substitute,
            line_ending_default: None,
            probe_len: DEFAULT_PROBE_LEN,
            prefer_utf8_when_valid: true,
            validate_full_stream_utf8: false,
        }
    }
}

} // verus!
