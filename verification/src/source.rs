//! `Source`: the entry point for opening a byte stream.

use vstd::prelude::*;
use vstd::string::StringExecFns;

use crate::branch::Branch;
use crate::buffer;
use crate::buffer::{Buffer, BufferError};
use crate::chars::{Chars, CharsError};
use crate::codec;
use crate::codec::{decode_verbatim, Encoding};
use crate::encoding;
use crate::encoding::{
    detect_bom, detect_line_ending, BomPolicy, ChardetngDetector, EncodingDetector, LineEnding,
    SourceConfig,
};
use crate::error::IoError;
use crate::lines::{Lines, LinesError, DEFAULT_VIEW_CEILING};
use crate::text;
use crate::utf8;
use crate::utf8::{
    branch_is_well_formed_utf8, contains_nul, is_well_formed_utf8, prefix_is_well_formed_utf8,
};

verus! {

/// Errors that can occur while opening a [`Source`].
#[derive(Debug, Clone, Copy)]
pub enum SourceError {
    /// An I/O error occurred while reading the probe bytes from the branch.
    Io(IoError),
    /// The detected (or hinted) encoding cannot encode text back to bytes.
    EncodeDecodeAsymmetry {
        /// The WHATWG name of the offending encoding.
        encoding_name: &'static str,
    },
    /// Heuristic encoding detection could not produce a usable result.
    DetectionFailure,
}

impl SourceError {
    /// What [`SourceError::to_string`] returns.
    pub open spec fn message(self) -> Seq<char> {
        match self {
            SourceError::Io(e) => "I/O error reading source probe: "@ + e.message(),
            SourceError::EncodeDecodeAsymmetry { encoding_name } => "encoding '"@ + encoding_name@
                + "' cannot encode text (decode-only encoding)"@,
            SourceError::DetectionFailure =>
                "encoding detection failed to produce a usable result"@,
        }
    }

    /// A description for people.
    pub fn to_string(&self) -> (text: String)
        ensures
            text@ == self.message(),
    {
        match *self {
            SourceError::Io(e) => {
                let mut text = "I/O error reading source probe: ".to_owned();
                text.append(e.to_string().as_str());
                text
            },
            SourceError::EncodeDecodeAsymmetry { encoding_name } => {
                let mut text = "encoding '".to_owned();
                text.append(encoding_name);
                text.append("' cannot encode text (decode-only encoding)");
                text
            },
            SourceError::DetectionFailure => {
                "encoding detection failed to produce a usable result".to_owned()
            },
        }
    }
}

impl From<IoError> for SourceError {
    fn from(e: IoError) -> (error: Self) {
        SourceError::Io(e)
    }
}

impl vstd::std_specs::convert::FromSpecImpl<IoError> for SourceError {
    open spec fn obeys_from_spec() -> bool {
        true
    }

    open spec fn from_spec(e: IoError) -> SourceError {
        SourceError::Io(e)
    }
}

/// How many bytes of `c` are probed.
pub open spec fn probe_size(c: Seq<u8>, config: SourceConfig) -> int {
    let wanted = if config.probe_len < 3 {
        3
    } else {
        config.probe_len as int
    };
    if wanted <= c.len() {
        wanted
    } else {
        c.len() as int
    }
}

/// The bytes of `c` that are probed.
pub open spec fn probe_of(c: Seq<u8>, config: SourceConfig) -> Seq<u8> {
    c.take(probe_size(c, config))
}

/// Whether `c` is taken for UTF-8 by validation: the probe holds no NUL and is
/// well-formed, as far as the bytes of `c` after it bear out, and on request
/// so is all of `c`.
pub open spec fn is_utf8_by_validation(c: Seq<u8>, config: SourceConfig) -> bool {
    let probe = probe_of(c, config);
    &&& config.prefer_utf8_when_valid
    &&& !probe.contains(0)
    &&& if probe.len() == c.len() {
        vstd::utf8::valid_utf8(probe)
    } else {
        utf8::is_utf8_up_to(c, probe.len() as int)
    }
    &&& config.validate_full_stream_utf8 ==> vstd::utf8::valid_utf8(c) && !c.contains(0)
}

/// The encoding that the hint or validation settle, if they do.
pub open spec fn settled_encoding(c: Seq<u8>, config: SourceConfig) -> Option<Encoding> {
    if config.encoding_hint is Some {
        config.encoding_hint
    } else if is_utf8_by_validation(c, config) {
        Some(Encoding::Utf8)
    } else {
        None
    }
}

/// The encoding of `c` and the length of its byte-order mark, where `guess` is
/// what the heuristic detector says of the probe.
pub open spec fn chosen_encoding(c: Seq<u8>, config: SourceConfig, guess: Encoding) -> (
    Encoding,
    int,
) {
    if config.bom_policy == BomPolicy::Honour && codec::bom_of(probe_of(c, config)) is Some {
        codec::bom_of(probe_of(c, config))->0
    } else {
        match settled_encoding(c, config) {
            Some(encoding) => (encoding, 0),
            None => (guess, 0),
        }
    }
}

/// What the heuristic detector says of the probe of `c`.
pub open spec fn guessed_encoding(c: Seq<u8>, config: SourceConfig) -> Encoding {
    codec::encoding_named(encoding::guessed_name(seq![(probe_of(c, config), true)], true))
}

/// The bytes over which the line-ending vote is taken: the probe after the
/// byte-order mark, decoded to UTF-8 unless its encoding is a superset of
/// ASCII.
pub open spec fn voting_bytes(c: Seq<u8>, config: SourceConfig, encoding: Encoding, bom_len: int) -> Seq<
    u8,
> {
    let content = probe_of(c, config).skip(bom_len);
    if codec::is_ascii_superset(encoding) {
        content
    } else {
        vstd::utf8::encode_utf8(
            codec::decoder_output(codec::encoding_name(encoding), content, true),
        )
    }
}

/// The line ending that `bytes` vote for, else the preferred one, else `\n`.
pub open spec fn voted_line_ending(bytes: Seq<u8>, preferred: Option<LineEnding>) -> LineEnding {
    match text::dominant_ending(text::endings(bytes, 0, bytes.len() as int), preferred) {
        Some(ending) => ending,
        None => match preferred {
            Some(ending) => ending,
            None => LineEnding::Lf,
        },
    }
}

/// Well-formed UTF-8 without NUL bytes is recognised as UTF-8, where nothing
/// else decides, no matter where the probe ends.
pub proof fn lemma_utf8_is_recognised(c: Seq<u8>, config: SourceConfig, guess: Encoding)
    requires
        config.prefer_utf8_when_valid,
        config.encoding_hint is None,
        config.bom_policy == BomPolicy::Honour ==> codec::bom_of(probe_of(c, config)) is None,
        vstd::utf8::valid_utf8(c),
        !c.contains(0),
    ensures
        chosen_encoding(c, config, guess) == (Encoding::Utf8, 0int),
{
    let probe = probe_of(c, config);
    utf8::lemma_valid_up_to_any(c, probe.len() as int);
    if probe.len() == c.len() {
        assert(probe =~= c);
    }
    if probe.contains(0) {
        let i = choose|i: int| 0 <= i < probe.len() && probe[i] == 0;
        assert(c[i] == 0);
    }
}

/// With full-stream validation, and without a hint or a byte-order mark, what
/// is opened as UTF-8 though the detector says otherwise is well-formed from
/// its first byte to its last.
pub proof fn lemma_validated_stream_is_utf8(c: Seq<u8>, config: SourceConfig, guess: Encoding)
    requires
        config.validate_full_stream_utf8,
        config.encoding_hint is None,
        config.bom_policy == BomPolicy::Honour ==> codec::bom_of(probe_of(c, config)) is None,
        guess != Encoding::Utf8,
        chosen_encoding(c, config, guess).0 == Encoding::Utf8,
    ensures
        vstd::utf8::valid_utf8(c),
        !c.contains(0),
{
}

/// The opened, probed state of a byte-stream branch, ready to be converted
/// into one of `Chars`, `Lines`, or `Buffer`.
pub struct Source {
    branch: Branch,
    encoding: Encoding,
    bom_len: usize,
    line_ending: LineEnding,
}

impl Source {
    /// The underlying byte stream.
    pub closed spec fn source_branch(&self) -> Branch {
        self.branch
    }

    /// The encoding selected for this source.
    pub closed spec fn source_encoding(&self) -> Encoding {
        self.encoding
    }

    /// The number of byte-order mark bytes to skip.
    pub closed spec fn source_bom_len(&self) -> int {
        self.bom_len as int
    }

    /// The dominant line ending of the probe.
    pub closed spec fn source_line_ending(&self) -> LineEnding {
        self.line_ending
    }

    /// The encoding can be written as well as read, and a byte-order mark that
    /// is skipped lies in the branch and belongs to a Unicode encoding.
    pub open spec fn wf(&self) -> bool {
        &&& self.source_encoding() != Encoding::Replacement
        &&& 0 <= self.source_bom_len() <= self.source_branch()@.len()
        &&& self.source_bom_len() <= 3
        &&& self.source_bom_len() > 0 ==> self.source_encoding() == Encoding::Utf8
            || self.source_encoding() == Encoding::Utf16Le || self.source_encoding()
            == Encoding::Utf16Be
    }

    /// Open a branch and probe it to determine its encoding and line-ending
    /// convention.
    ///
    /// 1. A byte-order mark decides over the encoding where `bom_policy` is
    ///    `Honour`; else the hint does; else well-formed UTF-8 is taken for
    ///    UTF-8 if `prefer_utf8_when_valid` is set; else the heuristic
    ///    detector decides.
    /// 2. A decode-only encoding is rejected with
    ///    [`SourceError::EncodeDecodeAsymmetry`].
    /// 3. The line ending is elected by majority vote over the probe.
    pub fn new(branch: Branch, config: SourceConfig) -> (source: Result<Self, SourceError>)
        ensures
            ({
                let guess = guessed_encoding(branch@, config);
                let chosen = chosen_encoding(branch@, config, guess);
                opened(branch, config, chosen.0, chosen.1, source)
            }),
    {
        let branch_len: u64 = branch.byte_len();
        let wanted: usize = if config.probe_len < 3 {
            3
        } else {
            config.probe_len
        };
        let available: usize = if (wanted as u64) < branch_len {
            wanted
        } else {
            branch_len as usize
        };
        let probe = branch.read_at(0, available);
        assert(probe@ =~= probe_of(branch@, config));
        if config.bom_policy == BomPolicy::Honour {
            let bom = detect_bom(probe.as_slice());
            if let Some(encoding) = bom.encoding {
                return Source::open_as(branch, config, encoding, bom.bom_len);
            }
        }
        let encoding: Encoding = resolve_encoding_no_bom(&branch, probe.as_slice(), config);
        Source::open_as(branch, config, encoding, 0)
    }

    /// Open a branch whose encoding and byte-order mark are known: reject a
    /// decode-only encoding and elect the line ending.
    pub fn open_as(branch: Branch, config: SourceConfig, encoding: Encoding, bom_len: usize) -> (source:
        Result<Self, SourceError>)
        requires
            bom_len <= 3,
            bom_len <= probe_size(branch@, config),
            bom_len > 0 ==> encoding == Encoding::Utf8 || encoding == Encoding::Utf16Le || encoding
                == Encoding::Utf16Be,
        ensures
            opened(branch, config, encoding, bom_len as int, source),
    {
        match validate_encoder(encoding) {
            Ok(()) => {},
            Err(e) => {
                return Err(e);
            },
        }
        let branch_len: u64 = branch.byte_len();
        let wanted: usize = if config.probe_len < 3 {
            3
        } else {
            config.probe_len
        };
        let available: usize = if (wanted as u64) < branch_len {
            wanted
        } else {
            branch_len as usize
        };
        let content = branch.read_at(bom_len as u64, available - bom_len);
        assert(content@ =~= probe_of(branch@, config).skip(bom_len as int));
        let line_ending: LineEnding = if encoding.is_ascii_compatible() {
            vote_line_ending(content.as_slice(), config.line_ending_default)
        } else {
            let decoded = decode_verbatim(encoding, content.as_slice());
            vote_line_ending(decoded.as_str().as_bytes(), config.line_ending_default)
        };
        Ok(Source { branch, encoding, bom_len, line_ending })
    }

    /// The branch this source was opened from.
    pub fn branch(&self) -> (branch: Branch)
        ensures
            branch == self.source_branch(),
    {
        self.branch.clone()
    }

    /// The WHATWG encoding detected (or supplied) for this source.
    pub fn encoding(&self) -> (encoding: Encoding)
        ensures
            encoding == self.source_encoding(),
    {
        self.encoding
    }

    /// The dominant line-ending convention detected in the probe prefix.
    pub fn line_ending(&self) -> (line_ending: LineEnding)
        ensures
            line_ending == self.source_line_ending(),
    {
        self.line_ending
    }

    /// Convert this `Source` into a [`Chars`] value for encoding-only,
    /// character-stream-oriented access.
    pub fn as_chars(self) -> (chars: Result<Chars, CharsError>)
        requires
            self.wf(),
        ensures
            chars is Ok,
            chars->Ok_0.wf(),
            chars->Ok_0.source_branch() == self.source_branch(),
            chars->Ok_0.source_encoding() == self.source_encoding(),
            chars->Ok_0.source_line_ending() == self.source_line_ending(),
            chars->Ok_0.source_bom_len() == self.source_bom_len(),
    {
        Ok(Chars::from_source(self))
    }

    /// Convert this `Source` into a [`Lines`] value for forward line-oriented
    /// iteration and arbitrary-span materialisation.
    pub fn as_lines(self) -> (lines: Result<Lines, LinesError>)
        requires
            self.wf(),
        ensures
            lines is Ok,
            lines->Ok_0.wf(),
            lines->Ok_0.source_branch() == self.source_branch(),
            lines->Ok_0.source_encoding() == self.source_encoding(),
            lines->Ok_0.source_line_ending() == self.source_line_ending(),
            lines->Ok_0.consumed() == self.source_bom_len(),
            lines->Ok_0.position() == self.source_bom_len(),
            lines->Ok_0.ceiling() == DEFAULT_VIEW_CEILING,
    {
        Ok(Lines::from_source(self))
    }

    /// Convert this `Source` into a [`Buffer`] for random-access,
    /// line-map-backed editor operations.  The line map starts fully
    /// unscanned.
    ///
    /// # Errors
    ///
    /// [`BufferError::EncodeUnsupported`] when the encoding is UTF-16LE or
    /// UTF-16BE.
    pub fn as_buffer(self) -> (buffer: Result<Buffer, BufferError>)
        requires
            self.wf(),
        ensures
            buffer::made_buffer(self, buffer),
    {
        Buffer::from_source(self)
    }

    /// The number of BOM bytes at the start of the branch that should be
    /// skipped when reading decoded content.
    pub fn bom_len(&self) -> (bom_len: usize)
        ensures
            bom_len == self.source_bom_len(),
    {
        self.bom_len
    }
}

/// What opening `branch` in the given encoding comes to.
pub open spec fn opened(
    branch: Branch,
    config: SourceConfig,
    encoding: Encoding,
    bom_len: int,
    source: Result<Source, SourceError>,
) -> bool {
    match source {
        Ok(s) => {
            &&& encoding != Encoding::Replacement
            &&& s.wf()
            &&& s.source_branch() == branch
            &&& s.source_encoding() == encoding
            &&& s.source_bom_len() == bom_len
            &&& s.source_line_ending() == voted_line_ending(
                voting_bytes(branch@, config, encoding, bom_len),
                config.line_ending_default,
            )
        },
        Err(e) => {
            &&& encoding == Encoding::Replacement
            &&& e matches SourceError::EncodeDecodeAsymmetry { encoding_name }
            &&& encoding_name@ == codec::encoding_name(encoding)
        },
    }
}

/// Elect a line ending from `bytes`, in which `\r` and `\n` are single bytes;
/// without a terminator it is the preferred one, or else `\n`.
pub fn vote_line_ending(bytes: &[u8], preferred: Option<LineEnding>) -> (line_ending: LineEnding)
    ensures
        line_ending == voted_line_ending(bytes@, preferred),
{
    match detect_line_ending(bytes, preferred) {
        Some(ending) => ending,
        None => match preferred {
            Some(ending) => ending,
            None => LineEnding::Lf,
        },
    }
}

/// The encoding that the hint settles, or validation as UTF-8.
fn settle_encoding(branch: &Branch, probe: &[u8], config: SourceConfig) -> (settled: Option<
    Encoding,
>)
    requires
        probe@ == probe_of(branch@, config),
    ensures
        settled == settled_encoding(branch@, config),
{
    if config.encoding_hint.is_some() {
        return config.encoding_hint;
    }
    if !config.prefer_utf8_when_valid || contains_nul(probe) {
        return None;
    }
    let probe_ok: bool = if probe.len() as u64 >= branch.byte_len() {
        is_well_formed_utf8(probe)
    } else {
        prefix_is_well_formed_utf8(branch, probe)
    };
    if probe_ok && (!config.validate_full_stream_utf8 || branch_is_well_formed_utf8(branch)) {
        Some(Encoding::Utf8)
    } else {
        None
    }
}

/// Resolve the encoding when no BOM was found (or BOM was ignored): by the
/// caller's hint, by validation as UTF-8, or by the heuristic detector.
fn resolve_encoding_no_bom(branch: &Branch, probe: &[u8], config: SourceConfig) -> (encoding:
    Encoding)
    requires
        probe@ == probe_of(branch@, config),
    ensures
        encoding == (match settled_encoding(branch@, config) {
            Some(settled) => settled,
            None => guessed_encoding(branch@, config),
        }),
{
    match settle_encoding(branch, probe, config) {
        Some(encoding) => encoding,
        None => {
            let mut detector = ChardetngDetector::new();
            detector.feed(probe, true);
            let guess: Encoding = detector.guess(true);
            proof {
                assert(detector.chunks() =~= seq![(probe@, true)]);
                codec::lemma_encoding_named(guess);
            }
            guess
        },
    }
}

/// Verify that `encoding` is not the decode-only encoding of the WHATWG
/// Encoding Standard, "replacement".
fn validate_encoder(encoding: Encoding) -> (valid: Result<(), SourceError>)
    ensures
        match valid {
            Ok(_) => encoding != Encoding::Replacement,
            Err(e) => {
                &&& encoding == Encoding::Replacement
                &&& e matches SourceError::EncodeDecodeAsymmetry { encoding_name }
                &&& encoding_name@ == codec::encoding_name(encoding)
            },
        },
{
    if encoding == Encoding::Replacement {
        Err(SourceError::EncodeDecodeAsymmetry { encoding_name: encoding.name() })
    } else {
        Ok(())
    }
}

} // verus!
