//! Bridge to mallard, whose line buffers are filled from a source of lines and
//! guarded by an encoding validator.
//!
//! [`GrouseLineSource`] holds the decoded lines of a [`Lines`] reader without
//! their terminators.  [`GrouseEncodingValidator`] accepts the lines that can
//! be written in a given encoding.  [`from_grouse`] makes both for a source.

use vstd::prelude::*;
use vstd::slice::slice_subrange;
use vstd::string::StringExecFns;

use crate::codec;
use crate::codec::{decode_verbatim, Encoding};
use crate::encoded;
use crate::encoded::can_encode_with;
use crate::lines;
use crate::lines::{LineTerminator, Lines};
use crate::source::Source;

verus! {

/// The bytes of one line that a reader yields, without the final `\n`.
pub open spec fn line_bytes(encoding: Encoding, line: (Seq<u8>, LineTerminator)) -> Seq<u8> {
    match line.1 {
        LineTerminator::Ending(_) => line.0.take(
            line.0.len() - lines::unit_width(lines::units_of(encoding)),
        ),
        LineTerminator::End => line.0,
    }
}

/// The text of one line that a reader yields: its bytes without the final
/// `\n`, decoded.
pub open spec fn line_text(encoding: Encoding, line: (Seq<u8>, LineTerminator)) -> Seq<char> {
    codec::decoder_output(
        codec::encoding_name(encoding),
        line_bytes(encoding, line),
        true,
    )
}

/// Whether `line` is known to read as UTF-8 in `encoding`.
pub open spec fn is_utf8_line(encoding: Encoding, line: (Seq<u8>, LineTerminator)) -> bool {
    codec::decodes_as_utf8(encoding, line_bytes(encoding, line))
}

/// The texts of all lines of `bytes`.
pub open spec fn line_texts(encoding: Encoding, bytes: Seq<u8>) -> Seq<Seq<char>> {
    lines::split_lines(bytes, lines::units_of(encoding)).map_values(
        |line: (Seq<u8>, LineTerminator)| line_text(encoding, line),
    )
}

/// The decoded lines of a source, without their terminators.
pub struct GrouseLineSource {
    lines: Vec<String>,
}

impl GrouseLineSource {
    /// The lines, in order.
    pub closed spec fn view(&self) -> Seq<Seq<char>> {
        self.lines@.map_values(|line: String| line@)
    }

    /// Consume `lines`, decode every line from the source encoding to UTF-8,
    /// strip terminators, and store the results.
    ///
    /// Bytes that cannot be decoded are replaced with U+FFFD.  What looks like a
    /// byte-order mark is decoded like any other bytes.
    pub fn new(lines: Lines) -> (source: Self)
        requires
            lines.wf(),
        ensures
            source@ == line_texts(lines.source_encoding(), lines.remaining()),
            ({
                let encoding = lines.source_encoding();
                let all = lines::split_lines(lines.remaining(), lines::units_of(encoding));
                forall|n: int|
                    0 <= n < all.len() && is_utf8_line(encoding, #[trigger] all[n]) ==> source@[n]
                        == vstd::utf8::decode_utf8(line_bytes(encoding, all[n]))
            }),
    {
        let encoding: Encoding = lines.encoding();
        let ghost units = lines::units_of(encoding);
        let ghost start = lines.remaining();
        let ghost whole = line_texts(encoding, start);
        let ghost all = lines::split_lines(start, units);
        let width: usize = match encoding {
            Encoding::Utf16Le => 2,
            Encoding::Utf16Be => 2,
            _ => 1,
        };
        let mut reader = lines;
        let mut collected: Vec<String> = Vec::new();
        proof {
            assert(collected@.map_values(|line: String| line@) + whole =~= whole);
            assert(all.skip(0) =~= all);
        }
        loop
            invariant
                reader.wf(),
                reader.source_encoding() == encoding,
                encoding == lines.source_encoding(),
                start == lines.remaining(),
                whole == line_texts(encoding, start),
                units == lines::units_of(encoding),
                width == lines::unit_width(units),
                all == lines::split_lines(start, units),
                collected@.len() <= all.len(),
                all.skip(collected@.len() as int) == lines::split_lines(reader.remaining(), units),
                forall|n: int|
                    0 <= n < collected@.len() && is_utf8_line(encoding, #[trigger] all[n])
                        ==> collected@[n]@ == vstd::utf8::decode_utf8(line_bytes(encoding, all[n])),
                collected@.map_values(|line: String| line@) + line_texts(
                    encoding,
                    reader.remaining(),
                ) == whole,
            decreases reader.remaining().len(),
        {
            let ghost r = reader.remaining();
            let ghost before = collected@.map_values(|line: String| line@);
            proof {
                if r.len() > 0 {
                    lines::lemma_split_line_takes(r, units);
                    lines::lemma_split_line_len(r, units);
                }
            }
            match reader.next() {
                None => {
                    proof {
                        assert(before + line_texts(encoding, r) =~= before);
                        assert(all.skip(collected@.len() as int).len() == 0);
                    }
                    return GrouseLineSource { lines: collected };
                },
                Some((bytes, terminator)) => {
                    let ghost split = lines::split_line(r, units)->0;
                    let content_len: usize = match terminator {
                        LineTerminator::End => bytes.len(),
                        LineTerminator::Ending(_) => bytes.len() - width,
                    };
                    let content = slice_subrange(bytes.as_slice(), 0, content_len);
                    let text = decode_verbatim(encoding, content);
                    proof {
                        assert(content@ =~= match terminator {
                            LineTerminator::End => split.line,
                            LineTerminator::Ending(_) => split.line.take(split.line.len() - width),
                        });
                        assert(text@ == line_text(encoding, (split.line, split.terminator)));
                        let left = r.skip(split.taken);
                        assert(reader.remaining() =~= left);
                        let k = collected@.len() as int;
                        assert(all.skip(k)[0] == (split.line, split.terminator));
                        assert(all[k] == all.skip(k)[0]);
                        assert(all.skip(k + 1) =~= all.skip(k).skip(1));
                        assert(all.skip(k).skip(1) =~= lines::split_lines(left, units));
                        assert(line_texts(encoding, r) =~= seq![text@] + line_texts(
                            encoding,
                            left,
                        ));
                    }
                    collected.push(text);
                    proof {
                        assert(collected@.map_values(|line: String| line@) =~= before.push(text@));
                        assert(before.push(text@) + line_texts(encoding, reader.remaining())
                            =~= before + line_texts(encoding, r));
                    }
                },
            }
        }
    }

    /// How many lines there are.
    pub fn line_count_hint(&self) -> (count: Option<usize>)
        ensures
            count matches Some(n) && n == self@.len(),
    {
        Some(self.lines.len())
    }

    /// Line `n`, without its terminator.
    pub fn line(&self, n: usize) -> (line: Option<&str>)
        ensures
            match line {
                Some(text) => n < self@.len() && text@ == self@[n as int],
                None => n >= self@.len(),
            },
    {
        if n < self.lines.len() {
            Some(self.lines[n].as_str())
        } else {
            None
        }
    }
}

/// A line that a validator does not accept, and why.
pub struct RejectedLine {
    /// The line.
    pub line: String,
    /// What is wrong with it.
    pub description: String,
}

/// Accepts the lines that can be faithfully represented in an encoding.
pub struct GrouseEncodingValidator {
    encoding: Encoding,
}

/// Why a line is rejected that cannot be represented in `encoding`.
pub open spec fn unencodable_message(encoding: Encoding) -> Seq<char> {
    "line contains characters that cannot be encoded in '"@ + codec::encoding_name(encoding) + "'"@
}

/// Whether a line buffer is still being filled from its source, or is edited.
#[derive(Debug, Clone, Copy, PartialEq, Eq, Structural)]
pub enum BufferPhase {
    /// The lines of the source are put in.
    Loading,
    /// Lines are inserted and replaced.
    Editing,
}

impl GrouseEncodingValidator {
    /// The encoding that lines must fit.
    pub closed spec fn target(&self) -> Encoding {
        self.encoding
    }

    /// Create a validator that enforces `encoding`.
    pub fn new(encoding: Encoding) -> (validator: Self)
        ensures
            validator.target() == encoding,
    {
        GrouseEncodingValidator { encoding }
    }

    /// The encoding this validator enforces.
    pub fn encoding(&self) -> (encoding: Encoding)
        ensures
            encoding == self.target(),
    {
        self.encoding
    }

    /// Accept `line` if all of it can be represented in the encoding.
    pub fn validate_line(&self, line: &str) -> (valid: Result<(), RejectedLine>)
        ensures
            match valid {
                Ok(_) => encoded::is_encodable(self.target(), line@),
                Err(e) => {
                    &&& !encoded::is_encodable(self.target(), line@)
                    &&& e.line@ == line@
                    &&& e.description@ == unencodable_message(self.target())
                },
            },
            codec::encodes_as_utf8(self.target(), line@) ==> valid is Ok,
            self.target() != Encoding::Iso2022Jp && !vstd::utf8::is_ascii_chars(line@) ==> (
            valid is Ok <==> codec::maps_all(self.target(), line@)),
    {
        match can_encode_with(self.encoding, line) {
            Ok(true) => Ok(()),
            _ => {
                let mut description =
                    "line contains characters that cannot be encoded in '".to_owned();
                description.append(self.encoding.name());
                description.append("'");
                Err(RejectedLine { line: line.to_owned(), description })
            },
        }
    }

    /// Accept `line` as a line of a buffer in the given phase.
    ///
    /// The lines of a source are decoded from its own encoding and are accepted
    /// all, also one in which bytes that could not be decoded have been replaced
    /// by a character that the encoding lacks.  Edits must fit the encoding.
    pub fn validate_in(&self, phase: BufferPhase, line: &str) -> (valid: Result<(), RejectedLine>)
        ensures
            match valid {
                Ok(_) => phase == BufferPhase::Loading || encoded::is_encodable(
                    self.target(),
                    line@,
                ),
                Err(e) => {
                    &&& phase == BufferPhase::Editing
                    &&& !encoded::is_encodable(self.target(), line@)
                    &&& e.line@ == line@
                    &&& e.description@ == unencodable_message(self.target())
                },
            },
            codec::encodes_as_utf8(self.target(), line@) ==> valid is Ok,
            phase == BufferPhase::Editing && self.target() != Encoding::Iso2022Jp
                && !vstd::utf8::is_ascii_chars(line@) ==> (valid is Ok <==> codec::maps_all(
                self.target(),
                line@,
            )),
    {
        match phase {
            BufferPhase::Loading => Ok(()),
            BufferPhase::Editing => self.validate_line(line),
        }
    }
}

/// The error type of mallard.
#[verifier::external_type_specification]
#[verifier::external_body]
pub struct ExEncodingError(mallard::EncodingError);

/// What an error of mallard holds: the rejected line and the description.
pub uninterp spec fn encoding_error_parts(error: &mallard::EncodingError) -> (Seq<char>, Seq<char>);

/// `mallard::EncodingError`, built from its two public fields.
#[verifier::external_body]
fn encoding_error(rejected: RejectedLine) -> (error: mallard::EncodingError)
    ensures
        encoding_error_parts(&error) == (rejected.line@, rejected.description@),
{
    mallard::EncodingError {
        line: rejected.line.into_boxed_str(),
        description: rejected.description.into_boxed_str(),
    }
}

impl mallard::EncodingValidator for GrouseEncodingValidator {
    fn validate(&self, line: &str) -> (valid: Result<(), mallard::EncodingError>)
        ensures
            match valid {
                Ok(_) => encoded::is_encodable(self.target(), line@),
                Err(e) => !encoded::is_encodable(self.target(), line@) && encoding_error_parts(&e)
                    == (line@, unencodable_message(self.target())),
            },
            codec::encodes_as_utf8(self.target(), line@) ==> valid is Ok,
            self.target() != Encoding::Iso2022Jp && !vstd::utf8::is_ascii_chars(line@) ==> (
            valid is Ok <==> codec::maps_all(self.target(), line@)),
    {
        match self.validate_line(line) {
            Ok(()) => Ok(()),
            Err(rejected) => Err(encoding_error(rejected)),
        }
    }
}

/// What a mallard line buffer is made of for `source`: its decoded lines, and
/// the validator that keeps future edits in its encoding.
///
/// The lines are put in while the buffer is loading, so that the validator
/// rejects none of them; see [`GrouseEncodingValidator::validate_in`].
pub fn from_grouse(source: Source) -> (parts: (GrouseLineSource, GrouseEncodingValidator))
    requires
        source.wf(),
    ensures
        parts.0@ == line_texts(
            source.source_encoding(),
            source.source_branch()@.skip(source.source_bom_len()),
        ),
        parts.1.target() == source.source_encoding(),
        ({
            let encoding = source.source_encoding();
            let all = lines::split_lines(
                source.source_branch()@.skip(source.source_bom_len()),
                lines::units_of(encoding),
            );
            forall|n: int|
                0 <= n < all.len() && is_utf8_line(encoding, #[trigger] all[n]) ==> parts.0@[n]
                    == vstd::utf8::decode_utf8(line_bytes(encoding, all[n]))
        }),
{
    let encoding: Encoding = source.encoding();
    match source.as_lines() {
        Ok(lines) => (GrouseLineSource::new(lines), GrouseEncodingValidator::new(encoding)),
        Err(_) => {
            proof {
                assert(false);
            }
            (GrouseLineSource { lines: Vec::new() }, GrouseEncodingValidator::new(encoding))
        },
    }
}

} // verus!
