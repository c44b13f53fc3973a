//! The `Encoded` trait and its associated error type.
//!
//! `Encoded` is the common surface shared by `Chars`, `Lines` and `Buffer`:
//! each holds a branch, knows its WHATWG encoding, and can re-encode a `&str`
//! back to bytes in that encoding.

use vstd::prelude::*;
use vstd::string::StringExecFns;

use crate::branch::Branch;
use crate::codec;
use crate::codec::{encode_exactly, Encoding};
use crate::encoding::LineEnding;

verus! {

/// Error returned by [`Encoded::encode`] when the input string cannot be
/// faithfully represented in the target encoding.
#[derive(Debug, Clone, Copy, PartialEq, Eq)]
pub enum EncodeError {
    /// At least one character in the input could not be represented in the
    /// named encoding.
    Unmappable {
        /// The WHATWG name of the encoding (e.g. `"windows-1252"`).
        encoding_name: &'static str,
    },
}

impl EncodeError {
    /// What [`EncodeError::to_string`] returns.
    pub open spec fn message(self) -> Seq<char> {
        match self {
            EncodeError::Unmappable { encoding_name } =>
                "one or more characters cannot be encoded in '"@ + encoding_name@ + "'"@,
        }
    }

    /// A description for people.
    pub fn to_string(&self) -> (text: String)
        ensures
            text@ == self.message(),
    {
        match *self {
            EncodeError::Unmappable { encoding_name } => {
                let mut text = "one or more characters cannot be encoded in '".to_owned();
                text.append(encoding_name);
                text.append("'");
                text
            },
        }
    }
}

/// What encoding `text` comes to: its bytes, or the error that names the
/// encoding.
pub open spec fn encodes_to(
    encoding: Encoding,
    text: Seq<char>,
    result: Result<Vec<u8>, EncodeError>,
) -> bool {
    match codec::encoded_text(encoding, text) {
        Some(bytes) => result is Ok && result->Ok_0@ == bytes,
        None => result matches Err(EncodeError::Unmappable { encoding_name }) && encoding_name@
            == codec::encoding_name(encoding),
    }
}

/// Whether `text` is accepted as encodable: ASCII always is, other text when
/// the encoder maps all of it.
pub open spec fn is_encodable(encoding: Encoding, text: Seq<char>) -> bool {
    vstd::utf8::is_ascii_chars(text) || codec::encoded_text(encoding, text) is Some
}

/// Common surface shared by `Chars`, `Lines`, and `Buffer`.
///
/// Every `Encoded` type holds the underlying byte stream, the WHATWG encoding
/// used to decode and encode it, and the dominant line-ending convention
/// detected when the source was opened.
pub trait Encoded {
    /// The underlying byte-stream branch.
    open spec fn encoded_branch(&self) -> Branch {
        arbitrary()
    }

    /// The WHATWG encoding of the byte stream.
    open spec fn encoded_as(&self) -> Encoding {
        arbitrary()
    }

    /// The dominant line ending of the byte stream.
    open spec fn encoded_line_ending(&self) -> LineEnding {
        arbitrary()
    }

    /// The underlying byte-stream branch.
    fn branch(&self) -> (branch: Branch)
        ensures
            branch == self.encoded_branch(),
    ;

    /// The WHATWG encoding used to decode and re-encode this source.
    fn encoding(&self) -> (encoding: Encoding)
        ensures
            encoding == self.encoded_as(),
    ;

    /// The dominant line-ending convention as detected during source probing.
    fn line_ending(&self) -> (line_ending: LineEnding)
        ensures
            line_ending == self.encoded_line_ending(),
    ;

    /// Encode `text` into the bytes of [`Encoded::encoding`].
    ///
    /// Returns the bytes when every character in `text` has an exact
    /// representation in the target encoding, and
    /// [`EncodeError::Unmappable`] otherwise.  In a single-byte encoding and in
    /// UTF-8 the bytes decode to `text` again.
    fn encode(&self, text: &str) -> (bytes: Result<Vec<u8>, EncodeError>)
        ensures
            encodes_to(self.encoded_as(), text@, bytes),
            codec::encodes_as_utf8(self.encoded_as(), text@) ==> bytes is Ok && bytes->Ok_0@
                == vstd::utf8::encode_utf8(text@),
            codec::reads_back(self.encoded_as()) && bytes is Ok ==> codec::decoder_output(
                codec::encoding_name(self.encoded_as()),
                bytes->Ok_0@,
                true,
            ) == text@,
            self.encoded_as() != Encoding::Iso2022Jp ==> (bytes is Ok <==> codec::maps_all(
                self.encoded_as(),
                text@,
            )),
    {
        encode_with(self.encoding(), text)
    }

    /// Return `Ok(true)` when every character in `text` can be faithfully
    /// represented in [`Encoded::encoding`], or `Ok(false)` when at least one
    /// character has no mapping in the encoding.
    ///
    /// Pure-ASCII input is accepted without invoking the encoder.
    fn can_encode(&self, text: &str) -> (encodable: Result<bool, EncodeError>)
        ensures
            encodable is Ok,
            encodable->Ok_0 == is_encodable(self.encoded_as(), text@),
            codec::encodes_as_utf8(self.encoded_as(), text@) ==> encodable->Ok_0,
            self.encoded_as() != Encoding::Iso2022Jp && !vstd::utf8::is_ascii_chars(text@) ==> (
            encodable->Ok_0 <==> codec::maps_all(self.encoded_as(), text@)),
    {
        can_encode_with(self.encoding(), text)
    }
}

/// What is encoded as UTF-8 and decoded as UTF-8 is the same text again.
pub proof fn lemma_utf8_reads_back(text: Seq<char>)
    ensures
        codec::encodes_as_utf8(Encoding::Utf8, text),
        codec::decodes_as_utf8(Encoding::Utf8, vstd::utf8::encode_utf8(text)),
        vstd::utf8::decode_utf8(vstd::utf8::encode_utf8(text)) == text,
{
    vstd::utf8::encode_utf8_valid_utf8(text);
    vstd::utf8::encode_utf8_decode_utf8(text);
}

/// Encode `text` into `encoding`'s byte representation.
pub fn encode_with(encoding: Encoding, text: &str) -> (bytes: Result<Vec<u8>, EncodeError>)
    ensures
        encodes_to(encoding, text@, bytes),
        codec::encodes_as_utf8(encoding, text@) ==> bytes is Ok && bytes->Ok_0@
            == vstd::utf8::encode_utf8(text@),
        codec::reads_back(encoding) && bytes is Ok ==> codec::decoder_output(
            codec::encoding_name(encoding),
            bytes->Ok_0@,
            true,
        ) == text@,
        encoding != Encoding::Iso2022Jp ==> (bytes is Ok <==> codec::maps_all(encoding, text@)),
{
    encoded_or_error(encoding, encode_exactly(encoding, text))
}

/// The bytes that an encoder gave, or the error for an encoder that gave none.
pub fn encoded_or_error(encoding: Encoding, bytes: Option<Vec<u8>>) -> (result: Result<
    Vec<u8>,
    EncodeError,
>)
    ensures
        match bytes {
            Some(b) => result is Ok && result->Ok_0@ == b@,
            None => result matches Err(EncodeError::Unmappable { encoding_name })
                && encoding_name@ == codec::encoding_name(encoding),
        },
{
    match bytes {
        Some(bytes) => Ok(bytes),
        None => Err(EncodeError::Unmappable { encoding_name: encoding.name() }),
    }
}

/// Whether every character in `text` can be faithfully represented in
/// `encoding`.
///
/// Pure-ASCII input is accepted without invoking the encoder; other input is
/// encoded and the bytes are discarded.
pub fn can_encode_with(encoding: Encoding, text: &str) -> (encodable: Result<bool, EncodeError>)
    ensures
        encodable is Ok,
        encodable->Ok_0 == is_encodable(encoding, text@),
        codec::encodes_as_utf8(encoding, text@) ==> encodable->Ok_0,
        encoding != Encoding::Iso2022Jp && !vstd::utf8::is_ascii_chars(text@) ==> (encodable->Ok_0
            <==> codec::maps_all(encoding, text@)),
{
    if text.is_ascii() {
        return Ok(true);
    }
    match encode_with(encoding, text) {
        Ok(_) => Ok(true),
        Err(EncodeError::Unmappable { .. }) => Ok(false),
    }
}

} // verus!
