//! The WHATWG encodings, and what encoding_rs does with them.
//!
//! encoding_rs hands out its encodings as opaque references.  [`Encoding`]
//! stands for them here, one value for each, and the calls into encoding_rs
//! go by the WHATWG name.

use vstd::prelude::*;
use vstd::slice::slice_subrange;
use vstd::string::StringExecFns;

verus! {

/// A WHATWG encoding.
#[derive(Debug, Clone, Copy, PartialEq, Eq, Hash, Structural)]
pub enum Encoding {
    Big5,
    EucJp,
    EucKr,
    Gbk,
    Ibm866,
    Iso2022Jp,
    Iso8859_10,
    Iso8859_13,
    Iso8859_14,
    Iso8859_15,
    Iso8859_16,
    Iso8859_2,
    Iso8859_3,
    Iso8859_4,
    Iso8859_5,
    Iso8859_6,
    Iso8859_7,
    Iso8859_8,
    Iso8859_8I,
    Koi8R,
    Koi8U,
    ShiftJis,
    Utf16Be,
    Utf16Le,
    Utf8,
    Gb18030,
    Macintosh,
    Replacement,
    Windows1250,
    Windows1251,
    Windows1252,
    Windows1253,
    Windows1254,
    Windows1255,
    Windows1256,
    Windows1257,
    Windows1258,
    Windows874,
    XMacCyrillic,
    XUserDefined,
}

/// The WHATWG name of `encoding`.
pub open spec fn encoding_name(encoding: Encoding) -> Seq<char> {
    match encoding {
        Encoding::Big5 => "Big5"@,
        Encoding::EucJp => "EUC-JP"@,
        Encoding::EucKr => "EUC-KR"@,
        Encoding::Gbk => "GBK"@,
        Encoding::Ibm866 => "IBM866"@,
        Encoding::Iso2022Jp => "ISO-2022-JP"@,
        Encoding::Iso8859_10 => "ISO-8859-10"@,
        Encoding::Iso8859_13 => "ISO-8859-13"@,
        Encoding::Iso8859_14 => "ISO-8859-14"@,
        Encoding::Iso8859_15 => "ISO-8859-15"@,
        Encoding::Iso8859_16 => "ISO-8859-16"@,
        Encoding::Iso8859_2 => "ISO-8859-2"@,
        Encoding::Iso8859_3 => "ISO-8859-3"@,
        Encoding::Iso8859_4 => "ISO-8859-4"@,
        Encoding::Iso8859_5 => "ISO-8859-5"@,
        Encoding::Iso8859_6 => "ISO-8859-6"@,
        Encoding::Iso8859_7 => "ISO-8859-7"@,
        Encoding::Iso8859_8 => "ISO-8859-8"@,
        Encoding::Iso8859_8I => "ISO-8859-8-I"@,
        Encoding::Koi8R => "KOI8-R"@,
        Encoding::Koi8U => "KOI8-U"@,
        Encoding::ShiftJis => "Shift_JIS"@,
        Encoding::Utf16Be => "UTF-16BE"@,
        Encoding::Utf16Le => "UTF-16LE"@,
        Encoding::Utf8 => "UTF-8"@,
        Encoding::Gb18030 => "gb18030"@,
        Encoding::Macintosh => "macintosh"@,
        Encoding::Replacement => "replacement"@,
        Encoding::Windows1250 => "windows-1250"@,
        Encoding::Windows1251 => "windows-1251"@,
        Encoding::Windows1252 => "windows-1252"@,
        Encoding::Windows1253 => "windows-1253"@,
        Encoding::Windows1254 => "windows-1254"@,
        Encoding::Windows1255 => "windows-1255"@,
        Encoding::Windows1256 => "windows-1256"@,
        Encoding::Windows1257 => "windows-1257"@,
        Encoding::Windows1258 => "windows-1258"@,
        Encoding::Windows874 => "windows-874"@,
        Encoding::XMacCyrillic => "x-mac-cyrillic"@,
        Encoding::XUserDefined => "x-user-defined"@,
    }
}

/// Whether some encoding has this name.
pub open spec fn is_encoding_name(name: Seq<char>) -> bool {
    exists|encoding: Encoding| #[trigger] encoding_name(encoding) == name
}

/// Whether encoding_rs decodes the bytes 0x00 to 0x7F, and only those, to the
/// characters U+0000 to U+007F.
pub open spec fn is_ascii_superset(encoding: Encoding) -> bool {
    !(encoding == Encoding::Replacement || encoding == Encoding::Utf16Be || encoding
        == Encoding::Utf16Le || encoding == Encoding::Iso2022Jp)
}

/// Whether `encoding` is a single-byte encoding: every character that it has
/// is one byte.
pub open spec fn is_single_byte(encoding: Encoding) -> bool {
    match encoding {
        Encoding::Utf8 => false,
        Encoding::Utf16Le => false,
        Encoding::Utf16Be => false,
        Encoding::Replacement => false,
        Encoding::Big5 => false,
        Encoding::EucJp => false,
        Encoding::EucKr => false,
        Encoding::Gb18030 => false,
        Encoding::Gbk => false,
        Encoding::Iso2022Jp => false,
        Encoding::ShiftJis => false,
        _ => true,
    }
}

impl Encoding {
    /// The WHATWG name of this encoding.
    pub fn name(&self) -> (name: &'static str)
        ensures
            name@ == encoding_name(*self),
            is_encoding_name(name@),
    {
        let name: &'static str = match *self {
            Encoding::Big5 => "Big5",
            Encoding::EucJp => "EUC-JP",
            Encoding::EucKr => "EUC-KR",
            Encoding::Gbk => "GBK",
            Encoding::Ibm866 => "IBM866",
            Encoding::Iso2022Jp => "ISO-2022-JP",
            Encoding::Iso8859_10 => "ISO-8859-10",
            Encoding::Iso8859_13 => "ISO-8859-13",
            Encoding::Iso8859_14 => "ISO-8859-14",
            Encoding::Iso8859_15 => "ISO-8859-15",
            Encoding::Iso8859_16 => "ISO-8859-16",
            Encoding::Iso8859_2 => "ISO-8859-2",
            Encoding::Iso8859_3 => "ISO-8859-3",
            Encoding::Iso8859_4 => "ISO-8859-4",
            Encoding::Iso8859_5 => "ISO-8859-5",
            Encoding::Iso8859_6 => "ISO-8859-6",
            Encoding::Iso8859_7 => "ISO-8859-7",
            Encoding::Iso8859_8 => "ISO-8859-8",
            Encoding::Iso8859_8I => "ISO-8859-8-I",
            Encoding::Koi8R => "KOI8-R",
            Encoding::Koi8U => "KOI8-U",
            Encoding::ShiftJis => "Shift_JIS",
            Encoding::Utf16Be => "UTF-16BE",
            Encoding::Utf16Le => "UTF-16LE",
            Encoding::Utf8 => "UTF-8",
            Encoding::Gb18030 => "gb18030",
            Encoding::Macintosh => "macintosh",
            Encoding::Replacement => "replacement",
            Encoding::Windows1250 => "windows-1250",
            Encoding::Windows1251 => "windows-1251",
            Encoding::Windows1252 => "windows-1252",
            Encoding::Windows1253 => "windows-1253",
            Encoding::Windows1254 => "windows-1254",
            Encoding::Windows1255 => "windows-1255",
            Encoding::Windows1256 => "windows-1256",
            Encoding::Windows1257 => "windows-1257",
            Encoding::Windows1258 => "windows-1258",
            Encoding::Windows874 => "windows-874",
            Encoding::XMacCyrillic => "x-mac-cyrillic",
            Encoding::XUserDefined => "x-user-defined",
        };
        assert(encoding_name(*self) == name@);
        name
    }

    /// The encoding with the given WHATWG name, in the exact spelling of
    /// [`Encoding::name`].
    pub fn for_name(name: &str) -> (encoding: Option<Encoding>)
        ensures
            match encoding {
                Some(e) => encoding_name(e) == name@,
                None => !is_encoding_name(name@),
            },
    {
        if same_text(name, "Big5") {
            Some(Encoding::Big5)
        } else if same_text(name, "EUC-JP") {
            Some(Encoding::EucJp)
        } else if same_text(name, "EUC-KR") {
            Some(Encoding::EucKr)
        } else if same_text(name, "GBK") {
            Some(Encoding::Gbk)
        } else if same_text(name, "IBM866") {
            Some(Encoding::Ibm866)
        } else if same_text(name, "ISO-2022-JP") {
            Some(Encoding::Iso2022Jp)
        } else if same_text(name, "ISO-8859-10") {
            Some(Encoding::Iso8859_10)
        } else if same_text(name, "ISO-8859-13") {
            Some(Encoding::Iso8859_13)
        } else if same_text(name, "ISO-8859-14") {
            Some(Encoding::Iso8859_14)
        } else if same_text(name, "ISO-8859-15") {
            Some(Encoding::Iso8859_15)
        } else if same_text(name, "ISO-8859-16") {
            Some(Encoding::Iso8859_16)
        } else if same_text(name, "ISO-8859-2") {
            Some(Encoding::Iso8859_2)
        } else if same_text(name, "ISO-8859-3") {
            Some(Encoding::Iso8859_3)
        } else if same_text(name, "ISO-8859-4") {
            Some(Encoding::Iso8859_4)
        } else if same_text(name, "ISO-8859-5") {
            Some(Encoding::Iso8859_5)
        } else if same_text(name, "ISO-8859-6") {
            Some(Encoding::Iso8859_6)
        } else if same_text(name, "ISO-8859-7") {
            Some(Encoding::Iso8859_7)
        } else if same_text(name, "ISO-8859-8") {
            Some(Encoding::Iso8859_8)
        } else if same_text(name, "ISO-8859-8-I") {
            Some(Encoding::Iso8859_8I)
        } else if same_text(name, "KOI8-R") {
            Some(Encoding::Koi8R)
        } else if same_text(name, "KOI8-U") {
            Some(Encoding::Koi8U)
        } else if same_text(name, "Shift_JIS") {
            Some(Encoding::ShiftJis)
        } else if same_text(name, "UTF-16BE") {
            Some(Encoding::Utf16Be)
        } else if same_text(name, "UTF-16LE") {
            Some(Encoding::Utf16Le)
        } else if same_text(name, "UTF-8") {
            Some(Encoding::Utf8)
        } else if same_text(name, "gb18030") {
            Some(Encoding::Gb18030)
        } else if same_text(name, "macintosh") {
            Some(Encoding::Macintosh)
        } else if same_text(name, "replacement") {
            Some(Encoding::Replacement)
        } else if same_text(name, "windows-1250") {
            Some(Encoding::Windows1250)
        } else if same_text(name, "windows-1251") {
            Some(Encoding::Windows1251)
        } else if same_text(name, "windows-1252") {
            Some(Encoding::Windows1252)
        } else if same_text(name, "windows-1253") {
            Some(Encoding::Windows1253)
        } else if same_text(name, "windows-1254") {
            Some(Encoding::Windows1254)
        } else if same_text(name, "windows-1255") {
            Some(Encoding::Windows1255)
        } else if same_text(name, "windows-1256") {
            Some(Encoding::Windows1256)
        } else if same_text(name, "windows-1257") {
            Some(Encoding::Windows1257)
        } else if same_text(name, "windows-1258") {
            Some(Encoding::Windows1258)
        } else if same_text(name, "windows-874") {
            Some(Encoding::Windows874)
        } else if same_text(name, "x-mac-cyrillic") {
            Some(Encoding::XMacCyrillic)
        } else if same_text(name, "x-user-defined") {
            Some(Encoding::XUserDefined)
        } else {
            None
        }
    }
}

fn same_text(a: &str, b: &str) -> (same: bool)
    ensures
        same == (a@ == b@),
{
    a.to_owned() == b.to_owned()
}

/// The first and the last two characters of a name.
spec fn name_mark(name: Seq<char>) -> (char, char, char) {
    (name[0], name[name.len() - 2], name[name.len() - 1])
}

spec fn encoding_mark(encoding: Encoding) -> (char, char, char) {
    match encoding {
        Encoding::Big5 => ('B', 'g', '5'),
        Encoding::EucJp => ('E', 'J', 'P'),
        Encoding::EucKr => ('E', 'K', 'R'),
        Encoding::Gbk => ('G', 'B', 'K'),
        Encoding::Ibm866 => ('I', '6', '6'),
        Encoding::Iso2022Jp => ('I', 'J', 'P'),
        Encoding::Iso8859_10 => ('I', '1', '0'),
        Encoding::Iso8859_13 => ('I', '1', '3'),
        Encoding::Iso8859_14 => ('I', '1', '4'),
        Encoding::Iso8859_15 => ('I', '1', '5'),
        Encoding::Iso8859_16 => ('I', '1', '6'),
        Encoding::Iso8859_2 => ('I', '-', '2'),
        Encoding::Iso8859_3 => ('I', '-', '3'),
        Encoding::Iso8859_4 => ('I', '-', '4'),
        Encoding::Iso8859_5 => ('I', '-', '5'),
        Encoding::Iso8859_6 => ('I', '-', '6'),
        Encoding::Iso8859_7 => ('I', '-', '7'),
        Encoding::Iso8859_8 => ('I', '-', '8'),
        Encoding::Iso8859_8I => ('I', '-', 'I'),
        Encoding::Koi8R => ('K', '-', 'R'),
        Encoding::Koi8U => ('K', '-', 'U'),
        Encoding::ShiftJis => ('S', 'I', 'S'),
        Encoding::Utf16Be => ('U', 'B', 'E'),
        Encoding::Utf16Le => ('U', 'L', 'E'),
        Encoding::Utf8 => ('U', '-', '8'),
        Encoding::Gb18030 => ('g', '3', '0'),
        Encoding::Macintosh => ('m', 's', 'h'),
        Encoding::Replacement => ('r', 'n', 't'),
        Encoding::Windows1250 => ('w', '5', '0'),
        Encoding::Windows1251 => ('w', '5', '1'),
        Encoding::Windows1252 => ('w', '5', '2'),
        Encoding::Windows1253 => ('w', '5', '3'),
        Encoding::Windows1254 => ('w', '5', '4'),
        Encoding::Windows1255 => ('w', '5', '5'),
        Encoding::Windows1256 => ('w', '5', '6'),
        Encoding::Windows1257 => ('w', '5', '7'),
        Encoding::Windows1258 => ('w', '5', '8'),
        Encoding::Windows874 => ('w', '7', '4'),
        Encoding::XMacCyrillic => ('x', 'i', 'c'),
        Encoding::XUserDefined => ('x', 'e', 'd'),
    }
}

proof fn lemma_encoding_mark(encoding: Encoding)
    ensures
        name_mark(encoding_name(encoding)) == encoding_mark(encoding),
{
    match encoding {
        Encoding::Big5 => reveal_strlit("Big5"),
        Encoding::EucJp => reveal_strlit("EUC-JP"),
        Encoding::EucKr => reveal_strlit("EUC-KR"),
        Encoding::Gbk => reveal_strlit("GBK"),
        Encoding::Ibm866 => reveal_strlit("IBM866"),
        Encoding::Iso2022Jp => reveal_strlit("ISO-2022-JP"),
        Encoding::Iso8859_10 => reveal_strlit("ISO-8859-10"),
        Encoding::Iso8859_13 => reveal_strlit("ISO-8859-13"),
        Encoding::Iso8859_14 => reveal_strlit("ISO-8859-14"),
        Encoding::Iso8859_15 => reveal_strlit("ISO-8859-15"),
        Encoding::Iso8859_16 => reveal_strlit("ISO-8859-16"),
        Encoding::Iso8859_2 => reveal_strlit("ISO-8859-2"),
        Encoding::Iso8859_3 => reveal_strlit("ISO-8859-3"),
        Encoding::Iso8859_4 => reveal_strlit("ISO-8859-4"),
        Encoding::Iso8859_5 => reveal_strlit("ISO-8859-5"),
        Encoding::Iso8859_6 => reveal_strlit("ISO-8859-6"),
        Encoding::Iso8859_7 => reveal_strlit("ISO-8859-7"),
        Encoding::Iso8859_8 => reveal_strlit("ISO-8859-8"),
        Encoding::Iso8859_8I => reveal_strlit("ISO-8859-8-I"),
        Encoding::Koi8R => reveal_strlit("KOI8-R"),
        Encoding::Koi8U => reveal_strlit("KOI8-U"),
        Encoding::ShiftJis => reveal_strlit("Shift_JIS"),
        Encoding::Utf16Be => reveal_strlit("UTF-16BE"),
        Encoding::Utf16Le => reveal_strlit("UTF-16LE"),
        Encoding::Utf8 => reveal_strlit("UTF-8"),
        Encoding::Gb18030 => reveal_strlit("gb18030"),
        Encoding::Macintosh => reveal_strlit("macintosh"),
        Encoding::Replacement => reveal_strlit("replacement"),
        Encoding::Windows1250 => reveal_strlit("windows-1250"),
        Encoding::Windows1251 => reveal_strlit("windows-1251"),
        Encoding::Windows1252 => reveal_strlit("windows-1252"),
        Encoding::Windows1253 => reveal_strlit("windows-1253"),
        Encoding::Windows1254 => reveal_strlit("windows-1254"),
        Encoding::Windows1255 => reveal_strlit("windows-1255"),
        Encoding::Windows1256 => reveal_strlit("windows-1256"),
        Encoding::Windows1257 => reveal_strlit("windows-1257"),
        Encoding::Windows1258 => reveal_strlit("windows-1258"),
        Encoding::Windows874 => reveal_strlit("windows-874"),
        Encoding::XMacCyrillic => reveal_strlit("x-mac-cyrillic"),
        Encoding::XUserDefined => reveal_strlit("x-user-defined"),
    }
}

/// No two encodings share a name.
pub proof fn lemma_encoding_name_unique(a: Encoding, b: Encoding)
    requires
        encoding_name(a) == encoding_name(b),
    ensures
        a == b,
{
    lemma_encoding_mark(a);
    lemma_encoding_mark(b);
}

/// The encoding with the given name.
pub open spec fn encoding_named(name: Seq<char>) -> Encoding {
    choose|encoding: Encoding| #[trigger] encoding_name(encoding) == name
}

/// A name leads back to the encoding it belongs to.
pub proof fn lemma_encoding_named(encoding: Encoding)
    ensures
        encoding_named(encoding_name(encoding)) == encoding,
{
    lemma_encoding_name_unique(encoding_named(encoding_name(encoding)), encoding);
}

/// The byte-order mark that `bytes` start with: the encoding that it stands
/// for and its length.
pub open spec fn bom_of(bytes: Seq<u8>) -> Option<(Encoding, int)> {
    if bytes.len() >= 3 && bytes[0] == 0xEF && bytes[1] == 0xBB && bytes[2] == 0xBF {
        Some((Encoding::Utf8, 3))
    } else if bytes.len() >= 2 && bytes[0] == 0xFF && bytes[1] == 0xFE {
        Some((Encoding::Utf16Le, 2))
    } else if bytes.len() >= 2 && bytes[0] == 0xFE && bytes[1] == 0xFF {
        Some((Encoding::Utf16Be, 2))
    } else {
        None
    }
}

/// `encoding_rs::Encoding::for_bom`: the name of the encoding whose byte-order
/// mark `bytes` start with, and the length of the mark.
#[verifier::external_body]
fn bom_name(bytes: &[u8]) -> (bom: Option<(&'static str, usize)>)
    ensures
        match bom {
            Some((name, len)) => {
                &&& bom_of(bytes@) is Some
                &&& name@ == encoding_name((bom_of(bytes@)->0).0)
                &&& len == (bom_of(bytes@)->0).1
            },
            None => bom_of(bytes@) is None,
        },
{
    match encoding_rs::Encoding::for_bom(bytes) {
        Some((encoding, len)) => Some((encoding.name(), len)),
        None => None,
    }
}

/// Look for a byte-order mark at the start of `bytes`.
pub(crate) fn sniff_bom(bytes: &[u8]) -> (bom: Option<(Encoding, usize)>)
    ensures
        match bom {
            Some((encoding, len)) => bom_of(bytes@) == Some((encoding, len as int)),
            None => bom_of(bytes@) is None,
        },
{
    match bom_name(bytes) {
        Some((name, len)) => match Encoding::for_name(name) {
            Some(encoding) => {
                proof {
                    lemma_encoding_name_unique(encoding, (bom_of(bytes@)->0).0);
                }
                Some((encoding, len))
            },
            None => {
                proof {
                    assert(encoding_name((bom_of(bytes@)->0).0) == name@);
                    assert(false);
                }
                None
            },
        },
        None => None,
    }
}

/// `encoding_rs::Encoding::is_ascii_compatible`, on the encoding with the
/// given name: false for exactly four encodings.
#[verifier::external_body]
fn name_is_ascii_compatible(name: &str) -> (compatible: bool)
    requires
        is_encoding_name(name@),
    ensures
        forall|encoding: Encoding| #[trigger]
            encoding_name(encoding) == name@ ==> compatible == is_ascii_superset(encoding),
{
    encoding_rs::Encoding::for_label(name.as_bytes()).unwrap().is_ascii_compatible()
}

impl Encoding {
    /// Whether the bytes 0x00 to 0x7F stand for U+0000 to U+007F, and no other
    /// bytes do.
    pub fn is_ascii_compatible(&self) -> (compatible: bool)
        ensures
            compatible == is_ascii_superset(*self),
    {
        name_is_ascii_compatible(self.name())
    }
}

/// The most bytes that a decoder or an encoder is handed at a time, so that the
/// size of its buffer can be computed and allocated.
pub open spec fn conversion_limit() -> int {
    isize::MAX as int / 8
}

/// The text that the encoding_rs decoder for the encoding with the given name,
/// with byte-order marks not looked for and malformed sequences replaced, has
/// put out once it has been fed `fed`; with `last`, after the input was also
/// declared to end there.
pub uninterp spec fn decoder_output(encoding: Seq<char>, fed: Seq<u8>, last: bool) -> Seq<char>;

/// Whether `bytes` are known to read as UTF-8 in `encoding`: well-formed UTF-8
/// in UTF-8 itself, and ASCII in a superset of ASCII.
pub open spec fn decodes_as_utf8(encoding: Encoding, bytes: Seq<u8>) -> bool {
    &&& vstd::utf8::valid_utf8(bytes)
    &&& encoding == Encoding::Utf8 || (is_ascii_superset(encoding) && forall|i: int|
        0 <= i < bytes.len() ==> #[trigger] bytes[i] <= 0x7F)
}

/// A streaming decoder of encoding_rs.
#[verifier::external_type_specification]
#[verifier::external_body]
pub struct ExDecoder(encoding_rs::Decoder);

/// What a streaming decoder decodes: the name of its encoding, the bytes that
/// it has been fed, and whether its input has ended.
pub uninterp spec fn decoder_state(decoder: &encoding_rs::Decoder) -> (Seq<char>, Seq<u8>, bool);

/// `encoding_rs::Encoding::new_decoder_without_bom_handling`: a decoder that
/// has been fed nothing and has put out nothing, and puts out nothing if its
/// input ends there.  For input that [`decodes_as_utf8`] speaks of, it will have
/// put out its UTF-8 reading once the input has ended.
#[verifier::external_body]
fn new_decoder(name: &str) -> (decoder: encoding_rs::Decoder)
    requires
        is_encoding_name(name@),
    ensures
        decoder_state(&decoder) == (name@, Seq::<u8>::empty(), false),
        decoder_output(decoder_state(&decoder).0, Seq::empty(), false) == Seq::<char>::empty(),
        decoder_output(decoder_state(&decoder).0, Seq::empty(), true) == Seq::<char>::empty(),
        forall|encoding: Encoding, bytes: Seq<u8>|
            encoding_name(encoding) == decoder_state(&decoder).0 && #[trigger] decodes_as_utf8(
                encoding,
                bytes,
            ) ==> decoder_output(decoder_state(&decoder).0, bytes, true)
                == vstd::utf8::decode_utf8(bytes),
{
    let encoding = encoding_rs::Encoding::for_label(name.as_bytes()).unwrap();
    encoding.new_decoder_without_bom_handling()
}

/// Start to decode in `encoding`.
pub(crate) fn start_decoder(encoding: Encoding) -> (decoder: encoding_rs::Decoder)
    ensures
        decoder_state(&decoder) == (encoding_name(encoding), Seq::<u8>::empty(), false),
        decoder_output(encoding_name(encoding), Seq::empty(), false) == Seq::<char>::empty(),
        decoder_output(encoding_name(encoding), Seq::empty(), true) == Seq::<char>::empty(),
        forall|bytes: Seq<u8>| #[trigger]
            decodes_as_utf8(encoding, bytes) ==> decoder_output(encoding_name(encoding), bytes, true)
                == vstd::utf8::decode_utf8(bytes),
{
    new_decoder(encoding.name())
}

/// `encoding_rs::Decoder::decode_to_string`, with a string as roomy as
/// `max_utf8_buffer_length` asks for: the whole chunk is taken in, and what
/// comes out continues what came out before.  It does not matter how the input
/// is divided into chunks, and nothing that has come out is taken back
/// whatever follows.
#[verifier::external_body]
pub(crate) fn decode_chunk(decoder: &mut encoding_rs::Decoder, chunk: &[u8], last: bool) -> (text:
    String)
    requires
        !decoder_state(old(decoder)).2,
        chunk@.len() <= conversion_limit(),
    ensures
        decoder_state(final(decoder)) == (
            decoder_state(old(decoder)).0,
            decoder_state(old(decoder)).1 + chunk@,
            last,
        ),
        decoder_output(decoder_state(old(decoder)).0, decoder_state(old(decoder)).1, false) + text@
            == decoder_output(
            decoder_state(final(decoder)).0,
            decoder_state(final(decoder)).1,
            last,
        ),
        !last ==> forall|rest: Seq<u8>|
            decoder_output(
                decoder_state(final(decoder)).0,
                decoder_state(final(decoder)).1,
                false,
            ).is_prefix_of(
                #[trigger] decoder_output(
                    decoder_state(final(decoder)).0,
                    decoder_state(final(decoder)).1 + rest,
                    true,
                ),
            ),
{
    let room = decoder.max_utf8_buffer_length(chunk.len()).unwrap();
    let mut text = String::with_capacity(room);
    let (_result, _read, _replaced) = decoder.decode_to_string(chunk, &mut text, last);
    text
}

/// How many bytes are handed to a decoder at a time.
const DECODE_STEP: usize = 1048576;

/// Decode all of `bytes` in `encoding`, a byte-order mark included.
pub(crate) fn decode_verbatim(encoding: Encoding, bytes: &[u8]) -> (text: String)
    ensures
        text@ == decoder_output(encoding_name(encoding), bytes@, true),
        decodes_as_utf8(encoding, bytes@) ==> text@ == vstd::utf8::decode_utf8(bytes@),
{
    let ghost name = encoding_name(encoding);
    let mut decoder = start_decoder(encoding);
    let mut text = "".to_owned();
    let mut done: usize = 0;
    proof {
        reveal_strlit("");
        assert(bytes@.take(0) =~= Seq::<u8>::empty());
        assert(text@ =~= Seq::<char>::empty());
    }
    while done < bytes.len()
        invariant
            done <= bytes@.len(),
            decoder_state(&decoder) == (name, bytes@.take(done as int), false),
            text@ == decoder_output(name, bytes@.take(done as int), false),
        decreases bytes@.len() - done,
    {
        let end: usize = if bytes.len() - done < DECODE_STEP {
            bytes.len()
        } else {
            done + DECODE_STEP
        };
        let chunk = slice_subrange(bytes, done, end);
        assert(bytes@.take(done as int) + chunk@ =~= bytes@.take(end as int));
        let more = decode_chunk(&mut decoder, chunk, false);
        text.append(more.as_str());
        done = end;
    }
    let rest = slice_subrange(bytes, done, done);
    assert(bytes@.take(done as int) + rest@ =~= bytes@);
    let more = decode_chunk(&mut decoder, rest, true);
    text.append(more.as_str());
    text
}

/// The bytes that the encoding_rs encoder for the output encoding of the
/// encoding with the given name has put out once it has been fed `fed`, or
/// `None` where it has met a character that has no mapping; with `last`, after
/// the input was also declared to end there.
pub uninterp spec fn encoder_output(encoding: Seq<char>, fed: Seq<char>, last: bool) -> Option<
    Seq<u8>,
>;

/// What `text` is encoded to in `encoding`, or `None` where a character has no
/// mapping.
pub open spec fn encoded_text(encoding: Encoding, text: Seq<char>) -> Option<Seq<u8>> {
    encoder_output(encoding_name(encoding), text, true)
}

/// Whether `c` can be represented in `encoding`.
pub open spec fn has_mapping(encoding: Encoding, c: char) -> bool {
    encoded_text(encoding, seq![c]) is Some
}

/// Whether every character of `text` can be represented in `encoding`.
pub open spec fn maps_all(encoding: Encoding, text: Seq<char>) -> bool {
    forall|i: int| 0 <= i < text.len() ==> has_mapping(encoding, #[trigger] text[i])
}

/// Whether `encoding` is known to decode what it encodes to the same text: a
/// single-byte encoding, and UTF-8.
pub open spec fn reads_back(encoding: Encoding) -> bool {
    encoding == Encoding::Utf8 || is_single_byte(encoding)
}

/// Whether `encoding` is known to encode `text` to its UTF-8 form: all text in
/// the encodings whose output is UTF-8; ASCII text in a superset of ASCII; in
/// ISO-2022-JP, ASCII text without the control characters that switch between
/// its states.
pub open spec fn encodes_as_utf8(encoding: Encoding, text: Seq<char>) -> bool {
    ||| encoding == Encoding::Utf8
    ||| encoding == Encoding::Utf16Le
    ||| encoding == Encoding::Utf16Be
    ||| encoding == Encoding::Replacement
    ||| vstd::utf8::is_ascii_chars(text) && is_ascii_superset(encoding)
    ||| vstd::utf8::is_ascii_chars(text) && encoding == Encoding::Iso2022Jp && !text.contains(
        '\u{0E}',
    ) && !text.contains('\u{0F}') && !text.contains('\u{1B}')
}

/// A streaming encoder of encoding_rs.
#[verifier::external_type_specification]
#[verifier::external_body]
pub struct ExEncoder(encoding_rs::Encoder);

/// What a streaming encoder encodes: the name of the encoding that it was made
/// for, the text that it has been fed, and whether its input has ended.
pub uninterp spec fn encoder_state(encoder: &encoding_rs::Encoder) -> (
    Seq<char>,
    Seq<char>,
    bool,
);

/// `encoding_rs::Encoding::new_encoder`, on the encoding with the given name: an
/// encoder that has been fed nothing and has put out nothing.
///
/// For text that [`encodes_as_utf8`] speaks of, it will have put out the UTF-8
/// form once the input has ended.  What has come out then in a single-byte
/// encoding, or in UTF-8, is decoded to the text again.  But for ISO-2022-JP,
/// whose encoder has states, characters are mapped one by one: text is encoded
/// if and only if each of its characters has a mapping.
#[verifier::external_body]
fn new_encoder(name: &str) -> (encoder: encoding_rs::Encoder)
    requires
        is_encoding_name(name@),
    ensures
        encoder_state(&encoder) == (name@, Seq::<char>::empty(), false),
        encoder_output(encoder_state(&encoder).0, Seq::empty(), false) == Some(Seq::<u8>::empty()),
        forall|encoding: Encoding, text: Seq<char>|
            encoding_name(encoding) == encoder_state(&encoder).0 && encodes_as_utf8(encoding, text)
                ==> #[trigger] encoded_text(encoding, text) == Some(
                vstd::utf8::encode_utf8(text),
            ),
        forall|encoding: Encoding, text: Seq<char>|
            encoding_name(encoding) == encoder_state(&encoder).0 && reads_back(encoding)
                && #[trigger] encoded_text(encoding, text) is Some ==> decoder_output(
                encoder_state(&encoder).0,
                encoded_text(encoding, text)->0,
                true,
            ) == text,
        forall|encoding: Encoding, text: Seq<char>|
            encoding_name(encoding) == encoder_state(&encoder).0 && encoding
                != Encoding::Iso2022Jp ==> (#[trigger] encoded_text(encoding, text) is Some
                <==> maps_all(encoding, text)),
{
    encoding_rs::Encoding::for_label(name.as_bytes()).unwrap().new_encoder()
}

/// `encoding_rs::Encoder::encode_from_utf8_to_vec_without_replacement`, with a
/// vector as roomy as `max_buffer_length_from_utf8_without_replacement` asks
/// for: the whole piece is taken in, and what comes out continues what came out
/// before, unless a character has no mapping.  It does not matter how the input
/// is divided into pieces, and text with such a character is not encoded
/// whatever follows.
#[verifier::external_body]
fn encode_piece(encoder: &mut encoding_rs::Encoder, piece: &str, last: bool) -> (bytes: Option<
    Vec<u8>,
>)
    requires
        !encoder_state(old(encoder)).2,
        encoder_output(encoder_state(old(encoder)).0, encoder_state(old(encoder)).1, false) is Some,
        vstd::utf8::encode_utf8(piece@).len() <= conversion_limit(),
    ensures
        match bytes {
            Some(encoded) => {
                &&& encoder_state(final(encoder)) == (
                    encoder_state(old(encoder)).0,
                    encoder_state(old(encoder)).1 + piece@,
                    last,
                )
                &&& encoder_output(
                    encoder_state(final(encoder)).0,
                    encoder_state(final(encoder)).1,
                    last,
                ) == Some(
                    encoder_output(
                        encoder_state(old(encoder)).0,
                        encoder_state(old(encoder)).1,
                        false,
                    )->0 + encoded@,
                )
            },
            None => forall|rest: Seq<char>| #[trigger]
                encoder_output(
                    encoder_state(old(encoder)).0,
                    encoder_state(old(encoder)).1 + piece@ + rest,
                    true,
                ) is None,
        },
{
    let room = encoder.max_buffer_length_from_utf8_without_replacement(piece.len()).unwrap();
    let mut bytes = Vec::with_capacity(room);
    match encoder.encode_from_utf8_to_vec_without_replacement(piece, &mut bytes, last).0 {
        encoding_rs::EncoderResult::InputEmpty => Some(bytes),
        encoding_rs::EncoderResult::OutputFull => None,
        encoding_rs::EncoderResult::Unmappable(_) => None,
    }
}

/// How many bytes of text are handed to an encoder at a time, at most.
const ENCODE_STEP: usize = 1048576;

/// Of four successive positions in UTF-8 bytes, one at least is a character
/// boundary.
proof fn lemma_boundary_near(bytes: Seq<u8>, at: int) -> (q: int)
    requires
        vstd::utf8::valid_utf8(bytes),
        0 <= at <= bytes.len(),
    ensures
        at - 4 < q <= at,
        0 <= q,
        vstd::utf8::is_char_boundary(bytes, q),
    decreases bytes.len(),
{
    if bytes.len() == 0 || at < vstd::utf8::length_of_first_scalar(bytes) {
        0
    } else {
        let width = vstd::utf8::length_of_first_scalar(bytes);
        let q = lemma_boundary_near(vstd::utf8::pop_first_scalar(bytes), at - width);
        assert(vstd::utf8::is_char_boundary(bytes, q + width));
        q + width
    }
}

/// The last character boundary of `text` at or before `at`.
fn boundary_before(text: &str, at: usize) -> (cut: usize)
    requires
        4 <= at <= vstd::utf8::encode_utf8(text@).len(),
    ensures
        0 < cut <= at,
        vstd::utf8::is_char_boundary(vstd::utf8::encode_utf8(text@), cut as int),
{
    let ghost bytes = vstd::utf8::encode_utf8(text@);
    proof {
        vstd::utf8::encode_utf8_valid_utf8(text@);
    }
    let ghost q = lemma_boundary_near(bytes, at as int);
    let mut cut: usize = at;
    while !text.is_char_boundary(cut)
        invariant
            bytes == vstd::utf8::encode_utf8(text@),
            vstd::utf8::is_char_boundary(bytes, q),
            0 < q <= cut <= at,
        decreases cut,
    {
        cut = cut - 1;
    }
    cut
}

/// Encode `text`; `None` where a character has no mapping.
pub(crate) fn encode_exactly(encoding: Encoding, text: &str) -> (bytes: Option<Vec<u8>>)
    ensures
        match bytes {
            Some(encoded) => encoded_text(encoding, text@) == Some(encoded@),
            None => encoded_text(encoding, text@) is None,
        },
        encodes_as_utf8(encoding, text@) ==> bytes is Some && bytes->0@
            == vstd::utf8::encode_utf8(text@),
        reads_back(encoding) && bytes is Some ==> decoder_output(
            encoding_name(encoding),
            bytes->0@,
            true,
        ) == text@,
        encoding != Encoding::Iso2022Jp ==> (bytes is Some <==> maps_all(encoding, text@)),
{
    let ghost name = encoding_name(encoding);
    let mut encoder = new_encoder(encoding.name());
    let mut encoded: Vec<u8> = Vec::new();
    let mut rest: &str = text;
    let ghost mut fed = Seq::<char>::empty();
    proof {
        assert(encoded_text(encoding, text@) == encoder_output(name, text@, true));
        assert(fed + rest@ =~= text@);
        assert(encoded@ =~= Seq::<u8>::empty());
    }
    while rest.as_bytes().len() > ENCODE_STEP
        invariant
            name == encoding_name(encoding),
            fed + rest@ == text@,
            encoder_state(&encoder) == (name, fed, false),
            encoder_output(name, fed, false) == Some(encoded@),
            encoded_text(encoding, text@) == encoder_output(name, text@, true),
            encodes_as_utf8(encoding, text@) ==> encoded_text(encoding, text@) == Some(
                vstd::utf8::encode_utf8(text@),
            ),
            encoding != Encoding::Iso2022Jp ==> (encoded_text(encoding, text@) is Some
                <==> maps_all(encoding, text@)),
        decreases vstd::utf8::encode_utf8(rest@).len(),
    {
        let cut: usize = boundary_before(rest, ENCODE_STEP);
        let ghost bytes = vstd::utf8::encode_utf8(rest@);
        let (piece, tail) = rest.split_at(cut);
        proof {
            vstd::utf8::encode_utf8_valid_utf8(rest@);
            vstd::utf8::encode_utf8_decode_utf8(rest@);
            vstd::utf8::encode_utf8_decode_utf8(piece@);
            vstd::utf8::encode_utf8_decode_utf8(tail@);
            vstd::utf8::decode_utf8_split(bytes, cut as int);
            assert(rest@ =~= piece@ + tail@);
            assert(fed + piece@ + tail@ =~= text@);
        }
        match encode_piece(&mut encoder, piece, false) {
            Some(more) => {
                let ghost before = encoded@;
                encoded.extend_from_slice(more.as_slice());
                assert(encoded@ =~= before + more@);
            },
            None => {
                return None;
            },
        }
        rest = tail;
        proof {
            fed = fed + piece@;
        }
    }
    proof {
        assert(fed + rest@ + Seq::<char>::empty() =~= text@);
    }
    match encode_piece(&mut encoder, rest, true) {
        Some(more) => {
            let ghost before = encoded@;
            encoded.extend_from_slice(more.as_slice());
            assert(encoded@ =~= before + more@);
            Some(encoded)
        },
        None => None,
    }
}

} // verus!
