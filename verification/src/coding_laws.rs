//! What is encoded and decoded, and where characters begin: `\n` is 10 and `\r`
//! is 13.

use vstd::prelude::*;

use crate::branch::Branch;
use crate::buffer::Buffer;
use crate::chars;
use crate::chars::{Chars, CharsIter, SyncKind};
use crate::codec;
use crate::codec::Encoding;
use crate::encoded::{can_encode_with, encode_with, EncodeError, Encoded};
use crate::encoding::LineEnding;
use crate::lines;
use crate::lines::{LineTerminator, Lines};
use crate::mallard_bridge;
use crate::mallard_bridge::{
    from_grouse, BufferPhase, GrouseEncodingValidator, GrouseLineSource, RejectedLine,
};
use crate::source::Source;
use crate::utf8;
use crate::utf8::{check_utf8, probe_is_well_formed_utf8, Utf8Check};

verus! {

/// Every encoding goes by its name in the WHATWG Encoding Standard, by which it
/// is found.
pub proof fn lemma_encodings_go_by_their_names(
    encoding: Encoding,
    name: &'static str,
    found: Option<Encoding>,
)
    requires
        call_ensures(Encoding::name, (&encoding,), name),
        call_ensures(Encoding::for_name, (name,), found),
    ensures
        found == Some(encoding),
        encoding is Big5 ==> name@ == "Big5"@,
        encoding is EucJp ==> name@ == "EUC-JP"@,
        encoding is EucKr ==> name@ == "EUC-KR"@,
        encoding is Gbk ==> name@ == "GBK"@,
        encoding is Ibm866 ==> name@ == "IBM866"@,
        encoding is Iso2022Jp ==> name@ == "ISO-2022-JP"@,
        encoding is Iso8859_10 ==> name@ == "ISO-8859-10"@,
        encoding is Iso8859_13 ==> name@ == "ISO-8859-13"@,
        encoding is Iso8859_14 ==> name@ == "ISO-8859-14"@,
        encoding is Iso8859_15 ==> name@ == "ISO-8859-15"@,
        encoding is Iso8859_16 ==> name@ == "ISO-8859-16"@,
        encoding is Iso8859_2 ==> name@ == "ISO-8859-2"@,
        encoding is Iso8859_3 ==> name@ == "ISO-8859-3"@,
        encoding is Iso8859_4 ==> name@ == "ISO-8859-4"@,
        encoding is Iso8859_5 ==> name@ == "ISO-8859-5"@,
        encoding is Iso8859_6 ==> name@ == "ISO-8859-6"@,
        encoding is Iso8859_7 ==> name@ == "ISO-8859-7"@,
        encoding is Iso8859_8 ==> name@ == "ISO-8859-8"@,
        encoding is Iso8859_8I ==> name@ == "ISO-8859-8-I"@,
        encoding is Koi8R ==> name@ == "KOI8-R"@,
        encoding is Koi8U ==> name@ == "KOI8-U"@,
        encoding is ShiftJis ==> name@ == "Shift_JIS"@,
        encoding is Utf16Be ==> name@ == "UTF-16BE"@,
        encoding is Utf16Le ==> name@ == "UTF-16LE"@,
        encoding is Utf8 ==> name@ == "UTF-8"@,
        encoding is Gb18030 ==> name@ == "gb18030"@,
        encoding is Macintosh ==> name@ == "macintosh"@,
        encoding is Replacement ==> name@ == "replacement"@,
        encoding is Windows1250 ==> name@ == "windows-1250"@,
        encoding is Windows1251 ==> name@ == "windows-1251"@,
        encoding is Windows1252 ==> name@ == "windows-1252"@,
        encoding is Windows1253 ==> name@ == "windows-1253"@,
        encoding is Windows1254 ==> name@ == "windows-1254"@,
        encoding is Windows1255 ==> name@ == "windows-1255"@,
        encoding is Windows1256 ==> name@ == "windows-1256"@,
        encoding is Windows1257 ==> name@ == "windows-1257"@,
        encoding is Windows1258 ==> name@ == "windows-1258"@,
        encoding is Windows874 ==> name@ == "windows-874"@,
        encoding is XMacCyrillic ==> name@ == "x-mac-cyrillic"@,
        encoding is XUserDefined ==> name@ == "x-user-defined"@,
{
    codec::lemma_encoding_named(encoding);
    codec::lemma_encoding_named(found->0);
}

/// Text is encodable exactly where encoding it succeeds, but that ASCII always
/// is; and, where the encoder has no states, exactly where each of its
/// characters can be encoded alone.
pub proof fn lemma_encodable_is_what_encodes(
    encoding: Encoding,
    text: &str,
    encodable: Result<bool, EncodeError>,
    bytes: Result<Vec<u8>, EncodeError>,
)
    requires
        call_ensures(can_encode_with, (encoding, text), encodable),
        call_ensures(encode_with, (encoding, text), bytes),
    ensures
        encodable is Ok,
        !vstd::utf8::is_ascii_chars(text@) ==> encodable->Ok_0 == bytes is Ok,
        vstd::utf8::is_ascii_chars(text@) ==> encodable->Ok_0,
        encoding != Encoding::Iso2022Jp ==> encodable->Ok_0 == bytes is Ok,
        encoding != Encoding::Iso2022Jp ==> (encodable->Ok_0 <==> forall|i: int|
            0 <= i < text@.len() ==> codec::encoder_output(
                codec::encoding_name(encoding),
                seq![#[trigger] text@[i]],
                true,
            ) is Some),
{
    assert(codec::maps_all(encoding, text@) <==> forall|i: int|
        0 <= i < text@.len() ==> codec::encoder_output(
            codec::encoding_name(encoding),
            seq![#[trigger] text@[i]],
            true,
        ) is Some) by {
        if codec::maps_all(encoding, text@) {
            assert forall|i: int| 0 <= i < text@.len() implies codec::encoder_output(
                codec::encoding_name(encoding),
                seq![#[trigger] text@[i]],
                true,
            ) is Some by {
                assert(codec::has_mapping(encoding, text@[i]));
            }
        }
    }
}

/// The same of anything that is encoded.
pub proof fn lemma_encodable_in_the_encoding<E: Encoded>(
    holder: E,
    text: &str,
    encodable: Result<bool, EncodeError>,
    bytes: Result<Vec<u8>, EncodeError>,
)
    requires
        call_ensures(E::can_encode, (&holder, text), encodable),
        call_ensures(E::encode, (&holder, text), bytes),
    ensures
        encodable is Ok,
        !vstd::utf8::is_ascii_chars(text@) ==> encodable->Ok_0 == bytes is Ok,
        vstd::utf8::is_ascii_chars(text@) ==> encodable->Ok_0,
        holder.encoded_as() != Encoding::Iso2022Jp ==> (encodable->Ok_0 <==> forall|i: int|
            0 <= i < text@.len() ==> codec::encoder_output(
                codec::encoding_name(holder.encoded_as()),
                seq![#[trigger] text@[i]],
                true,
            ) is Some),
        match bytes {
            Ok(b) => codec::encoder_output(
                codec::encoding_name(holder.encoded_as()),
                text@,
                true,
            ) == Some(b@),
            Err(e) => codec::encoder_output(
                codec::encoding_name(holder.encoded_as()),
                text@,
                true,
            ) is None,
        },
{
    assert(codec::maps_all(holder.encoded_as(), text@) <==> forall|i: int|
        0 <= i < text@.len() ==> codec::encoder_output(
            codec::encoding_name(holder.encoded_as()),
            seq![#[trigger] text@[i]],
            true,
        ) is Some) by {
        if codec::maps_all(holder.encoded_as(), text@) {
            assert forall|i: int| 0 <= i < text@.len() implies codec::encoder_output(
                codec::encoding_name(holder.encoded_as()),
                seq![#[trigger] text@[i]],
                true,
            ) is Some by {
                assert(codec::has_mapping(holder.encoded_as(), text@[i]));
            }
        }
    }
}

/// What is asked of a reader or a buffer as something encoded is what it was
/// opened with.
pub proof fn lemma_encoded_as_opened(
    chars: Chars,
    lines: Lines,
    buffer: Buffer,
    branches: (Branch, Branch, Branch),
    encodings: (Encoding, Encoding, Encoding),
    endings: (LineEnding, LineEnding, LineEnding),
)
    requires
        call_ensures(<Chars as Encoded>::branch, (&chars,), branches.0),
        call_ensures(<Lines as Encoded>::branch, (&lines,), branches.1),
        call_ensures(<Buffer as Encoded>::branch, (&buffer,), branches.2),
        call_ensures(<Chars as Encoded>::encoding, (&chars,), encodings.0),
        call_ensures(<Lines as Encoded>::encoding, (&lines,), encodings.1),
        call_ensures(<Buffer as Encoded>::encoding, (&buffer,), encodings.2),
        call_ensures(<Chars as Encoded>::line_ending, (&chars,), endings.0),
        call_ensures(<Lines as Encoded>::line_ending, (&lines,), endings.1),
        call_ensures(<Buffer as Encoded>::line_ending, (&buffer,), endings.2),
    ensures
        branches == (chars.source_branch(), lines.source_branch(), buffer.source_branch()),
        encodings == (chars.source_encoding(), lines.source_encoding(), buffer.source_encoding()),
        endings == (
            chars.source_line_ending(),
            lines.source_line_ending(),
            buffer.source_line_ending(),
        ),
{
}

/// Encoding gives all bytes that the encoder puts out for the whole text, or the
/// error that names the encoding.
pub proof fn lemma_encoding_takes_all_of_the_text(
    encoding: Encoding,
    text: &str,
    bytes: Result<Vec<u8>, EncodeError>,
)
    requires
        call_ensures(encode_with, (encoding, text), bytes),
    ensures
        match bytes {
            Ok(b) => codec::encoder_output(codec::encoding_name(encoding), text@, true) == Some(b@),
            Err(EncodeError::Unmappable { encoding_name }) => codec::encoder_output(
                codec::encoding_name(encoding),
                text@,
                true,
            ) is None && encoding_name@ == codec::encoding_name(encoding),
        },
        encoding == Encoding::Utf8 ==> bytes is Ok && bytes->Ok_0@ == vstd::utf8::encode_utf8(
            text@,
        ),
        codec::is_single_byte(encoding) && bytes is Ok ==> codec::decoder_output(
            codec::encoding_name(encoding),
            bytes->Ok_0@,
            true,
        ) == text@,
{
}

/// A validator accepts what can be encoded, and hands back the lines that cannot;
/// while a buffer is loading it accepts everything.
pub proof fn lemma_validator_accepts_what_encodes(
    validator: GrouseEncodingValidator,
    line: &str,
    phase: BufferPhase,
    valid: Result<(), RejectedLine>,
    valid_in: Result<(), RejectedLine>,
    bytes: Result<Vec<u8>, EncodeError>,
)
    requires
        call_ensures(GrouseEncodingValidator::validate_line, (&validator, line), valid),
        call_ensures(GrouseEncodingValidator::validate_in, (&validator, phase, line), valid_in),
        call_ensures(encode_with, (validator.target(), line), bytes),
    ensures
        valid is Ok <==> bytes is Ok || vstd::utf8::is_ascii_chars(line@),
        phase == BufferPhase::Loading ==> valid_in is Ok,
        phase == BufferPhase::Editing ==> (valid_in is Ok <==> valid is Ok),
        valid is Err ==> valid->Err_0.line@ == line@,
        valid_in is Err ==> valid_in->Err_0.line@ == line@,
        valid is Err ==> valid->Err_0.description@
            == "line contains characters that cannot be encoded in '"@ + codec::encoding_name(
            validator.target(),
        ) + "'"@,
        valid_in is Err ==> valid is Err && valid_in->Err_0.description@
            == valid->Err_0.description@,
{
}

/// The characters from an offset at or after the byte-order mark on are what the
/// bytes from that offset on decode to.
pub proof fn lemma_chars_from_the_offset(chars: Chars, offset: u64, iter: CharsIter)
    requires
        call_ensures(Chars::chars_from, (&chars, offset), iter),
    ensures
        chars.source_bom_len() <= offset <= chars.source_branch()@.len() ==> iter.remaining()
            == codec::decoder_output(
            codec::encoding_name(chars.source_encoding()),
            chars.source_branch()@.skip(offset as int),
            true,
        ),
        offset < chars.source_bom_len() <= chars.source_branch()@.len() ==> iter.remaining()
            == codec::decoder_output(
            codec::encoding_name(chars.source_encoding()),
            chars.source_branch()@.skip(chars.source_bom_len()),
            true,
        ),
        offset >= chars.source_branch()@.len() >= chars.source_bom_len() ==> iter.remaining().len()
            == 0,
        chars.source_encoding() == Encoding::Utf8 && chars.source_bom_len() <= offset
            <= chars.source_branch()@.len() && vstd::utf8::valid_utf8(
            chars.source_branch()@.skip(offset as int),
        ) ==> iter.remaining() == vstd::utf8::decode_utf8(
            chars.source_branch()@.skip(offset as int),
        ),
{
}

/// Characters begin, in UTF-8, where no continuation byte is; in UTF-16, at even
/// offsets where no low surrogate is; in a single-byte encoding anywhere; and in
/// the others, so far as that can be told, at the start and at line breaks.
pub proof fn lemma_where_characters_begin(c: Seq<u8>, encoding: Encoding, p: int)
    requires
        0 <= p < c.len(),
    ensures
        ({
            let begins = chars::is_sync_point(c, chars::sync_kind_of(encoding), p);
            &&& encoding == Encoding::Utf8 ==> (begins <==> c[p] < 128 || c[p] >= 192)
            &&& encoding == Encoding::Utf16Le && p + 1 < c.len() ==> (begins <==> p % 2 == 0 && !(
            0xDC00 <= c[p] + 256 * c[p + 1] < 0xE000))
            &&& encoding == Encoding::Utf16Be && p + 1 < c.len() ==> (begins <==> p % 2 == 0 && !(
            0xDC00 <= 256 * c[p] + c[p + 1] < 0xE000))
            &&& (encoding == Encoding::Utf16Le && p + 1 == c.len()) ==> (begins <==> p % 2 == 0)
            &&& codec::is_single_byte(encoding) ==> begins
            &&& encoding == Encoding::ShiftJis || encoding == Encoding::Gbk || encoding
                == Encoding::Gb18030 || encoding == Encoding::Big5 || encoding == Encoding::EucJp
                || encoding == Encoding::EucKr || encoding == Encoding::Iso2022Jp ==> (begins <==> p
                == 0 || c[p] == 10 || c[p] == 13)
        }),
{
}

/// The nearest place where a character begins is the last one that does not come
/// after the offset; it is the start if there is no other.
pub proof fn lemma_nearest_is_the_last_before(c: Seq<u8>, kind: SyncKind, offset: int)
    requires
        0 <= offset,
    ensures
        ({
            let r = chars::sync_point_at(c, kind, offset);
            &&& 0 <= r <= offset
            &&& r == 0 || chars::is_sync_point(c, kind, r)
            &&& forall|q: int| r < q <= offset ==> !#[trigger] chars::is_sync_point(c, kind, q)
        }),
    decreases offset,
{
    if offset > 0 && !chars::is_sync_point(c, kind, offset) {
        lemma_nearest_is_the_last_before(c, kind, offset - 1);
    }
}

/// An offset is looked up past the end of the bytes without harm, except in
/// UTF-8, where the byte there has to be read.
pub proof fn lemma_only_utf8_reads_the_byte(c: Seq<u8>, encoding: Encoding, offset: int)
    ensures
        chars::reads_past_end(c, chars::sync_kind_of(encoding), offset) <==> encoding
            == Encoding::Utf8 && offset >= c.len(),
{
}

/// The anchors in a range are the line break bytes in it, from the first to the
/// last.
pub proof fn lemma_anchors_are_line_breaks(c: Seq<u8>, a: int, b: int)
    requires
        0 <= a <= b <= c.len() <= u64::MAX,
    ensures
        ({
            let found = chars::anchors_in(c, a, b);
            &&& forall|i: int, j: int|
                0 <= i < j < found.len() ==> #[trigger] found[i] < #[trigger] found[j]
            &&& forall|i: int|
                0 <= i < found.len() ==> a <= #[trigger] found[i] < b && (c[found[i] as int] == 10
                    || c[found[i] as int] == 13)
            &&& forall|p: int|
                a <= p < b && (#[trigger] c[p] == 10 || c[p] == 13) ==> found.contains(p as u64)
        }),
    decreases b - a,
{
    if a < b {
        lemma_anchors_are_line_breaks(c, a, b - 1);
        let shorter = chars::anchors_in(c, a, b - 1);
        let found = chars::anchors_in(c, a, b);
        assert forall|p: int| a <= p < b && (#[trigger] c[p] == 10 || c[p] == 13) implies
            found.contains(p as u64) by {
            if p < b - 1 {
                let i = choose|i: int| 0 <= i < shorter.len() && shorter[i] == p as u64;
                assert(found[i] == p as u64);
            } else {
                assert(found.last() == p as u64);
            }
        }
    }
}

/// The index of anchors goes on after its last one, or after the byte-order mark,
/// and goes up to and with the offset, or to the end of the bytes.
pub proof fn lemma_index_goes_on(points: Seq<u64>, bom_len: u64, len: int, upto: u64)
    requires
        0 <= len,
    ensures
        points.len() == 0 ==> chars::scan_start(points, bom_len) == bom_len,
        points.len() > 0 ==> chars::scan_start(points, bom_len) == points[points.len() - 1] + 1,
        upto < len ==> chars::scan_end(len, upto) == upto + 1,
        upto >= len ==> chars::scan_end(len, upto) == len,
{
}

/// A check of bytes as UTF-8 tells apart those that are valid, those that are not
/// but can be completed, in which at most 3 bytes come after the valid part, and
/// those that no other bytes can complete.
pub proof fn lemma_utf8_checks(bytes: &[u8], check: Utf8Check, well_formed: bool)
    requires
        call_ensures(check_utf8, (bytes,), check),
        call_ensures(probe_is_well_formed_utf8, (bytes,), well_formed),
    ensures
        check is Valid <==> vstd::utf8::valid_utf8(bytes@),
        check is Malformed <==> forall|more: Seq<u8>| !#[trigger] vstd::utf8::valid_utf8(
            bytes@ + more,
        ),
        check is Cut ==> {
            let n = check->valid_up_to as int;
            &&& n < bytes@.len() <= n + 3
            &&& vstd::utf8::valid_utf8(bytes@.take(n))
        },
        well_formed <==> check !is Malformed,
{
    let s = bytes@;
    assert(s + Seq::<u8>::empty() =~= s);
    if let Utf8Check::Cut { valid_up_to } = check {
        let v = valid_up_to as int;
        let tail = s.subrange(v, s.len() as int);
        let more = utf8::lemma_cut_completes(tail);
        let t = s + more;
        assert(t.subrange(0, v) =~= s.subrange(0, v));
        assert(t.subrange(v, t.len() as int) =~= tail + more);
        utf8::lemma_valid_after(t, v);
        utf8::lemma_valid_after(s, v);
        utf8::lemma_cut_invalid(tail);
        assert(s.take(v) =~= s.subrange(0, v));
    }
}

/// The bytes of a line and a final `\n`, in code units of the encoding, are what
/// the reader yields for a line that is terminated; for one that is not, they
/// are all that it yields.
pub proof fn lemma_line_bytes_are_the_line(r: Seq<u8>, encoding: Encoding, n: int)
    requires
        0 <= n < lines::split_lines(r, lines::units_of(encoding)).len(),
    ensures
        ({
            let line = lines::split_lines(r, lines::units_of(encoding))[n];
            let content = mallard_bridge::line_bytes(encoding, line);
            match line.1 {
                LineTerminator::Ending(_) => line.0 == content + (if encoding
                    == Encoding::Utf16Le {
                    seq![10u8, 0u8]
                } else if encoding == Encoding::Utf16Be {
                    seq![0u8, 10u8]
                } else {
                    seq![10u8]
                }),
                LineTerminator::End => line.0 == content,
            }
        }),
    decreases r.len(),
{
    let units = lines::units_of(encoding);
    let all = lines::split_lines(r, units);
    let split = lines::split_line(r, units)->0;
    if r.len() > 0 {
        lines::lemma_split_line_takes(r, units);
        lines::lemma_split_line_len(r, units);
    }
    if n > 0 {
        lemma_line_bytes_are_the_line(r.skip(split.taken), encoding, n - 1);
        assert(all[n] == lines::split_lines(r.skip(split.taken), units)[n - 1]);
    } else {
        let line = all[0];
        let content = mallard_bridge::line_bytes(encoding, line);
        if line.1 is Ending {
            assert(line.0 =~= content + lines::unit_bytes(units, 10));
        }
    }
}

/// The lines that are handed to a line buffer are the lines that the reader
/// yields, one for one: the bytes of each, all but the final `\n`, decoded.
pub proof fn lemma_line_source_decodes_whole_lines(
    reader: Lines,
    made: GrouseLineSource,
    n: int,
    content: Seq<u8>,
)
    requires
        call_ensures(GrouseLineSource::new, (reader,), made),
        0 <= n < made@.len(),
        ({
            let encoding = reader.source_encoding();
            let line = lines::split_lines(reader.remaining(), lines::units_of(encoding))[n];
            match line.1 {
                LineTerminator::Ending(_) => line.0 == content + (if encoding
                    == Encoding::Utf16Le {
                    seq![10u8, 0u8]
                } else if encoding == Encoding::Utf16Be {
                    seq![0u8, 10u8]
                } else {
                    seq![10u8]
                }),
                LineTerminator::End => line.0 == content,
            }
        }),
    ensures
        made@[n] == codec::decoder_output(
            codec::encoding_name(reader.source_encoding()),
            content,
            true,
        ),
{
    let encoding = reader.source_encoding();
    let line = lines::split_lines(reader.remaining(), lines::units_of(encoding))[n];
    lemma_line_bytes_are_the_line(reader.remaining(), encoding, n);
    assert(mallard_bridge::line_bytes(encoding, line) =~= content);
}

/// There are as many lines as the reader yields.
pub proof fn lemma_line_source_has_all_lines(reader: Lines, made: GrouseLineSource)
    requires
        call_ensures(GrouseLineSource::new, (reader,), made),
    ensures
        made@.len() == lines::split_lines(
            reader.remaining(),
            lines::units_of(reader.source_encoding()),
        ).len(),
{
}

/// What a line buffer is made of for a source: the lines of all that comes after
/// the byte-order mark, each decoded as a whole, and a validator for the
/// encoding of the source.
pub proof fn lemma_bridge_decodes_whole_lines(
    source: Source,
    made: (GrouseLineSource, GrouseEncodingValidator),
    n: int,
    content: Seq<u8>,
)
    requires
        call_ensures(from_grouse, (source,), made),
        0 <= n < made.0@.len(),
        ({
            let encoding = source.source_encoding();
            let r = source.source_branch()@.skip(source.source_bom_len());
            let line = lines::split_lines(r, lines::units_of(encoding))[n];
            match line.1 {
                LineTerminator::Ending(_) => line.0 == content + (if encoding
                    == Encoding::Utf16Le {
                    seq![10u8, 0u8]
                } else if encoding == Encoding::Utf16Be {
                    seq![0u8, 10u8]
                } else {
                    seq![10u8]
                }),
                LineTerminator::End => line.0 == content,
            }
        }),
    ensures
        made.1.target() == source.source_encoding(),
        made.0@.len() == lines::split_lines(
            source.source_branch()@.skip(source.source_bom_len()),
            lines::units_of(source.source_encoding()),
        ).len(),
        made.0@[n] == codec::decoder_output(
            codec::encoding_name(source.source_encoding()),
            content,
            true,
        ),
{
    let encoding = source.source_encoding();
    let r = source.source_branch()@.skip(source.source_bom_len());
    let line = lines::split_lines(r, lines::units_of(encoding))[n];
    lemma_line_bytes_are_the_line(r, encoding, n);
    assert(mallard_bridge::line_bytes(encoding, line) =~= content);
}

} // verus!
