//! Tests of the encodings and of the conversions that encoding_rs does.

use weaver::branch::Branch;
use weaver::chars::{sync_kind, Chars, SyncKind};
use weaver::codec::Encoding;
use weaver::encoded::{can_encode_with, encode_with, encoded_or_error, EncodeError, Encoded};
use weaver::encoding::{BomPolicy, LineEnding, SourceConfig};
use weaver::source::{Source, SourceError};
use weaver::utf8::{check_utf8, Utf8Check};

const ALL: [Encoding; 40] = [
    Encoding::Big5,
    Encoding::EucJp,
    Encoding::EucKr,
    Encoding::Gbk,
    Encoding::Ibm866,
    Encoding::Iso2022Jp,
    Encoding::Iso8859_10,
    Encoding::Iso8859_13,
    Encoding::Iso8859_14,
    Encoding::Iso8859_15,
    Encoding::Iso8859_16,
    Encoding::Iso8859_2,
    Encoding::Iso8859_3,
    Encoding::Iso8859_4,
    Encoding::Iso8859_5,
    Encoding::Iso8859_6,
    Encoding::Iso8859_7,
    Encoding::Iso8859_8,
    Encoding::Iso8859_8I,
    Encoding::Koi8R,
    Encoding::Koi8U,
    Encoding::ShiftJis,
    Encoding::Utf16Be,
    Encoding::Utf16Le,
    Encoding::Utf8,
    Encoding::Gb18030,
    Encoding::Macintosh,
    Encoding::Replacement,
    Encoding::Windows1250,
    Encoding::Windows1251,
    Encoding::Windows1252,
    Encoding::Windows1253,
    Encoding::Windows1254,
    Encoding::Windows1255,
    Encoding::Windows1256,
    Encoding::Windows1257,
    Encoding::Windows1258,
    Encoding::Windows874,
    Encoding::XMacCyrillic,
    Encoding::XUserDefined,
];

fn chars(bytes: &[u8], encoding: Encoding) -> Chars {
    let config = SourceConfig {
        encoding_hint: Some(encoding),
        bom_policy: BomPolicy::Ignore,
        ..SourceConfig::default()
    };
    Source::new(Branch::from_bytes(bytes.to_vec()), config).unwrap().as_chars().unwrap()
}

fn text_from(chars: &Chars, offset: u64) -> String {
    let mut out = String::new();
    let mut iter = chars.chars_from(offset);
    while let Some(c) = iter.next() {
        out.push(c);
    }
    out
}

#[test]
fn every_encoding_is_one_of_encoding_rs() {
    for encoding in ALL {
        let theirs = encoding_rs::Encoding::for_label(encoding.name().as_bytes()).unwrap();
        assert_eq!(theirs.name(), encoding.name());
        assert_eq!(Encoding::for_name(encoding.name()), Some(encoding));
        assert_eq!(encoding.is_ascii_compatible(), theirs.is_ascii_compatible(), "{encoding:?}");
    }
    assert_eq!(Encoding::for_name("utf8"), None);
    assert_eq!(Encoding::for_name(""), None);
}

#[test]
fn ascii_reads_and_writes_as_itself_in_every_superset() {
    let text = "Hello, \tWorld\r\n 0~";
    for encoding in ALL {
        if encoding.is_ascii_compatible() {
            assert_eq!(encode_with(encoding, text).unwrap(), text.as_bytes(), "{encoding:?}");
            assert_eq!(text_from(&chars(text.as_bytes(), encoding), 0), text, "{encoding:?}");
        }
    }
}

#[test]
fn encodings_with_utf8_output_encode_everything() {
    let text = "é世😀";
    for encoding in [Encoding::Utf8, Encoding::Utf16Le, Encoding::Utf16Be, Encoding::Replacement] {
        assert_eq!(encode_with(encoding, text).unwrap(), text.as_bytes());
        assert_eq!(can_encode_with(encoding, text), Ok(true));
    }
}

#[test]
fn legacy_encodings_encode_what_they_map() {
    assert_eq!(encode_with(Encoding::Windows1252, "é€").unwrap(), [0xE9, 0x80]);
    assert_eq!(encode_with(Encoding::ShiftJis, "あ").unwrap(), [0x82, 0xA0]);
    assert_eq!(encode_with(Encoding::Koi8R, "Я").unwrap(), [0xF1]);
    assert_eq!(
        encode_with(Encoding::Iso2022Jp, "aあ").unwrap(),
        [b'a', 0x1B, b'$', b'B', 0x24, 0x22, 0x1B, b'(', b'B']
    );
}

#[test]
fn unmappable_text_is_refused_by_name() {
    let refused = encode_with(Encoding::Windows1252, "a世").unwrap_err();
    assert_eq!(refused, EncodeError::Unmappable { encoding_name: "windows-1252" });
    assert_eq!(
        refused.to_string(),
        "one or more characters cannot be encoded in 'windows-1252'"
    );
    assert_eq!(can_encode_with(Encoding::Windows1252, "a世"), Ok(false));
    assert_eq!(can_encode_with(Encoding::Windows1252, "aé"), Ok(true));
}

#[test]
fn escape_characters_do_not_fit_iso_2022_jp() {
    assert!(encode_with(Encoding::Iso2022Jp, "a\u{1B}b").is_err());
    assert!(encode_with(Encoding::Iso2022Jp, "a\u{0E}b").is_err());
    assert!(encode_with(Encoding::Iso2022Jp, "a\u{0F}b").is_err());
    assert_eq!(encode_with(Encoding::Iso2022Jp, "ab").unwrap(), b"ab");
    // ASCII text is accepted unseen.
    assert_eq!(can_encode_with(Encoding::Iso2022Jp, "a\u{1B}b"), Ok(true));
}

#[test]
fn an_encoder_that_gave_nothing_is_an_error() {
    assert_eq!(encoded_or_error(Encoding::Gbk, Some(vec![1, 2])), Ok(vec![1, 2]));
    assert_eq!(
        encoded_or_error(Encoding::Gbk, None),
        Err(EncodeError::Unmappable { encoding_name: "GBK" })
    );
}

#[test]
fn malformed_bytes_are_replaced() {
    assert_eq!(text_from(&chars(b"a\xFFb\xC3", Encoding::Utf8), 0), "a\u{FFFD}b\u{FFFD}");
    assert_eq!(text_from(&chars(&[0x41, 0x00, 0x00], Encoding::Utf16Le), 0), "A\u{FFFD}");
}

#[test]
fn characters_that_cross_a_chunk_are_decoded_whole() {
    let mut text = "x".repeat(4095);
    text.push_str("世界😀");
    text.push_str(&"y".repeat(5000));
    assert_eq!(text_from(&chars(text.as_bytes(), Encoding::Utf8), 0), text);
}

#[test]
fn what_is_encoded_reads_back() {
    for (encoding, text) in [
        (Encoding::Utf8, "Hello, 世界! é à ü 🦊"),
        (Encoding::Windows1252, "naïve café €"),
        (Encoding::ShiftJis, "日本語テキスト"),
        (Encoding::Gb18030, "中文😀"),
        (Encoding::Iso2022Jp, "あいう abc"),
    ] {
        let bytes = encode_with(encoding, text).unwrap();
        assert_eq!(text_from(&chars(&bytes, encoding), 0), text, "{encoding:?}");
    }
}

#[test]
fn characters_from_a_sync_point_are_the_rest() {
    let text = "ab世é😀z";
    let mut source = chars(text.as_bytes(), Encoding::Utf8);
    for offset in 0..text.len() {
        let sync = source.nearest_sync_point(offset as u64).unwrap() as usize;
        assert!(text.is_char_boundary(sync));
        assert!((sync + 1..=offset).all(|p| !text.is_char_boundary(p)));
        assert_eq!(source.nearest_sync_point(sync as u64).unwrap() as usize, sync);
        assert_eq!(
            source.is_boundary(offset as u64).unwrap(),
            sync == offset,
            "offset {offset}"
        );
        assert_eq!(text_from(&source, sync as u64), &text[sync..]);
    }
}

#[test]
fn utf8_has_no_boundary_past_the_end() {
    let mut source = chars(b"ab", Encoding::Utf8);
    let error = source.is_boundary(2).unwrap_err();
    assert_eq!(
        error.to_string(),
        "I/O error in Chars: offset or range exceeds branch length"
    );
    assert!(source.nearest_sync_point(2).is_err());
}

#[test]
fn every_offset_of_a_single_byte_encoding_is_a_boundary() {
    let mut source = chars(b"caf\xE9", Encoding::Windows1252);
    for offset in 0..6 {
        assert!(source.is_boundary(offset).unwrap());
        assert_eq!(source.nearest_sync_point(offset).unwrap(), offset);
    }
}

#[test]
fn utf16_sync_points_step_back_over_low_surrogates() {
    // 'A', then U+1F600 as a surrogate pair.
    let mut le = chars(&[0x41, 0x00, 0x3D, 0xD8, 0x00, 0xDE], Encoding::Utf16Le);
    assert_eq!(le.nearest_sync_point(5).unwrap(), 2);
    assert_eq!(le.nearest_sync_point(4).unwrap(), 2);
    assert_eq!(le.nearest_sync_point(1).unwrap(), 0);
    let mut be = chars(&[0x00, 0x41, 0xD8, 0x3D, 0xDE, 0x00], Encoding::Utf16Be);
    assert_eq!(be.nearest_sync_point(5).unwrap(), 2);
    assert_eq!(be.nearest_sync_point(3).unwrap(), 2);
}

#[test]
fn sync_kinds_of_encodings() {
    assert_eq!(sync_kind(Encoding::Utf8), SyncKind::Utf8);
    assert_eq!(sync_kind(Encoding::Utf16Le), SyncKind::Utf16Le);
    assert_eq!(sync_kind(Encoding::Utf16Be), SyncKind::Utf16Be);
    for encoding in [
        Encoding::ShiftJis,
        Encoding::Gbk,
        Encoding::Gb18030,
        Encoding::Big5,
        Encoding::EucJp,
        Encoding::EucKr,
        Encoding::Iso2022Jp,
    ] {
        assert_eq!(sync_kind(encoding), SyncKind::Dbcs);
    }
    assert_eq!(sync_kind(Encoding::Windows1252), SyncKind::SingleByte);
}

#[test]
fn utf8_check_tells_cut_from_malformed() {
    assert_eq!(check_utf8("aé世😀".as_bytes()), Utf8Check::Valid);
    assert_eq!(check_utf8(b""), Utf8Check::Valid);
    assert_eq!(check_utf8(b"ab\xE4\xB8"), Utf8Check::Cut { valid_up_to: 2 });
    assert_eq!(check_utf8(b"\xF0\x9F\x98"), Utf8Check::Cut { valid_up_to: 0 });
    assert_eq!(check_utf8(b"a\xC3"), Utf8Check::Cut { valid_up_to: 1 });
    for malformed in [
        &b"\xFF"[..],
        b"\x80",
        b"\xC0\x80",
        b"\xC1\xBF",
        b"\xE0\x80",
        b"\xED\xA0\x80",
        b"\xF0\x8F",
        b"\xF4\x90\x80\x80",
        b"\xF5",
        b"a\xC3b",
        b"\xE4\xB8a",
    ] {
        assert_eq!(check_utf8(malformed), Utf8Check::Malformed, "{malformed:?}");
    }
}

#[test]
fn utf8_check_agrees_with_std_on_every_pair_of_bytes() {
    for first in 0..=255u8 {
        for second in 0..=255u8 {
            let bytes = [first, second];
            let valid = std::str::from_utf8(&bytes).is_ok();
            assert_eq!(check_utf8(&bytes) == Utf8Check::Valid, valid, "{bytes:?}");
        }
    }
}

#[test]
fn a_decode_only_encoding_cannot_be_opened() {
    let branch = Branch::from_bytes(b"text\r\n".to_vec());
    let error = Source::open_as(branch, SourceConfig::default(), Encoding::Replacement, 0)
        .err()
        .unwrap();
    assert!(matches!(
        error,
        SourceError::EncodeDecodeAsymmetry { encoding_name: "replacement" }
    ));
    assert_eq!(
        error.to_string(),
        "encoding 'replacement' cannot encode text (decode-only encoding)"
    );
}

#[test]
fn a_known_encoding_is_taken_as_it_is() {
    let branch = Branch::from_bytes(b"\xEF\xBB\xBFa\r\nb\r\n".to_vec());
    let source = Source::open_as(branch, SourceConfig::default(), Encoding::Utf8, 3).unwrap();
    assert_eq!(source.encoding(), Encoding::Utf8);
    assert_eq!(source.bom_len(), 3);
    assert_eq!(source.line_ending(), LineEnding::CrLf);
}

#[test]
fn line_endings_are_voted_on_in_decoded_text() {
    // CRLF in UTF-16LE, behind a byte-order mark.
    let bytes: Vec<u8> = [0xFF, 0xFE, 0x61, 0x00, 0x0D, 0x00, 0x0A, 0x00, 0x62, 0x00].to_vec();
    let source = Source::new(Branch::from_bytes(bytes), SourceConfig::default()).unwrap();
    assert_eq!(source.encoding(), Encoding::Utf16Le);
    assert_eq!(source.line_ending(), LineEnding::CrLf);
}

#[test]
fn source_errors_say_what_went_wrong() {
    assert_eq!(
        SourceError::DetectionFailure.to_string(),
        "encoding detection failed to produce a usable result"
    );
    assert_eq!(
        SourceError::Io(weaver::error::IoError::OutOfBounds).to_string(),
        "I/O error reading source probe: offset or range exceeds branch length"
    );
}

#[test]
fn encoded_trait_on_all_three_modes() {
    let open = || {
        let branch = Branch::from_bytes(b"a\r\nb\r\n".to_vec());
        Source::new(branch, SourceConfig::default()).unwrap()
    };
    let chars = open().as_chars().unwrap();
    let lines = open().as_lines().unwrap();
    let buffer = open().as_buffer().unwrap();
    assert_eq!(Encoded::line_ending(&chars), LineEnding::CrLf);
    assert_eq!(Encoded::line_ending(&lines), LineEnding::CrLf);
    assert_eq!(Encoded::line_ending(&buffer), LineEnding::CrLf);
    assert_eq!(chars.encode("é").unwrap(), "é".as_bytes());
    assert_eq!(lines.encode("é").unwrap(), "é".as_bytes());
    assert_eq!(buffer.encode("é").unwrap(), "é".as_bytes());
    assert_eq!(buffer.can_encode("é"), Ok(true));
    assert_eq!(Encoded::branch(&buffer).byte_len(), 6);
}

/// In a single-byte encoding, what is encoded is decoded to the same text, and
/// text is encoded exactly where each of its characters is.
#[test]
fn single_byte_encodings_read_back() {
    let every_byte: Vec<u8> = (0..=255).collect();
    for encoding in ALL {
        if sync_kind(encoding) != SyncKind::SingleByte || encoding == Encoding::Replacement {
            continue;
        }
        let decoded = text_from(&chars(&every_byte, encoding), 0);
        assert_eq!(decoded.chars().count(), 256);
        let mapped: String = decoded.chars().filter(|c| *c != '\u{FFFD}').collect();
        let bytes = encode_with(encoding, &mapped).unwrap();
        assert_eq!(bytes.len(), mapped.chars().count());
        assert_eq!(text_from(&chars(&bytes, encoding), 0), mapped, "{}", encoding.name());
        let mut others: u32 = 0;
        let known: std::collections::HashSet<char> = mapped.chars().collect();
        for c in '\u{0}'..='\u{3000}' {
            let one = encode_with(encoding, &c.to_string());
            assert_eq!(one.is_ok(), known.contains(&c), "{} {c:?}", encoding.name());
            if one.is_err() && others < 3 {
                others += 1;
                assert!(encode_with(encoding, &format!("a{c}b")).is_err());
            }
        }
        assert!(encode_with(encoding, "\u{1F986}").is_err());
    }
}

/// UTF-8 reads back too, whatever the text.
#[test]
fn utf8_encoding_reads_back() {
    let text = "\u{FEFF}a\u{0}\u{e9}\u{FFFD}\u{1F986}";
    let bytes = encode_with(Encoding::Utf8, text).unwrap();
    assert_eq!(text_from(&chars(&bytes, Encoding::Utf8), 0), text);
}

/// Text that is longer than what an encoder is handed at a time is encoded
/// whole, wherever its characters fall.
#[test]
fn long_text_is_encoded_whole() {
    for shift in 0..4 {
        let mut text = "x".repeat(shift);
        text.push_str(&"\u{3042}a".repeat(300_000));
        assert_eq!(encode_with(Encoding::Utf8, &text).unwrap(), text.as_bytes());
        let bytes = encode_with(Encoding::ShiftJis, &text).unwrap();
        let mut expected = b"x".repeat(shift);
        expected.extend_from_slice(&b"\x82\xa0a".repeat(300_000));
        assert_eq!(bytes, expected);
        text.push('\u{1F986}');
        assert!(encode_with(Encoding::ShiftJis, &text).is_err());
        assert_eq!(can_encode_with(Encoding::ShiftJis, &text), Ok(false));
    }
    // ISO-2022-JP goes on in the state in which a piece has left it.
    let text = "\u{3042}".repeat(400_000);
    let mut expected = b"\x1b$B".to_vec();
    expected.extend_from_slice(&b"$\"".repeat(400_000));
    expected.extend_from_slice(b"\x1b(B");
    assert_eq!(encode_with(Encoding::Iso2022Jp, &text).unwrap(), expected);
}
