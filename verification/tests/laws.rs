//! What the ways to look at the same bytes have to do with each other, on
//! concrete texts.

use weaver::branch::Branch;
use weaver::buffer::{Buffer, BufferError};
use weaver::codec::Encoding;
use weaver::denormalise::{DenormaliseWriter, RepeatTerminator, TerminatorList};
use weaver::encoding::{detect_line_ending, LineEnding, SourceConfig};
use weaver::error::IoError;
use weaver::line_count::LineCount;
use weaver::line_map::LineMap;
use weaver::line_map_event::{EventSender, LineMapEvent};
use weaver::lines::{LineTerminator, Lines, LinesError, TerminatorLog};
use weaver::offset_map::build_offset_map;
use weaver::source::{vote_line_ending, Source};

/// Texts with every kind of terminator, in and at the ends.
const TEXTS: [&[u8]; 12] = [
    b"",
    b"plain",
    b"\n",
    b"\r",
    b"\r\n",
    b"a\nb\r\nc\rd",
    b"a\nb\r\nc\rd\r\n",
    b"\r\r\n\n\r",
    b"\n\r\n\r\r\n",
    b"one\r\ntwo\r\n\r\nfour",
    b"x\ry\rz\r",
    b"\r\n\r\n\r\n",
];

fn config() -> SourceConfig {
    SourceConfig { encoding_hint: Some(Encoding::Utf8), ..SourceConfig::default() }
}

fn lines_of(bytes: &[u8]) -> Lines {
    Source::new(Branch::from_bytes(bytes.to_vec()), config()).unwrap().as_lines().unwrap()
}

fn buffer_of(bytes: &[u8]) -> Buffer {
    Source::new(Branch::from_bytes(bytes.to_vec()), config()).unwrap().as_buffer().unwrap()
}

fn read(bytes: &[u8]) -> Vec<(Vec<u8>, LineTerminator)> {
    let mut lines = lines_of(bytes);
    let mut out = Vec::new();
    while let Some(line) = lines.next() {
        out.push(line);
    }
    out
}

fn endings(bytes: &[u8]) -> Vec<LineEnding> {
    let mut out = Vec::new();
    for (_, terminator) in read(bytes) {
        if let LineTerminator::Ending(ending) = terminator {
            out.push(ending);
        }
    }
    out
}

fn joined(bytes: &[u8]) -> Vec<u8> {
    let mut out = Vec::new();
    for (line, _) in read(bytes) {
        out.extend_from_slice(&line);
    }
    out
}

fn normalised(bytes: &[u8]) -> Vec<u8> {
    buffer_of(bytes).view_range(0..bytes.len() as u64).unwrap().bytes
}

fn ending_bytes(ending: LineEnding) -> &'static [u8] {
    match ending {
        LineEnding::Lf => b"\n",
        LineEnding::CrLf => b"\r\n",
        LineEnding::Cr => b"\r",
    }
}

fn scanned(bytes: &[u8], size: u64) -> LineMap {
    let mut map = LineMap::new(Branch::from_bytes(bytes.to_vec()), Some(size), None);
    while map.scan_next_segment().unwrap() {}
    map
}

#[test]
fn lines_lose_nothing() {
    for text in TEXTS {
        let mut restored: Vec<u8> = Vec::new();
        for (line, terminator) in read(text) {
            match terminator {
                LineTerminator::Ending(ending) => {
                    restored.extend_from_slice(&line[..line.len() - 1]);
                    restored.extend_from_slice(ending_bytes(ending));
                }
                LineTerminator::End => restored.extend_from_slice(&line),
            }
        }
        assert_eq!(restored, text);
    }
}

#[test]
fn utf16_lines_lose_nothing() {
    let text = "ab\r\nc\n\rd";
    let mut bytes: Vec<u8> = vec![0xFE, 0xFF];
    for unit in text.encode_utf16() {
        bytes.extend_from_slice(&unit.to_be_bytes());
    }
    let mut lines = Source::new(Branch::from_bytes(bytes.clone()), SourceConfig::default())
        .unwrap()
        .as_lines()
        .unwrap();
    let mut restored: Vec<u8> = vec![0xFE, 0xFF];
    while let Some((line, terminator)) = lines.next() {
        match terminator {
            LineTerminator::Ending(ending) => {
                restored.extend_from_slice(&line[..line.len() - 2]);
                for byte in ending_bytes(ending) {
                    restored.extend_from_slice(&[0, *byte]);
                }
            }
            LineTerminator::End => restored.extend_from_slice(&line),
        }
    }
    assert_eq!(restored, bytes);
}

#[test]
fn lines_are_the_normalised_text() {
    for text in TEXTS {
        assert_eq!(joined(text), normalised(text));
        assert_eq!(
            LineCount::exact(read(text).len()),
            scanned(text, 64).current_line_count(),
            "{text:?}"
        );
    }
}

#[test]
fn normalised_text_is_normal() {
    for text in TEXTS {
        let once = normalised(text);
        assert!(!once.contains(&b'\r'));
        assert_eq!(normalised(&once), once);
    }
}

#[test]
fn read_then_write_restores() {
    for text in TEXTS {
        let list = TerminatorList::new(endings(text));
        let mut writer = DenormaliseWriter::new(Vec::new(), list);
        assert_eq!(writer.write(&joined(text)), Ok(joined(text).len()));
        assert_eq!(writer.finish().unwrap(), text);
    }
}

#[test]
fn writes_add_up() {
    let text = b"a\nb\n\nc\n";
    let kinds = [LineEnding::CrLf, LineEnding::Cr, LineEnding::Lf];
    let whole = {
        let mut writer = DenormaliseWriter::new(Vec::new(), TerminatorList::new(kinds.to_vec()));
        writer.write(text).unwrap();
        writer.into_inner()
    };
    assert_eq!(whole, b"a\r\nb\r\nc\n");
    for cut in 0..=text.len() {
        let mut writer = DenormaliseWriter::new(Vec::new(), TerminatorList::new(kinds.to_vec()));
        writer.write(&text[..cut]).unwrap();
        writer.flush().unwrap();
        writer.write(&text[cut..]).unwrap();
        assert_eq!(writer.into_inner(), whole, "cut at {cut}");
    }
}

#[test]
fn uniform_conversion_changes_terminators_only() {
    for text in TEXTS {
        let plain = normalised(text);
        for ending in [LineEnding::Lf, LineEnding::CrLf, LineEnding::Cr] {
            let mut writer = DenormaliseWriter::new(Vec::new(), RepeatTerminator::new(ending));
            writer.write(&plain).unwrap();
            let converted = writer.into_inner();
            assert_eq!(normalised(&converted), plain);
            assert!(endings(&converted).iter().all(|e| *e == ending));
            assert_eq!(endings(&converted).len(), endings(text).len());
        }
    }
}

#[test]
fn without_terminators_text_is_written_as_it_is() {
    let mut writer = DenormaliseWriter::new(Vec::new(), TerminatorList::new(Vec::new()));
    writer.write(b"a\nb\n").unwrap();
    assert_eq!(writer.finish().unwrap(), b"a\nb\n");
}

#[test]
fn a_line_by_number_is_the_line_read_in_its_turn() {
    for text in TEXTS {
        let mut buffer = buffer_of(text);
        for (number, (line, _)) in read(text).iter().enumerate() {
            assert_eq!(&buffer.line_content(number).unwrap().bytes, line);
        }
    }
}

#[test]
fn a_line_starts_at_its_first_column() {
    for text in TEXTS {
        for size in 1..6 {
            let mut map = LineMap::new(Branch::from_bytes(text.to_vec()), Some(size), None);
            let mut line = 0;
            while let Some(start) = map.line_offset(line).unwrap() {
                if start < text.len() as u64 {
                    assert_eq!(map.offset_to_line_col(start).unwrap(), Some((line, 0)));
                }
                line += 1;
            }
            assert_eq!(line, endings(text).len() + 1);
        }
    }
}

#[test]
fn every_offset_has_its_line_and_column_in_any_segmentation() {
    for text in TEXTS {
        let expected: Vec<(usize, usize)> = {
            let mut out = Vec::new();
            let (mut line, mut col) = (0, 0);
            for (at, byte) in text.iter().enumerate() {
                out.push((line, col));
                let ends = *byte == b'\n' || (*byte == b'\r' && text.get(at + 1) != Some(&b'\n'));
                (line, col) = if ends { (line + 1, 0) } else { (line, col + 1) };
            }
            out
        };
        for size in 1..6 {
            for (at, place) in expected.iter().enumerate() {
                let mut map = LineMap::new(Branch::from_bytes(text.to_vec()), Some(size), None);
                let found = map.offset_to_line_col(at as u64).unwrap();
                assert_eq!(found, Some(*place), "{text:?} at {at}, segments of {size}");
            }
        }
    }
}

#[test]
fn segments_list_the_terminators_in_any_segmentation() {
    for text in TEXTS {
        for size in 1..6 {
            let map = scanned(text, size);
            let mut listed = Vec::new();
            for i in 0..map.segment_count() {
                listed.extend_from_slice(&map.segment(i).terminators);
            }
            assert_eq!(listed, endings(text), "{text:?}, segments of {size}");
        }
    }
}

#[test]
fn segments_scanned_again_hold_the_same() {
    for text in TEXTS {
        for size in 1..6 {
            let before = scanned(text, size);
            for from in 0..text.len() as u64 {
                let mut again = scanned(text, size);
                again.invalidate_from_byte(from);
                while again.scan_next_segment().unwrap() {}
                for i in 0..before.segment_count() {
                    assert_eq!(again.segment(i), before.segment(i));
                }
            }
        }
    }
}

#[test]
fn every_scanned_segment_sends_two_events() {
    let branch = Branch::from_bytes(b"a\nb\nc\nd\n".to_vec());
    let mut map = LineMap::new(branch, Some(3), Some(EventSender::new()));
    assert_eq!(map.line_offset(4).unwrap(), Some(8));
    let events = map.drain_events();
    assert_eq!(events.len(), 6);
    assert_eq!(
        events[4],
        LineMapEvent::LineCountChanged { count: LineCount::exact(4) }
    );
    assert_eq!(events[5], LineMapEvent::RegionExact { start_line: 3, end_line: 3 });
    assert!(map.drain_events().is_empty());
}

#[test]
fn one_drift_entry_per_crlf_and_positions_lead_back() {
    for text in TEXTS {
        let branch = Branch::from_bytes(text.to_vec());
        let map = build_offset_map(&branch, 0..branch.byte_len()).unwrap();
        let plain = normalised(text);
        let mut previous = None;
        for at in 0..plain.len() {
            let source = map.to_source(at as u64);
            assert!(previous.is_none_or(|p| p < source));
            previous = Some(source);
            let byte = text[source as usize];
            assert_eq!(plain[at], if byte == b'\r' { b'\n' } else { byte });
        }
        let crlfs = text.windows(2).filter(|w| *w == b"\r\n").count() as u64;
        assert_eq!(map.to_source(plain.len() as u64), plain.len() as u64 + crlfs);
    }
}

#[test]
fn an_edit_through_a_view_reads_back() {
    let text = b"a\nb\r\nc\rdd\r\n";
    let plain = normalised(text);
    for start in 0..=plain.len() {
        for end in start..=plain.len() {
            let mut buffer = buffer_of(text);
            let view = buffer.view_range(0..text.len() as u64).unwrap();
            buffer.apply_edit(&view, start as u64..end as u64, b"[x\r\ny]").unwrap();
            let mut expected = plain[..start].to_vec();
            expected.extend_from_slice(b"[x\ny]");
            expected.extend_from_slice(&plain[end..]);
            assert_eq!(normalised(&buffer.branch().materialize()), expected);
        }
    }
}

#[test]
fn an_edit_makes_older_views_stale() {
    let mut buffer = buffer_of(b"one\ntwo\n");
    let view = buffer.view_range(0..8).unwrap();
    buffer.insert_line(1).unwrap();
    let refused = buffer.apply_edit(&view, 0..1, b"X").unwrap_err();
    assert!(matches!(refused, BufferError::StaleView));
    assert_eq!(
        refused.to_string(),
        "View was created from a stale branch state; re-create it after the previous edit"
    );
    assert_eq!(buffer.branch().materialize(), b"one\n\ntwo\n");
    let fresh = buffer.view_range(0..9).unwrap();
    buffer.apply_edit(&fresh, 0..1, b"X").unwrap();
    assert_eq!(buffer.branch().materialize(), b"Xne\n\ntwo\n");
}

#[test]
fn an_inserted_line_is_empty_and_moves_the_others() {
    let text = b"one\r\ntwo\r\nthree\r\n";
    for at in 0..=3 {
        let mut buffer = buffer_of(text);
        buffer.insert_line(at).unwrap();
        let mut expected = read(text);
        expected.insert(at, (b"\n".to_vec(), LineTerminator::Ending(LineEnding::CrLf)));
        assert_eq!(read(&buffer.branch().materialize()), expected);
    }
}

#[test]
fn deleting_an_inserted_line_undoes_it() {
    let texts: [&[u8]; 4] = [b"one\r\ntwo\r\nthree", b"a\rb\r", b"x\n\ny\n", b""];
    for text in texts {
        for at in 0..=endings(text).len() {
            let mut buffer = buffer_of(text);
            buffer.insert_line(at).unwrap();
            let view = buffer.line_content(at).unwrap();
            assert_eq!(view.bytes, b"\n");
            buffer.apply_edit(&view, 0..1, b"").unwrap();
            assert_eq!(buffer.branch().materialize(), text);
        }
    }
}

#[test]
fn segment_size_is_immaterial() {
    for text in TEXTS {
        for size in 1..6 {
            let branch = Branch::from_bytes(text.to_vec());
            let mut map = LineMap::new(branch, Some(size), None);
            while let Ok(true) = map.scan_next_segment() {}
            let mut listed = Vec::new();
            for i in 0..map.segment_count() {
                listed.extend_from_slice(&map.segment(i).terminators);
            }
            assert_eq!(listed, endings(text), "segments of {size} bytes");
        }
    }
}

#[test]
fn a_line_inserted_after_a_lone_cr_joins_it() {
    // Two `\n` against one `\r`: new lines get `\n`, which completes a `\r\n`.
    let mut buffer = buffer_of(b"a\rb\nc\n");
    buffer.insert_line(1).unwrap();
    assert_eq!(buffer.branch().materialize(), b"a\r\nb\nc\n");
    assert_eq!(read(b"a\r\nb\nc\n").len(), 3);
}

#[test]
fn a_split_line_gets_one_more_terminator() {
    let mut buffer = buffer_of(b"one\r\ntwo\r\n");
    buffer.split_line(1, 1).unwrap();
    assert_eq!(buffer.branch().materialize(), b"one\r\nt\r\nwo\r\n");
    assert_eq!(buffer.line_map().current_line_count().exact, false);
    assert_eq!(buffer.line_offset(2).unwrap(), 8);
}

#[test]
fn split_line_out_of_range() {
    let mut buffer = buffer_of(b"one\ntwo");
    assert!(matches!(
        buffer.split_line(2, 0),
        Err(BufferError::LineOutOfRange { line: 2, total: 2 })
    ));
    let past = buffer.split_line(1, 4).unwrap_err();
    assert!(matches!(past, BufferError::Io(IoError::OutOfBounds)));
    assert_eq!(
        past.to_string(),
        "I/O error in Buffer: offset or range exceeds branch length"
    );
    assert_eq!(buffer.branch().materialize(), b"one\ntwo");
    buffer.split_line(1, 3).unwrap();
    assert_eq!(buffer.branch().materialize(), b"one\ntwo\n");
}

#[test]
fn an_appended_line_ends_an_unterminated_one() {
    let mut buffer = buffer_of(b"one\r\ntwo");
    buffer.append_line().unwrap();
    assert_eq!(buffer.branch().materialize(), b"one\r\ntwo\r\n");
    buffer.append_line().unwrap();
    assert_eq!(buffer.branch().materialize(), b"one\r\ntwo\r\n\r\n");
}

#[test]
fn apply_edit_rejects_ranges_outside_the_view() {
    let mut buffer = buffer_of(b"a\r\nb");
    let view = buffer.view_range(0..4).unwrap();
    let (start, end) = (2, 1);
    assert!(matches!(
        buffer.apply_edit(&view, start..end, b""),
        Err(BufferError::Io(IoError::InvertedRange { start: 2, end: 1 }))
    ));
    assert!(matches!(
        buffer.apply_edit(&view, 0..4, b""),
        Err(BufferError::Io(IoError::RangePastView { end: 4, view_len: 3 }))
    ));
    assert_eq!(buffer.branch().materialize(), b"a\r\nb");
}

#[test]
fn buffer_errors_say_what_went_wrong() {
    assert_eq!(
        BufferError::RangeExceedsCeiling { requested: 10, ceiling: 4 }.to_string(),
        "byte range (10 bytes) exceeds memory ceiling (4 bytes)"
    );
    assert_eq!(
        BufferError::LineOutOfRange { line: 7, total: 3 }.to_string(),
        "line 7 is out of range (file has 3 lines)"
    );
    assert_eq!(
        BufferError::EncodeUnsupported { encoding_name: "UTF-16LE" }.to_string(),
        "encoding 'UTF-16LE' has no usable encoder in encoding_rs; \
         use Source::as_chars or Source::as_lines for read-only access"
    );
}

#[test]
fn lines_errors_say_what_went_wrong() {
    assert_eq!(
        LinesError::Io(IoError::OutOfBounds).to_string(),
        "I/O error in Lines: offset or range exceeds branch length"
    );
    let refused = lines_of(b"abcdef").with_view_ceiling(2).view_range(0..5).err().unwrap();
    assert!(matches!(refused, LinesError::RangeExceedsCeiling { requested: 5, ceiling: 2 }));
}

#[test]
fn a_view_of_lines_ends_with_the_branch() {
    let lines = lines_of(b"a\r\nb");
    let view = lines.view_range(2..7).unwrap();
    assert_eq!(view.bytes, b"\nb");
    assert_eq!(view.byte_range_start(), 2);
    assert_eq!(view.offset_map.to_source(2), 2);
    assert_eq!(lines.view_range(0..9).unwrap().bytes, b"a\nb");
    assert_eq!(lines.view_range(4..6).unwrap().bytes, b"");
    assert_eq!(lines.view_range(u64::MAX - 3..u64::MAX).unwrap().bytes, b"");
    assert_eq!(lines_of(b"ab").view_range(0..4).unwrap().bytes, b"ab");
    let edited = view.apply(0..2, b"xyz").unwrap();
    assert_eq!(edited.materialize(), b"a\rxyz");
}

#[test]
fn a_buffer_view_ends_with_the_branch() {
    let buffer = buffer_of(b"a\r\nb");
    assert_eq!(buffer.view_range(2..7).unwrap().bytes, b"\nb");
    assert_eq!(buffer.view_range(9..12).unwrap().bytes, b"");
    let (start, end) = (3, 1);
    assert_eq!(buffer.view_range(start..end).unwrap().bytes, b"");
}

#[test]
fn iso_2022_jp_views_are_left_as_they_are() {
    let branch = Branch::from_bytes(b"a\r\nb\r\n".to_vec());
    let config = SourceConfig {
        encoding_hint: Some(Encoding::Iso2022Jp),
        ..SourceConfig::default()
    };
    let mut buffer = Source::new(branch, config).unwrap().as_buffer().unwrap();
    let view = buffer.view_range(0..6).unwrap();
    assert_eq!(view.bytes, b"a\r\nb\r\n");
    buffer.apply_edit(&view, 3..4, b"X").unwrap();
    assert_eq!(buffer.branch().materialize(), b"a\r\nX\r\n");
}

#[test]
fn a_log_keeps_the_last_terminators() {
    let pushed = [LineEnding::Lf, LineEnding::CrLf, LineEnding::Cr, LineEnding::Lf, LineEnding::Cr];
    for capacity in 0..7 {
        let mut log = TerminatorLog::new(capacity);
        for ending in pushed {
            log.push(ending);
        }
        let mut kept = Vec::new();
        let mut iter = log.iter();
        while let Some(ending) = iter.next() {
            kept.push(ending);
        }
        assert_eq!(kept, pushed[pushed.len() - capacity.min(pushed.len())..]);
        assert_eq!(log.len(), capacity.min(pushed.len()));
    }
}

#[test]
fn the_vote_elects_a_leader() {
    // Two of `\r` and `\r\n` each, one `\n` that comes first.
    let bytes = b"a\nb\rc\r\nd\r\ne\r";
    assert_eq!(detect_line_ending(bytes, None), Some(LineEnding::Cr));
    assert_eq!(detect_line_ending(bytes, Some(LineEnding::CrLf)), Some(LineEnding::CrLf));
    assert_eq!(detect_line_ending(bytes, Some(LineEnding::Lf)), Some(LineEnding::Cr));
    assert_eq!(vote_line_ending(b"none", None), LineEnding::Lf);
    assert_eq!(vote_line_ending(b"none", Some(LineEnding::Cr)), LineEnding::Cr);
}

#[test]
fn utf8_is_recognised_wherever_the_probe_ends() {
    let text = "äöü→世界😀─".repeat(3);
    for probe_len in 0..text.len() + 2 {
        let config = SourceConfig { probe_len, ..SourceConfig::default() };
        let branch = Branch::from_bytes(text.as_bytes().to_vec());
        let source = Source::new(branch, config).unwrap();
        assert_eq!(source.encoding(), Encoding::Utf8, "probe of {probe_len}");
    }
}

#[test]
fn a_probe_shorter_than_a_byte_order_mark_still_sees_it() {
    let config = SourceConfig { probe_len: 0, ..SourceConfig::default() };
    let branch = Branch::from_bytes(b"\xEF\xBB\xBFtext".to_vec());
    let source = Source::new(branch, config).unwrap();
    assert_eq!(source.bom_len(), 3);
}

#[test]
fn line_zero_starts_before_a_byte_order_mark() {
    let branch = Branch::from_bytes(b"\xEF\xBB\xBFa\nb\n".to_vec());
    let source = Source::new(branch, SourceConfig::default()).unwrap();
    let mut buffer = source.as_buffer().unwrap();
    assert_eq!(buffer.bom_len(), 3);
    assert_eq!(buffer.line_offset(0).unwrap(), 0);
    assert_eq!(buffer.line_offset(1).unwrap(), 5);
}

#[test]
fn a_sender_attached_later_keeps_what_is_scanned() {
    let mut buffer = buffer_of(b"a\nb\n");
    buffer.line_offset(1).unwrap();
    let mut buffer = buffer.with_sender(EventSender::new());
    assert_eq!(buffer.line_map().next_unscanned(), None);
    assert_eq!(buffer.line_offset(2).unwrap(), 4);
    assert!(buffer.line_map_mut().drain_events().is_empty());
}

#[test]
fn an_edit_keeps_the_sender() {
    let mut buffer = buffer_of(b"a\nb\n").with_sender(EventSender::new());
    buffer.append_line().unwrap();
    buffer.line_offset(3).unwrap();
    let events = buffer.line_map_mut().drain_events();
    assert_eq!(events.len(), 2);
    assert_eq!(
        events[0],
        LineMapEvent::LineCountChanged { count: LineCount::exact(3) }
    );
}

#[test]
fn offsets_of_an_empty_buffer() {
    let mut buffer = buffer_of(b"");
    assert_eq!(buffer.offset_to_line_col(0).unwrap(), (0, 0));
    assert!(matches!(
        buffer.offset_to_line_col(1),
        Err(BufferError::LineOutOfRange { line: 0, total: 0 })
    ));
    assert_eq!(buffer.line_content(0).unwrap().bytes, b"");
    assert!(matches!(
        buffer.line_content(1),
        Err(BufferError::LineOutOfRange { line: 1, total: 0 })
    ));
}

fn utf16(text: &str, big_endian: bool) -> Vec<u8> {
    let mut out = Vec::new();
    for unit in text.encode_utf16() {
        let bytes = if big_endian { unit.to_be_bytes() } else { unit.to_le_bytes() };
        out.extend_from_slice(&bytes);
    }
    out
}

fn wide_lines(bytes: &[u8], big_endian: bool) -> Lines {
    let encoding = if big_endian { Encoding::Utf16Be } else { Encoding::Utf16Le };
    let config = SourceConfig { encoding_hint: Some(encoding), ..SourceConfig::default() };
    Source::new(Branch::from_bytes(bytes.to_vec()), config).unwrap().as_lines().unwrap()
}

#[test]
fn utf16_views_have_one_line_feed_per_terminator() {
    for big_endian in [false, true] {
        let bytes = utf16("a\r\nb\rc\n\u{0D0A}\u{0A0D}\r\n\n\r", big_endian);
        let lines = wide_lines(&bytes, big_endian);
        let view = lines.view_range(0..bytes.len() as u64).unwrap();
        assert_eq!(view.bytes, utf16("a\nb\nc\n\u{0D0A}\u{0A0D}\n\n\n", big_endian));
        // The two `\r\n` lose one code unit each.
        assert_eq!(view.offset_map.to_source(2), 2);
        assert_eq!(view.offset_map.to_source(4), 6);
        assert_eq!(view.offset_map.to_source(16), 18);
        assert_eq!(view.offset_map.to_source(18), 22);
        assert_eq!(view.offset_map.to_source(view.bytes.len() as u64), bytes.len() as u64);
    }
}

#[test]
fn utf16_view_of_a_lone_crlf() {
    let config = SourceConfig::default();
    let branch = Branch::from_bytes(b"\xFF\xFE\x0D\x00\x0A\x00".to_vec());
    let lines = Source::new(branch, config).unwrap().as_lines().unwrap();
    let view = lines.view_range(2..6).unwrap();
    assert_eq!(view.bytes, b"\x0A\x00");
    assert_eq!(view.bytes(), &view.bytes);
    assert_eq!(view.offset_map().to_source(2), 4);
    assert_eq!(view.apply(0..2, b"").unwrap().materialize(), b"\xFF\xFE");
}

#[test]
fn utf16_views_and_lines_agree() {
    for text in TEXTS {
        let text = std::str::from_utf8(text).unwrap();
        for big_endian in [false, true] {
            for odd in [false, true] {
                let mut bytes = utf16(text, big_endian);
                if odd {
                    bytes.push(0x0D);
                }
                let mut lines = wide_lines(&bytes, big_endian);
                let view = lines.view_range(0..bytes.len() as u64).unwrap();
                let mut joined = Vec::new();
                while let Some((line, _)) = lines.next() {
                    joined.extend_from_slice(&line);
                }
                assert_eq!(view.bytes, joined);
            }
        }
    }
}

#[test]
fn utf16_edits_read_back() {
    let bytes = utf16("one\r\ntwo\r\n", false);
    let lines = wide_lines(&bytes, false);
    let view = lines.view_range(0..bytes.len() as u64).unwrap();
    let edited = view.apply(8..14, &utf16("drei", false)).unwrap();
    assert_eq!(edited.materialize(), utf16("one\r\ndrei\r\n", false));
    let joined = view.apply(6..8, &utf16(" ", false)).unwrap();
    assert_eq!(joined.materialize(), utf16("one two\r\n", false));
}
