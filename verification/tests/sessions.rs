//! Reading logs while they are being indexed.

use logcrate::lines::{
    detect_encoding, missing_bytes, trim_line_bytes, LineScanner, LogLine, TextEncoding, MAX_LINE_BYTES,
};
use logcrate::sessions::{
    chunk_fits, is_report_due, progress_percent, EncodingChange, IndexProgress, IndexReply, SessionError,
    SessionManager, MAX_SESSIONS, MAX_UNCOMPRESSED,
};

/// Opens a session under the next free name.
fn open(manager: &mut SessionManager, entry: &str, size: u64) -> String {
    let id = manager.reserve_session_id(size).unwrap();
    let (opened, _) = manager.prepare(id, entry.into(), size);
    opened.session_id
}

/// Feeds content as a reader does: a sample, then larger pieces. Stops early
/// when a report says so.
fn index(
    manager: &mut SessionManager,
    id: &str,
    declared: u64,
    bytes: &[u8],
    limit: u64,
    close_after_report: bool,
) -> Vec<IndexProgress> {
    let mut events = Vec::new();
    let mut end = bytes.len().min(4096);
    let mut ended = end == 0;
    let mut reply = manager.start_index(id, &bytes[..end], ended, declared, limit);
    while let IndexReply::More(lacking) = reply {
        assert!(lacking > 0);
        ended = end == bytes.len();
        end = bytes.len().min(end + lacking);
        reply = manager.start_index(id, &bytes[..end], ended, declared, limit);
    }
    let mut rest = &bytes[end..];
    loop {
        match reply {
            IndexReply::More(_) => unreachable!(),
            IndexReply::Stop => return events,
            IndexReply::Quiet => {}
            IndexReply::Progress(event) => {
                events.push(event);
                if close_after_report {
                    manager.close(id);
                }
            }
            IndexReply::Finished(event) => {
                events.push(event);
                return events;
            }
        }
        if rest.is_empty() {
            reply = manager.finish_index(id);
        } else {
            let piece = &rest[..rest.len().min(65_536)];
            reply = manager.index_chunk(id, piece, declared, limit, Some(0));
            rest = &rest[piece.len()..];
        }
    }
}

fn indexed_manager(bytes: &[u8]) -> (SessionManager, String, Vec<IndexProgress>) {
    let mut manager = SessionManager::new();
    let id = open(&mut manager, "encoding.log", bytes.len() as u64);
    let events = index(&mut manager, &id, bytes.len() as u64, bytes, MAX_UNCOMPRESSED, false);
    (manager, id, events)
}

fn utf16_bytes(text: &str, big_endian: bool, bom: bool) -> Vec<u8> {
    let mut bytes = Vec::new();
    if bom {
        bytes.extend(if big_endian { [0xFE, 0xFF] } else { [0xFF, 0xFE] });
    }
    for unit in text.encode_utf16() {
        bytes.extend(if big_endian { unit.to_be_bytes() } else { unit.to_le_bytes() });
    }
    bytes
}

fn contents(lines: &[LogLine]) -> Vec<&str> {
    lines.iter().map(|line| line.content.as_str()).collect::<Vec<_>>()
}

fn change_to(manager: &mut SessionManager, id: &str, name: &str, bytes: &[u8]) -> EncodingChange {
    let mut change = match manager.prepare_encoding_change(id, name) {
        Ok(change) => change,
        Err(error) => panic!("{error:?}"),
    };
    change.scan(bytes);
    change
}

#[test]
fn publishes_readable_lines_before_indexing_finishes() {
    let bytes = b"one\ntwo\nlast";
    let mut manager = SessionManager::new();
    let id = open(&mut manager, "test.log", 12);
    let first = match manager.start_index(&id, bytes, false, 12, MAX_UNCOMPRESSED) {
        IndexReply::Progress(event) => event,
        other => panic!("{other:?}"),
    };
    assert!(!first.done);
    assert!(first.indexed_lines > 0);
    let lines = manager.read_lines(&id, 0, 200, bytes).unwrap();
    assert!(!lines.is_empty());
    let last = match manager.finish_index(&id) {
        IndexReply::Finished(event) => event,
        other => panic!("{other:?}"),
    };
    assert!(last.done);
    assert_eq!(last.percent, 100);
    assert_eq!(manager.line_count(&id), 3);
    let lines = manager.read_lines(&id, 1, 99, bytes).unwrap();
    assert_eq!(lines.len(), 2);
    assert_eq!(lines[0].content, "two");
    assert_eq!(lines[1].content, "last");
}

#[test]
fn read_lines_clamps_to_the_published_boundary() {
    let mut manager = SessionManager::new();
    let id = open(&mut manager, "partial.log", 0);
    assert!(manager.read_lines(&id, 0, 200, &[]).unwrap().is_empty());
}

#[test]
fn closing_session_cancels_indexing_and_removes_the_cache() {
    let bytes = vec![b'x'; 128 * 1024];
    let mut manager = SessionManager::new();
    let id = open(&mut manager, "cancel.log", 128 * 1024);
    let events = index(&mut manager, &id, bytes.len() as u64, &bytes, MAX_UNCOMPRESSED, true);
    assert_eq!(events.len(), 1);
    assert!(!events[0].done);
    assert!(!manager.is_open(&id));
}

#[test]
fn actual_bytes_over_the_limit_emit_a_terminal_failure() {
    let mut manager = SessionManager::new();
    let id = open(&mut manager, "limit.log", 3);
    let events = index(&mut manager, &id, 3, b"actual content", 3, false);
    assert_eq!(events.len(), 1);
    assert!(events[0].done);
    assert!(events[0].failed);
    assert!(events[0].error.as_deref().unwrap().contains("size limit"));
}

#[test]
fn detects_and_reads_utf8_bom_and_gb18030() {
    let bytes = b"\xEF\xBB\xBFfirst\r\nsecond\n".to_vec();
    let (mut manager, id, events) = indexed_manager(&bytes);
    assert_eq!(events.last().unwrap().effective_encoding, "UTF-8");
    let lines = manager.read_lines(&id, 0, 10, &bytes).unwrap();
    assert_eq!(lines[0].content, "first");
    assert_eq!(lines[1].content, "second");

    let (encoded, _, had_errors) = encoding_rs::GB18030.encode("中文😀\n第二行");
    assert!(!had_errors);
    let bytes = encoded.into_owned();
    let (mut manager, id, events) = indexed_manager(&bytes);
    assert_eq!(events.last().unwrap().effective_encoding, "GB18030");
    let lines = manager.read_lines(&id, 0, 10, &bytes).unwrap();
    assert_eq!(lines[0].content, "中文😀");
    assert_eq!(lines[1].content, "第二行");
}

#[test]
fn indexes_utf16_in_both_byte_orders_and_strips_bom() {
    for (big_endian, expected_name) in [(false, "UTF-16LE"), (true, "UTF-16BE")] {
        let bytes = utf16_bytes("第一行\r\nsecond\n末行", big_endian, true);
        let (mut manager, id, events) = indexed_manager(&bytes);
        assert_eq!(events.last().unwrap().effective_encoding, expected_name);
        let lines = manager.read_lines(&id, 0, 10, &bytes).unwrap();
        assert_eq!(lines.len(), 3);
        assert_eq!(lines[0].content, "第一行");
        assert_eq!(lines[1].content, "second");
        assert_eq!(lines[2].content, "末行");
    }
}

#[test]
fn manual_encoding_change_rebuilds_offsets_and_latest_generation_wins() {
    let bytes = utf16_bytes("alpha\nbeta\ngamma", false, false);
    let (mut manager, id, _) = indexed_manager(&bytes);
    let stale = change_to(&mut manager, &id, "GB18030", &bytes);
    let current = change_to(&mut manager, &id, "UTF-16LE", &bytes);
    assert!(!manager.is_current(&stale));
    assert!(manager.is_current(&current));
    assert!(manager.fail_encoding_change(&stale, "late".into()).is_none());
    assert!(manager.apply_encoding_change(stale).is_none());

    let event = manager.apply_encoding_change(current).unwrap();
    assert!(event.done);
    assert_eq!(event.encoding, "UTF-16LE");
    assert_eq!(event.line_count, 3);
    let lines = manager.read_lines(&id, 0, 10, &bytes).unwrap();
    assert_eq!(contents(&lines), ["alpha", "beta", "gamma"]);
}

#[test]
fn line_index_handles_empty_lines_crlf_and_tail_without_newline() {
    let bytes = b"\nalpha\r\n\nomega";
    let (mut manager, id, _) = indexed_manager(bytes);
    assert_eq!(manager.line_count(&id), 4);
    let lines = manager.read_lines(&id, 0, 10, bytes).unwrap();
    assert_eq!(contents(&lines), ["", "alpha", "", "omega"]);
    assert_eq!(manager.read_lines(&id, 3, 99, bytes).unwrap()[0].content, "omega");
    assert!(manager.read_lines(&id, 4, 1, bytes).unwrap().is_empty());
    assert!(manager.read_lines(&id, 0, 0, bytes).unwrap().is_empty());
}

#[test]
fn oversized_line_is_truncated_and_marked() {
    let mut bytes = vec![b'x'; MAX_LINE_BYTES + 100];
    bytes.push(b'\n');
    let (mut manager, id, _) = indexed_manager(&bytes);
    let lines = manager.read_lines(&id, 0, 1, &bytes).unwrap();
    assert_eq!(lines.len(), 1);
    assert!(lines[0].truncated);
    assert_eq!(lines[0].content.len(), MAX_LINE_BYTES);
}

#[test]
fn close_and_lru_eviction_remove_cache_files() {
    let mut manager = SessionManager::new();
    let closed = open(&mut manager, "closed.log", 0);
    assert!(manager.close(&closed));
    assert!(!manager.close(&closed));

    let first = open(&mut manager, "first.log", 0);
    let mut evicted = Vec::new();
    for index in 0..MAX_SESSIONS {
        let id = manager.reserve_session_id(0).unwrap();
        let (_, gone) = manager.prepare(id, format!("extra-{index}.log"), 0);
        evicted.extend(gone);
    }
    assert_eq!(evicted, vec![first.clone()]);
    assert_eq!(manager.line_count(&first), 0);
    assert_eq!(manager.clear_all().len(), MAX_SESSIONS);
    assert!(manager.clear_all().is_empty());
}

#[test]
fn reading_a_session_keeps_it_open_longer() {
    let mut manager = SessionManager::new();
    let first = open(&mut manager, "0.log", 0);
    let second = open(&mut manager, "1.log", 0);
    for index in 2..MAX_SESSIONS {
        open(&mut manager, &format!("{index}.log"), 0);
    }
    manager.read_lines(&first, 0, 1, &[]).unwrap();
    open(&mut manager, "newest.log", 0);
    assert!(manager.is_open(&first));
    assert!(!manager.is_open(&second));
}

#[test]
fn sessions_are_numbered_and_bounded_in_size() {
    let mut manager = SessionManager::new();
    assert_eq!(manager.reserve_session_id(MAX_UNCOMPRESSED), Ok("s1".to_string()));
    assert_eq!(
        manager.reserve_session_id(MAX_UNCOMPRESSED + 1),
        Err(SessionError::FileTooLarge)
    );
    assert_eq!(manager.reserve_session_id(0), Ok("s2".to_string()));
    let (opened, _) = manager.prepare("s2".into(), "a.log".into(), 9);
    assert_eq!(opened.entry_path, "a.log");
    assert_eq!(opened.size, 9);
    assert!(opened.indexing);
    assert_eq!(opened.encoding, "Detecting");
}

#[test]
fn requests_that_cannot_be_served_say_why() {
    let mut manager = SessionManager::new();
    let id = open(&mut manager, "a.log", 4);
    assert_eq!(
        manager.prepare_encoding_change(&id, "KOI8-R").err(),
        Some(SessionError::UnsupportedEncoding)
    );
    assert_eq!(
        manager.prepare_encoding_change("s9", "UTF-8").err(),
        Some(SessionError::NotFound)
    );
    assert_eq!(
        manager.prepare_encoding_change(&id, "UTF-8").err(),
        Some(SessionError::StillIndexing)
    );
    assert_eq!(manager.read_lines("s9", 0, 1, &[]), Err(SessionError::NotFound));
    manager.start_index(&id, b"a\nb\n", false, 4, MAX_UNCOMPRESSED);
    manager.finish_index(&id);
    assert_eq!(manager.read_lines(&id, 0, 9, b"a\n"), Err(SessionError::CacheTooShort));
    assert_eq!(manager.line_spans(&id, 1, 1).unwrap().1[0].from, 2);
}

#[test]
fn a_failed_read_ends_indexing_with_its_message() {
    let mut manager = SessionManager::new();
    let id = open(&mut manager, "a.log", 10);
    manager.start_index(&id, b"a\nb", false, 10, MAX_UNCOMPRESSED);
    let event = match manager.fail_index(&id, "disk full".into()) {
        IndexReply::Finished(event) => event,
        other => panic!("{other:?}"),
    };
    assert!(event.done && event.failed);
    assert_eq!(event.indexed_lines, 1);
    assert_eq!(event.error.as_deref(), Some("disk full"));
    assert_eq!(manager.fail_index("s9", "late".into()), IndexReply::Stop);
}

#[test]
fn pieces_do_not_change_the_lines() {
    let bytes = "first\nsecond\r\n第三\nrest".as_bytes();
    let whole = indexed_manager(bytes).0.line_spans("s1", 0, 99).unwrap();
    for cut in 0..bytes.len() {
        let mut manager = SessionManager::new();
        let id = open(&mut manager, "a.log", bytes.len() as u64);
        let cut = cut + missing_bytes(&bytes[..cut]);
        manager.start_index(&id, &bytes[..cut], false, bytes.len() as u64, MAX_UNCOMPRESSED);
        manager.index_chunk(&id, &bytes[cut..], bytes.len() as u64, MAX_UNCOMPRESSED, None);
        manager.finish_index(&id);
        assert_eq!(manager.line_spans(&id, 0, 99).unwrap().1, whole.1);
    }
}

#[test]
fn reports_are_spaced() {
    let mut manager = SessionManager::new();
    let id = open(&mut manager, "a.log", 100);
    manager.start_index(&id, b"0123456789", false, 100, MAX_UNCOMPRESSED);
    assert_eq!(
        manager.index_chunk(&id, b"0123456789", 100, MAX_UNCOMPRESSED, Some(49)),
        IndexReply::Quiet
    );
    match manager.index_chunk(&id, b"0123456789", 100, MAX_UNCOMPRESSED, Some(50)) {
        IndexReply::Progress(event) => assert_eq!(event.percent, 30),
        other => panic!("{other:?}"),
    }
}

#[test]
fn an_encoding_change_reports_how_far_it_is() {
    let bytes = b"alpha\nbeta\n";
    let (mut manager, id, _) = indexed_manager(bytes);
    let mut change = match manager.prepare_encoding_change(&id, " gbk ") {
        Ok(change) => change,
        Err(error) => panic!("{error:?}"),
    };
    assert_eq!(change.session_id(), id);
    assert_eq!(change.generation(), 1);
    change.scan(&bytes[..5]);
    let event = change.progress(10);
    assert_eq!(event.percent, 50);
    assert!(!event.done);
    assert_eq!(event.encoding, "GBK");
    let failure = manager.fail_encoding_change(&change, "gone".into()).unwrap();
    assert!(failure.done && failure.failed);
    assert_eq!(failure.error.as_deref(), Some("gone"));
}

#[test]
fn percentages_stop_short_of_completion() {
    assert_eq!(progress_percent(0, 0), 0);
    assert_eq!(progress_percent(1, 3), 33);
    assert_eq!(progress_percent(10, 10), 99);
    assert_eq!(progress_percent(u64::MAX, 1), 99);
    assert!(chunk_fits(2, 1, 3));
    assert!(!chunk_fits(2, 2, 3));
    assert!(!chunk_fits(u64::MAX, 2, 3));
    assert!(!chunk_fits(u64::MAX, 2, u64::MAX - 1));
    assert!(chunk_fits(u64::MAX, 2, u64::MAX));
    assert!(is_report_due(None));
    assert!(!is_report_due(Some(49)));
    assert!(is_report_due(Some(50)));
}

#[test]
fn encodings_are_recognized_by_their_first_bytes() {
    assert_eq!(detect_encoding(b"\xEF\xBB\xBFa"), TextEncoding::Utf8);
    assert_eq!(detect_encoding(b"\xFF\xFEa\0"), TextEncoding::Utf16Le);
    assert_eq!(detect_encoding(b"\xFE\xFF\0a"), TextEncoding::Utf16Be);
    assert_eq!(detect_encoding("普通".as_bytes()), TextEncoding::Utf8);
    assert_eq!(detect_encoding(b""), TextEncoding::Utf8);
    assert_eq!(detect_encoding(&[0xd6, 0xd0, 0xce, 0xc4]), TextEncoding::Gb18030);
    assert_eq!(TextEncoding::encoding_by_name(" utf-16be"), Some(TextEncoding::Utf16Be));
    assert_eq!(TextEncoding::encoding_by_name("latin1"), None);
    assert_eq!(TextEncoding::Gbk.encoding_name(), "GBK");
}

#[test]
fn line_ends_are_found_across_pieces() {
    let bytes = utf16_bytes("ab\ncd\n", true, false);
    let mut scanner = LineScanner::new(TextEncoding::Utf16Be);
    let mut ends = scanner.scan(&bytes[..5], 0);
    ends.extend(scanner.scan(&bytes[5..], 5));
    assert_eq!(ends, vec![6, 12]);
}

#[test]
fn lines_are_shown_without_their_end() {
    let mut raw = b"\xEF\xBB\xBFtext\r\n".to_vec();
    trim_line_bytes(&mut raw, TextEncoding::Utf8, true);
    assert_eq!(raw, b"text");
    let mut raw = b"\xEF\xBB\xBFtext\r\n".to_vec();
    trim_line_bytes(&mut raw, TextEncoding::Utf8, false);
    assert_eq!(raw, b"\xEF\xBB\xBFtext");
    let line = LogLine::decode(TextEncoding::Gbk, vec![0xd6, 0xd0, 10], 6, 3);
    assert_eq!(line, LogLine { line_no: 7, content: "中".into(), truncated: false });
}

#[test]
fn a_sample_that_ends_inside_a_character_is_still_utf8() {
    let text = "中".repeat(2000);
    let (mut manager, id, events) = indexed_manager(text.as_bytes());
    let last = events.last().unwrap();
    assert_eq!(last.detected_encoding, "UTF-8");
    assert_eq!(last.effective_encoding, "UTF-8");
    let lines = manager.read_lines(&id, 0, 10, text.as_bytes()).unwrap();
    assert_eq!(contents(&lines), [text.as_str()]);
}

#[test]
fn every_start_of_a_text_becomes_utf8_with_the_missing_bytes() {
    let text = "aé中😀\u{800}\u{d7ff}\u{10000}\u{10ffff}z";
    for end in 0..=text.len() {
        let start = &text.as_bytes()[..end];
        let next = (end..=text.len()).find(|at| text.is_char_boundary(*at)).unwrap();
        assert_eq!(missing_bytes(start), next - end);
        assert_eq!(detect_encoding(&text.as_bytes()[..next]), TextEncoding::Utf8);
        let cut = next != end;
        let now = if cut { TextEncoding::Gb18030 } else { TextEncoding::Utf8 };
        assert_eq!(detect_encoding(start), now);
    }
    for wrong in [
        &[0x80][..],
        &[0xc1],
        &[0xf5],
        &[0xe0, 0x9f],
        &[0xed, 0xa0],
        &[0xf0, 0x8f],
        &[0xf4, 0x90],
        &[0xf1, 0x80, 0x7f],
        &[0xff, b'a', 0xe4],
        &[0xef, 0xbb, 0xbf, 0xe4],
    ] {
        assert_eq!(missing_bytes(wrong), 0);
    }
}

#[test]
fn a_sample_that_ends_in_half_a_gbk_character_stays_gb18030() {
    let mut bytes = vec![b'a'; 4095];
    bytes.extend([0xd6, 0xd0, 0xce, 0xc4, b'\n']);
    assert_eq!(detect_encoding(&bytes[..4096]), TextEncoding::Gb18030);
    assert_eq!(missing_bytes(&bytes[..4096]), 1);
    let (mut manager, id, events) = indexed_manager(&bytes);
    assert_eq!(events.last().unwrap().effective_encoding, "GB18030");
    let lines = manager.read_lines(&id, 0, 10, &bytes).unwrap();
    assert_eq!(contents(&lines), [format!("{}中文", "a".repeat(4095))]);
}

#[test]
fn a_cut_sample_decides_only_when_nothing_may_follow() {
    let bytes = [b'a', 0xe4, 0xb8];
    let mut manager = SessionManager::new();
    let id = open(&mut manager, "short.log", 9);
    assert!(manager.awaits_content(&id));
    let asked = manager.start_index(&id, &bytes, false, 9, MAX_UNCOMPRESSED);
    assert_eq!(asked, IndexReply::More(1));
    assert!(manager.awaits_content(&id));
    match manager.start_index(&id, &bytes, true, 9, MAX_UNCOMPRESSED) {
        IndexReply::Progress(event) => assert_eq!(event.detected_encoding, "GB18030"),
        other => panic!("{other:?}"),
    }
    assert!(!manager.awaits_content(&id));
    assert!(!manager.awaits_content("gone"));
    let id = open(&mut manager, "bounded.log", 9);
    match manager.start_index(&id, &bytes, false, 9, 3) {
        IndexReply::Progress(event) => assert_eq!(event.detected_encoding, "GB18030"),
        other => panic!("{other:?}"),
    }
    let id = open(&mut manager, "small.log", 9);
    match manager.start_index(&id, &bytes, false, 9, 2) {
        IndexReply::Finished(event) => assert!(event.failed),
        other => panic!("{other:?}"),
    }
    let id = open(&mut manager, "huge.log", 9);
    assert_eq!(manager.start_index(&id, &bytes, false, 9, u64::MAX), IndexReply::More(1));
}

#[test]
fn line_ends_count_from_the_given_base() {
    let bytes = b"one\ntwo\n\nrest";
    let mut whole = LineScanner::new(TextEncoding::Utf8);
    let ends = whole.scan(bytes, 1_000);
    assert_eq!(ends, [1_004, 1_008, 1_009]);
    for cut in 0..=bytes.len() {
        let mut parts = LineScanner::new(TextEncoding::Utf8);
        let mut found = parts.scan(&bytes[..cut], 1_000);
        found.extend(parts.scan(&bytes[cut..], 1_000 + cut as u64));
        assert_eq!(found, ends);
    }
    let wide = utf16_bytes("a\nb\n", false, false);
    let mut scanner = LineScanner::new(TextEncoding::Utf16Le);
    assert_eq!(scanner.scan(&wide[..3], 7), Vec::<u64>::new());
    assert_eq!(scanner.scan(&wide[3..], 10), [11, 15]);
    assert_eq!(scanner.scan(&[10], u64::MAX - 1), Vec::<u64>::new());
    assert_eq!(scanner.scan(&[0], u64::MAX - 1), [u64::MAX]);
}
