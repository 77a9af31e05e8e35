//! File records of NTFS volumes, and the paths they stand for.

use logcrate::mft_paths::{
    resolve_mft_files_in_batches, resolve_mft_files_in_batches_retain, resolve_mft_paths,
    MftFileResolver, ResolveDiagnostics, ResolveError,
};
use logcrate::ntfs::{
    parse_mft_enum_buffer, parse_usn_record, FileId, MftBufferError, MftRecord, UsnError,
    FILE_ATTRIBUTE_DIRECTORY, FILE_ATTRIBUTE_REPARSE_POINT, USN_V2_MIN_SIZE, USN_V3_MIN_SIZE,
};
use logcrate::search_files::IndexedFile;
use logcrate::usn::{index_ntfs_volume_paths, VolumeIndexer, NTFS_RESOLVE_BATCH};
use logcrate::volume::{
    drive_roots, enumeration_is_complete, is_fixed_drive, names_ntfs, open_volume, MftEnumeration,
    UsnReadSummary, VolumeError, DRIVE_FIXED, ERROR_HANDLE_EOF,
};

fn v2_record(id: u64, parent: u64, name: &str, attributes: u32) -> Vec<u8> {
    let name = name.encode_utf16().collect::<Vec<_>>();
    let length = USN_V2_MIN_SIZE + name.len() * 2;
    let mut record = vec![0_u8; length];
    record[0..4].copy_from_slice(&(length as u32).to_le_bytes());
    record[4..6].copy_from_slice(&2_u16.to_le_bytes());
    record[8..16].copy_from_slice(&id.to_le_bytes());
    record[16..24].copy_from_slice(&parent.to_le_bytes());
    record[24..32].copy_from_slice(&(id as i64).to_le_bytes());
    record[52..56].copy_from_slice(&attributes.to_le_bytes());
    record[56..58].copy_from_slice(&((name.len() * 2) as u16).to_le_bytes());
    record[58..60].copy_from_slice(&(USN_V2_MIN_SIZE as u16).to_le_bytes());
    for (index, word) in name.into_iter().enumerate() {
        let offset = USN_V2_MIN_SIZE + index * 2;
        record[offset..offset + 2].copy_from_slice(&word.to_le_bytes());
    }
    record
}

fn v3_record(id: [u8; 16], parent: [u8; 16], name: &str, reason: u32) -> Vec<u8> {
    let name = name.encode_utf16().collect::<Vec<_>>();
    let length = USN_V3_MIN_SIZE + name.len() * 2;
    let mut record = vec![0_u8; length];
    record[0..4].copy_from_slice(&(length as u32).to_le_bytes());
    record[4..6].copy_from_slice(&3_u16.to_le_bytes());
    record[8..24].copy_from_slice(&id);
    record[24..40].copy_from_slice(&parent);
    record[40..48].copy_from_slice(&123_i64.to_le_bytes());
    record[56..60].copy_from_slice(&reason.to_le_bytes());
    record[68..72].copy_from_slice(&32_u32.to_le_bytes());
    record[72..74].copy_from_slice(&((name.len() * 2) as u16).to_le_bytes());
    record[74..76].copy_from_slice(&(USN_V3_MIN_SIZE as u16).to_le_bytes());
    for (index, word) in name.into_iter().enumerate() {
        let offset = USN_V3_MIN_SIZE + index * 2;
        record[offset..offset + 2].copy_from_slice(&word.to_le_bytes());
    }
    record
}

fn node(id: u64, parent: u64, name: &str, attributes: u32, usn: i64) -> MftRecord {
    MftRecord {
        id: FileId::from_u64(id),
        parent_id: FileId::from_u64(parent),
        name: name.into(),
        attributes,
        reason: 0,
        usn,
    }
}

#[test]
fn parses_v2_enum_batches_and_unicode_names() {
    let record = v2_record(42, 5, "调试.log", 0);
    let mut buffer = 100_u64.to_le_bytes().to_vec();
    buffer.extend(record);
    let (next, records) = parse_mft_enum_buffer(&buffer).unwrap();
    assert_eq!(next, 100);
    assert_eq!(records[0].id, FileId::from_u64(42));
    assert_eq!(records[0].parent_id, FileId::from_u64(5));
    assert_eq!(records[0].name, "调试.log");
}

#[test]
fn parses_fixed_v3_fixture_with_128_bit_references_and_rename_reason() {
    let id = [0x11; 16];
    let parent = [0x22; 16];
    let fixture = v3_record(id, parent, "renamed.log", 0x0000_2000);
    let record = parse_usn_record(&fixture).unwrap();
    assert_eq!(record.id, FileId::from_bytes(id));
    assert_eq!(record.parent_id, FileId::from_bytes(parent));
    assert_eq!(record.name, "renamed.log");
    assert_eq!(record.reason, 0x0000_2000);
    assert_eq!(record.usn, 123);
}

#[test]
fn parser_boundary_fuzz_rejects_malformed_v2_v3_lengths_without_panicking() {
    let fixtures = [
        v2_record(7, 5, "boundary.log", 0),
        v3_record([7; 16], [5; 16], "boundary.log", 0),
    ];
    for fixture in fixtures {
        for cut in 0..fixture.len() {
            assert!(parse_usn_record(&fixture[..cut]).is_err());
        }
        let mut oversized = fixture.clone();
        oversized[0..4].copy_from_slice(&u32::MAX.to_le_bytes());
        assert!(parse_usn_record(&oversized).is_err());
        let mut odd_name = fixture;
        let name_length_offset = if odd_name[4] == 2 { 56 } else { 72 };
        odd_name[name_length_offset..name_length_offset + 2].copy_from_slice(&3_u16.to_le_bytes());
        assert!(parse_usn_record(&odd_name).is_err());
    }
}

#[test]
fn rejects_truncated_unknown_and_path_like_records() {
    assert!(parse_usn_record(&[0; 4]).is_err());
    let mut unknown = v2_record(1, 1, "ok", 0);
    unknown[4..6].copy_from_slice(&9_u16.to_le_bytes());
    assert!(parse_usn_record(&unknown).is_err());
    assert!(parse_usn_record(&v2_record(1, 1, "bad\\name", 0)).is_err());
    let mut truncated = v2_record(1, 1, "ok", 0);
    truncated.pop();
    assert!(parse_usn_record(&truncated).is_err());
}

#[test]
fn every_refusal_of_a_record_has_its_cause() {
    assert_eq!(parse_usn_record(&[0; 4]), Err(UsnError::HeaderTooShort));
    let mut longer = v2_record(1, 1, "ok", 0);
    longer.push(0);
    assert_eq!(parse_usn_record(&longer), Err(UsnError::LengthMismatch));
    let mut unknown = v2_record(1, 1, "ok", 0);
    unknown[4..6].copy_from_slice(&9_u16.to_le_bytes());
    assert_eq!(parse_usn_record(&unknown), Err(UsnError::UnsupportedVersion(9)));
    let mut short = vec![0_u8; 20];
    short[0..4].copy_from_slice(&20_u32.to_le_bytes());
    short[4..6].copy_from_slice(&2_u16.to_le_bytes());
    assert_eq!(parse_usn_record(&short), Err(UsnError::FieldPastRecord));
    let mut odd = v2_record(1, 1, "ok", 0);
    odd[56..58].copy_from_slice(&3_u16.to_le_bytes());
    assert_eq!(parse_usn_record(&odd), Err(UsnError::InvalidBounds));
    let mut past = v2_record(1, 1, "ok", 0);
    past[56..58].copy_from_slice(&40_u16.to_le_bytes());
    assert_eq!(parse_usn_record(&past), Err(UsnError::NamePastRecord));
    assert_eq!(parse_usn_record(&v2_record(1, 1, "a/b", 0)), Err(UsnError::PathLikeName));
}

#[test]
fn an_unpaired_surrogate_is_replaced_in_a_name() {
    let mut record = v2_record(9, 5, "ab", 0);
    record[60..62].copy_from_slice(&0xd800_u16.to_le_bytes());
    assert_eq!(parse_usn_record(&record).unwrap().name, "\u{fffd}b");
    assert_eq!(parse_usn_record(&v2_record(9, 5, "😀.log", 0)).unwrap().name, "😀.log");
}

#[test]
fn broken_buffers_are_refused_with_their_cause() {
    assert_eq!(parse_mft_enum_buffer(&[0; 7]), Err(MftBufferError::MissingHeader));
    let mut zero = vec![0_u8; 8];
    zero.extend([0_u8; 4]);
    assert_eq!(parse_mft_enum_buffer(&zero), Err(MftBufferError::ZeroLength));
    let mut past = vec![0_u8; 8];
    past.extend(200_u32.to_le_bytes());
    assert_eq!(parse_mft_enum_buffer(&past), Err(MftBufferError::RecordPastBuffer));
    let mut cut = vec![0_u8; 8];
    cut.extend([1_u8; 3]);
    assert_eq!(parse_mft_enum_buffer(&cut), Err(MftBufferError::LengthPastBuffer));
    let mut bad = vec![0_u8; 8];
    bad.extend(v2_record(1, 1, "a\\b", 0));
    assert_eq!(
        parse_mft_enum_buffer(&bad),
        Err(MftBufferError::Record { offset: 8, length: 66, cause: UsnError::PathLikeName })
    );
    assert_eq!(parse_mft_enum_buffer(&77_u64.to_le_bytes()), Ok((77, vec![])));
}

#[test]
fn record_numbers_keep_their_bytes() {
    let id = FileId::from_u64(0x0102_0304_0506_0708);
    assert_eq!(id.as_bytes()[0], 8);
    assert_eq!(id.as_bytes()[7], 1);
    assert_eq!(id.as_bytes()[8], 0);
    assert_eq!(FileId::from_bytes(id.as_bytes()), id);
    assert_eq!(id.key(), 0x0102_0304_0506_0708);
    assert!(FileId::from_u64(5).is_ntfs_root_reference());
    assert!(FileId::from_u64(0x0007_0000_0000_0005).is_ntfs_root_reference());
    assert!(!FileId::from_u64(6).is_ntfs_root_reference());
    assert!(id.same(FileId::from_u64(0x0102_0304_0506_0708)));
    assert!(!id.same(FileId::from_u64(1)));
}

#[test]
fn resolves_out_of_order_paths_and_reports_bad_graphs() {
    let records = vec![
        node(30, 20, "debug.log", 0, 3),
        node(5, 5, ".", FILE_ATTRIBUTE_DIRECTORY, 1),
        node(20, 5, "Logs", FILE_ATTRIBUTE_DIRECTORY, 2),
        node(40, 99, "orphan.log", 0, 4),
    ];
    let (entries, diagnostics) = resolve_mft_paths("C:\\", records);
    assert!(entries.iter().any(|entry| entry.path == "C:\\Logs\\debug.log"));
    assert!(diagnostics.orphan_records > 0);
}

#[test]
fn streams_only_files_and_skips_reparse_descendants() {
    let records = vec![
        node(5, 5, ".", FILE_ATTRIBUTE_DIRECTORY, 1),
        node(10, 5, "Logs", FILE_ATTRIBUTE_DIRECTORY, 2),
        node(11, 10, "app.log", 0, 3),
        node(20, 5, "Junction", FILE_ATTRIBUTE_DIRECTORY | FILE_ATTRIBUTE_REPARSE_POINT, 4),
        node(21, 20, "duplicate.log", 0, 5),
    ];
    let mut entries = Vec::new();
    let (batches, diagnostics) = resolve_mft_files_in_batches("C:\\", records, 1).unwrap();
    for batch in batches {
        assert_eq!(batch.len(), 1);
        entries.extend(batch);
    }
    assert_eq!(entries.len(), 1);
    assert_eq!(entries[0].path, "C:\\Logs\\app.log");
    assert_eq!(diagnostics.reparse_records, 1);
}

#[test]
fn cycles_and_duplicates_are_counted() {
    let records = vec![
        node(5, 5, ".", FILE_ATTRIBUTE_DIRECTORY, 1),
        node(10, 11, "a", FILE_ATTRIBUTE_DIRECTORY, 2),
        node(11, 10, "b", FILE_ATTRIBUTE_DIRECTORY, 3),
        node(12, 10, "lost.log", 0, 4),
        node(13, 5, "old.log", 0, 5),
        node(13, 5, "new.log", 0, 6),
    ];
    let (batches, diagnostics, kept) =
        resolve_mft_files_in_batches_retain("D:\\", records, 8).unwrap();
    assert_eq!(batches.len(), 1);
    assert_eq!(batches[0].len(), 1);
    assert_eq!(batches[0][0].path, "D:\\new.log");
    assert_eq!(batches[0][0].name, "new.log");
    assert!(diagnostics.cyclic_records > 0);
    assert_eq!(diagnostics.duplicate_records, 1);
    assert_eq!(diagnostics.orphan_records, 0);
    assert_eq!(kept.len(), 5);
}

#[test]
fn batches_need_room() {
    assert_eq!(
        resolve_mft_files_in_batches("C:\\", vec![], 0),
        Err(ResolveError::EmptyBatchSize)
    );
    assert!(MftFileResolver::new("C:\\", vec![], 0).is_err());
}

#[test]
fn a_resolver_hands_out_full_batches_first() {
    let mut records = vec![node(5, 5, ".", FILE_ATTRIBUTE_DIRECTORY, 0)];
    for number in 0..5_u64 {
        records.push(node(100 + number, 5, &format!("{number}.log"), 0, 1));
    }
    let (mut resolver, duplicates) = match MftFileResolver::new("C:", records, 2) {
        Ok(made) => made,
        Err(_) => panic!("two records fit in a batch"),
    };
    assert_eq!(resolver.next_batch().len(), 2);
    assert_eq!(resolver.next_batch().len(), 2);
    assert_eq!(resolver.next_batch().len(), 1);
    assert!(resolver.next_batch().is_empty());
    let (diagnostics, records) = resolver.finish(duplicates);
    assert_eq!(
        diagnostics,
        ResolveDiagnostics {
            orphan_records: 0,
            cyclic_records: 0,
            duplicate_records: 0,
            reparse_records: 0
        }
    );
    assert_eq!(records.len(), 6);
}

#[test]
fn enumeration_counts_batches_and_asks_for_more() {
    let mut buffer = 100_u64.to_le_bytes().to_vec();
    buffer.extend(v2_record(42, 5, "a.log", 0));
    let (state, records) = MftEnumeration::start().enumerate_mft(&buffer).unwrap();
    assert_eq!(records.len(), 1);
    assert_eq!(state, MftEnumeration { batches: 1, records: 1, last_reference: 100 });
    assert_eq!(state.enumerate_mft(&buffer), Err(VolumeError::NotAdvancing));
    assert_eq!(
        state.enumerate_mft(&[1, 2, 3]),
        Err(VolumeError::Buffer(MftBufferError::MissingHeader))
    );
    assert!(enumeration_is_complete(Some(ERROR_HANDLE_EOF)));
    assert!(!enumeration_is_complete(Some(5)));
    assert!(!enumeration_is_complete(None));
}

#[test]
fn the_journal_is_read_up_to_its_target() {
    let start = UsnReadSummary::start(10);
    assert!(start.unfinished(30));
    let mut buffer = 30_u64.to_le_bytes().to_vec();
    buffer.extend(v2_record(42, 5, "a.log", 0));
    buffer.extend(v2_record(43, 5, "b.log", 0));
    let (state, records) = start.read_usn_journal(&buffer).unwrap();
    assert_eq!(records.len(), 2);
    assert_eq!(state, UsnReadSummary { batches: 1, records: 2, next_usn: 30 });
    assert!(!state.unfinished(30));
    assert_eq!(state.read_usn_journal(&buffer), Err(VolumeError::NotAdvancing));
}

#[test]
fn volumes_are_named_and_told_apart() {
    assert_eq!(open_volume('d'), Some("\\\\.\\D:".to_string()));
    assert_eq!(open_volume('1'), None);
    assert!(is_fixed_drive(DRIVE_FIXED));
    assert!(!is_fixed_drive(2));
    let ntfs: Vec<u16> = "NTFS\0junk".encode_utf16().collect();
    assert!(names_ntfs(&ntfs));
    let fat: Vec<u16> = "FAT32\0".encode_utf16().collect();
    assert!(!names_ntfs(&fat));
    assert_eq!(drive_roots(0b1100), vec!["C:\\".to_string(), "D:\\".to_string()]);
}

#[test]
fn a_volume_is_taken_up_a_batch_at_a_time() {
    let count = NTFS_RESOLVE_BATCH as u64 + 3;
    let mut records = vec![
        node(10, 5, "logs", FILE_ATTRIBUTE_DIRECTORY, 1),
        node(11, 5, "skip", FILE_ATTRIBUTE_DIRECTORY, 1),
        node(12, 11, "hidden.log", 0, 1),
    ];
    for id in 0..count {
        records.push(node(100 + id, 10, &format!("{id}.log"), 0, 1));
    }
    let exclusions = vec!["C:\\skip".to_string()];
    let mut indexer = VolumeIndexer::new("C:\\", &exclusions, records.clone());
    let mut batches = Vec::new();
    while let Some(files) = indexer.next_batch() {
        assert!(files.len() <= NTFS_RESOLVE_BATCH);
        batches.push(files);
    }
    assert!(indexer.next_batch().is_none());
    assert_eq!(batches.len(), 2);
    let kept = indexer.finish();
    let (all, nodes) = index_ntfs_volume_paths("C:\\", &exclusions, records);
    assert_eq!(kept, nodes);
    let paths = |batches: &Vec<Vec<IndexedFile>>| {
        batches.iter().flatten().map(|file| file.path.clone()).collect::<Vec<_>>()
    };
    assert_eq!(paths(&batches), paths(&all));
    assert_eq!(paths(&batches).len() as u64, count);
    assert!(paths(&batches).contains(&"C:\\logs\\0.log".to_string()));
    let mut empty = VolumeIndexer::new("C:\\", &exclusions, vec![]);
    assert!(empty.next_batch().is_none());
    assert!(empty.finish().is_empty());
}
