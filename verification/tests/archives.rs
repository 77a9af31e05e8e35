//! Entries of archives, and of single files that are opened like one.

use logcrate::archive::{
    ensure_scan_time, is_archive, is_archive_name, is_log_name, is_safe_entry_name, is_text_sample, is_zip,
    open_archive, relative_position, zip_entries, zip_open_entry, ArchiveKind, ArchiveLimits,
    EntryAccess, EntryError, PlainReader, ZipItem,
};
use logcrate::paths::Platform;
use logcrate::rar::{
    check_archive_flags, count_decoded, rar_error, stream_entry, RarArchiveReader, RarFailure,
    RarHeader, StreamStep, ERAR_BAD_ARCHIVE, ERAR_MISSING_PASSWORD, RHDF_DIRECTORY,
    RHDF_ENCRYPTED, RHDF_SPLITAFTER, ROADF_ENCHEADERS, ROADF_VOLUME,
};
use std::io::{Cursor, Read, Write};
use zip::write::SimpleFileOptions;
use zip::CompressionMethod;

const LIMITS: ArchiveLimits =
    ArchiveLimits { max_entries: 2, max_path_bytes: 4096, max_decoded_bytes: 100, max_scan_ms: 50 };

fn stored_bytes() -> Vec<u8> {
    b"stored-line-1\nstored-line-2\n".to_vec()
}

/// An archive with a stored, a compressed and a binary entry.
fn fixture() -> Vec<u8> {
    let mut writer = zip::ZipWriter::new(Cursor::new(Vec::new()));
    let stored = SimpleFileOptions::default().compression_method(CompressionMethod::Stored);
    let deflated = SimpleFileOptions::default().compression_method(CompressionMethod::Deflated);
    writer.start_file("stored.log", stored).unwrap();
    writer.write_all(&stored_bytes()).unwrap();
    writer.start_file("deflated.log", deflated).unwrap();
    writer.write_all(&vec![b'x'; 8192]).unwrap();
    writer.start_file("image.bin", stored).unwrap();
    writer.write_all(&[0, 1, 2, 3]).unwrap();
    writer.finish().unwrap().into_inner()
}

fn zip_items(bytes: &[u8]) -> Vec<ZipItem> {
    let mut archive = zip::ZipArchive::new(Cursor::new(bytes)).unwrap();
    let mut items = Vec::new();
    for index in 0..archive.len() {
        let file = archive.by_index_raw(index).unwrap();
        items.push(ZipItem {
            name: file.name().to_string(),
            size: file.size(),
            directory: file.is_dir(),
            encrypted: file.encrypted(),
            stored: file.compression() == CompressionMethod::Stored,
        });
    }
    items
}

fn item<'a>(items: &'a [ZipItem], name: &str) -> Option<&'a ZipItem> {
    items.iter().find(|item| item.name == name)
}

fn header(name: &str, size: u32, flags: u32) -> RarHeader {
    RarHeader {
        filename_w: name.chars().map(|c| c as u32).chain([0]).collect(),
        filename: vec![0],
        flags,
        unp_size: size,
        unp_size_high: 0,
        redir_type: 0,
    }
}

#[test]
fn plain_text_is_a_single_seekable_entry() {
    let content = b"plain text\nsecond line";
    let reader = PlainReader::open(Some("sample.data".into()), content.len() as u64);
    let entries = reader.entries(Platform::Other, Some(content));
    assert_eq!(entries.len(), 1);
    assert!(entries[0].is_log);
    assert_eq!(entries[0].size, 22);
    assert_eq!(reader.open_entry("sample.data"), Ok(()));
}

#[test]
fn binary_plain_entry_is_listed_but_not_marked_as_log() {
    let reader = PlainReader::open(Some("sample.bin".into()), 4);
    let entries = reader.entries(Platform::Other, Some(&[0, 1, 2, 3]));
    assert_eq!(entries.len(), 1);
    assert!(!entries[0].is_log);
    assert!(reader.open_entry("missing.bin").is_err());
}

#[test]
fn stored_entry_is_seekable_and_bounded() {
    let items = zip_items(&fixture());
    assert_eq!(zip_open_entry(item(&items, "stored.log")), Ok(EntryAccess::Seekable));
    assert_eq!(relative_position(100, 107), Ok(7));
    assert_eq!(relative_position(100, 99), Err(EntryError::SeekBeforeStart));
}

#[test]
fn listing_reads_metadata_without_creating_extracted_files() {
    let entries = zip_entries(Platform::Other, &zip_items(&fixture()));
    assert_eq!(entries.len(), 3);
    assert!(entries.iter().any(|entry| entry.path == "stored.log" && entry.is_log));
    assert!(entries.iter().any(|entry| entry.path == "deflated.log" && entry.is_log));
    assert!(entries.iter().any(|entry| entry.path == "image.bin" && !entry.is_log));
    assert_eq!(entries[0].size, 28);
}

#[test]
fn deflated_entry_streams_without_seek_capability() {
    let bytes = fixture();
    let items = zip_items(&bytes);
    assert_eq!(zip_open_entry(item(&items, "deflated.log")), Ok(EntryAccess::Sequential));
    let mut archive = zip::ZipArchive::new(Cursor::new(bytes)).unwrap();
    let mut first = [0u8; 4096];
    archive.by_name("deflated.log").unwrap().read_exact(&mut first).unwrap();
    assert!(first.iter().all(|byte| *byte == b'x'));
}

#[test]
fn encrypted_entry_returns_an_explicit_error() {
    let mut writer = zip::ZipWriter::new(Cursor::new(Vec::new()));
    writer.start_file("secret.log", SimpleFileOptions::default()).unwrap();
    writer.write_all(b"secret").unwrap();
    let mut bytes = writer.finish().unwrap().into_inner();
    let local = bytes.windows(4).position(|window| window == b"PK\x03\x04").unwrap();
    bytes[local + 6] |= 1;
    let central = bytes.windows(4).position(|window| window == b"PK\x01\x02").unwrap();
    bytes[central + 8] |= 1;
    let items = zip_items(&bytes);
    assert!(zip_entries(Platform::Other, &items)[0].encrypted);
    assert_eq!(zip_open_entry(item(&items, "secret.log")), Err(EntryError::Encrypted));
    assert_eq!(zip_open_entry(None), Err(EntryError::NotFound));
}

#[test]
fn rar4_entry_is_listed_and_streamed_without_extraction() {
    let version = header("VERSION", 11, 0);
    let limits = ArchiveLimits { max_entries: 10, ..LIMITS };
    let mut reader = match RarArchiveReader::open_with_limits(true, limits) {
        Ok(reader) => reader,
        Err(error) => panic!("{error:?}"),
    };
    reader.read_header(&version, Platform::Other).unwrap();
    let entries = reader.entries();
    assert_eq!(entries.len(), 1);
    assert_eq!(entries[0].path, "VERSION");
    assert_eq!(entries[0].size, 11);
    assert_eq!(stream_entry(&version, Platform::Other, "VERSION"), Ok(StreamStep::Decode));
    assert_eq!(stream_entry(&version, Platform::Other, "README"), Ok(StreamStep::Skip));
    assert_eq!(count_decoded(0, 11, 100), Ok(11));
}

#[test]
fn rar5_unicode_header_is_recognized() {
    let mut reader = match RarArchiveReader::open_with_limits(true, LIMITS) {
        Ok(reader) => reader,
        Err(error) => panic!("{error:?}"),
    };
    reader.read_header(&header("foo—bar", 0, 0), Platform::Other).unwrap();
    let entries = reader.entries();
    assert_eq!(entries.len(), 1);
    assert_eq!(entries[0].path, "foo—bar");
}

#[test]
fn header_names_come_from_wide_or_plain_fields() {
    let mut plain = header("", 0, 0);
    plain.filename = b"logs\\a.log\0rest".to_vec();
    assert_eq!(plain.header_name(Platform::Windows), "logs/a.log");
    let mut wide = header("", 0, 0);
    wide.filename_w = vec![0xd83d, 0xde00, 0x2e, 0x6c, 0];
    assert_eq!(wide.header_name(Platform::Windows), "😀.l");
    let mut broken = header("", 0, 0);
    broken.filename = vec![b'a', 0xff, 0];
    assert_eq!(broken.header_name(Platform::Other), "a\u{fffd}");
    let mut large = header("a", 7, 0);
    large.unp_size_high = 2;
    assert_eq!(large.header_size(), (2 << 32) + 7);
}

#[test]
fn unusable_rar_entries_are_refused() {
    let encrypted = header("a.log", 1, RHDF_ENCRYPTED);
    assert_eq!(
        stream_entry(&encrypted, Platform::Other, "a.log"),
        Err(EntryError::Encrypted)
    );
    let split = header("a.log", 1, RHDF_SPLITAFTER);
    assert_eq!(stream_entry(&split, Platform::Other, "a.log"), Err(EntryError::Split));
    let mut link = header("a.log", 1, 0);
    link.redir_type = 1;
    assert!(link.is_special());
    assert_eq!(stream_entry(&link, Platform::Other, "a.log"), Err(EntryError::Special));
    assert_eq!(check_archive_flags(ROADF_VOLUME), Err(EntryError::Split));
    assert_eq!(check_archive_flags(ROADF_ENCHEADERS), Err(EntryError::Encrypted));
    assert_eq!(check_archive_flags(0), Ok(()));
    assert_eq!(rar_error(ERAR_MISSING_PASSWORD), RarFailure::Encrypted);
    assert_eq!(rar_error(ERAR_BAD_ARCHIVE), RarFailure::Damaged);
    assert_eq!(rar_error(99), RarFailure::Other);
    assert_eq!(count_decoded(90, 11, 100), Err(EntryError::TooLarge));
    assert_eq!(count_decoded(0, -1, 100), Err(EntryError::InvalidBlock));
    assert!(RarArchiveReader::open_with_limits(false, LIMITS).is_err());
}

#[test]
fn rar_listings_are_bounded_and_leave_directories_out() {
    let mut reader = match RarArchiveReader::open_with_limits(true, LIMITS) {
        Ok(reader) => reader,
        Err(error) => panic!("{error:?}"),
    };
    reader.read_header(&header("dir", 0, RHDF_DIRECTORY), Platform::Other).unwrap();
    reader.read_header(&header("a.log", 1, 0), Platform::Other).unwrap();
    reader.read_header(&header("b.log", 1, 0), Platform::Other).unwrap();
    assert_eq!(
        reader.read_header(&header("c.log", 1, 0), Platform::Other),
        Err(EntryError::TooManyEntries)
    );
}

#[test]
fn archives_and_logs_are_told_by_name_and_head() {
    assert!(is_log_name(Platform::Other, "server.LOG"));
    assert!(!is_log_name(Platform::Other, "image.png"));
    assert!(is_text_sample("普通 text\n".as_bytes()));
    assert!(!is_text_sample(&[0, 1, 2]));
    assert!(is_zip(Platform::Other, "download.part", b"PK\x03\x04"));
    assert!(is_zip(Platform::Other, "bundle.ZIP", b""));
    assert_eq!(open_archive(Platform::Other, "bundle.zip", b""), ArchiveKind::Zip);
    assert_eq!(open_archive(Platform::Other, "server.log", b"text"), ArchiveKind::Plain);
    assert!(is_archive_name("a.zip"));
    assert!(!is_archive_name("a.log"));
    assert!(is_archive(Platform::Other, "download.part", b"PK\x03\x04"));
    assert!(!is_archive(Platform::Other, "server.log", b"text"));
}

#[test]
fn entry_names_stay_inside_the_archive() {
    assert!(is_safe_entry_name("logs/a.log", 4096));
    assert!(!is_safe_entry_name("../a.log", 4096));
    assert!(!is_safe_entry_name("/etc/passwd", 4096));
    assert!(!is_safe_entry_name("logs/a.log", 3));
    assert!(!is_safe_entry_name("", 4096));
}

#[test]
fn only_entries_and_empty_archives_begin_as_zip() {
    for platform in [Platform::Windows, Platform::MacOs, Platform::Other] {
        assert!(is_zip(platform, "a.part", b"PK\x03\x04rest"));
        assert!(is_zip(platform, "a.part", b"PK\x05\x06"));
        assert!(!is_zip(platform, "a.part", b"PK\x01\x02"));
        assert!(!is_zip(platform, "a.part", b"PK\x03\x06"));
        assert!(!is_zip(platform, "a.part", b"PK\x05\x04"));
        assert!(!is_zip(platform, "a.part", b"PKxy"));
        assert!(!is_zip(platform, "a.part", b"PK\x03"));
        assert_eq!(open_archive(platform, "a.part", b"PK\x01\x02"), ArchiveKind::Plain);
        assert!(!is_archive(platform, "a.part", b"PK\x01\x02"));
    }
}

#[test]
fn listing_stops_when_its_time_is_over() {
    assert_eq!(ensure_scan_time(0, LIMITS), Ok(()));
    assert_eq!(ensure_scan_time(50, LIMITS), Ok(()));
    assert_eq!(ensure_scan_time(51, LIMITS), Err(EntryError::TooSlow));
}

#[test]
fn shares_devices_and_verbatim_prefixes_are_no_names() {
    let windows = |name: &str| is_log_name(Platform::Windows, name);
    for bare in [
        r"\\server\share.log",
        r"//server/share.log",
        r"\\server\share.log\",
        r"\\.\pipe.log",
        r"//./pipe.log",
        r"\\?\volume.log",
        r"\\?\volume.log\",
        r"\\?\a/b.log",
        r"\\?\C:",
        r"\\?\C:\a.log\.",
        r"\\?\C:\a.log\..",
        r"\\?\C:/.log",
        r"//?/C:.log",
        r"\\.log",
    ] {
        assert!(!windows(bare), "{bare}");
    }
    for log in [
        r"\\server\share\a.log",
        r"\\server\share.d\a.log\.",
        r"\\.\pipe\a.log",
        r"\\?\volume\a.log",
        r"\\?\C:\a.log",
        r"\\?\C:/a.log",
        r"\\?\C:\b/.log",
        r"\\?\C:a\b.log",
        r"\\server.log",
        r"\\server.log\",
        r"\\\server\share.log",
        r"\a.log",
    ] {
        assert!(windows(log), "{log}");
    }
    let zip = |name: &str| is_zip(Platform::Windows, name, b"");
    assert!(!zip(r"\\?\UNC\server\share.zip"));
    assert!(!zip(r"\\?\UNC/server\share.zip"));
    assert!(!zip(r"\\?\UNC\server.zip"));
    assert!(zip(r"\\?\UNC\server\share\a.ZIP"));
    assert!(zip(r"\\?\UNC\server\\a.zip"));
    assert!(zip(r"\\?\unc\server\share.zip"));
    assert!(is_log_name(Platform::Other, r"\\server\share.log"));
    assert!(is_log_name(Platform::MacOs, "//server/share.log"));
}

#[test]
fn backslashes_part_names_on_windows_only() {
    assert!(!is_log_name(Platform::Windows, "logs\\.log"));
    assert!(is_log_name(Platform::Other, "logs\\.log"));
    assert!(is_log_name(Platform::Windows, "logs\\a.log"));
    assert!(!is_log_name(Platform::Windows, "a.log\\b"));
    assert!(is_log_name(Platform::Windows, "a.log\\"));
    assert!(is_log_name(Platform::Windows, "a.log/."));
    assert!(!is_log_name(Platform::Windows, "C:.log"));
    assert!(is_log_name(Platform::Other, "C:.log"));
    assert!(is_log_name(Platform::Windows, "C:a.log"));
    assert!(is_log_name(Platform::Windows, "C:\\a.log"));
    let item = |name: &str| ZipItem {
        name: name.into(),
        size: 1,
        directory: false,
        encrypted: false,
        stored: true,
    };
    let items = vec![item("logs\\.log"), item("logs\\a.log")];
    let listed: Vec<bool> =
        zip_entries(Platform::Windows, &items).iter().map(|entry| entry.is_log).collect();
    assert_eq!(listed, [false, true]);
    let listed: Vec<bool> =
        zip_entries(Platform::Other, &items).iter().map(|entry| entry.is_log).collect();
    assert_eq!(listed, [true, true]);
}
