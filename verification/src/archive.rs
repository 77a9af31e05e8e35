//! What archives and files hold, as far as names and first bytes tell.

use crate::paths;
use crate::paths::{find_extension, Platform};
use crate::text;
use crate::text::{chars_of, has_suffix, same_text, string_of, to_ascii_lowercase};
use vstd::prelude::*;

verus! {

/// One entry of an archive.
#[derive(Debug, PartialEq, Eq)]
pub struct ArchiveEntry {
    /// The path inside the archive.
    pub path: String,
    /// The declared size, for display.
    pub size: u64,
    pub is_log: bool,
    pub encrypted: bool,
}

/// The extensions of log files.
pub open spec fn log_extension(e: Seq<char>) -> bool {
    e == "log"@ || e == "txt"@ || e == "out"@ || e == "err"@ || e == "trace"@ || e == "json"@ || e
        == "csv"@
}

/// The name has the extension of a log file.
pub open spec fn log_name(platform: Platform, name: Seq<char>) -> bool {
    match paths::extension(platform, text::ascii_lowercase(name)) {
        Some(e) => log_extension(e),
        None => false,
    }
}

/// Whether a name has the extension of a log file.
pub fn is_log_name(platform: Platform, name: &str) -> (r: bool)
    ensures
        r == log_name(platform, name@),
{
    match find_extension(platform, &to_ascii_lowercase(&chars_of(name))) {
        Some(e) => {
            let e = string_of(&e);
            let e = e.as_str();
            same_text(e, "log") || same_text(e, "txt") || same_text(e, "out") || same_text(
                e,
                "err",
            ) || same_text(e, "trace") || same_text(e, "json") || same_text(e, "csv")
        },
        None => false,
    }
}

/// A file is a log exactly if its extension is one of seven, in capitals or
/// small letters, whatever its name is otherwise.
pub proof fn log_is_told_by_its_extension(platform: Platform, stem: Seq<char>, e: Seq<char>)
    requires
        paths::single_name(stem),
        paths::single_name(e),
        stem.len() > 0,
        e.len() > 0,
        !stem.contains(':'),
        !e.contains(':'),
        !e.contains('.'),
    ensures
        log_name(platform, stem + seq!['.'] + e) <==> seq![
            "log"@,
            "txt"@,
            "out"@,
            "err"@,
            "trace"@,
            "json"@,
            "csv"@,
        ].contains(text::ascii_lowercase(e)),
{
    let list = seq!["log"@, "txt"@, "out"@, "err"@, "trace"@, "json"@, "csv"@];
    let name = stem + seq!['.'] + e;
    let small_stem = text::ascii_lowercase(stem);
    let small = text::ascii_lowercase(e);
    let whole = small_stem + seq!['.'] + small;
    assert(text::ascii_lowercase(name) =~= whole);
    smaller_letters_add_nothing(stem);
    smaller_letters_add_nothing(e);
    assert forall|c: char| whole.contains(c) implies c == '.' || small_stem.contains(c)
        || small.contains(c) by {
        let k = choose|k: int| 0 <= k < whole.len() && whole[k] == c;
        if k < stem.len() {
            assert(small_stem[k] == c);
        } else if k > stem.len() {
            assert(small[k - stem.len() - 1] == c);
        }
    }
    assert(whole.len() > 2 || whole.len() == 2);
    assert(whole != seq!['.']);
    if whole == seq!['.', '.'] {
        assert(whole.last() == small.last());
        assert(small.contains(small.last()));
    }
    assert(Seq::<char>::empty() + whole =~= whole);
    paths::file_is_called_by_its_last_part(platform, Seq::empty(), whole);
    paths::extension_is_behind_the_last_dot(platform, Seq::empty(), small_stem, small);
    assert(list[0] == "log"@ && list[1] == "txt"@ && list[2] == "out"@ && list[3] == "err"@
        && list[4] == "trace"@ && list[5] == "json"@ && list[6] == "csv"@);
}

/// Small letters hold no separator, dot or colon that the text did not hold.
proof fn smaller_letters_add_nothing(s: Seq<char>)
    ensures
        text::ascii_lowercase(s).contains('/') ==> s.contains('/'),
        text::ascii_lowercase(s).contains('\\') ==> s.contains('\\'),
        text::ascii_lowercase(s).contains(':') ==> s.contains(':'),
        text::ascii_lowercase(s).contains('.') ==> s.contains('.'),
{
    let small = text::ascii_lowercase(s);
    assert forall|c: char|
        small.contains(c) && (c == '/' || c == '\\' || c == ':' || c == '.') implies s.contains(c) by {
        let k = choose|k: int| 0 <= k < small.len() && small[k] == c;
        assert(small[k] == text::ascii_lower(s[k]));
        assert(s[k] == c);
    }
}

/// A byte that no text holds, NUL aside.
pub open spec fn unprintable(b: u8) -> bool {
    b < 9 || 13 < b < 32
}

/// How many bytes of `s` are unprintable.
pub open spec fn unprintable_count(s: Seq<u8>) -> nat
    decreases s.len(),
{
    if s.len() == 0 {
        0
    } else {
        unprintable_count(s.drop_last()) + if unprintable(s.last()) { 1nat } else { 0 }
    }
}

/// Bytes that look like text: no NUL, and less than a tenth unprintable.
pub open spec fn looks_like_text(s: Seq<u8>) -> bool {
    s.len() == 0 || (!s.contains(0u8) && 10 * unprintable_count(s) < s.len())
}

/// Whether the first bytes of a file look like text.
pub fn is_text_sample(sample: &[u8]) -> (r: bool)
    ensures
        r == looks_like_text(sample@),
{
    if sample.len() == 0 {
        return true;
    }
    let mut count: usize = 0;
    assert(sample@.take(0) =~= Seq::empty());
    for i in 0..sample.len()
        invariant
            count == unprintable_count(sample@.take(i as int)),
            count <= i,
            forall|j: int| 0 <= j < i ==> sample@[j] != 0,
    {
        let b: u8 = sample[i];
        assert(sample@.take(i + 1).drop_last() =~= sample@.take(i as int));
        if b == 0 {
            assert(sample@.contains(0u8));
            return false;
        }
        if b < 9 || 13 < b && b < 32 {
            count = count + 1;
        }
    }
    assert(sample@.take(sample@.len() as int) =~= sample@);
    count < sample.len() / 10 || count == sample.len() / 10 && sample.len() % 10 != 0
}

/// Bytes are text where none is NUL and less than a tenth of them are control
/// characters other than those that move the cursor.
pub proof fn text_has_few_control_characters(s: Seq<u8>)
    ensures
        looks_like_text(s) <==> s.len() == 0 || (!s.contains(0u8) && 10 * s.filter(
            |b: u8| b <= 8 || 14 <= b <= 31,
        ).len() < s.len()),
{
    count_is_number(s);
}

proof fn count_is_number(s: Seq<u8>)
    ensures
        unprintable_count(s) == s.filter(|b: u8| b <= 8 || 14 <= b <= 31).len(),
    decreases s.len(),
{
    reveal(Seq::filter);
    if s.len() > 0 {
        count_is_number(s.drop_last());
    }
}

/// The first bytes are those of an entry of a ZIP archive, or of the end
/// record of an empty one.
pub open spec fn zip_head(head: Seq<u8>) -> bool {
    head.len() >= 4 && head[0] == 0x50 && head[1] == 0x4b && (head[2] == 3 && head[3] == 4
        || head[2] == 5 && head[3] == 6)
}

/// The file is a ZIP archive by its extension or its first bytes.
pub open spec fn zip_file(platform: Platform, name: Seq<char>, head: Seq<u8>) -> bool {
    zip_head(head) || match paths::extension(platform, name) {
        Some(e) => text::ascii_lowercase(e) == "zip"@,
        None => false,
    }
}

/// Whether a file is a ZIP archive, given its first bytes.
pub fn is_zip(platform: Platform, name: &str, head: &[u8]) -> (r: bool)
    ensures
        r == zip_file(platform, name@, head@),
{
    let by_name: bool = match find_extension(platform, &chars_of(name)) {
        Some(e) => same_text(string_of(&to_ascii_lowercase(&e)).as_str(), "zip"),
        None => false,
    };
    by_name || head.len() >= 4 && head[0] == 0x50 && head[1] == 0x4b && (head[2] == 3 && head[3]
        == 4 || head[2] == 5 && head[3] == 6)
}

/// A file that begins as a ZIP archive is one whatever its name, and so is any
/// file with the extension `zip`, in capitals or small letters. No other is.
pub proof fn zip_is_told_by_head_or_extension(
    platform: Platform,
    stem: Seq<char>,
    e: Seq<char>,
    head: Seq<u8>,
)
    requires
        paths::single_name(stem),
        paths::single_name(e),
        stem.len() > 0,
        e.len() > 0,
        !stem.contains(':'),
        !e.contains(':'),
        !e.contains('.'),
    ensures
        zip_file(platform, stem + seq!['.'] + e, head) <==> seq![0x50u8, 0x4b, 3, 4].is_prefix_of(
            head,
        ) || seq![0x50u8, 0x4b, 5, 6].is_prefix_of(head) || text::ascii_lowercase(e) == "zip"@,
{
    let name = stem + seq!['.'] + e;
    assert forall|c: char| name.contains(c) implies c == '.' || stem.contains(c) || e.contains(c) by {
        let k = choose|k: int| 0 <= k < name.len() && name[k] == c;
        if k < stem.len() {
            assert(stem[k] == c);
        } else if k > stem.len() {
            assert(e[k - stem.len() - 1] == c);
        }
    }
    if name == seq!['.', '.'] {
        assert(name.last() == e.last());
        assert(e.contains(e.last()));
    }
    assert(Seq::<char>::empty() + name =~= name);
    paths::file_is_called_by_its_last_part(platform, Seq::empty(), name);
    paths::extension_is_behind_the_last_dot(platform, Seq::empty(), stem, e);
    let first = seq![0x50u8, 0x4b, 3, 4];
    let empty = seq![0x50u8, 0x4b, 5, 6];
    if head.len() >= 4 {
        let start = head.take(4);
        assert(start[0] == head[0] && start[1] == head[1] && start[2] == head[2] && start[3]
            == head[3]);
        if zip_head(head) {
            assert(start =~= first || start =~= empty);
        }
        assert(first[2] == 3 && first[3] == 4 && empty[2] == 5 && empty[3] == 6);
    }
}

/// How a file is read.
#[derive(Debug, Clone, Copy, PartialEq, Eq, Structural)]
pub enum ArchiveKind {
    Zip,
    /// A single file, seen as an archive with one entry.
    Plain,
}

/// How to read a file, given its first bytes.
pub fn open_archive(platform: Platform, name: &str, head: &[u8]) -> (r: ArchiveKind)
    ensures
        r == if zip_file(platform, name@, head@) {
            ArchiveKind::Zip
        } else {
            ArchiveKind::Plain
        },
{
    if is_zip(platform, name, head) {
        ArchiveKind::Zip
    } else {
        ArchiveKind::Plain
    }
}

/// The endings of archive names.
pub open spec fn archive_ending(name: Seq<char>) -> bool {
    text::ends_with(name, ".zip"@) || text::ends_with(name, ".7z"@) || text::ends_with(
        name,
        ".rar"@,
    ) || text::ends_with(name, ".tar"@) || text::ends_with(name, ".gz"@) || text::ends_with(
        name,
        ".tgz"@,
    ) || text::ends_with(name, ".bz2"@) || text::ends_with(name, ".tbz"@) || text::ends_with(
        name,
        ".tbz2"@,
    ) || text::ends_with(name, ".xz"@) || text::ends_with(name, ".txz"@) || text::ends_with(
        name,
        ".zst"@,
    ) || text::ends_with(name, ".tzst"@)
}

/// The name ends as archives and compressed streams do.
pub open spec fn archive_name(name: Seq<char>) -> bool {
    archive_ending(text::ascii_lowercase(name))
}

/// The names of archives and compressed streams end in one of thirteen ways,
/// in capitals or small letters.
pub proof fn archive_is_told_by_its_ending(name: Seq<char>)
    ensures
        archive_name(name) <==> exists|k: int|
            #![trigger archive_endings()[k]]
            0 <= k < 13 && archive_endings()[k].is_suffix_of(text::ascii_lowercase(name)),
{
    let small = text::ascii_lowercase(name);
    assert forall|k: int| 0 <= k < 13 implies archive_endings()[k].is_suffix_of(small)
        == #[trigger] text::ends_with(small, archive_endings()[k]) by {
        let e = archive_endings()[k];
        if e.len() <= small.len() {
            assert(small.skip(small.len() - e.len()) =~= small.subrange(
                small.len() - e.len(),
                small.len() as int,
            ));
        }
    }
    assert(archive_endings()[0] == ".zip"@ && archive_endings()[1] == ".7z"@
        && archive_endings()[2] == ".rar"@ && archive_endings()[3] == ".tar"@
        && archive_endings()[4] == ".gz"@ && archive_endings()[5] == ".tgz"@
        && archive_endings()[6] == ".bz2"@ && archive_endings()[7] == ".tbz"@
        && archive_endings()[8] == ".tbz2"@ && archive_endings()[9] == ".xz"@
        && archive_endings()[10] == ".txz"@ && archive_endings()[11] == ".zst"@
        && archive_endings()[12] == ".tzst"@);
}

/// How the names of archives and compressed streams end.
pub open spec fn archive_endings() -> Seq<Seq<char>> {
    seq![
        ".zip"@,
        ".7z"@,
        ".rar"@,
        ".tar"@,
        ".gz"@,
        ".tgz"@,
        ".bz2"@,
        ".tbz"@,
        ".tbz2"@,
        ".xz"@,
        ".txz"@,
        ".zst"@,
        ".tzst"@,
    ]
}

/// Whether a name ends as archives and compressed streams do.
pub fn is_archive_name(name: &str) -> (r: bool)
    ensures
        r == archive_name(name@),
{
    let lower = string_of(&to_ascii_lowercase(&chars_of(name)));
    let n = lower.as_str();
    has_suffix(n, ".zip") || has_suffix(n, ".7z") || has_suffix(n, ".rar") || has_suffix(n, ".tar")
        || has_suffix(n, ".gz") || has_suffix(n, ".tgz") || has_suffix(n, ".bz2") || has_suffix(
        n,
        ".tbz",
    ) || has_suffix(n, ".tbz2") || has_suffix(n, ".xz") || has_suffix(n, ".txz") || has_suffix(
        n,
        ".zst",
    ) || has_suffix(n, ".tzst")
}

/// Whether a file is an archive, by its name or its first bytes.
pub fn is_archive(platform: Platform, name: &str, head: &[u8]) -> (r: bool)
    ensures
        r == (archive_name(name@) || zip_file(platform, name@, head@)),
{
    is_archive_name(name) || is_zip(platform, name, head)
}

/// Why an entry cannot be opened.
#[derive(Debug, Clone, Copy, PartialEq, Eq, Structural)]
pub enum EntryError {
    NotFound,
    Encrypted,
    /// One part of a multi-volume archive.
    Split,
    /// A directory or a link.
    Special,
    /// More entries than allowed.
    TooManyEntries,
    /// More decoded bytes than allowed.
    TooLarge,
    /// Listing took longer than allowed.
    TooSlow,
    /// A block of impossible length.
    InvalidBlock,
    /// A position before the start of the entry.
    SeekBeforeStart,
}

/// A single file, seen as an archive with one entry.
pub struct PlainReader {
    name: String,
    size: u64,
}

impl PlainReader {
    pub closed spec fn entry_name(self) -> Seq<char> {
        self.name@
    }

    pub closed spec fn entry_size(self) -> u64 {
        self.size
    }

    /// A file without a readable name is called `file`.
    pub fn open(name: Option<String>, size: u64) -> (r: Self)
        ensures
            r.entry_size() == size,
            r.entry_name() == match name {
                Some(n) => n@,
                None => "file"@,
            },
    {
        let name = match name {
            Some(n) => n,
            None => "file".to_owned(),
        };
        PlainReader { name, size }
    }

    /// The one entry. It is a log by its name, or if its first bytes could be
    /// read and look like text.
    pub fn entries(&self, platform: Platform, sample: Option<&[u8]>) -> (r: Vec<ArchiveEntry>)
        ensures
            r@.len() == 1,
            r@[0].path@ == self.entry_name(),
            r@[0].size == self.entry_size(),
            !r@[0].encrypted,
            r@[0].is_log == (log_name(platform, self.entry_name()) || match sample {
                Some(s) => looks_like_text(s@),
                None => false,
            }),
    {
        let readable: bool = match sample {
            Some(s) => is_text_sample(s),
            None => false,
        };
        let is_log: bool = is_log_name(platform, self.name.as_str()) || readable;
        let mut r: Vec<ArchiveEntry> = Vec::new();
        r.push(
            ArchiveEntry {
                path: self.name.clone(),
                size: self.size,
                is_log,
                encrypted: false,
            },
        );
        r
    }

    /// Only the one entry can be opened.
    pub fn open_entry(&self, path: &str) -> (r: Result<(), EntryError>)
        ensures
            r == if path@ == self.entry_name() {
                Ok::<(), EntryError>(())
            } else {
                Err(EntryError::NotFound)
            },
    {
        if same_text(path, self.name.as_str()) {
            Ok(())
        } else {
            Err(EntryError::NotFound)
        }
    }
}

/// What the directory of a ZIP archive says of an entry.
#[derive(Debug)]
pub struct ZipItem {
    pub name: String,
    pub size: u64,
    pub directory: bool,
    pub encrypted: bool,
    /// Not compressed.
    pub stored: bool,
}

/// What an archive entry says.
#[verifier::ext_equal]
pub struct EntryModel {
    pub path: Seq<char>,
    pub size: u64,
    pub is_log: bool,
    pub encrypted: bool,
}

impl View for ArchiveEntry {
    type V = EntryModel;

    open spec fn view(&self) -> EntryModel {
        EntryModel {
            path: self.path@,
            size: self.size,
            is_log: self.is_log,
            encrypted: self.encrypted,
        }
    }
}

pub open spec fn entry_models(v: Seq<ArchiveEntry>) -> Seq<EntryModel> {
    v.map_values(|e: ArchiveEntry| e@)
}

/// An entry that has a name, a size and maybe a password.
pub open spec fn entry_of(
    platform: Platform,
    name: Seq<char>,
    size: u64,
    encrypted: bool,
) -> EntryModel {
    EntryModel { path: name, size, is_log: !encrypted && log_name(platform, name), encrypted }
}

impl ArchiveEntry {
    /// Encrypted entries are never logs.
    pub fn new(platform: Platform, path: String, size: u64, encrypted: bool) -> (r: Self)
        ensures
            r@ == entry_of(platform, path@, size, encrypted),
    {
        let is_log: bool = !encrypted && is_log_name(platform, path.as_str());
        ArchiveEntry { path, size, is_log, encrypted }
    }
}

/// The entries of a ZIP archive: everything but directories.
pub open spec fn zip_listing(platform: Platform, items: Seq<ZipItem>) -> Seq<EntryModel>
    decreases items.len(),
{
    if items.len() == 0 {
        Seq::empty()
    } else {
        let item = items.last();
        let earlier = zip_listing(platform, items.drop_last());
        if item.directory {
            earlier
        } else {
            earlier.push(entry_of(platform, item.name@, item.size, item.encrypted))
        }
    }
}

/// Lists a ZIP archive from its directory.
pub fn zip_entries(platform: Platform, items: &Vec<ZipItem>) -> (r: Vec<ArchiveEntry>)
    ensures
        entry_models(r@) == zip_listing(platform, items@),
{
    let mut r: Vec<ArchiveEntry> = Vec::new();
    assert(items@.take(0) =~= Seq::empty());
    assert(entry_models(r@) =~= Seq::empty());
    for i in 0..items.len()
        invariant
            entry_models(r@) == zip_listing(platform, items@.take(i as int)),
    {
        let item: &ZipItem = &items[i];
        let ghost before = r@;
        assert(items@.take(i + 1).drop_last() =~= items@.take(i as int));
        if !item.directory {
            r.push(ArchiveEntry::new(platform, item.name.clone(), item.size, item.encrypted));
            assert(entry_models(r@) =~= entry_models(before).push(r@.last()@));
        }
    }
    assert(items@.take(items@.len() as int) =~= items@);
    r
}

/// Everything in a ZIP archive that is no directory is listed, once and in
/// its order, by its name, with its size and whether it is encrypted; nothing
/// else is.
pub proof fn files_of_a_zip_are_listed(platform: Platform, items: Seq<ZipItem>)
    ensures
        zip_listing(platform, items).len() == items.filter(|item: ZipItem| !item.directory).len(),
        forall|i: int|
            #![trigger zip_listing(platform, items)[i]]
            0 <= i < zip_listing(platform, items).len() ==> {
                let entry = zip_listing(platform, items)[i];
                let item = items.filter(|item: ZipItem| !item.directory)[i];
                &&& entry.path == item.name@
                &&& entry.size == item.size
                &&& entry.encrypted == item.encrypted
                &&& entry.is_log == (!item.encrypted && log_name(platform, item.name@))
            },
    decreases items.len(),
{
    let p = |item: ZipItem| !item.directory;
    reveal(Seq::filter);
    if items.len() > 0 {
        files_of_a_zip_are_listed(platform, items.drop_last());
        let earlier = items.drop_last().filter(p);
        assert(items.filter(p) == if items.last().directory {
            earlier
        } else {
            earlier.push(items.last())
        });
    }
}

/// Whatever its size and however it is stored, a file of a ZIP archive stands
/// in the listing behind the files before it.
pub proof fn file_of_a_zip_is_found(platform: Platform, items: Seq<ZipItem>, k: int)
    requires
        0 <= k < items.len(),
        !items[k].directory,
    ensures
        ({
            let at = zip_listing(platform, items.take(k)).len() as int;
            let listing = zip_listing(platform, items);
            &&& at < listing.len()
            &&& listing[at].path == items[k].name@
            &&& listing[at].size == items[k].size
            &&& listing[at].encrypted == items[k].encrypted
        }),
    decreases items.len(),
{
    if k == items.len() - 1 {
        assert(items.take(k) =~= items.drop_last());
    } else {
        file_of_a_zip_is_found(platform, items.drop_last(), k);
        assert(items.drop_last().take(k) =~= items.take(k));
    }
}

/// How the content of an entry can be read.
#[derive(Debug, Clone, Copy, PartialEq, Eq, Structural)]
pub enum EntryAccess {
    Seekable,
    Sequential,
}

/// How to read a ZIP entry: what is stored as it is can be read anywhere.
pub fn zip_open_entry(item: Option<&ZipItem>) -> (r: Result<EntryAccess, EntryError>)
    ensures
        r == match item {
            None => Err::<EntryAccess, EntryError>(EntryError::NotFound),
            Some(item) => if item.encrypted {
                Err(EntryError::Encrypted)
            } else if item.stored {
                Ok(EntryAccess::Seekable)
            } else {
                Ok(EntryAccess::Sequential)
            },
        },
{
    match item {
        None => Err(EntryError::NotFound),
        Some(item) => if item.encrypted {
            Err(EntryError::Encrypted)
        } else if item.stored {
            Ok(EntryAccess::Seekable)
        } else {
            Ok(EntryAccess::Sequential)
        },
    }
}

/// A position in an archive as a position in the entry that starts at `base`.
pub fn relative_position(base: u64, absolute: u64) -> (r: Result<u64, EntryError>)
    ensures
        absolute >= base ==> r == Ok::<u64, EntryError>((absolute - base) as u64),
        absolute < base ==> r == Err::<u64, EntryError>(EntryError::SeekBeforeStart),
{
    if absolute < base {
        Err(EntryError::SeekBeforeStart)
    } else {
        Ok(absolute - base)
    }
}

/// Bounds on what is read of an archive.
#[derive(Debug, Clone, Copy, PartialEq, Eq)]
pub struct ArchiveLimits {
    pub max_entries: usize,
    pub max_path_bytes: usize,
    pub max_decoded_bytes: u64,
    /// How long listing may take.
    pub max_scan_ms: u64,
}

/// Whether listing may go on after `elapsed_ms`.
pub fn ensure_scan_time(elapsed_ms: u64, limits: ArchiveLimits) -> (r: Result<(), EntryError>)
    ensures
        r == if elapsed_ms > limits.max_scan_ms {
            Err::<(), EntryError>(EntryError::TooSlow)
        } else {
            Ok(())
        },
{
    if elapsed_ms > limits.max_scan_ms {
        Err(EntryError::TooSlow)
    } else {
        Ok(())
    }
}

/// A name that stays inside the archive: relative, not empty, not too long,
/// and without a step upwards.
pub open spec fn safe_entry_name(name: Seq<char>, max_bytes: nat) -> bool {
    &&& name.len() > 0
    &&& vstd::utf8::encode_utf8(name).len() <= max_bytes
    &&& !name.contains('\0')
    &&& name[0] != '/'
    &&& !(name.len() > 1 && name[1] == ':')
    &&& !text::pieces(name, |c: char| c == '/').contains(seq!['.', '.'])
}

/// Every relative name without NUL is kept that has no part `..`, no colon in
/// second place and no more bytes than allowed; all others are refused.
pub proof fn name_is_safe_by_its_parts(parts: Seq<Seq<char>>, max_bytes: nat)
    requires
        parts.len() > 0,
        forall|i: int| 0 <= i < parts.len() ==> !(#[trigger] parts[i]).contains('/'),
    ensures
        ({
            let name = text::joined_by(parts, seq!['/']);
            safe_entry_name(name, max_bytes) <==> {
                &&& name.len() > 0
                &&& parts[0].len() > 0
                &&& !parts.contains(seq!['.', '.'])
                &&& !name.contains('\0')
                &&& !(name.len() > 1 && name[1] == ':')
                &&& vstd::utf8::encode_utf8(name).len() <= max_bytes
            }
        }),
{
    text::joined_texts_come_apart(parts, '/');
    starts_with_first_part(parts);
    if parts[0].len() > 0 {
        assert(parts[0].contains(parts[0][0]));
    }
}

proof fn starts_with_first_part(parts: Seq<Seq<char>>)
    requires
        parts.len() > 0,
    ensures
        parts[0].is_prefix_of(text::joined_by(parts, seq!['/'])),
        parts.len() > 1 ==> parts[0].len() < text::joined_by(parts, seq!['/']).len()
            && text::joined_by(parts, seq!['/'])[parts[0].len() as int] == '/',
        parts[0].len() > 0 ==> text::joined_by(parts, seq!['/'])[0] == parts[0][0],
    decreases parts.len(),
{
    let s = text::joined_by(parts, seq!['/']);
    if parts.len() > 1 {
        let start = text::joined_by(parts.drop_last(), seq!['/']);
        starts_with_first_part(parts.drop_last());
        assert(s =~= start + seq!['/'] + parts.last());
        assert(s.take(parts[0].len() as int) =~= start.take(parts[0].len() as int));
        if parts.len() == 2 {
            assert(start == parts[0]);
        }
    } else {
        assert(s.take(parts[0].len() as int) =~= parts[0]);
    }
}

/// Whether a name stays inside the archive.
pub fn is_safe_entry_name(name: &str, max_bytes: usize) -> (r: bool)
    ensures
        r == safe_entry_name(name@, max_bytes as nat),
{
    if name.as_bytes().len() > max_bytes {
        return false;
    }
    let chars = chars_of(name);
    if chars.len() == 0 || chars[0] == '/' {
        return false;
    }
    if chars.len() > 1 && chars[1] == ':' {
        return false;
    }
    let ghost p = |c: char| c == '/';
    let mut piece: Vec<char> = Vec::new();
    assert(chars@.take(0) =~= Seq::empty());
    let ghost none = text::pieces(chars@.take(0), p);
    assert(none.drop_last() =~= Seq::empty());
    for i in 0..chars.len()
        invariant
            p == (|c: char| c == '/'),
            chars@ == name@,
            forall|j: int| 0 <= j < i ==> chars@[j] != '\0',
            ({
                let so_far = text::pieces(chars@.take(i as int), p);
                &&& so_far.len() > 0
                &&& piece@ == so_far.last()
                &&& !so_far.drop_last().contains(seq!['.', '.'])
            }),
            chars@.len() > 0,
            chars@[0] != '/',
            !(chars@.len() > 1 && chars@[1] == ':'),
    {
        let c: char = chars[i];
        let ghost before = text::pieces(chars@.take(i as int), p);
        let ghost after = text::pieces(chars@.take(i + 1), p);
        assert(chars@.take(i + 1).drop_last() =~= chars@.take(i as int));
        if c == '\0' {
            assert(name@.contains('\0'));
            return false;
        }
        if c == '/' {
            assert(after.drop_last() =~= before);
            if piece.len() == 2 && piece[0] == '.' && piece[1] == '.' {
                proof {
                    assert(piece@ =~= seq!['.', '.']);
                    pieces_are_kept(chars@, p, i as int, before.len() - 1);
                }
                return false;
            }
            assert(!before.contains(seq!['.', '.'])) by {
                if before.contains(seq!['.', '.']) {
                    let k = choose|k: int| 0 <= k < before.len() && before[k] == seq!['.', '.'];
                    if k < before.len() - 1 {
                        assert(before.drop_last()[k] == seq!['.', '.']);
                    } else {
                        assert(piece@[0] == '.' && piece@[1] == '.');
                    }
                }
            }
            piece = Vec::new();
        } else {
            piece.push(c);
            assert(after.drop_last() =~= before.drop_last());
        }
    }
    assert(chars@.take(chars@.len() as int) =~= chars@);
    let ghost all = text::pieces(chars@, p);
    let up: bool = piece.len() == 2 && piece[0] == '.' && piece[1] == '.';
    proof {
        if up {
            assert(piece@ =~= seq!['.', '.']);
            assert(all[all.len() - 1] == piece@);
        } else if all.contains(seq!['.', '.']) {
            let k = choose|k: int| 0 <= k < all.len() && all[k] == seq!['.', '.'];
            if k < all.len() - 1 {
                assert(all.drop_last()[k] == seq!['.', '.']);
            } else {
                assert(piece@[0] == '.' && piece@[1] == '.');
            }
        }
        assert(!name@.contains('\0'));
    }
    !up
}

/// A piece that is followed by a separator stays as it is.
proof fn pieces_are_kept(s: Seq<char>, p: spec_fn(char) -> bool, i: int, k: int)
    requires
        0 <= i < s.len(),
        p(s[i]),
        0 <= k < text::pieces(s.take(i), p).len(),
    ensures
        k < text::pieces(s, p).len(),
        text::pieces(s, p)[k] == text::pieces(s.take(i), p)[k],
        k < text::pieces(s, p).len() - 1,
    decreases s.len(),
{
    if i == s.len() - 1 {
        assert(s.drop_last() =~= s.take(i));
    } else {
        assert(s.drop_last().take(i) =~= s.take(i));
        pieces_are_kept(s.drop_last(), p, i, k);
    }
}

} // verus!
