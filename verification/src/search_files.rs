//! The files that a search knows: which are taken up, and how they are shown.

use crate::archive;
use crate::archive::{is_archive_name, is_log_name};
use crate::mft_paths;
use crate::mft_paths::ResolvedMftEntry;
use crate::order;
use crate::order::{code_points_of, stable_order, Key};
use crate::paths;
use crate::paths::{find_extension, path_is_within, KnownPath, Platform};
use crate::text;
use crate::text::{chars_of, same_text, string_of, to_ascii_lowercase};
use vstd::prelude::*;

verus! {

/// How many files are written at a time while a directory is scanned.
pub const SCAN_WRITE_BATCH: usize = 8_192;

/// How often the progress of a scan is shown, in files.
pub const SCAN_REPORT_FILES: u64 = 2_048;

/// How many paths of events are handled at a time.
pub const EVENT_BATCH: usize = 512;

/// How many threads read the metadata of shown files.
pub const METADATA_WORKERS_MAX: usize = 4;

/// A file as it is stored for searching.
#[derive(Debug, Clone, PartialEq, Eq)]
pub struct IndexedFile {
    pub path: String,
    pub name: String,
    pub root: String,
    pub size: u64,
    pub modified_ms: Option<u64>,
    pub is_log: bool,
    pub is_archive: bool,
    pub file_id: Option<[u8; 16]>,
    pub parent_id: Option<[u8; 16]>,
}

/// What a stored file says.
#[verifier::ext_equal]
pub struct FileModel {
    pub path: Seq<char>,
    pub name: Seq<char>,
    pub root: Seq<char>,
    pub size: u64,
    pub modified_ms: Option<u64>,
    pub is_log: bool,
    pub is_archive: bool,
    pub file_id: Option<Seq<u8>>,
    pub parent_id: Option<Seq<u8>>,
}

pub open spec fn id_bytes(id: Option<[u8; 16]>) -> Option<Seq<u8>> {
    match id {
        Some(b) => Some(b@),
        None => None,
    }
}

impl View for IndexedFile {
    type V = FileModel;

    open spec fn view(&self) -> FileModel {
        FileModel {
            path: self.path@,
            name: self.name@,
            root: self.root@,
            size: self.size,
            modified_ms: self.modified_ms,
            is_log: self.is_log,
            is_archive: self.is_archive,
            file_id: id_bytes(self.file_id),
            parent_id: id_bytes(self.parent_id),
        }
    }
}

pub open spec fn file_models(v: Seq<IndexedFile>) -> Seq<FileModel> {
    v.map_values(|f: IndexedFile| f@)
}

/// What the system told about a file.
#[derive(Debug)]
pub struct FileStat {
    pub path: String,
    pub name: Option<String>,
    pub is_file: bool,
    pub size: u64,
    pub modified_ms: Option<u64>,
}

/// The stored form of a file found below `root`.
pub open spec fn stored_file(platform: Platform, stat: FileStat, root: Seq<char>) -> Option<
    FileModel,
> {
    match stat.name {
        Some(name) if stat.is_file => Some(
            FileModel {
                path: stat.path@,
                name: name@,
                root,
                size: stat.size,
                modified_ms: stat.modified_ms,
                is_log: archive::log_name(platform, name@),
                is_archive: archive::archive_name(name@),
                file_id: None,
                parent_id: None,
            },
        ),
        _ => None,
    }
}

pub fn indexed_file(platform: Platform, stat: &FileStat, root: &str) -> (r: Option<IndexedFile>)
    ensures
        match r {
            Some(file) => stored_file(platform, *stat, root@) == Some(file@),
            None => stored_file(platform, *stat, root@) is None,
        },
{
    if !stat.is_file {
        return None;
    }
    match &stat.name {
        Some(name) => Some(
            IndexedFile {
                path: stat.path.clone(),
                is_log: is_log_name(platform, name.as_str()),
                is_archive: is_archive_name(name.as_str()),
                name: name.clone(),
                root: root.to_owned(),
                size: stat.size,
                modified_ms: stat.modified_ms,
                file_id: None,
                parent_id: None,
            },
        ),
        None => None,
    }
}

/// The stored form of a file on an NTFS volume.
pub open spec fn mft_file(root: Seq<char>, e: mft_paths::EntryModel) -> FileModel {
    FileModel {
        path: e.path,
        name: e.name,
        root,
        size: 0,
        modified_ms: None,
        is_log: archive::log_name(Platform::Windows, e.name),
        is_archive: archive::archive_name(e.name),
        file_id: Some(e.id@),
        parent_id: Some(e.parent_id@),
    }
}

pub fn indexed_mft_entry(root: &str, entry: &ResolvedMftEntry) -> (r: IndexedFile)
    ensures
        r@ == mft_file(root@, entry@),
{
    IndexedFile {
        is_log: is_log_name(Platform::Windows, entry.name.as_str()),
        is_archive: is_archive_name(entry.name.as_str()),
        path: entry.path.clone(),
        name: entry.name.clone(),
        root: root.to_owned(),
        size: 0,
        modified_ms: None,
        file_id: Some(entry.id.as_bytes()),
        parent_id: Some(entry.parent_id.as_bytes()),
    }
}

/// One of `exclusions` holds the path.
pub open spec fn excluded(
    platform: Platform,
    path: Seq<char>,
    exclusions: Seq<Seq<char>>,
) -> bool {
    exists|i: int|
        0 <= i < exclusions.len() && paths::within(platform, path, #[trigger] exclusions[i])
}

pub fn is_excluded(platform: Platform, path: &str, exclusions: &Vec<String>) -> (r: bool)
    ensures
        r == excluded(platform, path@, text::texts(exclusions@)),
{
    let ghost all = text::texts(exclusions@);
    for i in 0..exclusions.len()
        invariant
            all == text::texts(exclusions@),
            forall|j: int| 0 <= j < i ==> !paths::within(platform, path@, #[trigger] all[j]),
    {
        assert(all[i as int] == exclusions@[i as int]@);
        if path_is_within(platform, path, exclusions[i].as_str()) {
            return true;
        }
    }
    false
}

/// What lies within an excluded directory is excluded too.
pub proof fn exclusion_covers_descendants(
    platform: Platform,
    path: Seq<char>,
    directory: Seq<char>,
    exclusions: Seq<Seq<char>>,
)
    requires
        platform == Platform::MacOs || platform == Platform::Other,
        paths::within(platform, path, directory),
        excluded(platform, directory, exclusions),
    ensures
        excluded(platform, path, exclusions),
{
    let i = choose|i: int|
        0 <= i < exclusions.len() && paths::within(
            platform,
            directory,
            #[trigger] exclusions[i],
        );
    paths::within_is_transitive(platform, path, directory, exclusions[i]);
}

/// Directories that are not searched on macOS: other volumes and networks.
pub open spec fn skipped_directories() -> Seq<Seq<char>> {
    seq!["/Volumes"@, "/System/Volumes"@, "/Network"@, "/dev"@, "/net"@, "/home"@]
}

pub open spec fn skipped(platform: Platform, path: Seq<char>) -> bool {
    platform == Platform::MacOs && excluded(platform, path, skipped_directories())
}

pub fn is_platform_skipped_directory(platform: Platform, path: &str) -> (r: bool)
    ensures
        r == skipped(platform, path@),
{
    match platform {
        Platform::MacOs => {
            let mut dirs: Vec<String> = Vec::new();
            dirs.push("/Volumes".to_owned());
            dirs.push("/System/Volumes".to_owned());
            dirs.push("/Network".to_owned());
            dirs.push("/dev".to_owned());
            dirs.push("/net".to_owned());
            dirs.push("/home".to_owned());
            assert(text::texts(dirs@) =~= skipped_directories());
            is_excluded(platform, path, &dirs)
        },
        _ => false,
    }
}

/// A directory that is searched, and of how many components its path is.
#[derive(Debug)]
pub struct SearchRoot {
    pub text: String,
    pub depth: usize,
}

/// The place of the deepest of `roots` that holds the path; of equally deep
/// ones the last.
pub open spec fn holder(platform: Platform, path: Seq<char>, roots: Seq<SearchRoot>) -> Option<int>
    decreases roots.len(),
{
    if roots.len() == 0 {
        None
    } else {
        let earlier = holder(platform, path, roots.drop_last());
        if !paths::within(platform, path, roots.last().text@) {
            earlier
        } else {
            match earlier {
                Some(i) if roots[i].depth > roots.last().depth => earlier,
                _ => Some(roots.len() - 1),
            }
        }
    }
}

pub fn containing_root(platform: Platform, path: &str, roots: &Vec<SearchRoot>) -> (r: Option<usize>)
    ensures
        match holder(platform, path@, roots@) {
            Some(i) => r is Some && r->0 == i && 0 <= i < roots@.len(),
            None => r is None,
        },
{
    let mut best: Option<usize> = None;
    assert(roots@.take(0) =~= Seq::empty());
    for i in 0..roots.len()
        invariant
            match holder(platform, path@, roots@.take(i as int)) {
                Some(k) => best is Some && best->0 == k && 0 <= k < i,
                None => best is None,
            },
    {
        let ghost longer = roots@.take(i + 1);
        assert(longer.drop_last() =~= roots@.take(i as int));
        if path_is_within(platform, path, roots[i].text.as_str()) {
            let deeper: bool = match best {
                Some(k) => {
                    assert(longer[k as int] == roots@[k as int]);
                    roots[k].depth > roots[i].depth
                },
                None => false,
            };
            if !deeper {
                best = Some(i);
            }
        }
    }
    assert(roots@.take(roots@.len() as int) =~= roots@);
    best
}

/// Whether the search is concerned with a path.
pub open spec fn concerns(
    platform: Platform,
    path: Seq<char>,
    roots: Seq<SearchRoot>,
    exclusions: Seq<Seq<char>>,
) -> bool {
    holder(platform, path, roots) is Some && !excluded(platform, path, exclusions) && !skipped(
        platform,
        path,
    )
}

pub fn is_concerned(
    platform: Platform,
    path: &str,
    roots: &Vec<SearchRoot>,
    exclusions: &Vec<String>,
) -> (r: bool)
    ensures
        r == concerns(platform, path@, roots@, text::texts(exclusions@)),
{
    containing_root(platform, path, roots).is_some() && !is_excluded(platform, path, exclusions)
        && !is_platform_skipped_directory(platform, path)
}

/// What is done about a path that changed.
#[derive(Debug)]
pub enum EventAction {
    /// Nothing.
    Ignore,
    /// The file is stored anew, below the root at this place.
    File(usize),
    /// What the directory holds is stored anew.
    Subtree(usize),
    /// The path, and what starts with the prefix, is forgotten.
    Forget { prefix: String },
}

pub open spec fn separator(platform: Platform) -> char {
    if platform == Platform::Windows {
        '\\'
    } else {
        '/'
    }
}

/// Decides about a path that changed.
pub fn event_action(
    platform: Platform,
    path: &str,
    is_file: bool,
    is_dir: bool,
    roots: &Vec<SearchRoot>,
    exclusions: &Vec<String>,
) -> (r: EventAction)
    ensures
        ({
            let place = holder(platform, path@, roots@);
            if !concerns(platform, path@, roots@, text::texts(exclusions@)) {
                r is Ignore
            } else if is_file {
                r is File && r->File_0 == place->0
            } else if is_dir {
                r is Subtree && r->Subtree_0 == place->0
            } else {
                r is Forget && r->prefix@ == path@.push(separator(platform))
            }
        }),
{
    let root: usize = match containing_root(platform, path, roots) {
        Some(root) => root,
        None => {
            return EventAction::Ignore;
        },
    };
    if is_excluded(platform, path, exclusions) || is_platform_skipped_directory(platform, path) {
        return EventAction::Ignore;
    }
    if is_file {
        return EventAction::File(root);
    }
    if is_dir {
        return EventAction::Subtree(root);
    }
    let mut prefix = path.to_owned();
    match platform {
        Platform::Windows => prefix.push('\\'),
        _ => prefix.push('/'),
    }
    EventAction::Forget { prefix }
}

/// What an entry of a directory is.
#[derive(Debug, Clone, Copy, PartialEq, Eq, Structural)]
pub enum EntryType {
    Symlink,
    Directory,
    File,
    Other,
}

/// What a scan does with an entry.
#[derive(Debug, Clone, Copy, PartialEq, Eq, Structural)]
pub enum ScanStep {
    Skip,
    Descend,
    Store,
}

/// What a scan does with an entry: no links, no other volumes, nothing
/// excluded.
pub open spec fn entry_step(
    platform: Platform,
    path: Seq<char>,
    entry_type: Option<EntryType>,
    redirects: bool,
    other_device: bool,
    exclusions: Seq<Seq<char>>,
) -> ScanStep {
    if excluded(platform, path, exclusions) {
        ScanStep::Skip
    } else if entry_type == Some(EntryType::Directory) && !redirects && !skipped(platform, path)
        && !other_device {
        ScanStep::Descend
    } else if entry_type == Some(EntryType::File) {
        ScanStep::Store
    } else {
        ScanStep::Skip
    }
}

/// Whether a scan takes an entry up.
pub fn scan_entry(
    platform: Platform,
    path: &str,
    entry_type: Option<EntryType>,
    redirects: bool,
    other_device: bool,
    exclusions: &Vec<String>,
) -> (r: ScanStep)
    ensures
        r == entry_step(
            platform,
            path@,
            entry_type,
            redirects,
            other_device,
            text::texts(exclusions@),
        ),
{
    if is_excluded(platform, path, exclusions) {
        return ScanStep::Skip;
    }
    match entry_type {
        Some(EntryType::Directory) => {
            if redirects || is_platform_skipped_directory(platform, path) || other_device {
                ScanStep::Skip
            } else {
                ScanStep::Descend
            }
        },
        Some(EntryType::File) => ScanStep::Store,
        _ => ScanStep::Skip,
    }
}

/// Files in a directory are searched.
pub open spec fn searched(platform: Platform, path: Seq<char>, exclusions: Seq<Seq<char>>) -> bool {
    !(excluded(platform, path, exclusions) || skipped(platform, path))
}

/// Whether a directory that changed is read at all.
pub fn reads_directory(platform: Platform, path: &str, exclusions: &Vec<String>) -> (r: bool)
    ensures
        r == searched(platform, path@, text::texts(exclusions@)),
{
    !(is_excluded(platform, path, exclusions) || is_platform_skipped_directory(platform, path))
}

/// The components of paths as sorting keys.
pub open spec fn part_keys(v: Seq<paths::KnownModel>) -> Seq<Seq<Seq<u64>>> {
    v.map_values(|p: paths::KnownModel| p.parts.map_values(|s: Seq<char>| order::code_points(s)))
}

/// `v` with runs of equal paths shortened to their first.
pub open spec fn without_repeats(v: Seq<paths::KnownModel>) -> Seq<paths::KnownModel>
    decreases v.len(),
{
    if v.len() == 0 {
        Seq::empty()
    } else {
        let earlier = without_repeats(v.drop_last());
        if earlier.len() > 0 && earlier.last().parts == v.last().parts {
            earlier
        } else {
            earlier.push(v.last())
        }
    }
}

/// The paths of a batch of events, sorted and each once.
pub fn event_paths(all: &Vec<KnownPath>) -> (r: Vec<String>)
    ensures
        exists|sorted: Seq<paths::KnownModel>|
            #[trigger] order::is_stably_sorted(
                paths::known_models(all@),
                part_keys(paths::known_models(all@)),
                sorted,
            ) && text::texts(r@) == paths::path_texts(without_repeats(sorted)),
{
    let ghost models = paths::known_models(all@);
    let mut keys: Vec<Key> = Vec::new();
    for i in 0..all.len()
        invariant
            models == paths::known_models(all@),
            keys@.len() == i,
            forall|j: int| 0 <= j < i ==> (#[trigger] keys@[j]).deep_view() == part_keys(models)[j],
    {
        let ghost wanted = part_keys(models)[i as int];
        let mut key: Key = Vec::new();
        let count: usize = all[i].parts.len();
        for k in 0..count
            invariant
                i < all@.len(),
                count == all@[i as int].parts@.len(),
                wanted == all@[i as int]@.parts.map_values(|s: Seq<char>| order::code_points(s)),
                key.deep_view() =~= wanted.take(k as int),
        {
            let ghost before = key.deep_view();
            key.push(code_points_of(&chars_of(all[i].parts[k].as_str())));
            assert(key@.last().deep_view() =~= wanted[k as int]);
            assert(key.deep_view() =~= before.push(wanted[k as int]));
        }
        assert(wanted.take(wanted.len() as int) =~= wanted);
        keys.push(key);
    }
    assert(keys.deep_view() =~= part_keys(models));
    let order = stable_order(&keys);
    let ghost sorted = order::arranged(models, order@);
    let mut last: Option<usize> = None;
    let mut r: Vec<String> = Vec::new();
    assert(text::texts(r@) =~= paths::path_texts(without_repeats(sorted.take(0))));
    for i in 0..order.len()
        invariant
            models == paths::known_models(all@),
            order::is_stable_order(part_keys(models), order@),
            sorted == order::arranged(models, order@),
            text::texts(r@) == paths::path_texts(without_repeats(sorted.take(i as int))),
            match last {
                Some(k) => k < all@.len() && without_repeats(sorted.take(i as int)).len() > 0
                    && without_repeats(sorted.take(i as int)).last() == models[k as int],
                None => without_repeats(sorted.take(i as int)).len() == 0,
            },
    {
        let ghost before = r@;
        let place: usize = order[i];
        assert(place < models.len());
        assert(sorted.take(i + 1).drop_last() =~= sorted.take(i as int));
        assert(sorted.take(i + 1).last() == all@[place as int]@);
        let repeated: bool = match last {
            Some(k) => {
                assert(models[k as int] == all@[k as int]@);
                all[k].same_parts(&all[place])
            },
            None => false,
        };
        if !repeated {
            r.push(all[place].text.clone());
            last = Some(place);
            assert(text::texts(r@) =~= text::texts(before).push(all@[place as int].text@));
            assert(paths::path_texts(without_repeats(sorted.take(i + 1))) =~= paths::path_texts(
                without_repeats(sorted.take(i as int)),
            ).push(all@[place as int].text@));
        }
    }
    assert(sorted.take(order@.len() as int) =~= sorted);
    assert(order::is_stably_sorted(models, part_keys(models), sorted));
    r
}

/// A file that a search found.
#[derive(Debug, Clone, PartialEq, Eq)]
pub struct SearchResultItem {
    pub path: String,
    pub name: String,
    pub parent: String,
    pub kind: String,
    pub size: u64,
    pub modified_ms: Option<u64>,
    pub readable: bool,
    pub content_type: String,
    pub is_log: bool,
    pub is_archive: bool,
}

/// A part of what a search found.
#[derive(Debug, Clone)]
pub struct SearchPage {
    pub items: Vec<SearchResultItem>,
    pub total: u64,
    pub partial: bool,
    pub elapsed_ms: u64,
}

/// The kind of a file that a search found.
pub open spec fn kind_of(is_log: bool, is_archive: bool) -> Seq<char> {
    if is_archive {
        "archive"@
    } else if is_log {
        "log"@
    } else {
        "file"@
    }
}

pub fn result_kind(is_log: bool, is_archive: bool) -> (r: String)
    ensures
        r@ == kind_of(is_log, is_archive),
{
    if is_archive {
        "archive".to_owned()
    } else if is_log {
        "log".to_owned()
    } else {
        "file".to_owned()
    }
}

/// What a file holds, by the ending of its name.
pub open spec fn content_type(platform: Platform, name: Seq<char>) -> Seq<char> {
    let e = match paths::extension(platform, name) {
        Some(e) => text::ascii_lowercase(e),
        None => Seq::empty(),
    };
    if e == "zip"@ {
        "application/zip"@
    } else if e == "7z"@ {
        "application/x-7z-compressed"@
    } else if e == "rar"@ {
        "application/vnd.rar"@
    } else if e == "tar"@ {
        "application/x-tar"@
    } else if e == "gz"@ || e == "tgz"@ {
        "application/gzip"@
    } else if e == "bz2"@ || e == "tbz2"@ {
        "application/x-bzip2"@
    } else if e == "xz"@ || e == "txz"@ {
        "application/x-xz"@
    } else if e == "log"@ || e == "txt"@ || e == "out"@ || e == "err"@ || e == "trace"@ || e
        == "json"@ || e == "xml"@ || e == "yaml"@ || e == "yml"@ {
        "text/plain"@
    } else {
        "application/octet-stream"@
    }
}

pub fn content_type_for_name(platform: Platform, name: &str) -> (r: &'static str)
    ensures
        r@ == content_type(platform, name@),
{
    let lower: Vec<char> = match find_extension(platform, &chars_of(name)) {
        Some(e) => to_ascii_lowercase(&e),
        None => Vec::new(),
    };
    let ghost e = match paths::extension(platform, name@) {
        Some(e) => text::ascii_lowercase(e),
        None => Seq::empty(),
    };
    assert(lower@ =~= e);
    let extension = string_of(lower.as_slice());
    let e = extension.as_str();
    if same_text(e, "zip") {
        "application/zip"
    } else if same_text(e, "7z") {
        "application/x-7z-compressed"
    } else if same_text(e, "rar") {
        "application/vnd.rar"
    } else if same_text(e, "tar") {
        "application/x-tar"
    } else if same_text(e, "gz") || same_text(e, "tgz") {
        "application/gzip"
    } else if same_text(e, "bz2") || same_text(e, "tbz2") {
        "application/x-bzip2"
    } else if same_text(e, "xz") || same_text(e, "txz") {
        "application/x-xz"
    } else if same_text(e, "log") || same_text(e, "txt") || same_text(e, "out") || same_text(
        e,
        "err",
    ) || same_text(e, "trace") || same_text(e, "json") || same_text(e, "xml") || same_text(
        e,
        "yaml",
    ) || same_text(e, "yml") {
        "text/plain"
    } else {
        "application/octet-stream"
    }
}

/// A row of stored files that a search found.
#[derive(Debug)]
pub struct ResultRow {
    pub path: String,
    pub name: String,
    pub stored_parent: String,
    pub size: u64,
    pub modified_ms: Option<u64>,
    pub is_log: bool,
    pub is_archive: bool,
}

/// The item that is shown for a row; `parent` is the directory of the path.
pub fn result_item(platform: Platform, row: ResultRow, parent: Option<String>) -> (r:
    SearchResultItem)
    ensures
        r.path == row.path,
        r.name == row.name,
        r.parent@ == if row.stored_parent@.len() > 0 {
            row.stored_parent@
        } else {
            match parent {
                Some(p) => p@,
                None => Seq::empty(),
            }
        },
        r.kind@ == kind_of(row.is_log, row.is_archive),
        r.size == row.size,
        r.modified_ms == row.modified_ms,
        !r.readable,
        r.content_type@ == content_type(platform, row.name@),
        r.is_log == row.is_log,
        r.is_archive == row.is_archive,
{
    proof {
        reveal_strlit("");
    }
    let stored: bool = row.stored_parent.as_str().unicode_len() > 0;
    let parent: String = if stored {
        row.stored_parent
    } else {
        match parent {
            Some(p) => p,
            None => {
                let none = "".to_owned();
                assert(none@ =~= Seq::empty());
                none
            },
        }
    };
    SearchResultItem {
        content_type: content_type_for_name(platform, row.name.as_str()).to_owned(),
        kind: result_kind(row.is_log, row.is_archive),
        path: row.path,
        name: row.name,
        parent,
        size: row.size,
        modified_ms: row.modified_ms,
        readable: false,
        is_log: row.is_log,
        is_archive: row.is_archive,
    }
}

/// What the system told about a shown file, where it could.
#[derive(Debug, Clone, Copy)]
pub struct VisibleFacts {
    pub is_file: bool,
    pub size: u64,
    pub modified_ms: Option<u64>,
    pub readable: bool,
}

/// Completes a shown item with what the system tells about the file.
pub fn enrich(item: &mut SearchResultItem, facts: Option<VisibleFacts>)
    ensures
        match facts {
            Some(f) if f.is_file => *final(item) == (SearchResultItem {
                size: f.size,
                modified_ms: f.modified_ms,
                readable: f.readable,
                ..*old(item)
            }),
            _ => *final(item) == *old(item),
        },
{
    match facts {
        Some(f) => {
            if f.is_file {
                item.size = f.size;
                item.modified_ms = f.modified_ms;
                item.readable = f.readable;
            }
        },
        None => {},
    }
}

/// How many items each thread completes: all items are shared out evenly,
/// to no more threads than there may be.
pub fn metadata_chunk_size(items: usize) -> (r: usize)
    requires
        0 < items <= usize::MAX - METADATA_WORKERS_MAX,
    ensures
        ({
            let workers = if items < METADATA_WORKERS_MAX {
                items as int
            } else {
                METADATA_WORKERS_MAX as int
            };
            &&& r > 0
            &&& r == (items + workers - 1) / workers
            &&& r * workers >= items
        }),
{
    let workers: usize = if items < METADATA_WORKERS_MAX {
        items
    } else {
        METADATA_WORKERS_MAX
    };
    let r: usize = (items + workers - 1) / workers;
    proof {
        let w = workers as int;
        let n = items + w - 1;
        vstd::arithmetic::div_mod::lemma_fundamental_div_mod(n, w);
        vstd::arithmetic::div_mod::lemma_mod_bound(n, w);
        assert(r * w == w * (n / w)) by (nonlinear_arith)
            requires
                r == n / w,
        ;
        assert(r > 0) by (nonlinear_arith)
            requires
                r * w >= items,
                items > 0,
                w > 0,
                r >= 0,
        ;
    }
    r
}

/// A path is excluded exactly if it lies within one of the exclusions, and
/// one more exclusion takes away nothing else.
pub proof fn exclusion_is_by_directory(
    platform: Platform,
    path: Seq<char>,
    exclusions: Seq<Seq<char>>,
    more: Seq<char>,
)
    ensures
        !excluded(platform, path, Seq::empty()),
        excluded(platform, path, exclusions.push(more)) <==> excluded(platform, path, exclusions)
            || paths::within(platform, path, more),
{
    let all = exclusions.push(more);
    if excluded(platform, path, exclusions) {
        let i = choose|i: int|
            0 <= i < exclusions.len() && paths::within(platform, path, #[trigger] exclusions[i]);
        assert(paths::within(platform, path, all[i]));
    }
    if paths::within(platform, path, more) {
        assert(paths::within(platform, path, all[exclusions.len() as int]));
    }
    if excluded(platform, path, all) {
        let i = choose|i: int| 0 <= i < all.len() && paths::within(platform, path, #[trigger] all[i]);
        if i < exclusions.len() {
            assert(paths::within(platform, path, exclusions[i]));
        }
    }
}

/// The root that holds a path is one within which it lies, and none of those
/// is deeper; there is none only where the path lies within no root.
pub proof fn deepest_root_holds(platform: Platform, path: Seq<char>, roots: Seq<SearchRoot>)
    ensures
        holder(platform, path, roots) is None <==> forall|j: int|
            0 <= j < roots.len() ==> !paths::within(platform, path, (#[trigger] roots[j]).text@),
        holder(platform, path, roots) matches Some(i) ==> 0 <= i < roots.len() && paths::within(
            platform,
            path,
            roots[i].text@,
        ) && forall|j: int|
            0 <= j < roots.len() && paths::within(platform, path, (#[trigger] roots[j]).text@)
                ==> roots[j].depth < roots[i].depth || (roots[j].depth == roots[i].depth && j <= i),
    decreases roots.len(),
{
    if roots.len() > 0 {
        let earlier = roots.drop_last();
        deepest_root_holds(platform, path, earlier);
        assert forall|j: int| 0 <= j < earlier.len() implies #[trigger] earlier[j] == roots[j] by {}
        assert(roots[roots.len() - 1] == roots.last());
        if holder(platform, path, roots) is None {
            assert forall|j: int| 0 <= j < roots.len() implies !paths::within(
                platform,
                path,
                (#[trigger] roots[j]).text@,
            ) by {
                if j < earlier.len() {
                    assert(!paths::within(platform, path, earlier[j].text@));
                }
            }
        } else {
            let i = holder(platform, path, roots)->0;
            assert(holder(platform, path, earlier) matches Some(k) ==> paths::within(
                platform,
                path,
                roots[k].text@,
            ));
            assert forall|j: int|
                0 <= j < roots.len() && paths::within(
                    platform,
                    path,
                    (#[trigger] roots[j]).text@,
                ) implies roots[j].depth < roots[i].depth || (roots[j].depth == roots[i].depth && j
                <= i) by {
                if j < earlier.len() {
                    assert(paths::within(platform, path, earlier[j].text@));
                }
            }
        }
    }
}

/// The search is concerned with a path exactly if a root holds it and no
/// exclusion does; on macOS other volumes and networks are left out too.
pub proof fn search_is_concerned(
    platform: Platform,
    path: Seq<char>,
    roots: Seq<SearchRoot>,
    exclusions: Seq<Seq<char>>,
)
    ensures
        concerns(platform, path, roots, exclusions) <==> {
            &&& exists|j: int|
                0 <= j < roots.len() && paths::within(platform, path, (#[trigger] roots[j]).text@)
            &&& forall|i: int|
                0 <= i < exclusions.len() ==> !paths::within(
                    platform,
                    path,
                    #[trigger] exclusions[i],
                )
            &&& platform == Platform::MacOs ==> !paths::within(platform, path, "/Volumes"@)
                && !paths::within(platform, path, "/System/Volumes"@) && !paths::within(
                platform,
                path,
                "/Network"@,
            ) && !paths::within(platform, path, "/dev"@) && !paths::within(platform, path, "/net"@)
                && !paths::within(platform, path, "/home"@)
        },
{
    deepest_root_holds(platform, path, roots);
    let list = skipped_directories();
    assert(list[0] == "/Volumes"@ && list[1] == "/System/Volumes"@ && list[2] == "/Network"@
        && list[3] == "/dev"@ && list[4] == "/net"@ && list[5] == "/home"@);
}

/// A scan stores every file that is not excluded, goes down into every
/// directory that is neither excluded, nor left out on this system, nor a link
/// or a redirection, nor on another device, and does nothing else.
pub proof fn scan_takes_up_files(
    platform: Platform,
    path: Seq<char>,
    entry_type: Option<EntryType>,
    redirects: bool,
    other_device: bool,
    exclusions: Seq<Seq<char>>,
)
    ensures
        ({
            let step = entry_step(
                platform,
                path,
                entry_type,
                redirects,
                other_device,
                exclusions,
            );
            let out = exists|i: int|
                0 <= i < exclusions.len() && paths::within(platform, path, #[trigger] exclusions[i]);
            &&& step == ScanStep::Store <==> entry_type == Some(EntryType::File) && !out
            &&& step == ScanStep::Descend <==> entry_type == Some(EntryType::Directory) && !out
                && !redirects && !other_device && !skipped(platform, path)
        }),
{
}

/// What is stored of a file is what the system told about it: its path, name,
/// size and time, below the root it was found in. Every file with a name is
/// stored, and nothing but files.
pub proof fn stored_file_is_as_told(platform: Platform, stat: FileStat, root: Seq<char>)
    ensures
        stored_file(platform, stat, root) is Some <==> stat.is_file && stat.name is Some,
        stored_file(platform, stat, root) matches Some(f) ==> {
            &&& f.path == stat.path@
            &&& f.name == stat.name->0@
            &&& f.root == root
            &&& f.size == stat.size
            &&& f.modified_ms == stat.modified_ms
            &&& f.is_log == archive::log_name(platform, f.name)
            &&& f.is_archive == archive::archive_name(f.name)
        },
{
}

/// Of the paths of a batch of events each is handled, and none twice.
pub proof fn every_event_path_is_handled_once(
    all: Seq<paths::KnownModel>,
    sorted: Seq<paths::KnownModel>,
    i: int,
)
    requires
        order::is_stably_sorted(all, part_keys(all), sorted),
        all.len() <= usize::MAX,
        0 <= i < all.len(),
    ensures
        exists|j: int|
            0 <= j < without_repeats(sorted).len() && (#[trigger] without_repeats(sorted)[j]).parts
                == all[i].parts,
        forall|j: int, k: int|
            0 <= j < k < without_repeats(sorted).len() ==> (#[trigger] without_repeats(
                sorted,
            )[j]).parts != (#[trigger] without_repeats(sorted)[k]).parts,
{
    let keys = part_keys(all);
    let order = order::sorting_rearranges(all, keys, sorted);
    assert(order.contains(i as usize));
    let n = choose|n: int| 0 <= n < order.len() && order[n] == i as usize;
    assert(sorted[n] == all[i]);
    repeats_are_dropped(sorted, n);
    let out = without_repeats(sorted);
    assert forall|a: int, b: int| 0 <= a < b < sorted.len() implies !order::key_less(
        part_key(#[trigger] sorted[b]),
        part_key(#[trigger] sorted[a]),
    ) by {
        assert(keys[order[a] as int] == part_key(sorted[a]));
        assert(keys[order[b] as int] == part_key(sorted[b]));
    }
    equal_paths_stand_together(sorted);
}

/// The components of a path as a sorting key.
spec fn part_key(p: paths::KnownModel) -> Seq<Seq<u64>> {
    p.parts.map_values(|s: Seq<char>| order::code_points(s))
}

proof fn repeats_are_dropped(v: Seq<paths::KnownModel>, n: int)
    requires
        0 <= n < v.len(),
    ensures
        without_repeats(v).len() > 0,
        without_repeats(v).last().parts == v.last().parts,
        exists|j: int|
            0 <= j < without_repeats(v).len() && (#[trigger] without_repeats(v)[j]).parts
                == v[n].parts,
    decreases v.len(),
{
    let out = without_repeats(v);
    let earlier = without_repeats(v.drop_last());
    if v.len() > 1 {
        let m = if n < v.len() - 1 {
            n
        } else {
            0
        };
        repeats_are_dropped(v.drop_last(), m);
        if n < v.len() - 1 {
            let j = choose|j: int|
                0 <= j < earlier.len() && (#[trigger] earlier[j]).parts == v.drop_last()[n].parts;
            assert(out[j] == earlier[j]);
        } else {
            assert(out[out.len() - 1].parts == v[n].parts);
        }
    } else {
        assert(out[0].parts == v[n].parts);
    }
}

/// In a sorted list what was passed does not come again.
proof fn equal_paths_stand_together(v: Seq<paths::KnownModel>)
    requires
        forall|a: int, b: int|
            0 <= a < b < v.len() ==> !order::key_less(
                part_key(#[trigger] v[b]),
                part_key(#[trigger] v[a]),
            ),
    ensures
        forall|j: int, k: int|
            0 <= j < k < without_repeats(v).len() ==> (#[trigger] without_repeats(v)[j]).parts
                != (#[trigger] without_repeats(v)[k]).parts,
        forall|j: int|
            0 <= j < without_repeats(v).len() ==> exists|n: int|
                0 <= n < v.len() && #[trigger] v[n] == #[trigger] without_repeats(v)[j],
        forall|j: int|
            0 <= j < without_repeats(v).len() - 1 ==> order::key_less(
                part_key(#[trigger] without_repeats(v)[j]),
                part_key(without_repeats(v).last()),
            ),
    decreases v.len(),
{
    let out = without_repeats(v);
    if v.len() > 0 {
        let earlier = v.drop_last();
        let before = without_repeats(earlier);
        let last = v.last();
        assert forall|a: int, b: int| 0 <= a < b < earlier.len() implies !order::key_less(
            part_key(#[trigger] earlier[b]),
            part_key(#[trigger] earlier[a]),
        ) by {
            assert(earlier[a] == v[a] && earlier[b] == v[b]);
        }
        equal_paths_stand_together(earlier);
        assert forall|j: int| 0 <= j < out.len() implies exists|n: int|
            0 <= n < v.len() && #[trigger] v[n] == #[trigger] out[j] by {
            if j < before.len() {
                assert(out[j] == before[j]);
                let n = choose|n: int|
                    0 <= n < earlier.len() && #[trigger] earlier[n] == before[j];
                assert(v[n] == out[j]);
            } else {
                assert(v[v.len() - 1] == out[j]);
            }
        }
        if out.len() > before.len() {
            assert forall|j: int| 0 <= j < out.len() - 1 implies order::key_less(
                part_key(#[trigger] out[j]),
                part_key(out.last()),
            ) by {
                let x = part_key(before.last());
                let y = part_key(last);
                let n = choose|n: int|
                    0 <= n < earlier.len() && #[trigger] earlier[n] == before[before.len() - 1];
                assert(v[n] == before.last());
                assert(!order::key_less(part_key(v[v.len() - 1]), part_key(v[n])));
                different_keys_are_ordered(before.last(), last);
                assert(order::key_less(x, y));
                if j < before.len() - 1 {
                    let z = part_key(before[j]);
                    assert(order::key_less(z, x));
                    order::key_less_is_strict(z, x, y);
                }
            }
            assert forall|j: int, k: int| 0 <= j < k < out.len() implies (#[trigger] out[j]).parts
                != (#[trigger] out[k]).parts by {
                if k == out.len() - 1 {
                    let z = part_key(out[j]);
                    order::key_less_is_strict(z, z, z);
                }
            }
        }
    }
}

proof fn different_keys_are_ordered(a: paths::KnownModel, b: paths::KnownModel)
    requires
        a.parts != b.parts,
    ensures
        order::key_less(part_key(a), part_key(b)) || order::key_less(part_key(b), part_key(a)),
{
    if !order::key_less(part_key(a), part_key(b)) && !order::key_less(part_key(b), part_key(a)) {
        order::unordered_keys_are_equal(part_key(a), part_key(b));
        assert forall|i: int| 0 <= i < a.parts.len() implies a.parts[i] == b.parts[i] by {
            assert(part_key(a)[i] == part_key(b)[i]);
            order::code_points_are_unique(a.parts[i], b.parts[i]);
        }
        assert(a.parts =~= b.parts);
    }
}

/// What a file holds is told by its extension, in capitals or small letters.
pub proof fn content_is_told_by_extension(
    platform: Platform,
    stem: Seq<char>,
    e: Seq<char>,
)
    requires
        paths::file_name(platform, stem + seq!['.'] + e) == Some(stem + seq!['.'] + e),
        stem.len() > 0,
        !e.contains('.'),
    ensures
        ({
            let small = text::ascii_lowercase(e);
            let found = content_type(platform, stem + seq!['.'] + e);
            &&& small == "zip"@ ==> found == "application/zip"@
            &&& small == "7z"@ ==> found == "application/x-7z-compressed"@
            &&& small == "rar"@ ==> found == "application/vnd.rar"@
            &&& small == "tar"@ ==> found == "application/x-tar"@
            &&& small == "gz"@ || small == "tgz"@ ==> found == "application/gzip"@
            &&& small == "bz2"@ || small == "tbz2"@ ==> found == "application/x-bzip2"@
            &&& small == "xz"@ || small == "txz"@ ==> found == "application/x-xz"@
            &&& small == "log"@ || small == "txt"@ || small == "out"@ || small == "err"@ || small
                == "trace"@ || small == "json"@ || small == "xml"@ || small == "yaml"@ || small
                == "yml"@ ==> found == "text/plain"@
        }),
{
    let name = stem + seq!['.'] + e;
    assert(Seq::<char>::empty() + name =~= name);
    paths::extension_is_behind_the_last_dot(platform, Seq::empty(), stem, e);
    let small = text::ascii_lowercase(e);
    reveal_strlit("zip");
    reveal_strlit("7z");
    reveal_strlit("rar");
    reveal_strlit("tar");
    reveal_strlit("gz");
    reveal_strlit("tgz");
    reveal_strlit("bz2");
    reveal_strlit("tbz2");
    reveal_strlit("xz");
    reveal_strlit("txz");
    reveal_strlit("log");
    reveal_strlit("txt");
    reveal_strlit("out");
    reveal_strlit("err");
    reveal_strlit("trace");
    reveal_strlit("json");
    reveal_strlit("xml");
    reveal_strlit("yaml");
    reveal_strlit("yml");
    assert(small == "7z"@ ==> small[0] == '7');
    assert(small == "gz"@ ==> small[0] == 'g');
    assert(small == "xz"@ ==> small[0] == 'x' && small.len() == 2);
    assert(small == "zip"@ ==> small[0] == 'z');
    assert(small == "rar"@ ==> small[0] == 'r');
    assert(small == "tar"@ ==> small[0] == 't' && small[1] == 'a');
    assert(small == "tgz"@ ==> small[0] == 't' && small[1] == 'g');
    assert(small == "txz"@ ==> small[0] == 't' && small[1] == 'x' && small[2] == 'z');
    assert(small == "bz2"@ ==> small[0] == 'b');
    assert(small == "tbz2"@ ==> small[0] == 't' && small[1] == 'b');
    assert(small == "log"@ ==> small[0] == 'l');
    assert(small == "txt"@ ==> small[0] == 't' && small[1] == 'x' && small[2] == 't');
    assert(small == "out"@ ==> small[0] == 'o');
    assert(small == "err"@ ==> small[0] == 'e');
    assert(small == "trace"@ ==> small.len() == 5);
    assert(small == "json"@ ==> small[0] == 'j');
    assert(small == "xml"@ ==> small[0] == 'x' && small.len() == 3);
    assert(small == "yaml"@ ==> small[0] == 'y' && small.len() == 4);
    assert(small == "yml"@ ==> small[0] == 'y');
}

/// An archive is shown as one also where it is a log; a file that is neither
/// is shown as a file.
pub proof fn archive_is_shown_before_log(is_log: bool)
    ensures
        kind_of(is_log, true) == "archive"@,
        kind_of(true, false) == "log"@,
        kind_of(false, false) == "file"@,
{
}

/// A directory that changed is read unless it is excluded or left out on this
/// system.
pub proof fn changed_directory_is_read(
    platform: Platform,
    path: Seq<char>,
    exclusions: Seq<Seq<char>>,
)
    ensures
        searched(platform, path, exclusions) <==> !skipped(platform, path) && forall|i: int|
            0 <= i < exclusions.len() ==> !paths::within(platform, path, #[trigger] exclusions[i]),
        platform != Platform::MacOs ==> !skipped(platform, path),
{
}

/// On Windows the names of paths are parted by backslashes, elsewhere by
/// slashes.
pub proof fn separator_of_the_platform(platform: Platform)
    ensures
        platform == Platform::Windows ==> separator(platform) == '\\',
        platform != Platform::Windows ==> separator(platform) == '/',
{
}

} // verus!
