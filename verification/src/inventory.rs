//! Files and directories as they are shown and reported.

use crate::archive;
use crate::archive::{is_archive, is_log_name, is_text_sample};
use crate::order;
use crate::order::{code_points_of, stable_order, Key};
use crate::paths::Platform;
use crate::text;
use crate::text::{chars_of, same_text, to_lowercase};
use vstd::prelude::*;

verus! {

/// A file or directory below a watched directory.
#[derive(Debug, PartialEq, Eq)]
pub struct DetectedItem {
    pub path: String,
    pub name: String,
    /// `dir`, `archive` or `file`.
    pub kind: String,
    pub size: u64,
    pub source: String,
    pub is_log: bool,
}

impl Clone for DetectedItem {
    fn clone(&self) -> (r: Self)
        ensures
            r == *self,
    {
        DetectedItem {
            path: self.path.clone(),
            name: self.name.clone(),
            kind: self.kind.clone(),
            size: self.size,
            source: self.source.clone(),
            is_log: self.is_log,
        }
    }
}

/// What an item says.
#[verifier::ext_equal]
pub struct ItemModel {
    pub path: Seq<char>,
    pub name: Seq<char>,
    pub kind: Seq<char>,
    pub size: u64,
    pub source: Seq<char>,
    pub is_log: bool,
}

impl View for DetectedItem {
    type V = ItemModel;

    open spec fn view(&self) -> ItemModel {
        ItemModel {
            path: self.path@,
            name: self.name@,
            kind: self.kind@,
            size: self.size,
            source: self.source@,
            is_log: self.is_log,
        }
    }
}

pub open spec fn item_models(v: Seq<DetectedItem>) -> Seq<ItemModel> {
    v.map_values(|i: DetectedItem| i@)
}

/// What the system told about a path.
#[derive(Debug)]
pub struct FileFacts {
    pub platform: Platform,
    pub path: String,
    pub name: String,
    pub directory: bool,
    pub file: bool,
    /// The length of a file, if it could be read.
    pub size: Option<u64>,
    /// The first bytes of a file, as far as they could be read.
    pub head: Option<Vec<u8>>,
}

impl FileFacts {
    /// An archive by its name or first bytes; a file that cannot be opened
    /// is none.
    pub open spec fn archive(self) -> bool {
        match self.head {
            Some(h) => archive::archive_name(self.name@) || archive::zip_file(self.platform, self.name@, h@),
            None => false,
        }
    }

    /// The first bytes could be read and look like text.
    pub open spec fn sampled_text(self) -> bool {
        match self.head {
            Some(h) => archive::looks_like_text(h@),
            None => false,
        }
    }

    fn found_archive(&self) -> (r: bool)
        ensures
            r == self.archive(),
    {
        match &self.head {
            Some(h) => is_archive(self.platform, self.name.as_str(), h),
            None => false,
        }
    }

    fn found_text(&self) -> (r: bool)
        ensures
            r == self.sampled_text(),
    {
        match &self.head {
            Some(h) => is_text_sample(h),
            None => false,
        }
    }

    /// The item that a directory listing shows. Every file is listed, also
    /// one that is no log; unknown files are not sampled.
    pub open spec fn listed(self, source: Seq<char>) -> Option<ItemModel> {
        if self.directory {
            Some(
                ItemModel {
                    path: self.path@,
                    name: self.name@,
                    kind: "dir"@,
                    size: 0,
                    source,
                    is_log: false,
                },
            )
        } else if !self.file || self.size is None {
            None
        } else {
            Some(
                ItemModel {
                    path: self.path@,
                    name: self.name@,
                    kind: if self.archive() {
                        "archive"@
                    } else {
                        "file"@
                    },
                    size: self.size->0,
                    source,
                    is_log: self.archive() || archive::log_name(self.platform, self.name@),
                },
            )
        }
    }

    /// The log or archive that the file is, if it is one.
    pub open spec fn classified(self, source: Seq<char>) -> Option<ItemModel> {
        if self.size is None {
            None
        } else if self.archive() || archive::log_name(self.platform, self.name@) || self.sampled_text() {
            Some(
                ItemModel {
                    path: self.path@,
                    name: self.name@,
                    kind: if self.archive() {
                        "archive"@
                    } else {
                        "file"@
                    },
                    size: self.size->0,
                    source,
                    is_log: true,
                },
            )
        } else {
            None
        }
    }

    /// The item that a directory listing shows.
    pub fn inventory_item(&self, source: &str) -> (r: Option<DetectedItem>)
        ensures
            match self.listed(source@) {
                Some(m) => r is Some && r->0@ == m,
                None => r is None,
            },
    {
        if self.directory {
            return Some(
                DetectedItem {
                    path: self.path.clone(),
                    name: self.name.clone(),
                    kind: "dir".to_owned(),
                    size: 0,
                    source: source.to_owned(),
                    is_log: false,
                },
            );
        }
        if !self.file {
            return None;
        }
        match self.size {
            None => None,
            Some(size) => {
                let archive: bool = self.found_archive();
                let is_log: bool = archive || is_log_name(self.platform, self.name.as_str());
                let kind: &str = if archive {
                    "archive"
                } else {
                    "file"
                };
                Some(
                    DetectedItem {
                        path: self.path.clone(),
                        name: self.name.clone(),
                        kind: kind.to_owned(),
                        size,
                        source: source.to_owned(),
                        is_log,
                    },
                )
            },
        }
    }

    /// The log or archive that the file is, if it is one.
    pub fn classify(&self, source: &str) -> (r: Option<DetectedItem>)
        ensures
            match self.classified(source@) {
                Some(m) => r is Some && r->0@ == m,
                None => r is None,
            },
    {
        match self.size {
            None => None,
            Some(size) => {
                let archive: bool = self.found_archive();
                if !archive && !is_log_name(self.platform, self.name.as_str()) && !self.found_text() {
                    return None;
                }
                let kind: &str = if archive {
                    "archive"
                } else {
                    "file"
                };
                Some(
                    DetectedItem {
                        path: self.path.clone(),
                        name: self.name.clone(),
                        kind: kind.to_owned(),
                        size,
                        source: source.to_owned(),
                        is_log: true,
                    },
                )
            },
        }
    }
}

/// The key that sorts a listing: directories first, then by name.
pub open spec fn listing_keys(items: Seq<ItemModel>) -> Seq<Seq<Seq<u64>>> {
    items.map_values(
        |i: ItemModel|
            seq![
                seq![if i.kind == "dir"@ { 0u64 } else { 1u64 }],
                order::code_points(text::lowercase(i.name)),
            ],
    )
}

/// Sorts a listing: directories first, then by name without regard to case.
pub fn sort_inventory(items: &Vec<DetectedItem>) -> (r: Vec<DetectedItem>)
    ensures
        order::is_stably_sorted(
            item_models(items@),
            listing_keys(item_models(items@)),
            item_models(r@),
        ),
{
    let ghost models = item_models(items@);
    let mut keys: Vec<Key> = Vec::new();
    for i in 0..items.len()
        invariant
            models == item_models(items@),
            keys@.len() == i,
            forall|j: int|
                0 <= j < i ==> (#[trigger] keys@[j]).deep_view() == listing_keys(models)[j],
    {
        let rank: u64 = if same_text(items[i].kind.as_str(), "dir") {
            0
        } else {
            1
        };
        let mut word: Vec<u64> = Vec::new();
        word.push(rank);
        let mut key: Key = Vec::new();
        key.push(word);
        key.push(code_points_of(&chars_of(to_lowercase(items[i].name.as_str()).as_str())));
        assert(key.deep_view() =~~= listing_keys(models)[i as int]);
        keys.push(key);
    }
    assert(keys.deep_view() =~= listing_keys(models));
    let places = stable_order(&keys);
    let mut out: Vec<DetectedItem> = Vec::new();
    assert(item_models(out@) =~= order::arranged(models, places@.take(0)));
    for i in 0..places.len()
        invariant
            models == item_models(items@),
            order::is_stable_order(listing_keys(models), places@),
            item_models(out@) == order::arranged(models, places@.take(i as int)),
    {
        let ghost before = out@;
        assert(places@[i as int] < models.len());
        out.push(items[places[i]].clone());
        assert(item_models(out@) =~= item_models(before).push(out@.last()@));
        assert(order::arranged(models, places@.take(i + 1)) =~= order::arranged(
            models,
            places@.take(i as int),
        ).push(models[places@[i as int] as int]));
    }
    assert(places@.take(places@.len() as int) =~= places@);
    out
}

/// The items that a directory listing shows, in the order of `facts`.
pub open spec fn listed_items(facts: Seq<FileFacts>, source: Seq<char>) -> Seq<ItemModel>
    decreases facts.len(),
{
    if facts.len() == 0 {
        Seq::empty()
    } else {
        let earlier = listed_items(facts.drop_last(), source);
        match facts.last().listed(source) {
            Some(m) => earlier.push(m),
            None => earlier,
        }
    }
}

/// Lists a directory.
pub fn scan_dir(facts: &Vec<FileFacts>, source: &str) -> (r: Vec<DetectedItem>)
    ensures
        order::is_stably_sorted(
            listed_items(facts@, source@),
            listing_keys(listed_items(facts@, source@)),
            item_models(r@),
        ),
{
    let mut out: Vec<DetectedItem> = Vec::new();
    assert(facts@.take(0) =~= Seq::empty());
    assert(item_models(out@) =~= Seq::empty());
    for i in 0..facts.len()
        invariant
            item_models(out@) == listed_items(facts@.take(i as int), source@),
    {
        let ghost before = out@;
        assert(facts@.take(i + 1).drop_last() =~= facts@.take(i as int));
        match facts[i].inventory_item(source) {
            Some(item) => {
                out.push(item);
                assert(item_models(out@) =~= item_models(before).push(item@));
            },
            None => {},
        }
    }
    assert(facts@.take(facts@.len() as int) =~= facts@);
    sort_inventory(&out)
}

/// What is known of something dropped onto the window.
#[derive(Debug, Clone, PartialEq, Eq)]
pub struct DroppedFileInfo {
    pub path: String,
    pub name: String,
    pub kind: String,
    pub watch_path: String,
    pub is_log: bool,
    pub already_monitored: bool,
}

/// Why something dropped is not taken.
#[derive(Debug, Clone, Copy, PartialEq, Eq, Structural)]
pub enum DropError {
    /// Neither a file nor a directory.
    NotAFile,
    /// The directory of the file is unknown.
    NoParent,
}

/// What to do with something dropped: a directory is watched itself, a file
/// by its directory.
pub fn inspect_dropped_file(
    facts: &FileFacts,
    parent: Option<String>,
    already_monitored: bool,
) -> (r: Result<DroppedFileInfo, DropError>)
    ensures
        facts.directory ==> r is Ok && r->Ok_0.path@ == facts.path@ && r->Ok_0.name@
            == facts.name@ && r->Ok_0.kind@ == "directory"@ && r->Ok_0.watch_path@ == facts.path@
            && !r->Ok_0.is_log && r->Ok_0.already_monitored == already_monitored,
        !facts.directory && !facts.file ==> r == Err::<DroppedFileInfo, DropError>(
            DropError::NotAFile,
        ),
        !facts.directory && facts.file && parent is None ==> r == Err::<
            DroppedFileInfo,
            DropError,
        >(DropError::NoParent),
        !facts.directory && facts.file && parent is Some ==> {
            let item = facts.classified("drop"@);
            &&& r is Ok
            &&& r->Ok_0.path@ == facts.path@
            &&& r->Ok_0.name@ == facts.name@
            &&& r->Ok_0.kind@ == match item {
                Some(m) => m.kind,
                None => "file"@,
            }
            &&& r->Ok_0.watch_path@ == parent->0@
            &&& r->Ok_0.is_log == match item {
                Some(m) => m.kind == "file"@ && m.is_log,
                None => false,
            }
            &&& r->Ok_0.already_monitored == already_monitored
        },
{
    if facts.directory {
        return Ok(
            DroppedFileInfo {
                path: facts.path.clone(),
                name: facts.name.clone(),
                kind: "directory".to_owned(),
                watch_path: facts.path.clone(),
                is_log: false,
                already_monitored,
            },
        );
    }
    if !facts.file {
        return Err(DropError::NotAFile);
    }
    let (kind, is_log): (String, bool) = match facts.classify("drop") {
        Some(item) => {
            let is_log: bool = same_text(item.kind.as_str(), "file") && item.is_log;
            (item.kind, is_log)
        },
        None => ("file".to_owned(), false),
    };
    match parent {
        Some(watch_path) => Ok(
            DroppedFileInfo {
                path: facts.path.clone(),
                name: facts.name.clone(),
                kind,
                watch_path,
                is_log,
                already_monitored,
            },
        ),
        None => Err(DropError::NoParent),
    }
}

/// Every directory is listed, and every file whose size is known, whether it
/// is a log or not, by its path and name and with its size.
pub proof fn files_and_directories_are_listed(facts: FileFacts, source: Seq<char>)
    ensures
        facts.listed(source) is Some <==> facts.directory || (facts.file && facts.size is Some),
        facts.listed(source) matches Some(item) ==> {
            &&& item.path == facts.path@
            &&& item.name == facts.name@
            &&& item.source == source
            &&& facts.directory ==> item.kind == "dir"@ && item.size == 0 && !item.is_log
            &&& !facts.directory ==> {
                &&& Some(item.size) == facts.size
                &&& item.kind == if facts.archive() {
                    "archive"@
                } else {
                    "file"@
                }
                &&& item.is_log == (facts.archive() || archive::log_name(
                    facts.platform,
                    facts.name@,
                ))
            }
        },
{
}

/// A file is an archive only where it could be opened: by the ending of its
/// name, or as a ZIP archive.
pub proof fn archive_can_be_opened(facts: FileFacts)
    ensures
        facts.head is None ==> !facts.archive() && !facts.sampled_text(),
        facts.head matches Some(h) ==> facts.archive() == (archive::archive_name(facts.name@)
            || archive::zip_file(facts.platform, facts.name@, h@)) && facts.sampled_text()
            == archive::looks_like_text(h@),
{
}

/// A file that arrives is taken up exactly if it is an archive, a log by its
/// name or text by its first bytes; all of these count as logs.
pub proof fn logs_and_archives_are_taken_up(facts: FileFacts, source: Seq<char>)
    ensures
        facts.classified(source) is Some <==> facts.size is Some && (facts.archive()
            || archive::log_name(facts.platform, facts.name@) || facts.sampled_text()),
        facts.classified(source) matches Some(item) ==> item.path == facts.path@ && item.name
            == facts.name@ && item.source == source && Some(item.size) == facts.size && item.is_log
            && item.kind == if facts.archive() {
            "archive"@
        } else {
            "file"@
        },
{
}

/// A listing holds everything that can be listed, once: directories before
/// files, each by their names in small letters.
pub proof fn listing_is_complete_and_sorted(
    facts: Seq<FileFacts>,
    source: Seq<char>,
    listing: Seq<ItemModel>,
    k: int,
)
    requires
        facts.len() <= usize::MAX,
        order::is_stably_sorted(
            listed_items(facts, source),
            listing_keys(listed_items(facts, source)),
            listing,
        ),
    ensures
        listing.len() == facts.filter(
            |f: FileFacts| f.directory || (f.file && f.size is Some),
        ).len(),
        0 <= k < facts.len() && (facts[k].directory || (facts[k].file && facts[k].size is Some))
            ==> listing.contains(facts[k].listed(source)->0),
        forall|i: int, j: int|
            0 <= i < j < listing.len() ==> {
                let a = #[trigger] listing[i];
                let b = #[trigger] listing[j];
                &&& b.kind == "dir"@ ==> a.kind == "dir"@
                &&& (a.kind == "dir"@) == (b.kind == "dir"@) ==> !order::word_less(
                    order::code_points(text::lowercase(b.name)),
                    order::code_points(text::lowercase(a.name)),
                )
            },
{
    let items = listed_items(facts, source);
    let keys = listing_keys(items);
    let order = order::sorting_rearranges(items, keys, listing);
    listed_items_are_all(facts, source, k);
    if 0 <= k < facts.len() && facts[k].listed(source) is Some {
        let item = facts[k].listed(source)->0;
        let n = choose|n: int| 0 <= n < items.len() && items[n] == item;
        assert(order.contains(n as usize));
        let p = choose|p: int| 0 <= p < order.len() && order[p] == n as usize;
        assert(listing[p] == item);
    }
    assert forall|i: int, j: int| 0 <= i < j < listing.len() implies {
        let a = #[trigger] listing[i];
        let b = #[trigger] listing[j];
        &&& b.kind == "dir"@ ==> a.kind == "dir"@
        &&& (a.kind == "dir"@) == (b.kind == "dir"@) ==> !order::word_less(
            order::code_points(text::lowercase(b.name)),
            order::code_points(text::lowercase(a.name)),
        )
    } by {
        let ka = keys[order[i] as int];
        let kb = keys[order[j] as int];
        assert(!order::key_less(kb, ka));
        if kb[0][0] < ka[0][0] {
            assert(kb[0].take(0) =~= ka[0].take(0));
            order::first_difference_decides(kb[0], ka[0], 0);
            assert(kb.take(0) =~= ka.take(0));
            order::first_differing_word_decides(kb, ka, 0);
        }
        if kb[0][0] == ka[0][0] && order::word_less(kb[1], ka[1]) {
            assert(kb[0] =~= ka[0]);
            assert(kb.take(1) =~= ka.take(1));
            order::first_differing_word_decides(kb, ka, 1);
        }
    }
}

proof fn listed_items_are_all(facts: Seq<FileFacts>, source: Seq<char>, k: int)
    ensures
        listed_items(facts, source).len() == facts.filter(
            |f: FileFacts| f.directory || (f.file && f.size is Some),
        ).len(),
        listed_items(facts, source).len() <= facts.len(),
        0 <= k < facts.len() && facts[k].listed(source) is Some ==> listed_items(
            facts,
            source,
        ).contains(facts[k].listed(source)->0),
    decreases facts.len(),
{
    reveal(Seq::filter);
    if facts.len() > 0 {
        let earlier = listed_items(facts.drop_last(), source);
        let all = listed_items(facts, source);
        listed_items_are_all(facts.drop_last(), source, k);
        if 0 <= k < facts.len() && facts[k].listed(source) is Some {
            let item = facts[k].listed(source)->0;
            if k < facts.len() - 1 {
                let n = choose|n: int| 0 <= n < earlier.len() && earlier[n] == item;
                assert(all[n] == item);
            } else {
                assert(all.last() == item);
            }
        }
    }
}

} // verus!
