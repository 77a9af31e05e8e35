//! The query index: what it holds of each file, and the order of its answers.

use crate::order;
use crate::order::{code_points_of, stable_order, Key};
use crate::paths;
use crate::paths::{find_extension, path_key, Platform};
use crate::search_files;
use crate::search_files::{content_type_for_name, result_kind, IndexedFile, SearchResultItem};
use crate::text;
use crate::text::{
    chars_of, contains_part, join_texts, same_text, starts_with, string_of, to_lowercase, utf8_text,
};
use crate::tokens;
use crate::tokens::Tokenizer;
use vstd::prelude::*;

verus! {

/// How many documents are written before they are made durable.
pub const COMMIT_DOCUMENTS: usize = 100_000;

/// How long documents wait to be made durable while the index is built, in
/// milliseconds.
pub const BULK_COMMIT_MS: u64 = 5_000;

/// How long documents wait to be made durable otherwise, in milliseconds.
pub const INCREMENTAL_COMMIT_MS: u64 = 2_000;

/// How many answers are looked at.
pub const MAX_QUERY_CANDIDATES: usize = 10_000;

/// A file in the query index.
#[derive(Debug, PartialEq, Eq)]
pub struct SearchIndexEntry {
    pub path: String,
    pub name: String,
    pub is_log: bool,
    pub is_archive: bool,
}

impl Clone for SearchIndexEntry {
    fn clone(&self) -> (r: Self)
        ensures
            r == *self,
    {
        SearchIndexEntry {
            path: self.path.clone(),
            name: self.name.clone(),
            is_log: self.is_log,
            is_archive: self.is_archive,
        }
    }
}

/// What the query index keeps of a stored file.
pub fn search_index_entry(file: &IndexedFile) -> (r: SearchIndexEntry)
    ensures
        r.path@ == file.path@,
        r.name@ == file.name@,
        r.is_log == file.is_log,
        r.is_archive == file.is_archive,
{
    SearchIndexEntry {
        path: file.path.clone(),
        name: file.name.clone(),
        is_log: file.is_log,
        is_archive: file.is_archive,
    }
}

/// The bytes that stand for yes and no.
pub open spec fn flag_bytes(value: bool) -> Seq<u8> {
    if value {
        seq![49u8]
    } else {
        seq![48u8]
    }
}

pub fn bool_bytes(value: bool) -> (r: Vec<u8>)
    ensures
        r@ == flag_bytes(value),
{
    let mut r: Vec<u8> = Vec::new();
    if value {
        r.push(49);
    } else {
        r.push(48);
    }
    assert(r@ =~= flag_bytes(value));
    r
}

/// The fields of a document of the query index.
#[derive(Debug, PartialEq, Eq)]
pub struct IndexDocument {
    /// The words by which the file is found.
    pub name: String,
    pub original_name: String,
    /// What tells the path apart from others.
    pub path_key: String,
    pub path: String,
    pub is_log: Vec<u8>,
    pub is_archive: Vec<u8>,
    pub ext: String,
}

/// The small letters of the ending of a name.
pub open spec fn ending(platform: Platform, name: Seq<char>) -> Seq<char> {
    match paths::extension(platform, name) {
        Some(e) => text::lowercase(e),
        None => text::lowercase(Seq::empty()),
    }
}

/// The document of a file that is found by the words `words`.
pub fn document_with(entry: &SearchIndexEntry, words: String, platform: Platform) -> (r: IndexDocument)
    ensures
        r.name == words,
        r.original_name@ == entry.name@,
        r.path_key@ == paths::path_key_of(platform, entry.path@),
        r.path@ == entry.path@,
        r.is_log@ == flag_bytes(entry.is_log),
        r.is_archive@ == flag_bytes(entry.is_archive),
        r.ext@ == ending(platform, entry.name@),
{
    let extension: Vec<char> = match find_extension(platform, &chars_of(entry.name.as_str())) {
        Some(e) => e,
        None => Vec::new(),
    };
    proof {
        if paths::extension(platform, entry.name@) is None {
            assert(extension@ =~= Seq::empty());
        }
    }
    IndexDocument {
        name: words,
        original_name: entry.name.clone(),
        path_key: path_key(platform, entry.path.as_str()),
        path: entry.path.clone(),
        is_log: bool_bytes(entry.is_log),
        is_archive: bool_bytes(entry.is_archive),
        ext: to_lowercase(string_of(extension.as_slice()).as_str()),
    }
}

/// The document of a file.
pub fn index_document(entry: &SearchIndexEntry, tokenizer: &Tokenizer, platform: Platform) -> (r:
    IndexDocument)
    ensures
        tokens::finds_name(entry.name@, r.name@),
        r.original_name@ == entry.name@,
        r.path_key@ == paths::path_key_of(platform, entry.path@),
        r.path@ == entry.path@,
        r.is_log@ == flag_bytes(entry.is_log),
        r.is_archive@ == flag_bytes(entry.is_archive),
        r.ext@ == ending(platform, entry.name@),
{
    let words = tokenizer.tokenize(entry.name.as_str());
    document_with(entry, words, platform)
}

/// The entry that a found document stands for, if it is whole.
pub open spec fn found_entry(
    path: Option<Seq<u8>>,
    name: Option<Seq<char>>,
    is_log: Option<Seq<u8>>,
    is_archive: Option<Seq<u8>>,
) -> Option<(Seq<char>, Seq<char>, bool, bool)> {
    match (path, name) {
        (Some(p), Some(n)) => if vstd::utf8::valid_utf8(p) {
            Some(
                (
                    vstd::utf8::decode_utf8(p),
                    n,
                    is_log == Some(flag_bytes(true)),
                    is_archive == Some(flag_bytes(true)),
                ),
            )
        } else {
            None
        },
        _ => None,
    }
}

pub open spec fn bytes_view(v: Option<Vec<u8>>) -> Option<Seq<u8>> {
    match v {
        Some(b) => Some(b@),
        None => None,
    }
}

pub open spec fn text_view(v: Option<String>) -> Option<Seq<char>> {
    match v {
        Some(s) => Some(s@),
        None => None,
    }
}

fn is_set(flag: &Option<Vec<u8>>) -> (r: bool)
    ensures
        r == (bytes_view(*flag) == Some(flag_bytes(true))),
{
    match flag {
        Some(b) => {
            if b.len() == 1 && b[0] == 49 {
                assert(b@ =~= flag_bytes(true));
                true
            } else {
                assert(b@ != flag_bytes(true)) by {
                    if b@ == flag_bytes(true) {
                        assert(b@.len() == 1 && b@[0] == 49);
                    }
                }
                false
            }
        },
        None => false,
    }
}

/// A document that the index found, as it is stored there.
#[derive(Debug)]
pub struct IndexHit {
    pub path: Option<Vec<u8>>,
    pub name: Option<String>,
    pub is_log: Option<Vec<u8>>,
    pub is_archive: Option<Vec<u8>>,
}

/// The path, the name and the flags that a found document holds.
pub open spec fn hit_facts(hit: IndexHit) -> Option<(Seq<char>, Seq<char>, bool, bool)> {
    found_entry(
        bytes_view(hit.path),
        text_view(hit.name),
        bytes_view(hit.is_log),
        bytes_view(hit.is_archive),
    )
}

pub open spec fn entry_facts(e: SearchIndexEntry) -> (Seq<char>, Seq<char>, bool, bool) {
    (e.path@, e.name@, e.is_log, e.is_archive)
}

/// Reads a found document.
pub fn decode_hit(hit: &IndexHit) -> (r: Option<SearchIndexEntry>)
    ensures
        match r {
            Some(e) => hit_facts(*hit) == Some(entry_facts(e)),
            None => hit_facts(*hit) is None,
        },
{
    let is_log: bool = is_set(&hit.is_log);
    let is_archive: bool = is_set(&hit.is_archive);
    match (&hit.path, &hit.name) {
        (Some(path), Some(name)) => match utf8_text(path.as_slice()) {
            Some(path) => Some(SearchIndexEntry { path, name: name.clone(), is_log, is_archive }),
            None => None,
        },
        _ => None,
    }
}

/// What is put into the index comes out of it.
pub proof fn entry_reads_back(path: Seq<char>, name: Seq<char>, is_log: bool, is_archive: bool)
    ensures
        found_entry(
            Some(vstd::utf8::encode_utf8(path)),
            Some(name),
            Some(flag_bytes(is_log)),
            Some(flag_bytes(is_archive)),
        ) == Some((path, name, is_log, is_archive)),
{
    vstd::utf8::encode_utf8_valid_utf8(path);
    vstd::utf8::encode_utf8_decode_utf8(path);
    assert(flag_bytes(true)[0] != flag_bytes(false)[0]);
}

/// Which files are asked for.
#[derive(Debug, Clone, Copy, PartialEq, Eq, Structural)]
pub enum SearchFilter {
    All,
    /// Logs that are no archives.
    Log,
    Archive,
}

impl SearchFilter {
    pub open spec fn named(name: Seq<char>) -> SearchFilter {
        if name == "log"@ {
            SearchFilter::Log
        } else if name == "archive"@ {
            SearchFilter::Archive
        } else {
            SearchFilter::All
        }
    }

    pub fn from_name(name: &str) -> (r: Self)
        ensures
            r == Self::named(name@),
    {
        if same_text(name, "log") {
            SearchFilter::Log
        } else if same_text(name, "archive") {
            SearchFilter::Archive
        } else {
            SearchFilter::All
        }
    }

    /// What the filter asks of a file.
    pub open spec fn admits(self, is_log: bool, is_archive: bool) -> bool {
        match self {
            SearchFilter::All => true,
            SearchFilter::Log => is_log && !is_archive,
            SearchFilter::Archive => is_archive,
        }
    }

    /// What must be true of the two marks of a file: log, and archive.
    pub fn conditions(self) -> (r: (Option<bool>, Option<bool>))
        ensures
            forall|is_log: bool, is_archive: bool| #[trigger]
                self.admits(is_log, is_archive) <==> (r.0 matches Some(b) ==> is_log == b) && (
                r.1 matches Some(b) ==> is_archive == b),
    {
        match self {
            SearchFilter::All => (None, None),
            SearchFilter::Log => (Some(true), Some(false)),
            SearchFilter::Archive => (None, Some(true)),
        }
    }

    /// The condition that a query of the stored files gets.
    pub open spec fn sql_text(self) -> Seq<char> {
        match self {
            SearchFilter::All => ""@,
            SearchFilter::Log => " AND f.is_log = 1 AND f.is_archive = 0"@,
            SearchFilter::Archive => " AND f.is_archive = 1"@,
        }
    }

    pub fn sql(self) -> (r: &'static str)
        ensures
            r@ == self.sql_text(),
    {
        match self {
            SearchFilter::All => "",
            SearchFilter::Log => " AND f.is_log = 1 AND f.is_archive = 0",
            SearchFilter::Archive => " AND f.is_archive = 1",
        }
    }
}

/// When documents are made durable.
#[derive(Debug, Clone, Copy, PartialEq, Eq, Structural)]
pub struct CommitPolicy {
    pub pending_documents: usize,
    pub bulk_indexing: bool,
}

impl CommitPolicy {
    pub open spec fn with_more(self, documents: nat) -> CommitPolicy {
        CommitPolicy {
            pending_documents: if self.pending_documents + documents > usize::MAX {
                usize::MAX
            } else {
                (self.pending_documents + documents) as usize
            },
            ..self
        }
    }

    pub open spec fn due(self, elapsed_ms: u64) -> bool {
        self.pending_documents >= COMMIT_DOCUMENTS || elapsed_ms >= if self.bulk_indexing {
            BULK_COMMIT_MS
        } else {
            INCREMENTAL_COMMIT_MS
        }
    }

    pub fn new() -> (r: Self)
        ensures
            r == (CommitPolicy { pending_documents: 0, bulk_indexing: false }),
    {
        CommitPolicy { pending_documents: 0, bulk_indexing: false }
    }

    /// Counts more documents.
    pub fn add_documents(&mut self, documents: usize)
        ensures
            *final(self) == old(self).with_more(documents as nat),
    {
        self.pending_documents = self.pending_documents.saturating_add(documents);
    }

    /// Counts more documents; says whether they have to be made durable now.
    pub fn after_documents(&mut self, documents: usize, elapsed_ms: u64) -> (r: bool)
        ensures
            *final(self) == old(self).with_more(documents as nat),
            r == final(self).due(elapsed_ms),
    {
        self.add_documents(documents);
        let interval: u64 = if self.bulk_indexing {
            BULK_COMMIT_MS
        } else {
            INCREMENTAL_COMMIT_MS
        };
        self.pending_documents >= COMMIT_DOCUMENTS || elapsed_ms >= interval
    }

    /// Documents were made durable, or are gone.
    pub fn committed(&mut self)
        ensures
            *final(self) == (CommitPolicy { pending_documents: 0, ..*old(self) }),
    {
        self.pending_documents = 0;
    }

    pub fn set_bulk(&mut self, bulk: bool)
        ensures
            *final(self) == (CommitPolicy { bulk_indexing: bulk, ..*old(self) }),
    {
        self.bulk_indexing = bulk;
    }
}

/// How many answers are asked for to show a page: one more than the page
/// holds, and not too many.
pub open spec fn wanted(offset: u32, limit: u32) -> int {
    if offset + limit > MAX_QUERY_CANDIDATES {
        MAX_QUERY_CANDIDATES as int
    } else if offset == 0 {
        limit + 1
    } else {
        offset + limit
    }
}

pub fn requested_candidates(offset: u32, limit: u32) -> (r: usize)
    requires
        limit < MAX_QUERY_CANDIDATES,
    ensures
        r == wanted(offset, limit),
        limit < r <= MAX_QUERY_CANDIDATES,
{
    let sum: usize = (offset as usize).saturating_add(limit as usize);
    if sum > MAX_QUERY_CANDIDATES {
        MAX_QUERY_CANDIDATES
    } else if sum < limit as usize + 1 {
        limit as usize + 1
    } else {
        sum
    }
}

/// How well a name matches: it is the keyword, starts with it, holds it, or
/// only its words.
pub open spec fn rank(name: Seq<char>, keyword: Seq<char>) -> u64 {
    if name == keyword {
        0
    } else if keyword.is_prefix_of(name) {
        1
    } else if text::occurs(name, keyword) {
        2
    } else {
        3
    }
}

fn rank_of(name: &Vec<char>, keyword: &Vec<char>) -> (r: u64)
    ensures
        r == rank(name@, keyword@),
{
    if starts_with(name, keyword) {
        if name.len() == keyword.len() {
            assert(name@ =~= keyword@);
            0
        } else {
            1
        }
    } else if contains_part(name, keyword) {
        assert(name@ != keyword@) by {
            if name@ == keyword@ {
                assert(name@.subrange(0, name@.len() as int) =~= name@);
            }
        }
        2
    } else {
        assert(name@ != keyword@) by {
            if name@ == keyword@ {
                assert(name@.subrange(0, name@.len() as int) =~= name@);
            }
        }
        3
    }
}

/// What orders the answers to a keyword: how well the name matches, the
/// name, the path.
pub open spec fn answer_keys(entries: Seq<SearchIndexEntry>, keyword: Seq<char>) -> Seq<
    Seq<Seq<u64>>,
> {
    entries.map_values(
        |e: SearchIndexEntry|
            seq![
                seq![rank(text::lowercase(e.name@), keyword)],
                order::code_points(text::lowercase(e.name@)),
                order::code_points(text::lowercase(e.path@)),
            ],
    )
}

/// The part of `sorted` that a page shows.
pub open spec fn page_of(sorted: Seq<SearchIndexEntry>, offset: u32, limit: u32) -> Seq<
    SearchIndexEntry,
> {
    let end = page_end(sorted.len(), offset, limit);
    if offset < sorted.len() {
        sorted.subrange(offset as int, end)
    } else {
        Seq::empty()
    }
}

/// Where a page ends.
pub open spec fn page_end(len: nat, offset: u32, limit: u32) -> int {
    if offset + limit < len {
        offset + limit
    } else {
        len as int
    }
}

/// The keyword of a query: its terms with blanks between them, small.
pub open spec fn keyword_of(terms: Seq<Seq<char>>) -> Seq<char> {
    text::lowercase(text::joined_by(terms, " "@))
}

/// `items` is a page of what the index found, in order. The total is what
/// the page ends at, and one more where there is more.
pub open spec fn is_answer(
    entries: Seq<SearchIndexEntry>,
    terms: Seq<Seq<char>>,
    offset: u32,
    limit: u32,
    items: Seq<SearchIndexEntry>,
    total: u64,
) -> bool {
    let end = page_end(entries.len(), offset, limit);
    let more = entries.len() > end || wanted(offset, limit) == MAX_QUERY_CANDIDATES;
    &&& exists|sorted: Seq<SearchIndexEntry>|
        #[trigger] order::is_stably_sorted(
            entries,
            answer_keys(entries, keyword_of(terms)),
            sorted,
        ) && items == page_of(sorted, offset, limit)
    &&& total == end + if more {
        1int
    } else {
        0
    }
}

/// Orders what the index found and takes a page of it.
pub fn answer_page(
    entries: &Vec<SearchIndexEntry>,
    terms: &Vec<String>,
    offset: u32,
    limit: u32,
) -> (r: (Vec<SearchIndexEntry>, u64))
    requires
        limit < MAX_QUERY_CANDIDATES,
        entries@.len() < usize::MAX,
    ensures
        is_answer(entries@, text::texts(terms@), offset, limit, r.0@, r.1),
{
    let keyword_text = join_texts(terms, " ");
    let keyword = chars_of(to_lowercase(keyword_text.as_str()).as_str());
    let ghost k = keyword_of(text::texts(terms@));
    let ghost wanted_keys = answer_keys(entries@, k);
    let mut keys: Vec<Key> = Vec::new();
    for i in 0..entries.len()
        invariant
            keyword@ == k,
            wanted_keys == answer_keys(entries@, k),
            keys@.len() == i,
            forall|j: int| 0 <= j < i ==> (#[trigger] keys@[j]).deep_view() == wanted_keys[j],
    {
        let name = chars_of(to_lowercase(entries[i].name.as_str()).as_str());
        let path = chars_of(to_lowercase(entries[i].path.as_str()).as_str());
        let mut first: Vec<u64> = Vec::new();
        first.push(rank_of(&name, &keyword));
        let mut key: Key = Vec::new();
        key.push(first);
        key.push(code_points_of(&name));
        key.push(code_points_of(&path));
        assert(key.deep_view() =~~= wanted_keys[i as int]);
        keys.push(key);
    }
    assert(keys.deep_view() =~= wanted_keys);
    let order = stable_order(&keys);
    let ghost sorted = order::arranged(entries@, order@);
    let requested: usize = requested_candidates(offset, limit);
    let start: usize = offset as usize;
    let sum: usize = start.saturating_add(limit as usize);
    let end: usize = if sum < entries.len() {
        sum
    } else {
        entries.len()
    };
    let has_more: bool = entries.len() > end || requested == MAX_QUERY_CANDIDATES;
    let mut items: Vec<SearchIndexEntry> = Vec::new();
    if start < entries.len() {
        for i in start..end
            invariant
                start <= end <= entries@.len(),
                order@.len() == entries@.len(),
                order::is_stable_order(wanted_keys, order@),
                wanted_keys.len() == entries@.len(),
                sorted == order::arranged(entries@, order@),
                items@ =~= sorted.subrange(start as int, i as int),
        {
            assert(order@[i as int] < entries@.len());
            items.push(entries[order[i]].clone());
            assert(sorted[i as int] == entries@[order@[i as int] as int]);
        }
    }
    assert(order::is_stably_sorted(entries@, wanted_keys, sorted));
    let total: u64 = end as u64 + if has_more {
        1
    } else {
        0
    };
    (items, total)
}

/// The entries of the found documents that can be read, in order.
pub open spec fn read_entries(hits: Seq<IndexHit>) -> Seq<(Seq<char>, Seq<char>, bool, bool)>
    decreases hits.len(),
{
    if hits.len() == 0 {
        Seq::empty()
    } else {
        match hit_facts(hits.last()) {
            Some(facts) => read_entries(hits.drop_last()).push(facts),
            None => read_entries(hits.drop_last()),
        }
    }
}

pub open spec fn all_facts(entries: Seq<SearchIndexEntry>) -> Seq<
    (Seq<char>, Seq<char>, bool, bool),
> {
    entries.map_values(|e: SearchIndexEntry| entry_facts(e))
}

/// A page of the found documents: those that can be read, in order.
pub fn search(hits: &Vec<IndexHit>, terms: &Vec<String>, offset: u32, limit: u32) -> (r: (
    Vec<SearchIndexEntry>,
    u64,
))
    requires
        limit < MAX_QUERY_CANDIDATES,
        hits@.len() < usize::MAX,
    ensures
        exists|entries: Seq<SearchIndexEntry>|
            #[trigger] all_facts(entries) == read_entries(hits@) && is_answer(
                entries,
                text::texts(terms@),
                offset,
                limit,
                r.0@,
                r.1,
            ),
{
    let mut entries: Vec<SearchIndexEntry> = Vec::new();
    assert(all_facts(entries@) =~= read_entries(hits@.take(0)));
    for i in 0..hits.len()
        invariant
            entries@.len() <= i,
            all_facts(entries@) == read_entries(hits@.take(i as int)),
    {
        let ghost before = entries@;
        assert(hits@.take(i + 1).drop_last() =~= hits@.take(i as int));
        match decode_hit(&hits[i]) {
            Some(entry) => {
                entries.push(entry);
                assert(all_facts(entries@) =~= all_facts(before).push(entry_facts(entry)));
            },
            None => {},
        }
    }
    assert(hits@.take(hits@.len() as int) =~= hits@);
    answer_page(&entries, terms, offset, limit)
}

/// A page shows no more than it may.
pub proof fn page_is_bounded(sorted: Seq<SearchIndexEntry>, offset: u32, limit: u32)
    ensures
        page_of(sorted, offset, limit).len() <= limit,
{
}

/// Pages that follow one another show everything once, in order.
pub proof fn pages_follow_one_another(sorted: Seq<SearchIndexEntry>, offset: u32, limit: u32)
    requires
        offset + limit <= u32::MAX,
        offset <= sorted.len(),
    ensures
        sorted.take(offset as int) + page_of(sorted, offset, limit) == sorted.take(
            page_end(sorted.len(), offset, limit),
        ),
{
    let end = page_end(sorted.len(), offset, limit);
    assert(sorted.take(offset as int) + page_of(sorted, offset, limit) =~= sorted.take(end));
}

/// A found document whose path can be read and that has a name.
pub open spec fn is_whole(hit: IndexHit) -> bool {
    hit.path is Some && vstd::utf8::valid_utf8(hit.path->0@) && hit.name is Some
}

/// The mark is set: the digit one is stored.
pub open spec fn is_marked(mark: Option<Vec<u8>>) -> bool {
    mark is Some && mark->0@ == seq![49u8]
}

/// An entry says what a whole document says.
pub open spec fn shows_hit(e: SearchIndexEntry, hit: IndexHit) -> bool {
    &&& vstd::utf8::encode_utf8(e.path@) == hit.path->0@
    &&& e.name@ == hit.name->0@
    &&& e.is_log == is_marked(hit.is_log)
    &&& e.is_archive == is_marked(hit.is_archive)
}

/// Every whole document is read, whatever its marks, once and in its order;
/// nothing else is.
pub proof fn whole_documents_are_read(hits: Seq<IndexHit>, entries: Seq<SearchIndexEntry>)
    requires
        all_facts(entries) == read_entries(hits),
    ensures
        entries.len() == hits.filter(|hit: IndexHit| is_whole(hit)).len(),
        forall|i: int|
            0 <= i < entries.len() ==> shows_hit(
                #[trigger] entries[i],
                hits.filter(|hit: IndexHit| is_whole(hit))[i],
            ),
{
    facts_of_whole_documents(hits);
    assert(all_facts(entries).len() == entries.len());
    assert forall|i: int| 0 <= i < entries.len() implies shows_hit(
        #[trigger] entries[i],
        hits.filter(|hit: IndexHit| is_whole(hit))[i],
    ) by {
        assert(entry_facts(entries[i]) == all_facts(entries)[i]);
    }
}

proof fn facts_of_whole_documents(hits: Seq<IndexHit>)
    ensures
        read_entries(hits).len() == hits.filter(|hit: IndexHit| is_whole(hit)).len(),
        forall|i: int|
            #![trigger read_entries(hits)[i]]
            0 <= i < read_entries(hits).len() ==> {
                let f = read_entries(hits)[i];
                let hit = hits.filter(|hit: IndexHit| is_whole(hit))[i];
                &&& is_whole(hit)
                &&& vstd::utf8::encode_utf8(f.0) == hit.path->0@
                &&& f.1 == hit.name->0@
                &&& f.2 == is_marked(hit.is_log)
                &&& f.3 == is_marked(hit.is_archive)
            },
    decreases hits.len(),
{
    let p = |hit: IndexHit| is_whole(hit);
    reveal(Seq::filter);
    if hits.len() > 0 {
        facts_of_whole_documents(hits.drop_last());
        let hit = hits.last();
        let earlier = hits.drop_last().filter(p);
        if is_whole(hit) {
            vstd::utf8::decode_utf8_encode_utf8(hit.path->0@);
            assert(hits.filter(p) == earlier.push(hit));
        } else {
            assert(hits.filter(p) == earlier);
        }
    }
}

/// A page is a window on all answers in order. Every answer has one place in
/// that order: better matches come first, equal ones by name, then by path.
pub proof fn page_is_a_window_on_all_answers(
    entries: Seq<SearchIndexEntry>,
    terms: Seq<Seq<char>>,
    offset: u32,
    limit: u32,
    items: Seq<SearchIndexEntry>,
    total: u64,
) -> (order: Seq<usize>)
    requires
        is_answer(entries, terms, offset, limit, items, total),
        entries.len() <= usize::MAX,
    ensures
        order.len() == entries.len(),
        forall|i: int| 0 <= i < order.len() ==> (#[trigger] order[i]) < entries.len(),
        forall|i: int, j: int|
            0 <= i < j < order.len() ==> #[trigger] order[i] != #[trigger] order[j],
        forall|k: int| 0 <= k < entries.len() ==> #[trigger] order.contains(k as usize),
        items.len() == if offset >= entries.len() {
            0
        } else if entries.len() - offset < limit {
            entries.len() - offset
        } else {
            limit as int
        },
        forall|n: int|
            0 <= n < items.len() ==> #[trigger] items[n] == entries[order[offset + n] as int],
        forall|i: int, j: int|
            #![trigger order[i], order[j]]
            0 <= i < j < order.len() ==> {
                let a = entries[order[i] as int];
                let b = entries[order[j] as int];
                let keyword = text::lowercase(text::joined_by(terms, " "@));
                let ra = rank(text::lowercase(a.name@), keyword);
                let rb = rank(text::lowercase(b.name@), keyword);
                let na = order::code_points(text::lowercase(a.name@));
                let nb = order::code_points(text::lowercase(b.name@));
                let pa = order::code_points(text::lowercase(a.path@));
                let pb = order::code_points(text::lowercase(b.path@));
                &&& ra <= rb
                &&& ra == rb ==> !order::word_less(nb, na)
                &&& ra == rb && na == nb ==> !order::word_less(pb, pa)
                &&& ra == rb && na == nb && pa == pb ==> order[i] < order[j]
            },
{
    let keyword = keyword_of(terms);
    let keys = answer_keys(entries, keyword);
    let sorted = choose|sorted: Seq<SearchIndexEntry>| #[trigger]
        order::is_stably_sorted(entries, keys, sorted) && items == page_of(sorted, offset, limit);
    let order = order::sorting_rearranges(entries, keys, sorted);
    assert forall|i: int, j: int|
        #![trigger order[i], order[j]]
        0 <= i < j < order.len() implies {
        let a = entries[order[i] as int];
        let b = entries[order[j] as int];
        let ra = rank(text::lowercase(a.name@), keyword);
        let rb = rank(text::lowercase(b.name@), keyword);
        let na = order::code_points(text::lowercase(a.name@));
        let nb = order::code_points(text::lowercase(b.name@));
        let pa = order::code_points(text::lowercase(a.path@));
        let pb = order::code_points(text::lowercase(b.path@));
        &&& ra <= rb
        &&& ra == rb ==> !order::word_less(nb, na)
        &&& ra == rb && na == nb ==> !order::word_less(pb, pa)
        &&& ra == rb && na == nb && pa == pb ==> order[i] < order[j]
    } by {
        let ka = keys[order[i] as int];
        let kb = keys[order[j] as int];
        assert(!order::key_less(kb, ka));
        if kb[0][0] < ka[0][0] {
            assert(kb[0].take(0) =~= ka[0].take(0));
            order::first_difference_decides(kb[0], ka[0], 0);
            assert(kb.take(0) =~= ka.take(0));
            order::first_differing_word_decides(kb, ka, 0);
        }
        if ka[0][0] == kb[0][0] {
            assert(ka[0] =~= kb[0]);
            assert(kb.take(1) =~= ka.take(1));
            if order::word_less(kb[1], ka[1]) {
                order::first_differing_word_decides(kb, ka, 1);
            }
            if ka[1] == kb[1] {
                assert(kb.take(2) =~= ka.take(2));
                if order::word_less(kb[2], ka[2]) {
                    order::first_differing_word_decides(kb, ka, 2);
                }
                if ka[2] == kb[2] {
                    assert(ka =~= kb);
                }
            }
        }
    }
    order
}

/// On a first page with room for all, every whole document that was found is
/// shown, whatever its marks, and nothing else; the total is their number.
pub proof fn first_page_shows_every_whole_document(
    hits: Seq<IndexHit>,
    entries: Seq<SearchIndexEntry>,
    terms: Seq<Seq<char>>,
    limit: u32,
    items: Seq<SearchIndexEntry>,
    total: u64,
    k: int,
)
    requires
        all_facts(entries) == read_entries(hits),
        is_answer(entries, terms, 0, limit, items, total),
        hits.filter(|hit: IndexHit| is_whole(hit)).len() <= limit < 9_999,
    ensures
        items.len() == hits.filter(|hit: IndexHit| is_whole(hit)).len(),
        total == items.len(),
        0 <= k < hits.len() && is_whole(hits[k]) ==> exists|n: int|
            0 <= n < items.len() && shows_hit(#[trigger] items[n], hits[k]),
{
    let p = |hit: IndexHit| is_whole(hit);
    whole_documents_are_read(hits, entries);
    let order = page_is_a_window_on_all_answers(entries, terms, 0, limit, items, total);
    if 0 <= k < hits.len() && is_whole(hits[k]) {
        broadcast use vstd::seq_lib::group_filter_ensures;

        assert(hits.filter(p).contains(hits[k]));
        let i = choose|i: int| 0 <= i < hits.filter(p).len() && hits.filter(p)[i] == hits[k];
        assert(shows_hit(entries[i], hits.filter(p)[i]));
        assert(order.contains(i as usize));
        let n = choose|n: int| 0 <= n < order.len() && order[n] == i as usize;
        assert(items[n] == entries[order[0 + n] as int]);
    }
}

/// The total is the number of answers where it is known, and one more than
/// the page reaches where there are more.
pub proof fn total_tells_whether_there_is_more(
    entries: Seq<SearchIndexEntry>,
    terms: Seq<Seq<char>>,
    offset: u32,
    limit: u32,
    items: Seq<SearchIndexEntry>,
    total: u64,
)
    requires
        is_answer(entries, terms, offset, limit, items, total),
    ensures
        entries.len() > offset + limit ==> total == offset + limit + 1,
        entries.len() <= offset + limit < 9_999 ==> total == entries.len(),
{
}

/// The keyword itself comes before names that start with it, these before
/// names that hold it elsewhere, and these before all others.
pub proof fn closer_match_comes_first(
    keyword: Seq<char>,
    before: Seq<char>,
    after: Seq<char>,
    other: Seq<char>,
)
    requires
        after.len() > 0,
        !keyword.is_prefix_of(before + keyword + after),
        forall|i: int|
            0 <= i <= other.len() - keyword.len() ==> #[trigger] other.subrange(
                i,
                i + keyword.len(),
            ) != keyword,
    ensures
        rank(keyword, keyword) < rank(keyword + after, keyword),
        rank(keyword + after, keyword) < rank(before + keyword + after, keyword),
        rank(before + keyword + after, keyword) < rank(other, keyword),
{
    let held = before + keyword + after;
    assert((keyword + after).take(keyword.len() as int) =~= keyword);
    assert(held.subrange(before.len() as int, before.len() + keyword.len() as int) =~= keyword);
    assert(text::occurs(held, keyword));
    if keyword.is_prefix_of(other) {
        assert(other.subrange(0, 0 + keyword.len() as int) =~= keyword);
    }
    if other == keyword {
        assert(other.subrange(0, 0 + keyword.len() as int) =~= keyword);
    }
    if held == keyword {
        assert(held.len() > keyword.len());
    }
}

/// Every file is asked for by the filter for all; of the other two, an archive
/// by one, a log that is no archive by the other, and anything else by none.
pub proof fn filters_tell_files_apart(is_log: bool, is_archive: bool)
    ensures
        SearchFilter::All.admits(is_log, is_archive),
        is_archive ==> SearchFilter::Archive.admits(is_log, is_archive)
            && !SearchFilter::Log.admits(is_log, is_archive),
        !is_archive ==> !SearchFilter::Archive.admits(is_log, is_archive)
            && SearchFilter::Log.admits(is_log, is_archive) == is_log,
{
}

/// Documents become durable once there are a hundred thousand of them or time
/// has run out, which takes longer while the index is built; then the count
/// starts anew.
pub proof fn documents_become_durable(p: CommitPolicy, documents: nat, elapsed_ms: u64)
    ensures
        p.pending_documents + documents >= 100_000 ==> p.with_more(documents).due(elapsed_ms),
        p.with_more(documents).bulk_indexing == p.bulk_indexing,
        p.pending_documents + documents < 100_000 ==> (p.with_more(documents).due(elapsed_ms)
            <==> elapsed_ms >= if p.bulk_indexing {
            5_000
        } else {
            2_000u64
        }),
{
}

/// The item that is shown for a found entry; `parent` is the directory of
/// its path.
pub fn entry_item(platform: Platform, entry: SearchIndexEntry, parent: Option<String>) -> (r:
    SearchResultItem)
    ensures
        r.path == entry.path,
        r.name == entry.name,
        r.parent@ == match parent {
            Some(p) => p@,
            None => Seq::empty(),
        },
        r.kind@ == search_files::kind_of(entry.is_log, entry.is_archive),
        r.size == 0,
        r.modified_ms is None,
        !r.readable,
        r.content_type@ == search_files::content_type(platform, entry.name@),
        r.is_log == entry.is_log,
        r.is_archive == entry.is_archive,
{
    let parent: String = match parent {
        Some(p) => p,
        None => String::new(),
    };
    SearchResultItem {
        content_type: content_type_for_name(platform, entry.name.as_str()).to_owned(),
        kind: result_kind(entry.is_log, entry.is_archive),
        path: entry.path,
        name: entry.name,
        parent,
        size: 0,
        modified_ms: None,
        readable: false,
        is_log: entry.is_log,
        is_archive: entry.is_archive,
    }
}

/// A filter is chosen by its name; any other name means all files.
pub proof fn filter_is_chosen_by_name(name: Seq<char>)
    ensures
        SearchFilter::named("log"@) == SearchFilter::Log,
        SearchFilter::named("archive"@) == SearchFilter::Archive,
        SearchFilter::named(name) == SearchFilter::Log ==> name == "log"@,
        SearchFilter::named(name) == SearchFilter::Archive ==> name == "archive"@,
        SearchFilter::All.sql_text() == ""@,
        SearchFilter::Log.sql_text() == " AND f.is_log = 1 AND f.is_archive = 0"@,
        SearchFilter::Archive.sql_text() == " AND f.is_archive = 1"@,
{
    reveal_strlit("log");
    reveal_strlit("archive");
    assert("log"@.len() != "archive"@.len());
}

/// A document is stored with the extension of its name in small letters.
pub proof fn extension_is_stored_small(platform: Platform, stem: Seq<char>, e: Seq<char>)
    requires
        paths::file_name(platform, stem + seq!['.'] + e) == Some(stem + seq!['.'] + e),
        stem.len() > 0,
        !e.contains('.'),
    ensures
        ending(platform, stem + seq!['.'] + e) == text::lowercase(e),
{
    let name = stem + seq!['.'] + e;
    assert(Seq::<char>::empty() + name =~= name);
    paths::extension_is_behind_the_last_dot(platform, Seq::empty(), stem, e);
}

/// Yes is stored as the digit one and no as zero.
pub proof fn marks_are_digits()
    ensures
        flag_bytes(true) == seq![49u8],
        flag_bytes(false) == seq![48u8],
{
}

/// One answer more than the page holds is asked for, so that it shows whether
/// there are more, but never over ten thousand.
pub proof fn enough_answers_are_asked_for(offset: u32, limit: u32)
    requires
        limit < 10_000,
    ensures
        offset + limit > 10_000 ==> wanted(offset, limit) == 10_000,
        offset + limit <= 10_000 && offset == 0 ==> wanted(offset, limit) == limit + 1,
        offset + limit <= 10_000 && offset > 0 ==> wanted(offset, limit) == offset + limit,
{
}

} // verus!
