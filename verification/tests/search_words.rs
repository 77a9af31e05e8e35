//! The words by which files are found, in a real index.

use logcrate::paths::Platform;
use logcrate::search_index::{
    answer_page, bool_bytes, decode_hit, document_with, entry_item, index_document,
    search, IndexHit,
    requested_candidates, search_index_entry, CommitPolicy, SearchFilter, SearchIndexEntry,
    BULK_COMMIT_MS, COMMIT_DOCUMENTS, INCREMENTAL_COMMIT_MS, MAX_QUERY_CANDIDATES,
};
use logcrate::search_files::IndexedFile;
use logcrate::tokens::{ascii_tokens, name_tokens, query_tokens, Tokenizer};
use tantivy::collector::TopDocs;
use tantivy::query::{BooleanQuery, Occur, Query, QueryParser, TermQuery};
use tantivy::schema::{
    Field, IndexRecordOption, Schema, TextFieldIndexing, TextOptions, Value, INDEXED, STORED,
};
use tantivy::{Index, IndexReader, IndexWriter, TantivyDocument, Term};

/// An index in memory.
struct Memory {
    index: Index,
    writer: IndexWriter,
    reader: IndexReader,
    tokenizer: Tokenizer,
}

impl Memory {
    fn new() -> Self {
        let mut builder = Schema::builder();
        let text = TextOptions::default().set_indexing_options(
            TextFieldIndexing::default().set_index_option(IndexRecordOption::WithFreqs),
        );
        builder.add_text_field("name", text.clone());
        builder.add_text_field("original_name", STORED);
        builder.add_bytes_field("path_key", INDEXED);
        builder.add_bytes_field("path", STORED);
        builder.add_bytes_field("is_log", INDEXED | STORED);
        builder.add_bytes_field("is_archive", INDEXED | STORED);
        builder.add_text_field("ext", text);
        let index = Index::create_in_ram(builder.build());
        let writer = index.writer_with_num_threads(1, 50_000_000).unwrap();
        let reader = index.reader().unwrap();
        Self { index, writer, reader, tokenizer: Tokenizer::new() }
    }

    fn field(&self, name: &str) -> Field {
        self.index.schema().get_field(name).unwrap()
    }

    fn add(&mut self, entry: &SearchIndexEntry) {
        let made = index_document(entry, &self.tokenizer, Platform::Windows);
        let mut document = TantivyDocument::new();
        document.add_text(self.field("name"), &made.name);
        document.add_text(self.field("original_name"), &made.original_name);
        document.add_bytes(self.field("path_key"), made.path_key.into_bytes());
        document.add_bytes(self.field("path"), made.path.into_bytes());
        document.add_bytes(self.field("is_log"), made.is_log);
        document.add_bytes(self.field("is_archive"), made.is_archive);
        document.add_text(self.field("ext"), &made.ext);
        self.writer.add_document(document).unwrap();
    }

    fn delete(&mut self, entry: &SearchIndexEntry) {
        let key = document_with(entry, String::new(), Platform::Windows).path_key;
        self.writer.delete_term(Term::from_field_bytes(self.field("path_key"), key.as_bytes()));
    }

    fn commit(&mut self) {
        self.writer.commit().unwrap();
        self.reader.reload().unwrap();
    }

    fn search(&self, words: &[&str], filter: &str) -> Vec<SearchIndexEntry> {
        let terms: Vec<String> = words.iter().map(|word| word.to_string()).collect();
        let mut parser = QueryParser::for_index(&self.index, vec![self.field("name")]);
        parser.set_conjunction_by_default();
        let tokens = self.tokenizer.search_tokenize(&terms.join(" "));
        let mut queries = vec![(Occur::Must, parser.parse_query(&tokens).unwrap())];
        let (is_log, is_archive) = SearchFilter::from_name(filter).conditions();
        for (name, wanted) in [("is_log", is_log), ("is_archive", is_archive)] {
            if let Some(value) = wanted {
                let term = Term::from_field_bytes(self.field(name), &bool_bytes(value));
                let query: Box<dyn Query> =
                    Box::new(TermQuery::new(term, IndexRecordOption::Basic));
                queries.push((Occur::Must, query));
            }
        }
        let searcher = self.reader.searcher();
        let limit = requested_candidates(0, 20);
        let found = searcher
            .search(&BooleanQuery::new(queries), &TopDocs::with_limit(limit))
            .unwrap();
        let mut hits = Vec::new();
        for (_, address) in found {
            let document: TantivyDocument = searcher.doc(address).unwrap();
            let bytes = |name| {
                document
                    .get_first(self.field(name))
                    .and_then(|value| value.as_bytes())
                    .map(|value| value.to_vec())
            };
            let name = document
                .get_first(self.field("original_name"))
                .and_then(|value| value.as_str())
                .map(|value| value.to_string());
            hits.push(IndexHit {
                path: bytes("path"),
                name,
                is_log: bytes("is_log"),
                is_archive: bytes("is_archive"),
            });
        }
        search(&hits, &terms, 0, 20).0
    }
}

fn entry(path: &str, is_log: bool, is_archive: bool) -> SearchIndexEntry {
    SearchIndexEntry {
        path: path.into(),
        name: path.rsplit('\\').next().unwrap().into(),
        is_log,
        is_archive,
    }
}

#[test]
fn orange_index_supports_tokens_filters_updates_and_deletes() {
    let mut index = Memory::new();
    let controller = entry("D:\\work\\DataPatchController.log", true, false);
    index.add(&controller);
    index.add(&entry("C:\\archives\\debug.zip", false, true));
    index.add(&entry("D:\\logs\\错误.log", true, false));
    index.add(&entry("D:\\headers\\log.h", false, false));
    index.add(&entry("C:\\logs\\debug.log", true, false));
    index.commit();
    let items = index.search(&["data", "patch"], "log");
    assert_eq!(items[0].path, "D:\\work\\DataPatchController.log");
    let items = index.search(&["cuowu"], "log");
    assert_eq!(items[0].path, "D:\\logs\\错误.log");
    let items = index.search(&["錯誤"], "log");
    assert_eq!(items[0].path, "D:\\logs\\错误.log");
    let items = index.search(&["debug.log"], "");
    assert_eq!(items[0].path, "C:\\logs\\debug.log");
    assert!(items.iter().all(|item| item.name != "log.h"));

    let mut renamed = controller.clone();
    renamed.name = "renamed.log".into();
    index.delete(&renamed);
    index.add(&renamed);
    index.commit();
    assert!(index.search(&["datapatchcontroller"], "").is_empty());
    index.delete(&controller);
    index.commit();
    assert_eq!(index.reader.searcher().num_docs(), 4);
}

#[test]
fn capital_words_are_found_by_their_parts() {
    let tokenizer = Tokenizer::new();
    assert_eq!(
        tokenizer.tokenize("DataPatchController.log"),
        "data patch controller.log datapatchcontroller.log"
    );
    assert_eq!(tokenizer.tokenize("plain.log"), "plain.log");
    assert_eq!(tokenizer.search_tokenize("debug.log"), "debug log");
    assert_eq!(tokenizer.search_tokenize("a-b_c/d"), "a b c d");
    assert_eq!(ascii_tokens("Plain", "Plain"), "plain");
    assert_eq!(ascii_tokens("aB", "A B"), "a b ab");
}

#[test]
fn chinese_names_are_found_by_words_and_sounds() {
    let tokenizer = Tokenizer::new();
    let words: Vec<String> =
        tokenizer.tokenize("錯誤.log").split(' ').map(|word| word.to_string()).collect();
    for expected in ["错误", "cuowu", "cw", "cuo", "c", "wu", "w", "错误.log"] {
        assert!(words.contains(&expected.to_string()), "{expected} in {words:?}");
    }
    let query = tokenizer.search_tokenize("錯誤");
    assert!(query.split(' ').any(|word| word == "错误"));
}

#[test]
fn words_of_a_query_are_words_of_the_name() {
    let cut = vec!["错误".to_string(), "日志".to_string(), "错误".to_string()];
    let query = query_tokens("错误日志错误", &cut);
    assert_eq!(query, "错误 日志 错误日志错误");
    let name = name_tokens("错误日志错误", &cut);
    for word in query.split(' ') {
        assert!(name.split(' ').any(|other| other == word));
    }
    assert!(name.split(' ').any(|word| word == "rizhi"));
}

#[test]
fn answers_are_ranked_by_name() {
    let entries = vec![
        entry("C:\\a\\my-debug.log.old", true, false),
        entry("C:\\a\\debug.log.1", true, false),
        entry("C:\\b\\DEBUG.LOG", true, false),
        entry("C:\\a\\other", true, false),
        entry("C:\\a\\debug.log", true, false),
    ];
    let terms = vec!["debug.log".to_string()];
    let (items, total) = answer_page(&entries, &terms, 0, 20);
    let paths: Vec<&str> = items.iter().map(|item| item.path.as_str()).collect();
    assert_eq!(
        paths,
        [
            "C:\\a\\debug.log",
            "C:\\b\\DEBUG.LOG",
            "C:\\a\\debug.log.1",
            "C:\\a\\my-debug.log.old",
            "C:\\a\\other",
        ]
    );
    assert_eq!(total, 5);
}

#[test]
fn pages_follow_each_other() {
    let entries: Vec<SearchIndexEntry> =
        (0..5).map(|number| entry(&format!("C:\\{number}.log"), true, false)).collect();
    let terms = vec!["log".to_string()];
    let (first, total) = answer_page(&entries, &terms, 0, 2);
    assert_eq!((first.len(), total), (2, 3));
    let (second, total) = answer_page(&entries, &terms, 2, 2);
    assert_eq!((second.len(), total), (2, 5));
    let (third, total) = answer_page(&entries, &terms, 4, 2);
    assert_eq!((third.len(), total), (1, 5));
    let mut all = first;
    all.extend(second);
    all.extend(third);
    assert_eq!(all, answer_page(&entries, &terms, 0, 20).0);
    assert!(answer_page(&entries, &terms, 9, 2).0.is_empty());
    assert_eq!(requested_candidates(0, 10), 11);
    assert_eq!(requested_candidates(20, 10), 30);
    assert_eq!(requested_candidates(u32::MAX, 10), MAX_QUERY_CANDIDATES);
}

#[test]
fn documents_hold_what_a_hit_gives_back() {
    let file = IndexedFile {
        path: "C:/Logs/App.LOG".into(),
        name: "App.LOG".into(),
        root: "C:\\".into(),
        size: 3,
        modified_ms: None,
        is_log: true,
        is_archive: false,
        file_id: None,
        parent_id: None,
    };
    let made = search_index_entry(&file);
    let document = document_with(&made, "words".into(), Platform::Windows);
    assert_eq!(document.path_key, "c:\\logs\\app.log");
    assert_eq!(document.ext, "log");
    assert_eq!(document.name, "words");
    let hit = IndexHit {
        path: Some(document.path.into_bytes()),
        name: Some(document.original_name),
        is_log: Some(document.is_log),
        is_archive: Some(document.is_archive),
    };
    assert_eq!(decode_hit(&hit), Some(made.clone()));
    let bare = |path| IndexHit { path, name: Some("a".into()), is_log: None, is_archive: None };
    assert_eq!(decode_hit(&bare(Some(vec![0xff]))), None);
    assert_eq!(decode_hit(&bare(None)), None);
    let terms = vec!["app.log".to_string()];
    let found = search(&vec![bare(None), hit, bare(Some(b"/a".to_vec()))], &terms, 0, 20);
    assert_eq!(found.1, 2);
    assert_eq!(found.0[0], made);
    assert_eq!(found.0[1].path, "/a");
    let item = entry_item(Platform::Windows, made, Some("C:/Logs".into()));
    assert_eq!(item.kind, "log");
    assert_eq!(item.parent, "C:/Logs");
    assert!(!item.readable);
}

#[test]
fn documents_become_durable_in_time() {
    let mut policy = CommitPolicy::new();
    assert!(!policy.after_documents(COMMIT_DOCUMENTS - 1, 0));
    assert!(policy.after_documents(1, 0));
    policy.committed();
    assert!(!policy.after_documents(1, INCREMENTAL_COMMIT_MS - 1));
    assert!(policy.after_documents(1, INCREMENTAL_COMMIT_MS));
    policy.set_bulk(true);
    assert!(!policy.after_documents(1, INCREMENTAL_COMMIT_MS));
    assert!(policy.after_documents(1, BULK_COMMIT_MS));
    policy.add_documents(usize::MAX);
    assert_eq!(policy.pending_documents, usize::MAX);
}

#[test]
fn filters_name_their_conditions() {
    assert_eq!(SearchFilter::from_name("log").conditions(), (Some(true), Some(false)));
    assert_eq!(SearchFilter::from_name("archive").conditions(), (None, Some(true)));
    assert_eq!(SearchFilter::from_name("").conditions(), (None, None));
    assert_eq!(SearchFilter::Log.sql(), " AND f.is_log = 1 AND f.is_archive = 0");
    assert_eq!(SearchFilter::Archive.sql(), " AND f.is_archive = 1");
    assert_eq!(SearchFilter::All.sql(), "");
}
