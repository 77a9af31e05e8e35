//! The store of found files, and what keeps it in step with the disk.

use logcrate::ntfs::{FileId, MftRecord, FILE_ATTRIBUTE_DIRECTORY};
use logcrate::paths::{path_is_within, KnownPath, Platform};
use logcrate::search_config::{
    normalize_unique_paths, search_config_version, SearchConfig, SearchFeatureState,
    SearchPreferenceStore,
};
use logcrate::search_files::{
    containing_root, content_type_for_name, enrich, event_action, event_paths, indexed_file,
    is_concerned, is_excluded, is_platform_skipped_directory, metadata_chunk_size,
    reads_directory, result_item, scan_entry, EntryType, EventAction, FileStat,
    ResultRow, ScanStep, SearchResultItem, SearchRoot, VisibleFacts,
};
use logcrate::search_index::SearchFilter;
use logcrate::search_manager::{
    planned_provider_statuses, FileSearchManager, ResumeAction, ScanControl, StoreCounts,
};
use logcrate::search_query::{
    answered_page, can_use_index, like_count_sql, like_page_sql, page_limit, placeholders,
    plan_query, query_terms, QueryPlan, QUERY_LIMIT_MAX,
};
use logcrate::search_store::{
    DatabaseInitialization, IndexDirs, IndexTarget, QueryIndexState, StoreAction, StoreFlags,
    SCHEMA_VERSION,
};
use logcrate::usn::{
    add_replay_batch, catch_up_start, check_snapshot_journal, index_ntfs_volume_paths,
    ntfs_scan_priority, ntfs_volume_letter, plan_usn_changes, scan_order, system_volume_letter,
    volume_identity, CatchUpError, NodeChange, NtfsVolumeState, VolumeSize,
    MAX_USN_REPLAY_RECORDS,
};
use logcrate::volume::UsnJournalInfo;
use rusqlite::{params_from_iter, Connection};

const EMPTY: StoreFlags = StoreFlags {
    schema_version: None,
    bulk_rebuild: None,
    fts_ready: None,
    query_snapshot_complete: None,
};

/// The flags of a store that was just opened for the first time.
fn opened() -> StoreFlags {
    EMPTY.initialize_database(0, None).1
}

fn node(id: u64, parent: u64, name: &str, attributes: u32, reason: u32) -> MftRecord {
    MftRecord {
        id: FileId::from_u64(id),
        parent_id: FileId::from_u64(parent),
        name: name.into(),
        attributes,
        reason,
        usn: 1,
    }
}

fn journal(id: u64, first: i64, next: i64) -> UsnJournalInfo {
    UsnJournalInfo { journal_id: id, first_usn: first, next_usn: next, lowest_valid_usn: 0 }
}

fn roots() -> Vec<SearchRoot> {
    vec![SearchRoot { text: "/w".into(), depth: 1 }, SearchRoot { text: "/w/deep".into(), depth: 2 }]
}

/// A table of files as the store has it.
fn table(files: &[(&str, &str, bool, bool)]) -> Connection {
    let connection = Connection::open_in_memory().unwrap();
    connection
        .execute_batch(
            "CREATE TABLE files (path TEXT PRIMARY KEY, name TEXT, parent TEXT, size INTEGER,
             modified_ms INTEGER, is_log INTEGER, is_archive INTEGER)",
        )
        .unwrap();
    for (path, name, is_log, is_archive) in files {
        connection
            .execute(
                "INSERT INTO files VALUES (?1, ?2, '', 4, NULL, ?3, ?4)",
                (path, name, is_log, is_archive),
            )
            .unwrap();
    }
    connection
}

fn query(
    connection: &Connection,
    terms: &[&str],
    filter: SearchFilter,
    offset: u32,
    limit: u32,
) -> (Vec<SearchResultItem>, u64) {
    let total = connection
        .query_row(&like_count_sql(terms.len(), filter), params_from_iter(terms), |row| {
            row.get::<_, u64>(0)
        })
        .unwrap();
    let mut statement =
        connection.prepare(&like_page_sql(terms.len(), filter, offset, limit)).unwrap();
    let rows = statement
        .query_map(params_from_iter(terms), |row| {
            Ok(result_item(
                Platform::Other,
                ResultRow {
                    path: row.get(0)?,
                    name: row.get(1)?,
                    stored_parent: row.get(2)?,
                    size: row.get(3)?,
                    modified_ms: row.get(4)?,
                    is_log: row.get(5)?,
                    is_archive: row.get(6)?,
                },
                Some("parent".into()),
            ))
        })
        .unwrap();
    (rows.collect::<Result<Vec<_>, _>>().unwrap(), total)
}

#[test]
fn search_feature_defaults_to_disabled() {
    let config = SearchConfig::with_roots(vec!["/".into()]);
    assert!(!config.enabled);
    assert_eq!(config.version, search_config_version());
}

#[test]
fn invalid_search_config_safely_falls_back_to_disabled() {
    let preferences = SearchPreferenceStore::new(Platform::Other, None, vec!["/".into()]);
    assert_eq!(
        preferences.feature_state(false),
        SearchFeatureState { current_enabled: false, next_launch_enabled: false }
    );
    assert_eq!(preferences.config().roots, ["/"]);
}

#[test]
fn legacy_search_config_is_migrated_without_enabling_search() {
    let stored = SearchConfig {
        version: 0,
        enabled: false,
        roots: vec!["D:\\".into()],
        exclusions: vec![],
    };
    let config = SearchConfig::read_config(Platform::Windows, stored);
    assert_eq!(config.version, search_config_version());
    assert!(!config.enabled);
}

#[test]
fn enabled_preference_is_separate_from_current_process_state() {
    let mut preferences = SearchPreferenceStore::new(Platform::Other, None, vec![]);
    assert!(preferences.config_with(true).enabled);
    assert!(preferences.set_enabled(true, true));
    assert_eq!(
        preferences.feature_state(false),
        SearchFeatureState { current_enabled: false, next_launch_enabled: true }
    );
    assert!(preferences.config().enabled);
}

#[test]
fn failed_preference_write_restores_previous_value() {
    let mut preferences = SearchPreferenceStore::new(Platform::Other, None, vec![]);
    assert!(!preferences.set_enabled(true, false));
    assert!(!preferences.feature_state(false).next_launch_enabled);
}

#[test]
fn disabled_preference_read_does_not_create_search_storage() {
    let preferences = SearchPreferenceStore::new(Platform::Other, None, vec![]);
    assert!(!preferences.config().enabled);
}

#[test]
fn visible_metadata_is_enriched_without_reading_file_contents() {
    let mut item = SearchResultItem {
        path: "/w/service.log".into(),
        name: "service.log".into(),
        parent: "/w".into(),
        kind: "log".into(),
        size: 0,
        modified_ms: None,
        readable: false,
        content_type: content_type_for_name(Platform::Other, "service.log").into(),
        is_log: true,
        is_archive: false,
    };
    let facts =
        VisibleFacts { is_file: true, size: 13, modified_ms: Some(7), readable: true };
    enrich(&mut item, Some(facts));
    assert_eq!(item.size, 13);
    assert!(item.modified_ms.is_some());
    assert!(item.readable);
    assert_eq!(item.content_type, "text/plain");
    assert_eq!(content_type_for_name(Platform::Other, "bundle.zip"), "application/zip");
    assert_eq!(content_type_for_name(Platform::Other, "unknown.bin"), "application/octet-stream");
    assert_eq!(content_type_for_name(Platform::Windows, "a\\.zip"), "application/octet-stream");
    assert_eq!(content_type_for_name(Platform::Other, "a\\.zip"), "application/zip");
    enrich(&mut item, None);
    enrich(&mut item, Some(VisibleFacts { is_file: false, ..facts }));
    assert_eq!(item.size, 13);
    assert!(item.readable);
    assert_eq!(metadata_chunk_size(9), 3);
}

#[test]
fn query_snapshot_switch_is_atomic_and_recovers_interrupted_rebuild() {
    let mut state = QueryIndexState { present: true, ready: true, bulk: false, staged: false };
    state.begin_query_index_bulk(1);
    assert!(state.can_query(1));
    assert_eq!(state.index_target(true), IndexTarget::AddStaged);
    state.finish_query_index_bulk();
    assert!(!state.bulk && !state.staged && state.ready);

    let interrupted = IndexDirs { active: true, previous: false, staging: true };
    let steps = interrupted.recover_query_index_directories();
    assert!(steps.remove_staging);
    assert!(!steps.staging_to_active);
    let halfway = IndexDirs { active: false, previous: true, staging: true };
    assert!(halfway.recover_query_index_directories().previous_to_active);
    assert!(halfway.restores_after_failed_move());
}

#[test]
fn sqlite_fallback_matches_name_path_filters_and_pagination() {
    let connection = table(&[
        ("D:\\work\\logs\\server-error.log", "server-error.log", true, false),
        ("D:\\download\\server-backup.zip", "server-backup.zip", false, true),
    ]);
    let (items, total) = query(&connection, &["server"], SearchFilter::All, 0, 1);
    assert_eq!(total, 2);
    assert_eq!(items.len(), 1);
    let (items, total) = query(&connection, &["server"], SearchFilter::Archive, 0, 10);
    assert_eq!(total, 1);
    assert_eq!(items[0].kind, "archive");
    let (items, _) = query(&connection, &["server", "work"], SearchFilter::Log, 0, 10);
    assert_eq!(items[0].name, "server-error.log");
    assert_eq!(items[0].parent, "parent");
}

#[test]
fn short_terms_use_case_insensitive_substring_matching() {
    let connection = table(&[("/Users/test/logs/api.log", "api.log", true, false)]);
    let (items, total) = query(&connection, &["ap"], SearchFilter::All, 0, 10);
    assert_eq!(total, 1);
    assert_eq!(items[0].name, "api.log");
}

#[test]
fn exclusions_are_normalized_and_match_descendants() {
    let excluded = "/w/private".to_string();
    let normalized = normalize_unique_paths(Platform::Other, &vec![excluded.clone(), excluded]);
    assert_eq!(normalized.len(), 1);
    assert!(is_excluded(Platform::Other, "/w/private/nested/file.log", &normalized));
    assert!(!is_excluded(Platform::Other, "/w/privateer/file.log", &normalized));
}

#[test]
fn non_system_ntfs_volumes_are_indexed_before_the_system_volume() {
    assert!(ntfs_scan_priority('D', 3_000_000, Some('C')) < ntfs_scan_priority('C', 1, Some('C')));
    assert!(ntfs_scan_priority('E', 1, Some('C')) < ntfs_scan_priority('D', 2, Some('C')));
    let volumes = vec![
        VolumeSize { volume: 'C', record_count: 1 },
        VolumeSize { volume: 'D', record_count: 2 },
        VolumeSize { volume: 'E', record_count: 1 },
    ];
    assert_eq!(scan_order(&volumes, Some('C')), [2, 1, 0]);
}

#[test]
fn windows_scope_matching_ignores_case_and_mixed_separators() {
    assert!(path_is_within(
        Platform::Windows,
        "C:\\Users\\Alice\\Logs\\app.log",
        "c:/users/alice/logs",
    ));
    assert!(!path_is_within(
        Platform::Windows,
        "C:\\Users\\Alice\\Logs-old\\app.log",
        "c:/users/alice/logs",
    ));
}

#[test]
fn usn_directory_rename_and_delete_update_only_affected_files() {
    let records = vec![
        node(5, 5, ".", FILE_ATTRIBUTE_DIRECTORY, 0),
        node(10, 5, "Logs", FILE_ATTRIBUTE_DIRECTORY, 0),
        node(11, 10, "app.log", 0, 0),
        node(12, 5, "other.log", 0, 0),
    ];
    let rename = vec![node(10, 5, "Renamed", FILE_ATTRIBUTE_DIRECTORY, 0x2000)];
    let plan = plan_usn_changes("C:\\", &vec![], &records, &rename);
    assert_eq!(plan.files.len(), 1);
    assert_eq!(plan.files[0].path, "C:\\Renamed\\app.log");
    assert_eq!(plan.files[0].file_id, Some(FileId::from_u64(11).as_bytes()));
    assert_eq!(plan.files[0].parent_id, Some(FileId::from_u64(10).as_bytes()));
    assert!(matches!(plan.nodes.as_slice(), [NodeChange::Upsert(record)] if record.name == "Renamed"));

    let delete = vec![node(11, 10, "app.log", 0, 0x200)];
    let plan = plan_usn_changes("C:\\", &vec![], &records, &delete);
    assert_eq!(plan.deleted_files, [FileId::from_u64(11)]);
    assert!(plan.files.is_empty());
    assert!(matches!(plan.nodes.as_slice(), [NodeChange::Delete(id)] if *id == FileId::from_u64(11)));
}

#[test]
fn catching_up_gives_what_reading_anew_gives() {
    let records = vec![
        node(5, 5, ".", FILE_ATTRIBUTE_DIRECTORY, 0),
        node(10, 5, "Logs", FILE_ATTRIBUTE_DIRECTORY, 0),
        node(11, 10, "app.log", 0, 0),
        node(12, 5, "other.log", 0, 0),
        node(13, 5, "old.log", 0, 0),
        node(14, 10, "Deep", FILE_ATTRIBUTE_DIRECTORY, 0),
        node(15, 14, "deep.log", 0, 0),
    ];
    let changes = vec![
        node(10, 5, "Logs", FILE_ATTRIBUTE_DIRECTORY, 0x1000),
        node(10, 5, "Moved", FILE_ATTRIBUTE_DIRECTORY, 0x2000),
        node(13, 5, "old.log", 0, 0x200),
        node(16, 14, "new.log", 0, 0x100),
    ];
    let root = "C:\\";
    let paths = |records: Vec<MftRecord>| {
        let (batches, _) = index_ntfs_volume_paths(root, &vec![], records);
        batches.into_iter().flatten().map(|file| (file.file_id, file.path)).collect::<Vec<_>>()
    };
    let plan = plan_usn_changes(root, &vec![], &records, &changes);
    let deleted: Vec<_> = plan.deleted_files.iter().map(|id| Some(id.as_bytes())).collect();
    let mut stored = paths(records.clone());
    stored.retain(|(id, _)| !deleted.contains(id));
    stored.extend(plan.files.iter().map(|file| (file.file_id, file.path.clone())));
    stored.sort();

    let mut nodes = records;
    for change in plan.nodes {
        match change {
            NodeChange::Delete(id) => nodes.retain(|record| record.id != id),
            NodeChange::Upsert(record) => nodes.push(record),
        }
    }
    let mut anew = paths(nodes);
    anew.sort();
    assert_eq!(stored, anew);
    let names: Vec<&str> = anew.iter().map(|(_, path)| path.as_str()).collect();
    assert!(names.contains(&"C:\\Moved\\Deep\\deep.log"));
    assert!(names.contains(&"C:\\Moved\\Deep\\new.log"));
    assert!(!names.contains(&"C:\\old.log"));
    assert_eq!(anew.len(), 4);
}

#[test]
fn changes_may_come_in_several_rounds() {
    let records = vec![
        node(5, 5, ".", FILE_ATTRIBUTE_DIRECTORY, 0),
        node(10, 5, "Logs", FILE_ATTRIBUTE_DIRECTORY, 0),
        node(11, 10, "app.log", 0, 0),
    ];
    let first = vec![node(11, 5, "app.log", 0, 0x2000)];
    let second = vec![node(12, 10, "new.log", 0, 0x100), node(11, 5, "last.log", 0, 0x2000)];
    let apply = |records: &Vec<MftRecord>, changes: &Vec<MftRecord>| {
        let mut nodes = records.clone();
        for change in plan_usn_changes("C:\\", &vec![], records, changes).nodes {
            match change {
                NodeChange::Delete(id) => nodes.retain(|record| record.id != id),
                NodeChange::Upsert(record) => nodes.push(record),
            }
        }
        nodes
    };
    let paths = |records: Vec<MftRecord>| {
        let (batches, _) = index_ntfs_volume_paths("C:\\", &vec![], records);
        let mut paths: Vec<String> =
            batches.into_iter().flatten().map(|file| file.path).collect();
        paths.sort();
        paths
    };
    let rounds = paths(apply(&apply(&records, &first), &second));
    let all = first.into_iter().chain(second).collect();
    assert_eq!(rounds, paths(apply(&records, &all)));
    assert_eq!(rounds, ["C:\\Logs\\new.log", "C:\\last.log"]);
}

#[test]
fn volume_snapshots_leave_exclusions_out() {
    let records = vec![
        node(5, 5, ".", FILE_ATTRIBUTE_DIRECTORY, 0),
        node(10, 5, "Logs", FILE_ATTRIBUTE_DIRECTORY, 0),
        node(11, 10, "app.log", 0, 0),
        node(12, 5, "Private", FILE_ATTRIBUTE_DIRECTORY, 0),
        node(13, 12, "hidden.log", 0, 0),
    ];
    let exclusions = vec!["c:/private".to_string()];
    let (batches, kept) = index_ntfs_volume_paths("C:\\", &exclusions, records);
    let paths: Vec<&str> = batches.iter().flatten().map(|file| file.path.as_str()).collect();
    assert_eq!(paths, ["C:\\Logs\\app.log"]);
    assert!(batches[0][0].is_log);
    assert_eq!(kept.len(), 5);
}

#[test]
fn journals_are_replayed_only_when_they_still_fit() {
    let state = NtfsVolumeState {
        volume_identity: volume_identity('C', Some(0xab)),
        journal_id: 7,
        next_usn: 50,
        snapshot_complete: true,
    };
    let same = volume_identity('C', Some(0xab));
    assert_eq!(catch_up_start(Some(&state), &same, &journal(7, 10, 90)), Ok(50));
    assert_eq!(catch_up_start(None, &same, &journal(7, 10, 90)), Err(CatchUpError::Incomplete));
    let partial = NtfsVolumeState {
        volume_identity: volume_identity('C', Some(0xab)),
        journal_id: 7,
        next_usn: 50,
        snapshot_complete: false,
    };
    assert_eq!(
        catch_up_start(Some(&partial), &same, &journal(7, 10, 90)),
        Err(CatchUpError::Incomplete)
    );
    assert_eq!(
        catch_up_start(Some(&state), &same, &journal(8, 10, 90)),
        Err(CatchUpError::Stale)
    );
    assert_eq!(
        catch_up_start(Some(&state), &same, &journal(7, 60, 90)),
        Err(CatchUpError::Stale)
    );
    assert_eq!(
        catch_up_start(Some(&state), "elsewhere", &journal(7, 10, 90)),
        Err(CatchUpError::Stale)
    );
    assert_eq!(check_snapshot_journal(&journal(7, 0, 5), &journal(7, 0, 9)), Ok(()));
    assert_eq!(
        check_snapshot_journal(&journal(7, 0, 5), &journal(8, 0, 9)),
        Err(CatchUpError::JournalLost)
    );
    let mut changes = vec![node(1, 5, "a", 0, 0)];
    assert_eq!(add_replay_batch(&mut changes, vec![node(2, 5, "b", 0, 0)]), Ok(()));
    assert_eq!(changes.len(), 2);
    let many = vec![node(3, 5, "c", 0, 0); MAX_USN_REPLAY_RECORDS];
    assert_eq!(add_replay_batch(&mut changes, many), Err(CatchUpError::TooMany));
}

#[test]
fn volumes_have_letters_and_names() {
    assert_eq!(ntfs_volume_letter("d:\\"), Some('D'));
    assert_eq!(ntfs_volume_letter("/home"), None);
    assert_eq!(system_volume_letter("c:"), Some('C'));
    assert_eq!(system_volume_letter(""), None);
    assert_ne!(volume_identity('C', Some(1)), volume_identity('C', Some(2)));
}

#[test]
fn runtime_config_excludes_the_search_database_directory() {
    let config = SearchConfig::with_roots(vec!["/".into()]);
    let runtime = config.runtime_config(Platform::Other, Some("/data/search"));
    assert!(is_excluded(Platform::Other, "/data/search/file-search.sqlite3", &runtime.exclusions));
    assert!(!is_excluded(Platform::Other, "/data/other", &runtime.exclusions));
}

#[test]
fn generation_and_pause_flags_cancel_stale_scans() {
    let mut control = ScanControl { generation: 0, cancel: false };
    let generation = control.generation;
    assert!(!control.is_cancelled(generation));
    let current = control.begin();
    assert!(control.is_cancelled(generation));
    assert!(!control.is_cancelled(current));
    control.pause();
    assert!(control.is_cancelled(control.generation));
}

#[test]
fn directory_events_add_rename_and_delete_subtrees() {
    let none = vec![];
    let subtree = event_action(Platform::Other, "/w/incoming", false, true, &roots(), &none);
    assert!(matches!(subtree, EventAction::Subtree(0)));
    let gone =
        event_action(Platform::Other, "/w/incoming/server.log", false, false, &roots(), &none);
    assert!(matches!(gone, EventAction::Forget { .. }));
    let renamed =
        event_action(Platform::Other, "/w/incoming/renamed.log", true, false, &roots(), &none);
    assert!(matches!(renamed, EventAction::File(0)));
    let outside = event_action(Platform::Other, "/x/a.log", true, false, &roots(), &none);
    assert!(matches!(outside, EventAction::Ignore));
    let excluded = vec!["/w/incoming".to_string()];
    let hidden =
        event_action(Platform::Other, "/w/incoming/a.log", true, false, &roots(), &excluded);
    assert!(matches!(hidden, EventAction::Ignore));
    assert_eq!(containing_root(Platform::Other, "/w/deep/a.log", &roots()), Some(1));
    assert!(is_concerned(Platform::Other, "/w/a.log", &roots(), &none));
}

#[test]
fn schema_version_change_rebuilds_external_content_index() {
    let flags = StoreFlags { schema_version: Some(0), ..opened() };
    let (action, after, _) = flags.initialize_database(1, None);
    assert_eq!(action, StoreAction::Recreate);
    assert_eq!(after.schema_version, Some(SCHEMA_VERSION));
}

#[test]
fn bulk_load_keeps_legacy_fts_disabled_after_tantivy_finalization() {
    let during = opened().prepare_bulk_index(true);
    assert_ne!(during.fts_ready, Some(1));
    let after = during.finish_bulk_index();
    assert_ne!(after.fts_ready, Some(1));
    assert_ne!(after.bulk_rebuild, Some(1));
}

#[test]
fn missing_tantivy_index_is_rebuilt_from_existing_database() {
    let (action, _, found) = opened().initialize_database(1, Some(0));
    assert_eq!(action, StoreAction::Keep);
    let config = SearchConfig::with_roots(vec!["D:\\".into()]);
    let counts = StoreCounts { files: 1, bytes: 10 };
    let manager = FileSearchManager::new_with_preferences(
        config,
        &vec![],
        true,
        Some(0),
        None,
        Ok((found, Some(counts))),
    );
    assert!(!manager.query_index.ready);
    assert!(manager.query_index.needs_filling());
}

#[test]
fn interrupted_bulk_load_is_discarded_on_next_initialization() {
    let interrupted = opened().prepare_bulk_index(true);
    let (action, after, found) = interrupted.initialize_database(1, None);
    assert_eq!(action, StoreAction::Reset);
    assert!(!found.query_snapshot_complete);
    assert_ne!(after.bulk_rebuild, Some(1));
    let reset = after.reset_index();
    assert_ne!(reset.bulk_rebuild, Some(1));
}

#[test]
fn completed_query_snapshot_survives_interrupted_persistence() {
    let interrupted = opened().prepare_bulk_index(true).mark_query_snapshot_complete();
    let (_, _, found) = interrupted.initialize_database(1, Some(2));
    assert!(found.query_snapshot_complete);
    assert!(found.persistence_incomplete);
    let manager = FileSearchManager::new_with_preferences(
        SearchConfig::with_roots(vec!["D:\\".into()]),
        &vec![],
        true,
        Some(2),
        None,
        Ok((found, None)),
    );
    assert!(manager.query_index.ready);
    assert!(manager.persistence_recovery);
    assert!(manager.query_index.can_query(2));
}

#[test]
fn legacy_interrupted_persistence_preserves_nonempty_query_index() {
    let interrupted =
        StoreFlags { query_snapshot_complete: None, ..opened().prepare_bulk_index(true) };
    let (action, _, found) = interrupted.initialize_database(1, Some(2));
    assert!(found.query_snapshot_complete);
    assert!(found.persistence_incomplete);
    assert_ne!(action, StoreAction::Reset);
    assert_ne!(action, StoreAction::Recreate);
}

#[test]
fn subtree_scan_does_not_follow_symbolic_link_directories() {
    let none = vec![];
    let step = |path: &str, entry: Option<EntryType>, redirects: bool| {
        scan_entry(Platform::Other, path, entry, redirects, false, &none)
    };
    assert_eq!(step("/w/inside.log", Some(EntryType::File), false), ScanStep::Store);
    assert_eq!(step("/w/linked", Some(EntryType::Symlink), false), ScanStep::Skip);
    assert_eq!(step("/w/dir", Some(EntryType::Directory), false), ScanStep::Descend);
    assert_eq!(step("/w/junction", Some(EntryType::Directory), true), ScanStep::Skip);
    assert_eq!(step("/w/unknown", None, false), ScanStep::Skip);
    assert_eq!(step("/w/socket", Some(EntryType::Other), false), ScanStep::Skip);
    assert!(reads_directory(Platform::Other, "/w", &none));
    assert!(!reads_directory(Platform::Other, "/w/a", &vec!["/w".to_string()]));
    assert!(is_platform_skipped_directory(Platform::MacOs, "/Volumes/usb"));
    assert!(!is_platform_skipped_directory(Platform::MacOs, "/Users"));
    assert!(!is_platform_skipped_directory(Platform::Other, "/home"));
}

#[test]
fn files_are_described_by_their_name() {
    let stat = FileStat {
        path: "/w/bundle.zip".into(),
        name: Some("bundle.zip".into()),
        is_file: true,
        size: 9,
        modified_ms: Some(1),
    };
    let file = indexed_file(Platform::Other, &stat, "/w").unwrap();
    assert!(file.is_archive && !file.is_log);
    assert_eq!(file.root, "/w");
    assert!(indexed_file(Platform::Other, &FileStat { is_file: false, ..stat }, "/w").is_none());
    let paths: Vec<KnownPath> = ["/w/b", "/w/a", "/w/b"]
        .iter()
        .map(|text| {
            let parts = text.split('/').skip(1).map(|part| part.to_string()).collect();
            KnownPath::new(Platform::Other, text.to_string(), parts)
        })
        .collect();
    assert_eq!(event_paths(&paths), ["/w/a", "/w/b"]);
}

#[test]
fn queries_are_cut_into_small_terms() {
    assert_eq!(query_terms("  Server\tÄrger "), ["server", "ärger"]);
    assert!(can_use_index(&vec!["server".to_string()]));
    assert!(!can_use_index(&vec!["c:\\logs".to_string()]));
    assert_eq!(page_limit(0), 1);
    assert_eq!(page_limit(9_999), QUERY_LIMIT_MAX);
    assert!(matches!(
        plan_query("   ", "", 10, "ready"),
        QueryPlan::Nothing(page) if page.total == 0 && !page.partial
    ));
    assert!(matches!(
        plan_query("a b", "log", 10, "ready"),
        QueryPlan::Index { terms, filter: SearchFilter::Log, limit: 10 } if terms.len() == 2
    ));
    assert!(matches!(plan_query("a/b", "", 10, "scanning"), QueryPlan::Store { .. }));
    assert!(answered_page(vec![], 0, "scanning", 3).partial);
    assert_eq!(placeholders("(?,?)", 3), "(?,?),(?,?),(?,?)");
}

#[test]
fn a_manager_goes_through_its_phases() {
    let config = SearchConfig::with_roots(vec!["C:\\".into(), "D:\\".into()]);
    let ntfs = vec!["C:\\".to_string()];
    let planned = planned_provider_statuses(&config.roots, &ntfs);
    assert_eq!(planned.len(), 2);
    assert_ne!(planned[0].provider, planned[1].provider);
    let found = DatabaseInitialization {
        query_snapshot_complete: false,
        persistence_incomplete: false,
    };
    let mut manager = FileSearchManager::new_with_preferences(
        config,
        &ntfs,
        false,
        None,
        None,
        Ok((found, None)),
    );
    assert_eq!(manager.resume_or_watch(false), ResumeAction::Rebuild);
    let first = manager.start(vec![]);
    manager.scanning(true, &ntfs);
    assert_eq!(manager.status.phase, "scanning");
    manager.status.set_provider_status("C:\\", "mft", "ready", Some("slow".into()));
    assert_eq!(manager.status.fallback_reason("C:\\"), Some("slow".to_string()));
    manager.files_indexed(3);
    manager.ready();
    assert_eq!(manager.status.phase, "ready");
    let second = manager.start(vec![]);
    assert!(manager.control.is_cancelled(first));
    assert!(!manager.finish_with_error(first, "late".into()));
    assert!(manager.finish_with_error(second, "disk".into()));
    assert_eq!(manager.status.error.as_deref(), Some("disk"));
    manager.set_exclusions(Platform::Other, &vec!["/a".into(), "/a".into()]);
    assert_eq!(manager.config().exclusions, ["/a"]);
    manager.refresh_counts(Some(StoreCounts { files: 4, bytes: 9 }));
    assert_eq!(manager.status.indexed_files, 4);
    manager.pause();
    assert!(manager.control.is_cancelled(second));
    let resumed = manager.begin_resume(Platform::Other);
    assert!(!manager.control.is_cancelled(resumed));
    manager.cleared(&ntfs);
    assert_eq!(manager.status.indexed_files, 0);
}
