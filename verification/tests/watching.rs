//! Watched directories: what is stored, what is noticed and what is reported.

use logcrate::inventory::{
    inspect_dropped_file, scan_dir, sort_inventory, DetectedItem, DropError, FileFacts,
};
use logcrate::paths::{
    deepest_root, minimal_coverage_roots, path_is_within, path_key, user_facing_path,
    windows_path_is_within, KnownPath, Platform,
};
use logcrate::stable::{
    deliver, Arrival, ProbeStep, Settled, StableProbe, StableScheduler, STABLE_QUEUE_CAPACITY,
    STABLE_WORKER_COUNT,
};
use logcrate::text_map::{comes_before, TextMap};
use logcrate::watch::{
    check_name, default_suffixes, source_for_path, source_label, AccessResult, AddOutcome,
    IdentityMismatch, NameError, RestoredAccess, WatchConfig, WatchState, WatchedDir,
    CONFIG_VERSION,
};
use logcrate::watch_events::{
    add_overflow, normalize_arrival_events, normalize_descendant_path, normalize_events,
    normalize_top_level_path, rescan_batch, tell_detected, ArrivalOverflow, ChangeKind, DirectoryChange,
    EventPath, EventPlace, WatchEvent, ARRIVAL_OVERFLOW_CAPACITY,
};

fn known(text: &str) -> KnownPath {
    let parts = text.split('/').filter(|part| !part.is_empty()).map(|part| part.to_string());
    KnownPath::new(Platform::Other, text.to_string(), parts.collect())
}

fn all_known(texts: &[String]) -> Vec<KnownPath> {
    texts.iter().map(|text| known(text)).collect()
}

fn fresh() -> WatchState {
    WatchState::new(WatchConfig::default(), &Vec::new()).0
}

fn add(state: &mut WatchState, dir: &str) -> AddOutcome {
    let roots = all_known(&state.list_dirs());
    let watched = watched(state);
    state.add_dir(&known(dir), dir.to_string(), &roots, None, &watched)
}

fn watched(state: &WatchState) -> Vec<WatchedDir> {
    let watchers = state.watchers.iter();
    watchers.map(|text| WatchedDir { path: known(text), is_dir: true }).collect()
}

fn item(name: &str, kind: &str) -> DetectedItem {
    DetectedItem {
        path: name.to_string(),
        name: name.to_string(),
        kind: kind.to_string(),
        size: 1,
        source: "test".into(),
        is_log: true,
    }
}

fn file(path: &str, content: &[u8]) -> FileFacts {
    FileFacts {
        platform: Platform::Other,
        path: path.into(),
        name: path.rsplit('/').next().unwrap().into(),
        directory: false,
        file: true,
        size: Some(content.len() as u64),
        head: Some(content.to_vec()),
    }
}

fn directory(path: &str) -> FileFacts {
    FileFacts {
        platform: Platform::Other,
        path: path.into(),
        name: path.rsplit('/').next().unwrap().into(),
        directory: true,
        file: false,
        size: None,
        head: None,
    }
}

fn event(kind: ChangeKind, paths: Vec<EventPath>) -> WatchEvent {
    WatchEvent { kind, rescan: false, paths }
}

fn present(facts: &FileFacts) -> EventPath {
    EventPath {
        path: Some(facts.path.clone()),
        exists: true,
        node: facts.inventory_item("test"),
    }
}

fn missing(path: &str) -> EventPath {
    EventPath { path: Some(path.into()), exists: false, node: None }
}

#[test]
fn classify_recognizes_zip_logs_text_samples_and_binary_files() {
    let zip = file("/w/download.part", b"PK\x03\x04");
    let log = file("/w/server.LOG", b"\0binary-looking extension still wins");
    let sampled = file("/w/notes.data", b"plain sampled text\n");
    let binary = file("/w/image.bin", &[0, 1, 2, 3]);
    assert_eq!(zip.classify("test").unwrap().kind, "archive");
    assert_eq!(log.classify("test").unwrap().kind, "file");
    assert_eq!(sampled.classify("test").unwrap().kind, "file");
    assert!(binary.classify("test").is_none());
}

#[test]
fn the_directory_of_an_archive_is_no_archive() {
    let central = file("/w/a.part", b"PK\x01\x02");
    assert!(central.classify("test").is_none());
    assert_eq!(central.inventory_item("test").unwrap().kind, "file");
    let empty = file("/w/a.part", b"PK\x05\x06");
    assert_eq!(empty.classify("test").unwrap().kind, "archive");
}

#[test]
fn dropped_path_inspection_accepts_archives_logs_arbitrary_files_and_directories() {
    let parent = || Some("/w".to_string());
    let zip = file("/w/download.zip", b"PK\x03\x04");
    let zip_info = inspect_dropped_file(&zip, parent(), false).unwrap();
    assert_eq!(zip_info.kind, "archive");
    assert_eq!(zip_info.name, "download.zip");
    assert!(!zip_info.is_log);
    assert!(!zip_info.already_monitored);

    let logs = [
        file("/w/server.log", b"one\n"),
        file("/w/notes.txt", b"two\n"),
        file("/w/event.json", br#"{"ok":true}"#),
        file("/w/trace.data", b"plain sampled text\n"),
    ];
    for facts in &logs {
        let info = inspect_dropped_file(facts, parent(), false).unwrap();
        assert_eq!(info.kind, "file");
        assert!(info.is_log);
        assert_eq!(info.watch_path, "/w");
    }

    let binary = file("/w/image.bin", &[0, 1, 2, 3]);
    let binary_info = inspect_dropped_file(&binary, parent(), false).unwrap();
    assert_eq!(binary_info.kind, "file");
    assert!(!binary_info.is_log);

    let directory_info = inspect_dropped_file(&directory("/w/nested"), parent(), false).unwrap();
    assert_eq!(directory_info.kind, "directory");
    assert_eq!(directory_info.path, directory_info.watch_path);
    assert!(!directory_info.is_log);
}

#[test]
fn dropped_path_inspection_rejects_missing_paths() {
    let mut gone = file("/w/missing.log", b"");
    gone.file = false;
    gone.size = None;
    assert_eq!(
        inspect_dropped_file(&gone, Some("/w".into()), false),
        Err(DropError::NotAFile)
    );
    assert_eq!(
        inspect_dropped_file(&file("a.log", b"a"), None, false),
        Err(DropError::NoParent)
    );
}

#[test]
fn dropped_file_inspection_detects_coverage_from_a_parent_watch_root() {
    let mut state = fresh();
    add(&mut state, "/w");
    let roots = all_known(&state.list_dirs());
    let log = known("/w/nested/deep/server.log");
    let covered = state.is_watched_path(&log, &roots);
    let facts = file("/w/nested/deep/server.log", b"log\n");
    let info = inspect_dropped_file(&facts, Some("/w/nested/deep".into()), covered).unwrap();
    assert!(info.already_monitored);
    assert!(covered);
    assert!(!state.is_watched_path(&known("/x/server.log"), &roots));
}

#[test]
fn user_facing_windows_paths_remove_verbatim_prefixes() {
    assert_eq!(
        user_facing_path(Platform::Windows, r"\\?\D:\logs\server.log"),
        r"D:\logs\server.log"
    );
    assert_eq!(
        user_facing_path(Platform::Windows, r"\\?\UNC\server\share\server.log"),
        r"\\server\share\server.log"
    );
    assert_eq!(user_facing_path(Platform::Other, r"\\?\D:\a"), r"\\?\D:\a");
}

#[test]
fn inventory_includes_directories_and_binary_files_without_recursive_scanning() {
    let facts = vec![
        file("/w/server.log", b"log"),
        file("/w/image.bin", &[0, 1, 2, 3]),
        directory("/w/nested"),
    ];
    let items = scan_dir(&facts, "test");
    assert_eq!(items.len(), 3);
    assert_eq!(items[0].kind, "dir");
    assert_eq!(items[0].name, "nested");
    assert!(items.iter().any(|item| item.name == "server.log" && item.is_log));
    assert!(items.iter().any(|item| item.name == "image.bin" && !item.is_log));
    assert!(!items.iter().any(|item| item.name == "not-loaded.log"));
}

#[test]
fn inventories_list_directories_first_and_ignore_case() {
    let items = vec![
        item("beta.log", "file"),
        item("Zulu", "dir"),
        item("Ärger.log", "file"),
        item("ALPHA.log", "file"),
        item("yard", "dir"),
    ];
    let names: Vec<String> = sort_inventory(&items).into_iter().map(|item| item.name).collect();
    assert_eq!(names, ["yard", "Zulu", "ALPHA.log", "beta.log", "Ärger.log"]);
}

#[test]
fn directory_events_are_structural_and_skip_stable_detection() {
    let folder = directory("/w/new-folder");
    let events = vec![event(ChangeKind::Create, vec![present(&folder)])];
    let batch = normalize_events("/w", &events, false).unwrap();
    assert!(matches!(
        batch.changes.as_slice(),
        [DirectoryChange::Upsert { node }] if node.kind == "dir" && node.path == "/w/new-folder"
    ));
}

#[test]
fn canonical_event_paths_are_rebased_to_the_registered_directory() {
    let place = normalize_top_level_path(
        &known("/alias"),
        Some(&known("/real")),
        Some("created.log"),
        Some(&known("/real")),
        Some(&known("/real")),
    );
    assert!(matches!(place, EventPlace::Below(rest) if rest == ["created.log"]));
    let outside = normalize_top_level_path(
        &known("/alias"),
        Some(&known("/other")),
        Some("created.log"),
        Some(&known("/other")),
        Some(&known("/real")),
    );
    assert!(matches!(outside, EventPlace::Outside));
}

#[test]
fn recursive_canonical_event_paths_preserve_the_registered_root() {
    let place = normalize_descendant_path(
        &known("/alias"),
        &known("/real/nested/created.log"),
        Some(&known("/real")),
        Some(&known("/real/nested/created.log")),
    );
    assert!(matches!(place, EventPlace::Below(rest) if rest == ["nested", "created.log"]));
}

#[test]
fn expanded_directory_watchers_are_constrained_and_released_by_subtree() {
    let mut state = fresh();
    add(&mut state, "/w");
    let roots = all_known(&state.list_dirs());
    assert!(state.is_allowed_directory(Some(&known("/w/nested")), true, &roots));
    assert!(!state.is_allowed_directory(Some(&known("/outside")), true, &roots));
    for dir in ["/w", "/w/nested", "/w/nested/child"] {
        assert!(state.start_watch(dir, true));
    }
    let started = state.rebuild_arrival_watchers(&roots, &vec!["/w".to_string()]);
    for dir in started {
        state.arrival_watcher_started(dir);
    }
    assert_eq!(state.watchers.len(), 3);
    assert_eq!(state.arrival_watchers.len(), 1);

    let watched = watched(&state);
    state.stop_aux_watch_tree(&known("/w/nested"), &roots, &watched);
    assert_eq!(state.watchers, ["/w"]);
}

#[test]
fn releasing_watchers_never_touches_a_configured_directory() {
    let mut state = fresh();
    add(&mut state, "/w");
    let roots = all_known(&state.list_dirs());
    for dir in ["/w", "/w/nested"] {
        assert!(state.start_watch(dir, true));
    }
    let gone: Vec<WatchedDir> = ["/w", "/w/nested"]
        .iter()
        .map(|dir| WatchedDir { path: known(dir), is_dir: false })
        .collect();
    state.stop_aux_watch_tree(&known("/w"), &roots, &gone);
    assert_eq!(state.watchers, ["/w"]);
    let gone = vec![WatchedDir { path: known("/w"), is_dir: false }];
    state.stop_watch_tree(&known("/w"), &roots, &gone);
    assert!(state.watchers.is_empty());
}

#[test]
fn overlapping_roots_are_not_stored_or_watched_twice() {
    let mut state = fresh();
    assert!(matches!(add(&mut state, "/w"), AddOutcome::Added { .. }));
    assert!(matches!(add(&mut state, "/w/nested"), AddOutcome::Covered));
    assert_eq!(state.list_dirs().len(), 1);
    let resolved = all_known(&state.list_dirs());
    assert_eq!(minimal_coverage_roots(&resolved).len(), 1);
    let started = state.rebuild_arrival_watchers(&resolved, &vec!["/w".to_string()]);
    assert_eq!(started, ["/w"]);
}

#[test]
fn adding_a_parent_root_replaces_existing_descendant_roots() {
    let mut state = fresh();
    assert!(matches!(add(&mut state, "/w/nested"), AddOutcome::Added { .. }));
    assert!(state.start_watch("/w/nested", true));
    assert_eq!(state.watchers.len(), 1);
    match add(&mut state, "/w") {
        AddOutcome::Added { removed } => assert_eq!(removed, ["/w/nested"]),
        other => panic!("{other:?}"),
    }
    let dirs = state.list_dirs();
    assert_eq!(dirs.len(), 1);
    assert!(state.watchers.is_empty());
    assert!(path_is_within(Platform::Other, "/w/nested", &dirs[0]));
}

#[test]
fn startup_normalizes_persisted_overlapping_roots() {
    let stored = WatchConfig {
        dirs: vec!["/w/nested".into(), "/w".into()],
        ..WatchConfig::default()
    };
    let resolved = all_known(&stored.dirs);
    let (state, changed) = WatchState::new(stored, &resolved);
    assert_eq!(state.list_dirs().len(), 1);
    assert!(changed);
    assert_eq!(state.config().dirs, state.list_dirs());
}

#[test]
fn legacy_path_only_config_migrates_without_losing_roots() {
    let stored = WatchConfig {
        version: 0,
        dirs: vec!["/w".into()],
        suffixes: vec![".log".into()],
        ..WatchConfig::default()
    };
    let resolved = all_known(&stored.dirs);
    let (state, changed) = WatchState::new(stored, &resolved);
    assert_eq!(state.list_dirs(), ["/w"]);
    assert!(!changed);
    assert_eq!(state.config().version, 2);
    assert_eq!(state.config().macos_bookmarks.len(), 0);
}

#[test]
fn removing_a_root_also_removes_its_persisted_bookmark() {
    let mut state = fresh();
    add(&mut state, "/w");
    state.refresh_bookmark("/w".into(), "opaque".into());
    assert!(state.has_bookmark("/w"));
    state.start_watch("/w", true);
    let watched = watched(&state);
    state.remove_dir("/w", &known("/w"), &vec![], &watched);
    assert!(state.watchers.is_empty());
    assert!(!state.config().macos_bookmarks.contains("/w"));
}

#[test]
fn reopening_directory_reestablishes_its_structure_watcher() {
    let mut state = fresh();
    add(&mut state, "/w");
    let roots = all_known(&state.list_dirs());
    assert!(state.start_watch("/w", true));
    assert!(state.start_watch("/w/nested", true));
    assert!(!state.start_watch("/w/nested", true));
    let watched = watched(&state);
    state.stop_aux_watch_tree(&known("/w/nested"), &roots, &watched);
    assert!(state.start_watch("/w/nested", true));
}

#[test]
fn arrival_prefilter_uses_archive_suffixes_and_current_log_filter() {
    let mut config = WatchConfig { suffixes: vec![".log".into()], ..WatchConfig::default() };
    assert!(config.is_arrival_candidate(true, Some("bundle.ZIP")));
    assert!(config.is_arrival_candidate(true, Some("server.LOG")));
    assert!(!config.is_arrival_candidate(true, Some("image.bin")));
    config.show_all = true;
    assert!(config.is_arrival_candidate(true, Some("image.bin")));
    assert!(!config.is_arrival_candidate(false, Some("image.bin")));
}

#[test]
fn recursive_event_storm_deduplicates_ten_thousand_updates() {
    let storm = file("/w/a/b/c/storm.log", b"storm");
    let events: Vec<WatchEvent> =
        (0..10_000).map(|_| event(ChangeKind::Data, vec![present(&storm)])).collect();
    let normalized = normalize_arrival_events(&events);
    assert_eq!(normalized.schedule, ["/w/a/b/c/storm.log"]);
    assert!(normalized.cancel.is_empty());

    let mut scheduler = StableScheduler::new();
    for _ in 0..10_000 {
        assert!(scheduler.schedule("/w/a/b/c/storm.log".into(), "test".into()));
    }
    assert_eq!(scheduler.pending_paths(), ["/w/a/b/c/storm.log"]);
    assert!(scheduler.take_next().is_some());
    assert!(scheduler.take_next().is_none());
}

#[test]
fn stable_scheduler_rejects_excess_unique_candidates_at_its_capacity() {
    let mut scheduler = StableScheduler::new();
    for worker in 0..STABLE_WORKER_COUNT {
        assert!(scheduler.schedule(format!("/w/busy-{worker}.log"), "test".into()));
    }
    for _ in 0..STABLE_WORKER_COUNT {
        let path = scheduler.take_next().unwrap();
        assert!(scheduler.begin(&path).is_some());
    }
    let rejected = (0..10_000)
        .filter(|index| !scheduler.schedule(format!("/w/queued-{index}.log"), "test".into()))
        .count();
    assert!(rejected > 0);
    assert!(scheduler.pending_paths().len() <= STABLE_QUEUE_CAPACITY + STABLE_WORKER_COUNT);
}

#[test]
fn normalizes_create_remove_modify_and_rename_events() {
    let created = file("/w/created.log", b"created");
    let modified = file("/w/modified.log", b"modified");
    let renamed = file("/w/renamed.log", b"renamed");
    let events = vec![
        event(ChangeKind::Create, vec![present(&created)]),
        event(ChangeKind::Data, vec![present(&modified)]),
        event(ChangeKind::RenameBoth, vec![missing("/w/old.log"), present(&renamed)]),
        event(ChangeKind::Remove, vec![missing("/w/removed.log")]),
    ];
    let batch = normalize_events("/w", &events, false).unwrap();
    assert!(batch.changes.iter().any(
        |change| matches!(change, DirectoryChange::Upsert { node } if node.path == "/w/created.log")
    ));
    assert!(batch.changes.iter().any(
        |change| matches!(change, DirectoryChange::Upsert { node } if node.path == "/w/modified.log")
    ));
    assert!(batch.changes.iter().any(|change| matches!(
        change,
        DirectoryChange::Rename { old_path, node }
            if old_path == "/w/old.log" && node.path == "/w/renamed.log"
    )));
    assert!(batch.changes.iter().any(
        |change| matches!(change, DirectoryChange::Remove { path } if path == "/w/removed.log")
    ));
}

#[test]
fn ambiguous_rename_rescans_only_the_watched_directory() {
    let events = vec![event(ChangeKind::RenameFrom, vec![missing("/w/old.log")])];
    assert!(normalize_events("/w", &events, false).is_none());
    let batch = rescan_batch("/w", &vec![file("/w/current.log", b"current")], "test");
    assert_eq!(batch.watch_dir, "/w");
    assert!(matches!(
        batch.changes.as_slice(),
        [DirectoryChange::Rescan { nodes }] if nodes.iter().any(|node| node.path == "/w/current.log")
    ));
}

#[test]
fn repeated_modify_events_are_deduplicated_and_subdirectories_are_ignored() {
    let storm = file("/w/storm.log", b"storm");
    let mut events = Vec::new();
    for _ in 0..1_000 {
        events.push(event(ChangeKind::Data, vec![present(&storm)]));
    }
    let elsewhere = EventPath { path: None, exists: true, node: None };
    events.push(event(ChangeKind::Create, vec![elsewhere]));
    let batch = normalize_events("/w", &events, false).unwrap();
    assert_eq!(batch.changes.len(), 1);
    assert!(matches!(
        batch.changes.as_slice(),
        [DirectoryChange::Upsert { node }] if node.path == "/w/storm.log"
    ));
}

#[test]
fn cancelled_stable_detection_does_not_emit_a_stale_result() {
    let mut scheduler = StableScheduler::new();
    assert!(scheduler.schedule("/w/slow.log".into(), "test".into()));
    let path = scheduler.take_next().unwrap();
    let job = scheduler.begin(&path).unwrap();
    scheduler.cancel("/w/slow.log");
    assert_eq!(scheduler.settle(&path, job.generation), Settled::Dropped);
}

#[test]
fn cancel_then_reschedule_same_path_emits_only_latest_result() {
    let mut scheduler = StableScheduler::new();
    assert!(scheduler.schedule("/w/replaced.log".into(), "old".into()));
    scheduler.cancel("/w/replaced.log");
    assert!(scheduler.schedule("/w/replaced.log".into(), "latest".into()));
    let mut reported = Vec::new();
    while let Some(path) = scheduler.take_next() {
        if let Some(job) = scheduler.begin(&path) {
            if scheduler.settle(&path, job.generation) == Settled::Report {
                reported.push(job.source);
            }
        }
    }
    assert_eq!(reported, ["latest"]);
}

#[test]
fn a_path_that_changes_while_it_is_probed_is_probed_again() {
    let mut scheduler = StableScheduler::new();
    assert!(scheduler.schedule("/w/a.log".into(), "one".into()));
    let path = scheduler.take_next().unwrap();
    let job = scheduler.begin(&path).unwrap();
    assert!(scheduler.schedule("/w/a.log".into(), "two".into()));
    assert_eq!(scheduler.settle(&path, job.generation), Settled::Retry);
    let again = scheduler.begin(&path).unwrap();
    assert_eq!(again.source, "two");
    assert_eq!(scheduler.settle(&path, again.generation), Settled::Report);
    assert!(scheduler.pending_paths().is_empty());
}

#[test]
fn paths_outside_every_root_are_no_longer_awaited() {
    let mut scheduler = StableScheduler::new();
    assert!(scheduler.schedule("/w/a.log".into(), "w".into()));
    assert!(scheduler.schedule("/x/b.log".into(), "x".into()));
    let paths = all_known(&scheduler.pending_paths());
    scheduler.cancel_uncovered(&paths, &vec![known("/w")]);
    assert_eq!(scheduler.pending_paths(), ["/w/a.log"]);
}

#[test]
fn deliveries_cancel_before_they_schedule() {
    let mut scheduler = StableScheduler::new();
    let config = WatchConfig { suffixes: vec![".log".into()], ..WatchConfig::default() };
    assert!(scheduler.schedule("/w/gone.log".into(), "w".into()));
    let arrivals = vec![
        Arrival {
            path: "/w/new.log".into(),
            is_file: true,
            name: Some("new.log".into()),
            source: "w".into(),
        },
        Arrival {
            path: "/w/photo.png".into(),
            is_file: true,
            name: Some("photo.png".into()),
            source: "w".into(),
        },
    ];
    deliver(&mut scheduler, &vec!["/w/gone.log".to_string()], &arrivals, &config);
    assert_eq!(scheduler.pending_paths(), ["/w/new.log"]);
}

#[test]
fn a_probe_waits_for_equal_sizes() {
    let mut probe = StableProbe::start(10);
    assert_eq!(probe.observe(12), ProbeStep::Wait);
    assert_eq!(probe.observe(12), ProbeStep::Wait);
    assert_eq!(probe.observe(12), ProbeStep::Wait);
    assert_eq!(probe.observe(12), ProbeStep::Settled);
}

#[test]
fn a_file_that_keeps_growing_is_given_up() {
    let mut restless = StableProbe::start(0);
    for size in 1..20 {
        assert_eq!(restless.observe(size), ProbeStep::Wait);
    }
    assert_eq!(restless.observe(20), ProbeStep::GivenUp);
    let mut late = StableProbe::start(0);
    for size in 1..18 {
        assert_eq!(late.observe(size), ProbeStep::Wait);
    }
    assert_eq!(late.observe(17), ProbeStep::Wait);
    assert_eq!(late.observe(17), ProbeStep::Wait);
    assert_eq!(late.observe(17), ProbeStep::Settled);
}

#[test]
fn suffix_filter_is_case_insensitive_and_show_all_bypasses_it() {
    let mut state = fresh();
    state.set_filter(vec![".log".into(), ".TXT".into()], false);
    assert!(state.should_notify(&item("SERVER.LOG", "file")));
    assert!(state.should_notify(&item("notes.txt", "file")));
    assert!(!state.should_notify(&item("trace.out", "file")));
    assert!(state.should_notify(&item("bundle.zip", "archive")));

    state.set_filter(vec![], true);
    assert!(state.should_notify(&item("anything.bin", "file")));
}

#[test]
fn configuration_persists_directories_and_filters() {
    let mut state = fresh();
    add(&mut state, "/w/watched");
    state.set_filter(vec![".trace".into()], true);
    let stored = state.config();
    let resolved = all_known(&stored.dirs);
    let (restored, changed) = WatchState::new(stored, &resolved);
    assert!(!changed);
    assert_eq!(restored.list_dirs(), ["/w/watched"]);
    assert_eq!(restored.get_filter(), (vec![".trace".into()], true));
}

#[test]
fn invalid_persisted_directory_is_skipped_without_panicking() {
    let stored = WatchConfig { dirs: vec!["/w/missing".into()], ..WatchConfig::default() };
    let resolved = all_known(&stored.dirs);
    let (mut state, _) = WatchState::new(stored, &resolved);
    assert!(!state.start_watch("/w/missing", false));
    assert!(scan_dir(&vec![], "missing").is_empty());
}

#[test]
fn renamed_directories_keep_their_bookmark() {
    let mut state = fresh();
    add(&mut state, "/w/old");
    state.refresh_bookmark("/w/old".into(), "opaque".into());
    state.start_watch("/w/old/below", true);
    let watched = watched(&state);
    let bookmark =
        state.rename_dir("/w/old", "/w/new", &known("/w/old"), &vec![known("/w/new")], &watched);
    assert_eq!(bookmark, Some("opaque".to_string()));
    assert!(state.watchers.is_empty());
    assert!(state.has_bookmark("/w/new"));
    assert_eq!(state.list_dirs(), ["/w/new"]);
}

#[test]
fn names_are_single_steps() {
    assert_eq!(check_name("  logs "), Ok("logs".to_string()));
    assert_eq!(check_name("   "), Err(NameError::Empty));
    assert_eq!(check_name("a/b"), Err(NameError::Separator));
    assert_eq!(check_name("a\\b"), Err(NameError::Separator));
}

#[test]
fn the_default_filter_shows_logs() {
    let config = WatchConfig::default();
    assert_eq!(config.version, CONFIG_VERSION);
    assert_eq!(config.suffixes, default_suffixes());
    assert!(config.suffixes.contains(&".log".to_string()));
    assert!(!config.show_all);
    assert!(config.copy().dirs.is_empty());
}

#[test]
fn sources_name_the_deepest_root() {
    let roots = vec![known("/w"), known("/w/nested")];
    assert_eq!(deepest_root(&known("/w/nested/a.log"), &roots), Some(1));
    assert_eq!(deepest_root(&known("/x/a.log"), &roots), None);
    let labels = vec!["outer".to_string(), "inner".to_string()];
    assert_eq!(source_for_path(&known("/w/nested/a.log"), &roots, &labels, "other"), "inner");
    assert_eq!(source_for_path(&known("/x/a.log"), &roots, &labels, "other"), "other");
    assert_eq!(source_label(Some("logs"), Some("/w/logs")), "logs");
    assert_eq!(source_label(None, Some("/")), "/");
}

#[test]
fn path_comparison_follows_the_platform() {
    assert_eq!(path_key(Platform::Windows, "C:/Logs\\A.LOG"), "c:\\logs\\a.log");
    assert_eq!(path_key(Platform::Other, "/Logs/A.LOG"), "/Logs/A.LOG");
    assert!(windows_path_is_within("C:\\Logs\\a", "c:/logs/"));
    assert!(!path_is_within(Platform::Other, "/Logs/a", "/logs"));
    assert!(path_is_within(Platform::Other, "/logs", "/logs"));
    assert!(known("/a/b").is_inside(&known("/a")));
    assert!(!known("/ab").is_inside(&known("/a")));
    assert!(known("/a//b").same_parts(&known("/a/b")));
}

#[test]
fn minimal_roots_cover_everything_once() {
    let dirs = vec![known("/w/a"), known("/w"), known("/x"), known("/w/b")];
    let mut roots = minimal_coverage_roots(&dirs);
    roots.sort();
    assert_eq!(roots, ["/w", "/x"]);
}

#[test]
fn of_equal_directories_the_first_is_chosen_once_and_for_all() {
    let named = |text: &str, parts: [&str; 1]| {
        let parts = parts.iter().map(|part| part.to_string()).collect();
        KnownPath::new(Platform::Windows, text.to_string(), parts)
    };
    let dirs = vec![named("X", ["x"]), named("Logs", ["Logs"]), named("LOGS", ["LOGS"])];
    let roots = minimal_coverage_roots(&dirs);
    assert_eq!(roots, ["X", "Logs"]);
    let chosen = vec![named("X", ["x"]), named("Logs", ["Logs"])];
    assert_eq!(minimal_coverage_roots(&chosen), roots);
}

#[test]
fn lost_arrivals_are_remembered_up_to_a_bound() {
    let mut overflow = ArrivalOverflow::new();
    overflow.add(&vec!["/w/a.log".to_string(), "/w/a.log".to_string()]);
    assert_eq!(overflow.paths.len(), 1);
    assert!(!overflow.degraded);
    let many: Vec<String> = (0..5_000).map(|index| format!("/w/{index}.log")).collect();
    overflow.add(&many);
    assert_eq!(overflow.paths.len(), ARRIVAL_OVERFLOW_CAPACITY);
    assert!(overflow.degraded);

    let mut events = normalize_arrival_events(&vec![]);
    add_overflow(&mut events, &present(&file("/w/a.log", b"a")));
    assert_eq!(events.schedule, ["/w/a.log"]);
    add_overflow(&mut events, &missing("/w/b.log"));
    assert_eq!(events.cancel, ["/w/b.log"]);
}

#[test]
fn a_rescan_request_asks_for_the_whole_directory() {
    let mut asks = event(ChangeKind::Unknown, vec![]);
    asks.rescan = true;
    assert!(normalize_events("/w", &vec![asks], false).is_none());
    assert!(normalize_events("/w", &vec![], true).is_none());
    assert!(normalize_events("/w", &vec![], false).unwrap().changes.is_empty());
}

#[test]
fn text_maps_keep_their_keys_in_order() {
    let mut map: TextMap<u32> = TextMap::new();
    map.insert("b".into(), 2);
    map.insert("a".into(), 1);
    map.insert("b".into(), 3);
    assert_eq!(map.len(), 2);
    assert_eq!(map.keys(), ["a", "b"]);
    assert_eq!(map.get("b"), Some(&3));
    assert!(map.contains("a"));
    assert_eq!(map.remove("a"), Some(1));
    assert_eq!(map.remove("a"), None);
    assert_eq!(map.into_values(), [3]);
    assert!(comes_before("a", "ab"));
    assert!(!comes_before("b", "a"));
}

#[test]
fn stable_items_are_told_where_they_are_watched() {
    let mut state = fresh();
    add(&mut state, "/w");
    state.start_watch("/w/logs", true);
    let roots = all_known(&state.list_dirs());
    let watched = all_known(&state.watchers);
    let log = item("a.log", "file");
    let (batch, new) = tell_detected(
        &state,
        &log,
        &known("/w/logs/a.log"),
        Some(&known("/w/logs")),
        &roots,
        &watched,
    );
    let batch = batch.unwrap();
    assert_eq!(batch.watch_dir, "/w/logs");
    assert!(matches!(batch.changes.as_slice(), [DirectoryChange::Upsert { node }] if *node == log));
    assert!(new);
    let (batch, new) = tell_detected(
        &state,
        &item("a.bin", "file"),
        &known("/w/deep/a.bin"),
        Some(&known("/w/deep")),
        &roots,
        &watched,
    );
    assert!(batch.is_none());
    assert!(!new);
}

#[test]
fn rights_are_renewed_only_for_the_same_directory() {
    let mut state = fresh();
    add(&mut state, "/logs");
    add(&mut state, "/other");
    let renew = |state: &mut WatchState, existing: &str, selected: &str| {
        let roots = all_known(&state.list_dirs());
        let watched = watched(state);
        state.reauthorize_dir(
            &known(existing),
            &known(selected),
            selected.to_string(),
            &roots,
            "new".to_string(),
            &watched,
        )
    };
    assert!(matches!(renew(&mut state, "/logs", "/other"), Err(IdentityMismatch)));
    assert!(!state.has_bookmark("/logs"));
    assert!(matches!(renew(&mut state, "/logs", "/logs"), Ok(AddOutcome::Known)));
    assert!(state.has_bookmark("/logs"));
    assert_eq!(state.list_dirs(), ["/logs", "/other"]);
    assert!(matches!(renew(&mut state, "/new", "/new"), Ok(AddOutcome::Added { .. })));
    assert!(matches!(renew(&mut state, "/new/below", "/new/below"), Ok(AddOutcome::Covered)));
    assert!(!state.has_bookmark("/new/below"));
}

#[test]
fn restored_rights_are_written_where_they_were_renewed() {
    let mut state = fresh();
    add(&mut state, "/a");
    add(&mut state, "/b");
    let result = |dir: &str, access| AccessResult { dir: dir.to_string(), access };
    let (refused, written) = state.restore_persisted_access(vec![
        result("/a", RestoredAccess::Valid),
        result("/b", RestoredAccess::Refused),
    ]);
    assert_eq!(refused, ["/b"]);
    assert!(!written);
    assert!(!state.has_bookmark("/a"));
    let (refused, written) = state
        .restore_persisted_access(vec![result("/a", RestoredAccess::Renewed("fresh".into()))]);
    assert!(refused.is_empty());
    assert!(written);
    assert_eq!(state.config().macos_bookmarks.into_values(), ["fresh"]);
}
