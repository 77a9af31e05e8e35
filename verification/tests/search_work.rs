//! Building the index and keeping it up to date.

use logcrate::paths::Platform;
use logcrate::search_config::SearchConfig;
use logcrate::search_files::{EntryType, FileStat, ScanStep, SCAN_REPORT_FILES, SCAN_WRITE_BATCH};
use logcrate::search_manager::FileSearchManager;
use logcrate::search_query::{split_changes, IndexChange};
use logcrate::search_scan::{split_providers, FolderScan, ScanNotice, ScanTask};
use logcrate::search_store::DatabaseInitialization;
use logcrate::search_work::{
    after_quiet, QuietAction, ResumeNext, ResumeStep, StartNext, StartStep,
};

fn manager(roots: &[&str], recover: bool) -> FileSearchManager {
    let roots: Vec<String> = roots.iter().map(|root| root.to_string()).collect();
    let found =
        DatabaseInitialization { query_snapshot_complete: false, persistence_incomplete: recover };
    FileSearchManager::new_with_preferences(
        SearchConfig::with_roots(roots.clone()),
        &roots,
        true,
        Some(0),
        None,
        Ok((found, None)),
    )
}

fn stat(path: &str) -> FileStat {
    FileStat {
        path: path.into(),
        name: Some(path.rsplit('/').next().unwrap().into()),
        is_file: true,
        size: 1,
        modified_ms: None,
    }
}

/// The steps of building an index when every one of them succeeds.
fn all_start_steps(manager: &mut FileSearchManager, rebuild: bool) -> Vec<StartStep> {
    let generation = manager.start(vec![]);
    let mut steps = vec![StartStep::InstallWatcher];
    loop {
        let step = *steps.last().unwrap();
        match manager.start_step(step, rebuild, generation, None) {
            StartNext::Perform(next) => steps.push(next),
            StartNext::Ready => return steps,
            StartNext::End { .. } => panic!("{step:?} ended the work"),
        }
    }
}

#[test]
fn an_index_is_built_step_by_step() {
    let mut built = manager(&["/w"], false);
    let steps = all_start_steps(&mut built, true);
    assert_eq!(
        steps,
        [
            StartStep::InstallWatcher,
            StartStep::PrepareBulk,
            StartStep::BeginQueryBulk,
            StartStep::Scan,
            StartStep::FinishQueryBulk,
            StartStep::FinishBulk,
            StartStep::DrainEvents,
            StartStep::DrainChanges,
        ]
    );
    assert_eq!(built.status.phase, "ready");
    assert!(built.query_index.ready);
    let updated = all_start_steps(&mut manager(&["/w"], false), false);
    assert!(!updated.contains(&StartStep::BeginQueryBulk));
}

#[test]
fn a_failed_step_ends_the_work() {
    let mut failing = manager(&["/w"], false);
    let generation = failing.start(vec![]);
    let next = failing.start_step(StartStep::InstallWatcher, true, generation, Some("no".into()));
    assert_eq!(next, StartNext::End { stop_watcher: false, show: true });
    let next = failing.start_step(StartStep::Scan, true, generation, Some("disk".into()));
    assert_eq!(next, StartNext::End { stop_watcher: true, show: true });
    assert_eq!(failing.status.phase, "error");
    assert_eq!(failing.status.error.as_deref(), Some("disk"));
}

#[test]
fn a_stopped_scan_replaces_no_index() {
    let mut stopped = manager(&["/w"], false);
    let generation = stopped.start(vec![]);
    stopped.pause();
    let next = stopped.start_step(StartStep::Scan, true, generation, None);
    assert_eq!(next, StartNext::End { stop_watcher: true, show: false });
    let next = stopped.start_step(StartStep::Scan, true, generation, Some("late".into()));
    assert_eq!(next, StartNext::End { stop_watcher: true, show: false });
    assert_eq!(stopped.status.phase, "paused");
}

#[test]
fn volumes_are_caught_up_with_one_by_one() {
    let volumes = vec!["C:\\".to_string(), "D:\\".to_string()];
    let mut resumed = manager(&["C:\\", "D:\\"], false);
    let generation = resumed.begin_resume(Platform::Windows);
    let mut step = |step, error: Option<&str>| {
        let error = error.map(|text| text.to_string());
        resumed.resume_step(Platform::Windows, &volumes, false, step, generation, error)
    };
    assert_eq!(step(ResumeStep::FillIndex, None), ResumeNext::Perform(ResumeStep::CatchUp(0)));
    assert_eq!(
        step(ResumeStep::CatchUp(0), Some("gap")),
        ResumeNext::Perform(ResumeStep::Rescan(0))
    );
    assert_eq!(
        step(ResumeStep::Rescan(0), Some("denied")),
        ResumeNext::Perform(ResumeStep::CatchUp(1))
    );
    assert_eq!(
        step(ResumeStep::CatchUp(1), None),
        ResumeNext::Perform(ResumeStep::DrainVolume(1))
    );
    assert_eq!(
        step(ResumeStep::DrainVolume(1), None),
        ResumeNext::Perform(ResumeStep::DrainEvents)
    );
    assert_eq!(
        step(ResumeStep::DrainEvents, None),
        ResumeNext::Perform(ResumeStep::DrainChanges)
    );
    assert_eq!(step(ResumeStep::DrainChanges, None), ResumeNext::Ready { recount: true });
    assert_eq!(resumed.status.phase, "ready");
    assert_eq!(resumed.status.fallback_reason("C:\\"), Some("denied".to_string()));
    assert_eq!(resumed.status.providers[1].phase, "ready");
}

#[test]
fn incomplete_volumes_are_stored_again() {
    let volumes = vec!["C:\\".to_string()];
    let mut resumed = manager(&["C:\\"], true);
    let generation = resumed.begin_resume(Platform::Windows);
    assert_eq!(resumed.status.phase, "ready");
    let mut step = |step, error: Option<String>| {
        resumed.resume_step(Platform::Windows, &volumes, true, step, generation, error)
    };
    assert_eq!(step(ResumeStep::FillIndex, None), ResumeNext::Perform(ResumeStep::Recover(0)));
    assert_eq!(step(ResumeStep::Recover(0), None), ResumeNext::Perform(ResumeStep::FinishBulk));
    assert_eq!(
        step(ResumeStep::FinishBulk, None),
        ResumeNext::Perform(ResumeStep::DrainEvents)
    );
    assert_eq!(
        step(ResumeStep::DrainEvents, Some("disk".into())),
        ResumeNext::End { show: true }
    );
    assert!(!resumed.persistence_recovery);
    assert_eq!(resumed.status.phase, "error");
}

#[test]
fn other_systems_only_fill_the_index() {
    let mut resumed = manager(&["/w"], false);
    let generation = resumed.begin_resume(Platform::Other);
    let next = resumed.resume_step(
        Platform::Other,
        &vec![],
        false,
        ResumeStep::FillIndex,
        generation,
        None,
    );
    assert_eq!(next, ResumeNext::Ready { recount: false });
    assert_eq!(resumed.status.phase, "ready");
}

#[test]
fn a_volume_that_fails_is_read_by_directories() {
    let mut scanning = manager(&["C:\\", "E:\\"], false);
    let generation = scanning.start(vec![]);
    let mut folders = vec!["E:\\".to_string()];
    assert!(scanning.provider_failed(&mut folders, "C:\\".into(), "denied".into(), generation));
    assert_eq!(folders, ["E:\\", "C:\\"]);
    scanning.folders_scanned(&folders);
    assert_eq!(scanning.status.providers[0].phase, "ready");
    assert_eq!(scanning.status.providers[0].provider, "folderScan");
    assert_eq!(scanning.status.providers[0].fallback_reason.as_deref(), Some("denied"));
    scanning.pause();
    assert!(!scanning.provider_failed(&mut folders, "D:\\".into(), "x".into(), generation));
    assert_eq!(folders.len(), 2);
}

#[test]
fn providers_are_split_and_ordered() {
    let roots: Vec<String> =
        ["C:\\", "/mnt", "D:\\", "E:\\"].iter().map(|root| root.to_string()).collect();
    let volumes = vec![Some('C'), None, Some('D'), Some('E')];
    let (folders, ntfs) = split_providers(&roots, &volumes, Some('c'));
    assert_eq!(folders, ["/mnt"]);
    let order: Vec<&str> = ntfs.iter().map(|root| root.root.as_str()).collect();
    assert_eq!(order, ["D:\\", "E:\\", "C:\\"]);
}

#[test]
fn directories_are_read_depth_first_and_without_exclusions() {
    let roots = vec!["/w".to_string(), "/gone".to_string(), "/w/private".to_string()];
    let exclusions = vec!["/w/private".to_string()];
    let mut scan = FolderScan::new(Platform::Other, &exclusions, &roots);
    assert_eq!(scan.next_task(false), ScanTask::CheckRoot("/w".into()));
    scan.root_checked(true);
    assert_eq!(scan.next_task(false), ScanTask::ReadDirectory("/w".into()));
    let directory = Some(EntryType::Directory);
    assert_eq!(scan.entry("/w/a", directory, false, false), ScanStep::Descend);
    assert_eq!(scan.entry("/w/b", directory, false, false), ScanStep::Descend);
    assert_eq!(scan.entry("/w/private", directory, false, false), ScanStep::Skip);
    assert_eq!(scan.entry("/w/mount", directory, false, true), ScanStep::Skip);
    assert_eq!(scan.next_task(false), ScanTask::ReadDirectory("/w/b".into()));
    assert_eq!(scan.entry("/w/b/c.log", Some(EntryType::File), false, false), ScanStep::Store);
    assert!(scan.store(&stat("/w/b/c.log"), 0).is_some());
    assert_eq!(scan.next_task(false), ScanTask::ReadDirectory("/w/a".into()));
    assert_eq!(scan.next_task(true), ScanTask::Cancelled);
    assert_eq!(scan.next_task(false), ScanTask::CheckRoot("/gone".into()));
    scan.root_checked(false);
    assert_eq!(scan.next_task(false), ScanTask::CheckRoot("/w/private".into()));
    scan.root_checked(true);
    assert_eq!(scan.next_task(false), ScanTask::Finished);
    let files = scan.take_pending();
    assert_eq!(files.len(), 1);
    assert_eq!(files[0].root, "/w");
    assert!(scan.take_pending().is_empty());
}

#[test]
fn scans_write_in_batches_and_report_now_and_then() {
    let mut scan = FolderScan::new(Platform::Other, &vec![], &vec!["/w".to_string()]);
    scan.next_task(false);
    for _ in 1..SCAN_WRITE_BATCH {
        let notice = scan.store(&stat("/w/a.log"), 0).unwrap();
        assert_eq!(notice, ScanNotice { write: false, report: false });
    }
    let notice = scan.store(&stat("/w/a.log"), SCAN_REPORT_FILES - 1).unwrap();
    assert_eq!(notice, ScanNotice { write: true, report: true });
    let gone = FileStat { is_file: false, ..stat("/w/b.log") };
    assert!(scan.store(&gone, 0).is_none());
    assert_eq!(scan.take_pending().len(), SCAN_WRITE_BATCH);
}

#[test]
fn a_changed_directory_is_read_for_its_root() {
    let mut scan = FolderScan::subtree(Platform::Other, &vec![], "/w", "/w/incoming");
    assert_eq!(scan.next_task(false), ScanTask::ReadDirectory("/w/incoming".into()));
    scan.store(&stat("/w/incoming/a.log"), 0);
    assert_eq!(scan.take_pending()[0].root, "/w");
    assert_eq!(scan.next_task(false), ScanTask::Finished);
    let mut none =
        FolderScan::subtree(Platform::Other, &vec!["/w".to_string()], "/w", "/w/incoming");
    assert_eq!(none.next_task(false), ScanTask::Finished);
}

#[test]
fn changes_are_taken_out_and_put_in_again() {
    let changes = vec![
        IndexChange { path: "a".into(), operation: 1 },
        IndexChange { path: "b".into(), operation: 2 },
        IndexChange { path: "c".into(), operation: 1 },
    ];
    let (all, stored) = split_changes(&changes);
    assert_eq!(all, ["a", "b", "c"]);
    assert_eq!(stored, ["a", "c"]);
}

#[test]
fn lost_changes_build_the_index_anew() {
    assert_eq!(after_quiet(false, true), QuietAction::Stop);
    assert_eq!(after_quiet(true, true), QuietAction::Rebuild);
    assert_eq!(after_quiet(true, false), QuietAction::Wait);
}
