//! Windows, menus, startup and the opening of logs.

use logcrate::archive::ArchiveEntry;
use logcrate::inventory::DetectedItem;
use logcrate::lifecycle::{
    archive_links, check_log_entry, cleanup_stale_cache, close_action, display_path,
    ensure_search_enabled, exit_app_menu_id, failed_progress, file_revision, main_window_label,
    menu_action, reopen_action, service_command, show_main_menu_id, tray_click_action,
    tray_labels, tree_child, CacheCleanup, LifecycleAction, ModifiedTime, OpenLogError,
    SearchDisabled, ServiceCommand,
};
use logcrate::startup::{
    draw_frame, draw_text, fill_rect, glyph, text_width, track_width, StartupRenderer, ACCENT,
    BACKGROUND, FOREGROUND, TRACK,
};
use logcrate::startup_trace::{record_process_start, StartupTrace};

#[test]
fn file_revision_reports_changes_and_missing_sources() {
    let time = |seconds| Some(ModifiedTime { seconds, nanos: 5 });
    let first = file_revision(Some(5), time(1));
    assert!(first.exists);
    let second = file_revision(Some(14), time(1));
    assert!(second.exists);
    assert_ne!(first.revision, second.revision);
    assert_ne!(first.revision, file_revision(Some(5), time(2)).revision);
    let missing = file_revision(None, None);
    assert!(!missing.exists);
    assert!(missing.revision.is_none());
}

#[test]
fn main_window_close_hides_only_the_main_window() {
    assert_eq!(close_action(main_window_label()), LifecycleAction::HideMainWindow);
    assert_eq!(close_action("settings"), LifecycleAction::Ignore);
}

#[test]
fn tray_menu_maps_show_exit_and_unknown_actions() {
    assert_eq!(menu_action(show_main_menu_id()), LifecycleAction::ShowMainWindow);
    assert_eq!(menu_action(exit_app_menu_id()), LifecycleAction::ExitApplication);
    assert_eq!(menu_action("unknown"), LifecycleAction::Ignore);
}

#[test]
fn tray_labels_support_chinese_and_fall_back_to_english() {
    assert_eq!(tray_labels("zh-CN"), ("显示主窗口", "退出 LogCrate"));
    assert_eq!(tray_labels("en"), ("Show main window", "Exit LogCrate"));
    assert_eq!(tray_labels("fr"), ("Show main window", "Exit LogCrate"));
}

#[test]
fn only_left_button_release_restores_the_window() {
    assert_eq!(tray_click_action(true, true), LifecycleAction::ShowMainWindow);
    assert_eq!(tray_click_action(true, false), LifecycleAction::Ignore);
    assert_eq!(tray_click_action(false, true), LifecycleAction::Ignore);
}

#[test]
fn repeated_restore_requests_remain_idempotent_actions() {
    assert_eq!(tray_click_action(true, true), tray_click_action(true, true));
    assert_eq!(menu_action(show_main_menu_id()), LifecycleAction::ShowMainWindow);
}

#[test]
fn macos_reopen_restores_the_existing_main_window() {
    assert_eq!(reopen_action(), LifecycleAction::ShowMainWindow);
}

#[test]
fn application_start_keeps_current_cache_and_removes_stale_runs() {
    assert_eq!(cleanup_stale_cache(true, true), CacheCleanup::Keep);
    assert_eq!(cleanup_stale_cache(false, true), CacheCleanup::RemoveEmptyDirectory);
    assert_eq!(cleanup_stale_cache(false, false), CacheCleanup::RemoveFile);
}

#[test]
fn logs_are_opened_only_where_they_can_be_read() {
    let entry = |path: &str, size, is_log, encrypted| ArchiveEntry {
        path: path.into(),
        size,
        is_log,
        encrypted,
    };
    let entries = vec![
        entry("a.log", 10, true, false),
        entry("secret.log", 10, true, true),
        entry("image.bin", 10, false, false),
        entry("huge.log", 3_000_000_000, true, false),
    ];
    assert!(check_log_entry(&entries, "a.log", 0).is_ok());
    assert_eq!(check_log_entry(&entries, "b.log", 0), Err(OpenLogError::Missing));
    assert_eq!(check_log_entry(&entries, "secret.log", 0), Err(OpenLogError::Encrypted));
    assert_eq!(check_log_entry(&entries, "image.bin", 0), Err(OpenLogError::NotLog));
    assert_eq!(check_log_entry(&entries, "huge.log", 0), Err(OpenLogError::TooLarge));
}

#[test]
fn nested_archives_are_shown_as_a_chain() {
    assert_eq!(archive_links("/w/a.zip"), ["/w/a.zip"]);
    assert_eq!(archive_links("/w/a.zip::b.zip"), ["/w/a.zip", "b.zip"]);
    assert_eq!(display_path("/w/a.log", "/w/a.log", Some("a.log")), "/w/a.log");
    assert_eq!(
        display_path("/w/a.zip::b.zip", "logs/a.log", Some("a.zip")),
        "a.zip › b.zip › logs/a.log"
    );
    assert_eq!(display_path("a.zip", "a.log", None), "a.zip › a.log");
    assert!(failed_progress("s1".into(), "broken".into()).failed);
    assert_eq!(ensure_search_enabled(true), Ok(()));
    assert_eq!(ensure_search_enabled(false), Err(SearchDisabled));
    let child = tree_child(DetectedItem {
        path: "/w/a.log".into(),
        name: "a.log".into(),
        kind: "file".into(),
        size: 3,
        source: "w".into(),
        is_log: true,
    });
    assert_eq!(child.id, "/w/a.log");
    assert_eq!(child.name, "a.log");
    assert!(!child.unread);
}

#[test]
fn the_service_is_told_what_to_do() {
    let args = |all: &[&str]| all.iter().map(|arg| arg.to_string()).collect::<Vec<String>>();
    assert_eq!(service_command(&args(&["--install"])), ServiceCommand::Install);
    assert_eq!(service_command(&args(&["--uninstall"])), ServiceCommand::Uninstall);
    assert_eq!(service_command(&args(&["--probe", "d"])), ServiceCommand::Probe('d'));
    assert_eq!(service_command(&args(&["--probe-usn"])), ServiceCommand::ProbeUsn('C'));
    assert_eq!(service_command(&args(&["--once"])), ServiceCommand::Console { once: true });
    assert_eq!(service_command(&args(&["--console"])), ServiceCommand::Console { once: false });
    assert_eq!(service_command(&args(&[])), ServiceCommand::Service);
}

#[test]
fn startup_stages_are_recorded_once_in_order() {
    let mut trace = StartupTrace::new(0);
    trace.mark("native-first-frame", 5);
    trace.mark("native-first-frame", 6);
    trace.mark("interactive-frame", 9);
    let names = trace.stages().into_iter().map(|stage| stage.name).collect::<Vec<_>>();
    assert_eq!(names, vec!["process-start", "native-first-frame", "interactive-frame"]);
    assert_eq!(trace.stages()[1].elapsed_micros, 5);
    let mut start = None;
    record_process_start(&mut start, 3);
    record_process_start(&mut start, 8);
    assert_eq!(start, Some(3));
}

#[test]
fn frame_draws_brand_and_progress_over_white_background() {
    let mut pixels = vec![0; 320 * 200];
    draw_frame(&mut pixels, 320, 200, track_width(320) / 2);
    assert!(pixels.contains(&FOREGROUND));
    assert!(pixels.contains(&TRACK));
    assert!(pixels.contains(&ACCENT));
    assert!(pixels.contains(&BACKGROUND));
}

#[test]
fn shapes_stay_inside_the_frame() {
    let mut pixels = vec![BACKGROUND; 4 * 3];
    fill_rect(&mut pixels, 4, 3, 2, 1, 9, 9, ACCENT);
    let filled: Vec<usize> = (0..12).filter(|at| pixels[*at] == ACCENT).collect();
    assert_eq!(filled, [6, 7, 10, 11]);
    assert_eq!(glyph('?'), [0; 7]);
    assert_eq!(glyph('t')[2], 0b11111);
    assert_eq!(text_width("ab", 2), 22);
    let mut letters = vec![BACKGROUND; 12 * 8];
    draw_text(&mut letters, 12, 8, 0, 0, 1, "t");
    assert_eq!(letters[2], FOREGROUND);
    assert_eq!(letters[0], BACKGROUND);
    let mut renderer = StartupRenderer::new();
    assert!(renderer.running);
    renderer.stop();
    assert!(!renderer.running);
}

#[test]
fn pixels_behind_the_picture_are_kept() {
    let mut pixels = vec![7; 4 * 3 + 5];
    fill_rect(&mut pixels, 4, 3, 0, 0, 9, 9, ACCENT);
    assert_eq!(pixels[..12], [ACCENT; 12]);
    assert_eq!(pixels[12..], [7; 5]);
    let mut letters = vec![7; 5 * 7 + 3];
    draw_text(&mut letters, 5, 7, 0, 0, 1, "L");
    assert_eq!(letters[0], FOREGROUND);
    assert_eq!(letters[1], 7);
    assert_eq!(letters[35..], [7; 3]);
    let mut none = vec![7; 2];
    fill_rect(&mut none, 0, 3, 0, 0, 9, 9, ACCENT);
    assert_eq!(none, [7; 2]);
    let mut long = vec![7; 320 * 200 + 9];
    draw_frame(&mut long, 320, 200, 10);
    let mut exact = vec![7; 320 * 200];
    draw_frame(&mut exact, 320, 200, 10);
    assert_eq!(long[..320 * 200], exact[..]);
    assert_eq!(long[320 * 200..], [BACKGROUND; 9]);
}

#[test]
fn letters_need_seven_rows() {
    let mut pixels = vec![BACKGROUND; 5 * 7];
    draw_text(&mut pixels, 5, 7, 0, usize::MAX - 7, 1, "L");
    assert_eq!(pixels, [BACKGROUND; 35]);
    draw_text(&mut pixels, 5, 7, 0, usize::MAX, 9, "");
    assert_eq!(pixels, [BACKGROUND; 35]);
}
