//! Windows, tray and the files that a running program leaves behind.

use crate::archive::ArchiveEntry;
use crate::inventory::DetectedItem;
use crate::sessions::{IndexProgress, MAX_UNCOMPRESSED};
use crate::text;
use crate::text::{chars_of, join_texts, push_decimal, same_text, string_of};
use vstd::prelude::*;

verus! {

/// What the program does about an event of its windows.
#[derive(Debug, Clone, Copy, PartialEq, Eq, Structural)]
pub enum LifecycleAction {
    HideMainWindow,
    ShowMainWindow,
    ExitApplication,
    Ignore,
}

pub open spec fn main_window() -> Seq<char> {
    "main"@
}

pub open spec fn show_main_item() -> Seq<char> {
    "show-main-window"@
}

pub open spec fn exit_item() -> Seq<char> {
    "exit-logpeek"@
}

/// The name of the main window.
pub fn main_window_label() -> (r: &'static str)
    ensures
        r@ == main_window(),
{
    "main"
}

/// The menu item that shows the main window.
pub fn show_main_menu_id() -> (r: &'static str)
    ensures
        r@ == show_main_item(),
{
    "show-main-window"
}

/// The menu item that ends the program.
pub fn exit_app_menu_id() -> (r: &'static str)
    ensures
        r@ == exit_item(),
{
    "exit-logpeek"
}

/// Closing the main window only hides it.
pub fn close_action(window_label: &str) -> (r: LifecycleAction)
    ensures
        r == if window_label@ == main_window() {
            LifecycleAction::HideMainWindow
        } else {
            LifecycleAction::Ignore
        },
{
    if same_text(window_label, main_window_label()) {
        LifecycleAction::HideMainWindow
    } else {
        LifecycleAction::Ignore
    }
}

pub open spec fn menu_choice(menu_id: Seq<char>) -> LifecycleAction {
    if menu_id == show_main_item() {
        LifecycleAction::ShowMainWindow
    } else if menu_id == exit_item() {
        LifecycleAction::ExitApplication
    } else {
        LifecycleAction::Ignore
    }
}

pub fn menu_action(menu_id: &str) -> (r: LifecycleAction)
    ensures
        r == menu_choice(menu_id@),
{
    if same_text(menu_id, show_main_menu_id()) {
        LifecycleAction::ShowMainWindow
    } else if same_text(menu_id, exit_app_menu_id()) {
        LifecycleAction::ExitApplication
    } else {
        LifecycleAction::Ignore
    }
}

/// Only the release of the left button shows the window.
pub fn tray_click_action(is_left_button: bool, is_released: bool) -> (r: LifecycleAction)
    ensures
        r == if is_left_button && is_released {
            LifecycleAction::ShowMainWindow
        } else {
            LifecycleAction::Ignore
        },
{
    if is_left_button && is_released {
        LifecycleAction::ShowMainWindow
    } else {
        LifecycleAction::Ignore
    }
}

pub fn reopen_action() -> (r: LifecycleAction)
    ensures
        r == LifecycleAction::ShowMainWindow,
{
    LifecycleAction::ShowMainWindow
}

/// The texts of the tray menu: show, and exit.
pub fn tray_labels(locale: &str) -> (r: (&'static str, &'static str))
    ensures
        locale@ == "zh-CN"@ ==> r.0@ == "显示主窗口"@ && r.1@ == "退出 LogCrate"@,
        locale@ != "zh-CN"@ ==> r.0@ == "Show main window"@ && r.1@ == "Exit LogCrate"@,
{
    if same_text(locale, "zh-CN") {
        ("显示主窗口", "退出 LogCrate")
    } else {
        ("Show main window", "Exit LogCrate")
    }
}

/// When a file was modified: seconds, and nanoseconds of the last one.
#[derive(Debug, Clone, Copy, PartialEq, Eq, Structural)]
pub struct ModifiedTime {
    pub seconds: u64,
    pub nanos: u32,
}

/// A text that differs whenever size or time of a file do.
pub open spec fn revision(size: u64, modified: Option<ModifiedTime>) -> Seq<char> {
    text::decimal(size as nat) + ":"@ + match modified {
        Some(m) => text::decimal(m.seconds as nat) + ":"@ + text::decimal(m.nanos as nat),
        None => "unknown"@,
    }
}

/// Whether a file is there, and a text that tells its states apart.
#[derive(Debug, Clone, PartialEq, Eq)]
pub struct FileRevision {
    pub exists: bool,
    pub revision: Option<String>,
}

/// The revision of a file; `size` is given for files only.
pub fn file_revision(size: Option<u64>, modified: Option<ModifiedTime>) -> (r: FileRevision)
    ensures
        match size {
            Some(s) => r.exists && r.revision is Some && r.revision->0@ == revision(s, modified),
            None => !r.exists && r.revision is None,
        },
{
    match size {
        None => FileRevision { exists: false, revision: None },
        Some(s) => {
            let mut t = String::new();
            push_decimal(&mut t, s);
            assert(t@ =~= text::decimal(s as nat));
            t.append(":");
            match modified {
                Some(m) => {
                    push_decimal(&mut t, m.seconds);
                    t.append(":");
                    push_decimal(&mut t, m.nanos as u64);
                },
                None => {
                    t.append("unknown");
                },
            }
            assert(t@ =~= revision(s, modified));
            FileRevision { exists: true, revision: Some(t) }
        },
    }
}

/// No character of `s` is a colon.
spec fn without_colon(s: Seq<char>) -> bool {
    forall|i: int| 0 <= i < s.len() ==> (#[trigger] s[i]) != ':'
}

proof fn decimal_has_no_colon(n: nat)
    ensures
        without_colon(text::decimal(n)),
        text::decimal(n).len() > 0,
        '0' <= text::decimal(n)[0] <= '9',
    decreases n,
{
    if n >= 10 {
        decimal_has_no_colon(n / 10);
    }
}

proof fn parts_before_colon_agree(a: Seq<char>, x: Seq<char>, b: Seq<char>, y: Seq<char>)
    requires
        without_colon(a),
        without_colon(b),
        a + ":"@ + x == b + ":"@ + y,
    ensures
        a == b,
        x == y,
{
    reveal_strlit(":");
    let s = a + ":"@ + x;
    let t = b + ":"@ + y;
    if a.len() < b.len() {
        assert(s[a.len() as int] == ':');
        assert(t[a.len() as int] == b[a.len() as int]);
    }
    if b.len() < a.len() {
        assert(t[b.len() as int] == ':');
        assert(s[b.len() as int] == a[b.len() as int]);
    }
    assert(a =~= s.take(a.len() as int));
    assert(b =~= t.take(b.len() as int));
    assert(x =~= s.skip(a.len() as int + 1));
    assert(y =~= t.skip(b.len() as int + 1));
}

/// Files of the same revision have the same size and the same time.
pub proof fn revision_tells_states_apart(
    size: u64,
    modified: Option<ModifiedTime>,
    other_size: u64,
    other_modified: Option<ModifiedTime>,
)
    requires
        revision(size, modified) == revision(other_size, other_modified),
    ensures
        size == other_size,
        modified == other_modified,
{
    decimal_has_no_colon(size as nat);
    decimal_has_no_colon(other_size as nat);
    let x = match modified {
        Some(m) => text::decimal(m.seconds as nat) + ":"@ + text::decimal(m.nanos as nat),
        None => "unknown"@,
    };
    let y = match other_modified {
        Some(m) => text::decimal(m.seconds as nat) + ":"@ + text::decimal(m.nanos as nat),
        None => "unknown"@,
    };
    parts_before_colon_agree(text::decimal(size as nat), x, text::decimal(other_size as nat), y);
    text::decimal_is_injective(size as nat, other_size as nat);
    reveal_strlit("unknown");
    reveal_strlit(":");
    match (modified, other_modified) {
        (Some(m), Some(n)) => {
            decimal_has_no_colon(m.seconds as nat);
            decimal_has_no_colon(n.seconds as nat);
            parts_before_colon_agree(
                text::decimal(m.seconds as nat),
                text::decimal(m.nanos as nat),
                text::decimal(n.seconds as nat),
                text::decimal(n.nanos as nat),
            );
            text::decimal_is_injective(m.seconds as nat, n.seconds as nat);
            text::decimal_is_injective(m.nanos as nat, n.nanos as nat);
        },
        (Some(m), None) => {
            decimal_has_no_colon(m.seconds as nat);
            assert(x[0] == text::decimal(m.seconds as nat)[0]);
            assert(y[0] == 'u');
        },
        (None, Some(n)) => {
            decimal_has_no_colon(n.seconds as nat);
            assert(y[0] == text::decimal(n.seconds as nat)[0]);
            assert(x[0] == 'u');
        },
        (None, None) => {},
    }
}

/// What becomes of something in the directory of caches.
#[derive(Debug, Clone, Copy, PartialEq, Eq, Structural)]
pub enum CacheCleanup {
    Keep,
    /// It is removed if it is empty: another run may still use it.
    RemoveEmptyDirectory,
    RemoveFile,
}

/// Caches of other runs go, that of this run stays.
pub fn cleanup_stale_cache(is_current: bool, is_dir: bool) -> (r: CacheCleanup)
    ensures
        r == if is_current {
            CacheCleanup::Keep
        } else if is_dir {
            CacheCleanup::RemoveEmptyDirectory
        } else {
            CacheCleanup::RemoveFile
        },
{
    if is_current {
        CacheCleanup::Keep
    } else if is_dir {
        CacheCleanup::RemoveEmptyDirectory
    } else {
        CacheCleanup::RemoveFile
    }
}

/// An entry of the tree of watched directories.
#[derive(Debug, Clone, PartialEq, Eq)]
pub struct TreeChild {
    pub id: String,
    pub name: String,
    pub kind: String,
    pub path: String,
    pub size: u64,
    pub is_log: bool,
    pub source: String,
    pub unread: bool,
}

pub fn tree_child(item: DetectedItem) -> (r: TreeChild)
    ensures
        r.id@ == item.path@,
        r.name == item.name,
        r.kind == item.kind,
        r.path == item.path,
        r.size == item.size,
        r.is_log == item.is_log,
        r.source == item.source,
        !r.unread,
{
    TreeChild {
        id: item.path.clone(),
        name: item.name,
        kind: item.kind,
        path: item.path,
        size: item.size,
        is_log: item.is_log,
        source: item.source,
        unread: false,
    }
}

/// Whether searching is available in this run.
pub fn ensure_search_enabled(current_enabled: bool) -> (r: Result<(), SearchDisabled>)
    ensures
        r is Ok <==> current_enabled,
{
    if current_enabled {
        Ok(())
    } else {
        Err(SearchDisabled)
    }
}

/// Searching is disabled in this run.
#[derive(Debug, Clone, Copy, PartialEq, Eq)]
pub struct SearchDisabled;

/// Why an entry of an archive cannot be viewed.
#[derive(Debug, Clone, Copy, PartialEq, Eq, Structural)]
pub enum OpenLogError {
    Missing,
    Encrypted,
    NotLog,
    /// With what was decoded to get to it, it is more than allowed.
    TooLarge,
}

/// The place of the first entry of that path.
pub open spec fn entry_place(entries: Seq<ArchiveEntry>, path: Seq<char>) -> Option<int>
    decreases entries.len(),
{
    if entries.len() == 0 {
        None
    } else {
        match entry_place(entries.drop_last(), path) {
            Some(i) => Some(i),
            None => if entries.last().path@ == path {
                Some(entries.len() - 1)
            } else {
                None
            },
        }
    }
}

/// How much may still be decoded.
pub open spec fn remaining(decoded: u64) -> u64 {
    if decoded >= MAX_UNCOMPRESSED {
        0
    } else {
        (MAX_UNCOMPRESSED - decoded) as u64
    }
}

/// Whether an entry can be viewed: its size, and how much may be decoded.
pub fn check_log_entry(entries: &Vec<ArchiveEntry>, entry_path: &str, decoded_bytes: u64) -> (r:
    Result<(u64, u64), OpenLogError>)
    ensures
        match entry_place(entries@, entry_path@) {
            None => r == Err::<(u64, u64), OpenLogError>(OpenLogError::Missing),
            Some(i) => {
                let e = entries@[i];
                r == if e.encrypted {
                    Err(OpenLogError::Encrypted)
                } else if !e.is_log {
                    Err(OpenLogError::NotLog)
                } else if e.size > remaining(decoded_bytes) {
                    Err(OpenLogError::TooLarge)
                } else {
                    Ok::<(u64, u64), OpenLogError>((e.size, remaining(decoded_bytes)))
                }
            },
        },
{
    let mut found: Option<usize> = None;
    assert(entries@.take(0) =~= Seq::empty());
    for i in 0..entries.len()
        invariant
            match entry_place(entries@.take(i as int), entry_path@) {
                Some(k) => found is Some && found->0 == k && 0 <= k < i,
                None => found is None,
            },
    {
        assert(entries@.take(i + 1).drop_last() =~= entries@.take(i as int));
        if found.is_none() && same_text(entries[i].path.as_str(), entry_path) {
            found = Some(i);
        }
    }
    assert(entries@.take(entries@.len() as int) =~= entries@);
    match found {
        None => Err(OpenLogError::Missing),
        Some(i) => {
            if entries[i].encrypted {
                return Err(OpenLogError::Encrypted);
            }
            if !entries[i].is_log {
                return Err(OpenLogError::NotLog);
            }
            let declared: u64 = entries[i].size;
            let limit: u64 = MAX_UNCOMPRESSED.saturating_sub(decoded_bytes);
            if declared > limit {
                return Err(OpenLogError::TooLarge);
            }
            Ok((declared, limit))
        },
    }
}

/// Two colons stand at `i`.
pub open spec fn link_at(s: Seq<char>, i: int) -> bool {
    0 <= i && i + 1 < s.len() && s[i] == ':' && s[i + 1] == ':'
}

/// The links of a chain of archives, from `start` on: the pieces between
/// pairs of colons; `at` is how far a piece without one is known.
pub open spec fn links_from(s: Seq<char>, start: int, at: int) -> Seq<Seq<char>>
    decreases s.len() - at,
{
    if at < start || at >= s.len() {
        seq![s.subrange(start, s.len() as int)]
    } else if link_at(s, at) {
        seq![s.subrange(start, at)] + links_from(s, at + 2, at + 2)
    } else {
        links_from(s, start, at + 1)
    }
}

/// The links of a chain of archives.
pub open spec fn links(s: Seq<char>) -> Seq<Seq<char>> {
    links_from(s, 0, 0)
}

pub fn archive_links(path: &str) -> (r: Vec<String>)
    ensures
        text::texts(r@) == links(path@),
        r@.len() > 0,
{
    let chars = chars_of(path);
    let ghost s = path@;
    let mut r: Vec<String> = Vec::new();
    let mut piece: Vec<char> = Vec::new();
    let mut start: usize = 0;
    let mut at: usize = 0;
    assert(text::texts(r@) + links_from(s, 0, 0) =~= links(s));
    assert(piece@ =~= s.subrange(0, 0));
    while at < chars.len()
        invariant
            chars@ == s,
            start <= at <= chars@.len(),
            piece@ == s.subrange(start as int, at as int),
            text::texts(r@) + links_from(s, start as int, at as int) == links(s),
        decreases chars@.len() - at,
    {
        let ghost before = text::texts(r@);
        if at + 1 < chars.len() && chars[at] == ':' && chars[at + 1] == ':' {
            let link = string_of(piece.as_slice());
            r.push(link);
            assert(text::texts(r@) =~= before.push(link@));
            assert(before + (seq![link@] + links_from(s, at + 2, at + 2)) =~= text::texts(r@)
                + links_from(s, at + 2, at + 2));
            piece = Vec::new();
            at = at + 2;
            start = at;
            assert(piece@ =~= s.subrange(start as int, at as int));
        } else {
            piece.push(chars[at]);
            at = at + 1;
            assert(piece@ =~= s.subrange(start as int, at as int));
        }
    }
    let ghost before = text::texts(r@);
    let link = string_of(piece.as_slice());
    r.push(link);
    assert(text::texts(r@) =~= before.push(link@));
    assert(links_from(s, start as int, at as int) =~= seq![link@]);
    assert(before + seq![link@] =~= text::texts(r@));
    r
}

/// How an opened log is titled: by its path, or by the chain of archives
/// that leads to it. `root_name` is the name of the outermost archive.
pub open spec fn log_title(
    archive_path: Seq<char>,
    entry_path: Seq<char>,
    root_name: Option<Seq<char>>,
) -> Seq<char> {
    if entry_path == archive_path {
        entry_path
    } else {
        let chain = links(archive_path);
        let name = match root_name {
            Some(n) => n,
            None => chain[0],
        };
        name + " › "@ + text::joined_by(chain.drop_first().push(entry_path), " › "@)
    }
}

pub fn display_path(archive_path: &str, entry_path: &str, root_name: Option<&str>) -> (r: String)
    ensures
        r@ == log_title(
            archive_path@,
            entry_path@,
            match root_name {
                Some(n) => Some(n@),
                None => None,
            },
        ),
{
    if same_text(entry_path, archive_path) {
        return entry_path.to_owned();
    }
    let chain = archive_links(archive_path);
    let ghost all = text::texts(chain@);
    let mut title: String = match root_name {
        Some(n) => n.to_owned(),
        None => chain[0].clone(),
    };
    let mut nested: Vec<String> = Vec::new();
    assert(text::texts(nested@) =~= all.subrange(1, 1));
    for i in 1..chain.len()
        invariant
            chain@.len() > 0,
            all == text::texts(chain@),
            text::texts(nested@) == all.subrange(1, i as int),
    {
        let ghost before = text::texts(nested@);
        nested.push(chain[i].clone());
        assert(text::texts(nested@) =~= before.push(all[i as int]));
        assert(all.subrange(1, i + 1) =~= before.push(all[i as int]));
    }
    let ghost before = text::texts(nested@);
    nested.push(entry_path.to_owned());
    assert(before =~= all.drop_first());
    assert(text::texts(nested@) =~= all.drop_first().push(entry_path@));
    title.append(" › ");
    title.append(join_texts(&nested, " › ").as_str());
    title
}

/// What is told when a log cannot be read at all.
pub fn failed_progress(session_id: String, error: String) -> (r: IndexProgress)
    ensures
        r.session_id == session_id,
        r.percent == 100,
        r.indexed_lines == 0,
        r.done,
        r.failed,
        r.detected_encoding@ == "Unknown"@,
        r.effective_encoding@ == "UTF-8"@,
        r.error == Some(error),
{
    IndexProgress {
        session_id,
        percent: 100,
        indexed_lines: 0,
        done: true,
        failed: true,
        detected_encoding: "Unknown".to_owned(),
        effective_encoding: "UTF-8".to_owned(),
        error: Some(error),
    }
}

/// What the indexing service is started for.
#[derive(Debug, Clone, Copy, PartialEq, Eq, Structural)]
pub enum ServiceCommand {
    Install,
    Uninstall,
    /// Reads a volume, to see whether that works.
    Probe(char),
    ProbeUsn(char),
    /// Serves outside of the system's services.
    Console { once: bool },
    Service,
}

/// The place of the first argument `name`.
pub open spec fn argument_place(args: Seq<Seq<char>>, name: Seq<char>) -> Option<int>
    decreases args.len(),
{
    if args.len() == 0 {
        None
    } else {
        match argument_place(args.drop_last(), name) {
            Some(i) => Some(i),
            None => if args.last() == name {
                Some(args.len() - 1)
            } else {
                None
            },
        }
    }
}

fn find_argument(args: &Vec<String>, name: &str) -> (r: Option<usize>)
    ensures
        match argument_place(text::texts(args@), name@) {
            Some(i) => r is Some && r->0 == i && 0 <= i < args@.len(),
            None => r is None,
        },
{
    let ghost all = text::texts(args@);
    let mut found: Option<usize> = None;
    assert(all.take(0) =~= Seq::empty());
    for i in 0..args.len()
        invariant
            all == text::texts(args@),
            match argument_place(all.take(i as int), name@) {
                Some(k) => found is Some && found->0 == k && 0 <= k < i,
                None => found is None,
            },
    {
        assert(all.take(i + 1).drop_last() =~= all.take(i as int));
        if found.is_none() && same_text(args[i].as_str(), name) {
            found = Some(i);
        }
    }
    assert(all.take(all.len() as int) =~= all);
    found
}

/// The volume that the argument behind a place names; `C` without one.
pub open spec fn volume_behind(args: Seq<Seq<char>>, i: int) -> char {
    if i + 1 < args.len() && args[i + 1].len() > 0 {
        args[i + 1][0]
    } else {
        'C'
    }
}

fn volume_argument(args: &Vec<String>, i: usize) -> (r: char)
    requires
        i < args@.len(),
    ensures
        r == volume_behind(text::texts(args@), i as int),
{
    if i < args.len() - 1 {
        let chars = chars_of(args[i + 1].as_str());
        assert(text::texts(args@)[i + 1] == chars@);
        if chars.len() > 0 {
            return chars[0];
        }
    }
    'C'
}

pub open spec fn command_of(args: Seq<Seq<char>>) -> ServiceCommand {
    if argument_place(args, "--install"@) is Some {
        ServiceCommand::Install
    } else if argument_place(args, "--uninstall"@) is Some {
        ServiceCommand::Uninstall
    } else if argument_place(args, "--probe"@) is Some {
        ServiceCommand::Probe(volume_behind(args, argument_place(args, "--probe"@)->0))
    } else if argument_place(args, "--probe-usn"@) is Some {
        ServiceCommand::ProbeUsn(volume_behind(args, argument_place(args, "--probe-usn"@)->0))
    } else if argument_place(args, "--console"@) is Some || argument_place(
        args,
        "--once"@,
    ) is Some {
        ServiceCommand::Console { once: argument_place(args, "--once"@) is Some }
    } else {
        ServiceCommand::Service
    }
}

/// What the arguments of the indexing service ask for.
pub fn service_command(args: &Vec<String>) -> (r: ServiceCommand)
    ensures
        r == command_of(text::texts(args@)),
{
    if find_argument(args, "--install").is_some() {
        return ServiceCommand::Install;
    }
    if find_argument(args, "--uninstall").is_some() {
        return ServiceCommand::Uninstall;
    }
    match find_argument(args, "--probe") {
        Some(i) => {
            return ServiceCommand::Probe(volume_argument(args, i));
        },
        None => {},
    }
    match find_argument(args, "--probe-usn") {
        Some(i) => {
            return ServiceCommand::ProbeUsn(volume_argument(args, i));
        },
        None => {},
    }
    let once: bool = find_argument(args, "--once").is_some();
    if find_argument(args, "--console").is_some() || once {
        return ServiceCommand::Console { once };
    }
    ServiceCommand::Service
}

/// The entry that is opened is the first one of that path; only where there is
/// none it is missing.
pub proof fn first_entry_is_opened(entries: Seq<ArchiveEntry>, path: Seq<char>)
    ensures
        entry_place(entries, path) is None <==> forall|i: int|
            0 <= i < entries.len() ==> (#[trigger] entries[i]).path@ != path,
        entry_place(entries, path) matches Some(i) ==> 0 <= i < entries.len() && entries[i].path@
            == path && forall|j: int| 0 <= j < i ==> (#[trigger] entries[j]).path@ != path,
    decreases entries.len(),
{
    if entries.len() > 0 {
        let rest = entries.drop_last();
        first_entry_is_opened(rest, path);
        assert forall|i: int| 0 <= i < rest.len() implies #[trigger] rest[i] == entries[i] by {}
        assert(entries[entries.len() - 1] == entries.last());
        if entry_place(entries, path) is None {
            assert forall|i: int| 0 <= i < entries.len() implies (#[trigger] entries[i]).path@
                != path by {
                if i < rest.len() {
                    assert(rest[i].path@ != path);
                }
            }
        } else {
            let i = entry_place(entries, path)->0;
            assert forall|j: int| 0 <= j < i implies (#[trigger] entries[j]).path@ != path by {
                assert(rest[j].path@ != path);
            }
        }
    }
}

/// Two gibibytes may be decoded in all.
pub proof fn two_gibibytes_may_be_decoded(decoded: u64)
    ensures
        decoded <= 0x8000_0000 ==> decoded + remaining(decoded) == 0x8000_0000,
        decoded > 0x8000_0000 ==> remaining(decoded) == 0,
{
}

/// No pair of colons stands in `s`, and none can arise behind it.
pub open spec fn is_link(s: Seq<char>) -> bool {
    &&& forall|i: int| 0 <= i && i + 1 < s.len() ==> #[trigger] s[i] != ':' || s[i + 1] != ':'
    &&& s.len() > 0 ==> s.last() != ':'
}

/// A chain of archives comes apart into the links that it was joined from.
pub proof fn joined_links_come_apart(v: Seq<Seq<char>>)
    requires
        v.len() > 0,
        forall|i: int| 0 <= i < v.len() ==> is_link(#[trigger] v[i]),
    ensures
        links(text::joined_by(v, seq![':', ':'])) == v,
{
    let s = text::joined_by(v, seq![':', ':']);
    links_behind(Seq::empty(), v);
    assert(Seq::<char>::empty() + s =~= s);
}

proof fn joined_from_the_front(v: Seq<Seq<char>>, sep: Seq<char>)
    requires
        v.len() > 1,
    ensures
        text::joined_by(v, sep) == v[0] + sep + text::joined_by(v.drop_first(), sep),
    decreases v.len(),
{
    let rest = v.drop_first();
    if v.len() == 2 {
        assert(v.drop_last() =~= seq![v[0]]);
        assert(text::joined_by(v.drop_last(), sep) == v[0]);
        assert(text::joined_by(rest, sep) == v[1]);
    } else {
        joined_from_the_front(v.drop_last(), sep);
        assert(v.drop_last().drop_first() =~= rest.drop_last());
        let inner = text::joined_by(rest.drop_last(), sep);
        assert(text::joined_by(rest, sep) == inner + sep + v.last());
        assert(v[0] + sep + inner + sep + v.last() =~= v[0] + sep + (inner + sep + v.last()));
    }
}

proof fn links_behind(before: Seq<char>, v: Seq<Seq<char>>)
    requires
        v.len() > 0,
        forall|i: int| 0 <= i < v.len() ==> is_link(#[trigger] v[i]),
    ensures
        links_from(
            before + text::joined_by(v, seq![':', ':']),
            before.len() as int,
            before.len() as int,
        ) == v,
    decreases v.len(),
{
    let sep = seq![':', ':'];
    let s = before + text::joined_by(v, sep);
    let start = before.len() as int;
    let first = v[0];
    assert(is_link(v[0]));
    if v.len() == 1 {
        assert(text::joined_by(v, sep) == first);
        piece_is_passed(s, start, start, s.len() as int, first);
        assert(s.subrange(start, s.len() as int) =~= first);
        assert(links_from(s, start, s.len() as int) =~= v);
    } else {
        let rest = v.drop_first();
        joined_from_the_front(v, sep);
        let after = text::joined_by(rest, sep);
        let end = start + first.len();
        assert(s =~= before + first + sep + after);
        assert(s[end] == ':' && s[end + 1] == ':');
        assert forall|i: int| 0 <= i < first.len() implies #[trigger] s[start + i] == first[i] by {}
        piece_is_passed(s, start, start, end, first);
        assert(link_at(s, end));
        assert(s.subrange(start, end) =~= first);
        assert forall|i: int| 0 <= i < rest.len() implies is_link(#[trigger] rest[i]) by {
            assert(rest[i] == v[i + 1]);
        }
        links_behind(before + first + sep, rest);
        assert(before + first + sep + after =~= s);
        assert(seq![first] + rest =~= v);
    }
}

proof fn piece_is_passed(s: Seq<char>, start: int, at: int, end: int, piece: Seq<char>)
    requires
        0 <= start <= at <= end <= s.len(),
        end - start == piece.len(),
        is_link(piece),
        forall|i: int| 0 <= i < piece.len() ==> #[trigger] s[start + i] == piece[i],
    ensures
        links_from(s, start, at) == links_from(s, start, end),
    decreases end - at,
{
    if at < end {
        assert(s[start + (at - start)] == piece[at - start]);
        if at + 1 < end {
            assert(s[start + (at + 1 - start)] == piece[at + 1 - start]);
        } else {
            assert(piece[at - start] == piece.last());
        }
        assert(!link_at(s, at));
        piece_is_passed(s, start, at + 1, end, piece);
    }
}

/// A log in a chain of archives is titled by the name of the outermost archive
/// and what leads from there to it.
pub proof fn title_names_the_chain(chain: Seq<Seq<char>>, entry: Seq<char>, name: Seq<char>)
    requires
        chain.len() > 0,
        forall|i: int| 0 <= i < chain.len() ==> is_link(#[trigger] chain[i]),
        entry != text::joined_by(chain, seq![':', ':']),
    ensures
        log_title(text::joined_by(chain, seq![':', ':']), entry, Some(name)) == name + " › "@
            + text::joined_by(chain.drop_first().push(entry), " › "@),
        log_title(text::joined_by(chain, seq![':', ':']), entry, None) == chain[0] + " › "@
            + text::joined_by(chain.drop_first().push(entry), " › "@),
        log_title(entry, entry, Some(name)) == entry,
{
    joined_links_come_apart(chain);
}

/// The place of an argument is that of the first one that is the same.
pub proof fn first_argument_is_found(args: Seq<Seq<char>>, name: Seq<char>)
    ensures
        argument_place(args, name) is Some <==> args.contains(name),
        argument_place(args, name) matches Some(i) ==> 0 <= i < args.len() && args[i] == name
            && forall|j: int| 0 <= j < i ==> #[trigger] args[j] != name,
    decreases args.len(),
{
    if args.len() > 0 {
        let rest = args.drop_last();
        first_argument_is_found(rest, name);
        assert(args[args.len() - 1] == args.last());
        if args.contains(name) && args.last() != name {
            let i = choose|i: int| 0 <= i < args.len() && args[i] == name;
            assert(rest[i] == name);
        }
        if argument_place(args, name) is Some {
            let i = argument_place(args, name)->0;
            assert forall|j: int| 0 <= j < i implies #[trigger] args[j] != name by {
                assert(rest[j] == args[j]);
                if argument_place(rest, name) is None && rest[j] == name {
                    assert(rest.contains(name));
                }
            }
        }
    }
}

/// What the service is asked for goes by the arguments that are there; without
/// any of them it serves.
pub proof fn arguments_tell_the_command(args: Seq<Seq<char>>)
    ensures
        command_of(args) == ServiceCommand::Install <==> args.contains("--install"@),
        command_of(args) == ServiceCommand::Uninstall <==> args.contains("--uninstall"@)
            && !args.contains("--install"@),
        command_of(args) is Probe <==> args.contains("--probe"@) && !args.contains("--uninstall"@)
            && !args.contains("--install"@),
        command_of(args) is ProbeUsn <==> args.contains("--probe-usn"@) && !args.contains(
            "--probe"@,
        ) && !args.contains("--uninstall"@) && !args.contains("--install"@),
        command_of(args) == ServiceCommand::Service <==> !args.contains("--install"@)
            && !args.contains("--uninstall"@) && !args.contains("--probe"@) && !args.contains(
            "--probe-usn"@,
        ) && !args.contains("--console"@) && !args.contains("--once"@),
        command_of(args) matches ServiceCommand::Console { once } ==> once == args.contains(
            "--once"@,
        ),
{
    first_argument_is_found(args, "--install"@);
    first_argument_is_found(args, "--uninstall"@);
    first_argument_is_found(args, "--probe"@);
    first_argument_is_found(args, "--probe-usn"@);
    first_argument_is_found(args, "--console"@);
    first_argument_is_found(args, "--once"@);
}

/// The two items of the tray menu do what they say, and nothing else does.
pub proof fn menu_items_act(menu_id: Seq<char>)
    ensures
        menu_choice(menu_id) == LifecycleAction::ShowMainWindow <==> menu_id
            == "show-main-window"@,
        menu_choice(menu_id) == LifecycleAction::ExitApplication <==> menu_id == "exit-logpeek"@,
        menu_choice(menu_id) != LifecycleAction::HideMainWindow,
        main_window() == "main"@,
{
    reveal_strlit("show-main-window");
    reveal_strlit("exit-logpeek");
    assert("show-main-window"@.len() != "exit-logpeek"@.len());
}

/// The volume that is probed is the first letter of the argument behind, and
/// `C` where there is none.
pub proof fn probed_volume_is_named_behind(args: Seq<Seq<char>>)
    ensures
        command_of(args) matches ServiceCommand::Probe(v) ==> {
            let i = argument_place(args, "--probe"@)->0;
            if i + 1 < args.len() && args[i + 1].len() > 0 {
                v == args[i + 1][0]
            } else {
                v == 'C'
            }
        },
        command_of(args) matches ServiceCommand::ProbeUsn(v) ==> {
            let i = argument_place(args, "--probe-usn"@)->0;
            if i + 1 < args.len() && args[i + 1].len() > 0 {
                v == args[i + 1][0]
            } else {
                v == 'C'
            }
        },
{
}

} // verus!
