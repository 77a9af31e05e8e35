//! Watched directories: which ones, what is reported from them, and which
//! watchers run.

use crate::archive;
use crate::archive::is_archive_name;
use crate::inventory::DetectedItem;
use crate::paths;
use crate::paths::{deepest_root, minimal_coverage_roots, parts_within, KnownPath};
use crate::text;
use crate::text::{
    contains_text, copy_texts, has_suffix, same_text, same_texts, string_of, to_lowercase, trim,
};
use crate::text_map::TextMap;
use vstd::prelude::*;

verus! {

/// The version of the stored configuration.
pub const CONFIG_VERSION: u32 = 2;

/// What is stored about watched directories.
#[derive(Debug)]
pub struct WatchConfig {
    pub version: u32,
    pub dirs: Vec<String>,
    /// The right to read a directory, by its path.
    pub macos_bookmarks: TextMap<String>,
    pub suffixes: Vec<String>,
    pub show_all: bool,
}

/// What a configuration says.
#[verifier::ext_equal]
pub struct ConfigModel {
    pub version: u32,
    pub dirs: Seq<Seq<char>>,
    pub bookmarks: Map<Seq<char>, String>,
    pub suffixes: Seq<Seq<char>>,
    pub show_all: bool,
}

impl View for WatchConfig {
    type V = ConfigModel;

    open spec fn view(&self) -> ConfigModel {
        ConfigModel {
            version: self.version,
            dirs: text::texts(self.dirs@),
            bookmarks: self.macos_bookmarks@,
            suffixes: text::texts(self.suffixes@),
            show_all: self.show_all,
        }
    }
}

/// The endings of the names of logs, unless set otherwise.
pub open spec fn usual_suffixes() -> Seq<Seq<char>> {
    seq![".log"@, ".txt"@, ".out"@]
}

pub fn default_suffixes() -> (r: Vec<String>)
    ensures
        text::texts(r@) == usual_suffixes(),
{
    let mut r: Vec<String> = Vec::new();
    r.push(".log".to_owned());
    r.push(".txt".to_owned());
    r.push(".out".to_owned());
    assert(text::texts(r@) =~= usual_suffixes());
    r
}

/// Every right belongs to a watched directory.
pub open spec fn bookmarks_belong(c: ConfigModel) -> bool {
    forall|k: Seq<char>| #[trigger] c.bookmarks.contains_key(k) ==> c.dirs.contains(k)
}

/// A name ends with one of the suffixes, in any case.
pub open spec fn suffix_matches(suffixes: Seq<Seq<char>>, name: Seq<char>) -> bool {
    exists|i: int|
        0 <= i < suffixes.len() && text::ends_with(
            text::lowercase(name),
            text::lowercase(#[trigger] suffixes[i]),
        )
}

impl Default for WatchConfig {
    fn default() -> (r: Self)
        ensures
            r.well_formed(),
            r@ == (ConfigModel {
                version: CONFIG_VERSION,
                dirs: Seq::empty(),
                bookmarks: Map::empty(),
                suffixes: usual_suffixes(),
                show_all: false,
            }),
    {
        let r = WatchConfig {
            version: CONFIG_VERSION,
            dirs: Vec::new(),
            macos_bookmarks: TextMap::new(),
            suffixes: default_suffixes(),
            show_all: false,
        };
        assert(text::texts(r.dirs@) =~= Seq::empty());
        r
    }
}

impl WatchConfig {
    pub open spec fn well_formed(self) -> bool {
        self.macos_bookmarks.well_formed()
    }

    fn matches_suffix(&self, name: &str) -> (r: bool)
        ensures
            r == suffix_matches(self@.suffixes, name@),
    {
        let lower = to_lowercase(name);
        for i in 0..self.suffixes.len()
            invariant
                lower@ == text::lowercase(name@),
                forall|j: int|
                    0 <= j < i ==> !text::ends_with(
                        lower@,
                        text::lowercase(#[trigger] self@.suffixes[j]),
                    ),
        {
            assert(self@.suffixes[i as int] == self.suffixes@[i as int]@);
            let suffix = to_lowercase(self.suffixes[i].as_str());
            if has_suffix(lower.as_str(), suffix.as_str()) {
                return true;
            }
        }
        false
    }

    /// Whether an arrival is news: an archive always is, another file if its
    /// name ends as configured or everything is shown.
    pub open spec fn notifies(self, kind: Seq<char>, name: Seq<char>) -> bool {
        kind == "archive"@ || self.show_all || suffix_matches(self@.suffixes, name)
    }

    pub fn should_notify(&self, item: &DetectedItem) -> (r: bool)
        ensures
            r == self.notifies(item.kind@, item.name@),
    {
        if same_text(item.kind.as_str(), "archive") {
            return true;
        }
        if self.show_all {
            return true;
        }
        self.matches_suffix(item.name.as_str())
    }

    /// Whether a file that arrives is worth waiting for: `name` is its name,
    /// if that is text.
    pub open spec fn awaits(self, is_file: bool, name: Option<Seq<char>>) -> bool {
        is_file && (self.show_all || match name {
            Some(n) => archive::archive_name(text::lowercase(n)) || suffix_matches(
                self@.suffixes,
                n,
            ),
            None => false,
        })
    }

    pub fn is_arrival_candidate(&self, is_file: bool, name: Option<&str>) -> (r: bool)
        ensures
            r == self.awaits(
                is_file,
                match name {
                    Some(n) => Some(n@),
                    None => None,
                },
            ),
    {
        if !is_file {
            return false;
        }
        if self.show_all {
            return true;
        }
        match name {
            Some(name) => {
                let lower = to_lowercase(name);
                is_archive_name(lower.as_str()) || self.matches_suffix(name)
            },
            None => false,
        }
    }

    /// Copies the configuration.
    pub fn copy(&self) -> (r: Self)
        requires
            self.well_formed(),
        ensures
            r.well_formed(),
            r@ == self@,
    {
        WatchConfig {
            version: self.version,
            dirs: copy_texts(&self.dirs),
            macos_bookmarks: copy_bookmarks(&self.macos_bookmarks),
            suffixes: copy_texts(&self.suffixes),
            show_all: self.show_all,
        }
    }
}

/// The entries of `m` whose key is among `keys`.
pub open spec fn kept_entries(m: Map<Seq<char>, String>, keys: Seq<Seq<char>>) -> Map<
    Seq<char>,
    String,
> {
    Map::new(|k: Seq<char>| m.contains_key(k) && keys.contains(k), |k: Seq<char>| m[k])
}

/// The rights to directories among `keys`.
fn keep_bookmarks(m: &TextMap<String>, keys: &Vec<String>) -> (r: TextMap<String>)
    requires
        m.well_formed(),
    ensures
        r.well_formed(),
        r@ == kept_entries(m@, text::texts(keys@)),
{
    let mut r: TextMap<String> = TextMap::new();
    let ghost names = text::texts(keys@);
    assert(r@ =~= kept_entries(m@, names.take(0)));
    for i in 0..keys.len()
        invariant
            m.well_formed(),
            r.well_formed(),
            names == text::texts(keys@),
            r@ == kept_entries(m@, names.take(i as int)),
    {
        let ghost before = r@;
        proof {
            assert(names.take(i + 1) =~= names.take(i as int).push(keys@[i as int]@));
            assert forall|k: Seq<char>| #[trigger] names.take(i + 1).contains(k) <==> (
            names.take(i as int).contains(k) || k == keys@[i as int]@) by {
                vstd::seq_lib::lemma_seq_contains_after_push(
                    names.take(i as int),
                    keys@[i as int]@,
                    k,
                );
            }
        }
        match m.get(keys[i].as_str()) {
            Some(value) => {
                r.insert(keys[i].clone(), value.clone());
            },
            None => {},
        }
        assert(r@ =~= kept_entries(m@, names.take(i + 1)));
    }
    assert(names.take(names.len() as int) =~= names);
    r
}

fn copy_bookmarks(m: &TextMap<String>) -> (r: TextMap<String>)
    requires
        m.well_formed(),
    ensures
        r.well_formed(),
        r@ == m@,
{
    let keys = m.keys();
    let r = keep_bookmarks(m, &keys);
    assert(r@ =~= m@);
    r
}

/// The places of `roots` that lie in `candidate`, or those that do not.
pub open spec fn split_roots(
    roots: Seq<paths::KnownModel>,
    candidate: paths::KnownModel,
    inside: bool,
) -> Seq<paths::KnownModel>
    decreases roots.len(),
{
    if roots.len() == 0 {
        Seq::empty()
    } else {
        let earlier = split_roots(roots.drop_last(), candidate, inside);
        if paths::lies_in(roots.last(), candidate) == inside {
            earlier.push(roots.last())
        } else {
            earlier
        }
    }
}

/// One of `roots` is the very same path.
pub open spec fn known_exactly(candidate: paths::KnownModel, roots: Seq<paths::KnownModel>) -> bool {
    exists|i: int| 0 <= i < roots.len() && (#[trigger] roots[i]).parts == candidate.parts
}

/// `m` without some keys.
pub open spec fn without_entries(m: Map<Seq<char>, String>, keys: Seq<Seq<char>>) -> Map<
    Seq<char>,
    String,
> {
    Map::new(|k: Seq<char>| m.contains_key(k) && !keys.contains(k), |k: Seq<char>| m[k])
}

/// `m` with one more entry, if there is one to add.
pub open spec fn with_entry(
    m: Map<Seq<char>, String>,
    key: Seq<char>,
    value: Option<String>,
) -> Map<Seq<char>, String> {
    match value {
        Some(v) => m.insert(key, v),
        None => m,
    }
}

/// `dirs` with one of them under another name.
pub open spec fn renamed(dirs: Seq<Seq<char>>, old_dir: Seq<char>, new_dir: Seq<char>) -> Seq<
    Seq<char>,
> {
    dirs.map_values(
        |d: Seq<char>|
            if d == old_dir {
                new_dir
            } else {
                d
            },
    )
}

/// `dirs` without one of them.
pub open spec fn without_dir(dirs: Seq<Seq<char>>, dir: Seq<char>) -> Seq<Seq<char>>
    decreases dirs.len(),
{
    if dirs.len() == 0 {
        Seq::empty()
    } else {
        let earlier = without_dir(dirs.drop_last(), dir);
        if dirs.last() == dir {
            earlier
        } else {
            earlier.push(dirs.last())
        }
    }
}

/// What adding a directory came to.
#[derive(Debug)]
pub enum AddOutcome {
    /// Another watched directory holds it already.
    Covered,
    /// It is watched already; a new right to it was stored.
    Known,
    /// It is watched from now on, and the named directories are not.
    Added { removed: Vec<String> },
}

/// What became of a stored right to read a directory.
#[derive(Debug)]
pub enum RestoredAccess {
    /// It does not hold any more.
    Refused,
    Valid,
    /// It holds in a new form.
    Renewed(String),
}

/// What became of the right to read the directory `dir`.
#[derive(Debug)]
pub struct AccessResult {
    pub dir: String,
    pub access: RestoredAccess,
}

/// The rights after some were renewed.
pub open spec fn with_renewed(m: Map<Seq<char>, String>, results: Seq<AccessResult>) -> Map<
    Seq<char>,
    String,
>
    decreases results.len(),
{
    if results.len() == 0 {
        m
    } else {
        let earlier = with_renewed(m, results.drop_last());
        match results.last().access {
            RestoredAccess::Renewed(bookmark) => earlier.insert(results.last().dir@, bookmark),
            _ => earlier,
        }
    }
}

/// The directories whose right does not hold any more.
pub open spec fn refused_dirs(results: Seq<AccessResult>) -> Seq<Seq<char>>
    decreases results.len(),
{
    if results.len() == 0 {
        Seq::empty()
    } else if results.last().access is Refused {
        refused_dirs(results.drop_last()).push(results.last().dir@)
    } else {
        refused_dirs(results.drop_last())
    }
}

/// The directory that was chosen is not the one whose right is renewed.
#[derive(Debug, Clone, Copy, PartialEq, Eq)]
pub struct IdentityMismatch;

/// Why a name is not taken.
#[derive(Debug, Clone, Copy, PartialEq, Eq, Structural)]
pub enum NameError {
    Empty,
    Separator,
}

/// A separator of paths occurs in the text.
pub open spec fn holds_separator(s: Seq<char>) -> bool {
    exists|i: int| 0 <= i < s.len() && text::is_separator(#[trigger] s[i])
}

/// The name that a file or directory gets, without white space around it.
pub fn check_name(name: &str) -> (r: Result<String, NameError>)
    ensures
        match r {
            Ok(n) => n@ == text::trimmed(name@) && n@.len() > 0 && !holds_separator(n@),
            Err(NameError::Empty) => text::trimmed(name@).len() == 0,
            Err(NameError::Separator) => text::trimmed(name@).len() > 0 && holds_separator(
                text::trimmed(name@),
            ),
        },
{
    let chars = trim(name);
    if chars.len() == 0 {
        return Err(NameError::Empty);
    }
    for i in 0..chars.len()
        invariant
            chars@ == text::trimmed(name@),
            forall|j: int| 0 <= j < i ==> !text::is_separator(#[trigger] chars@[j]),
    {
        if chars[i] == '/' || chars[i] == '\\' {
            assert(text::is_separator(chars@[i as int]));
            return Err(NameError::Separator);
        }
    }
    Ok(string_of(chars.as_slice()))
}

/// A directory with a watcher of its own, as the system sees it.
#[derive(Debug)]
pub struct WatchedDir {
    pub path: KnownPath,
    pub is_dir: bool,
}

/// The watched directory is a configured one.
pub open spec fn watches_root(watched: WatchedDir, roots: Seq<paths::KnownModel>) -> bool {
    exists|i: int|
        0 <= i < roots.len() && paths::lies_in(watched.path@, #[trigger] roots[i])
            && paths::lies_in(roots[i], watched.path@)
}

/// A watcher stays when its directory lies elsewhere, or is a configured
/// one that still exists.
pub open spec fn watcher_stays(
    watched: WatchedDir,
    target: paths::KnownModel,
    roots: Seq<paths::KnownModel>,
) -> bool {
    !paths::lies_in(watched.path@, target) || (watched.is_dir && watches_root(watched, roots))
}

/// The watchers that stay when those made on demand at and below `target` are
/// released: configured directories keep theirs.
pub open spec fn kept_on_release(
    watched: Seq<WatchedDir>,
    target: paths::KnownModel,
    roots: Seq<paths::KnownModel>,
) -> Seq<Seq<char>>
    decreases watched.len(),
{
    if watched.len() == 0 {
        Seq::empty()
    } else {
        let earlier = kept_on_release(watched.drop_last(), target, roots);
        let w = watched.last();
        if !paths::lies_in(w.path@, target) || watches_root(w, roots) {
            earlier.push(w.path.text@)
        } else {
            earlier
        }
    }
}

/// The watchers that stay.
pub open spec fn staying(
    watched: Seq<WatchedDir>,
    target: paths::KnownModel,
    roots: Seq<paths::KnownModel>,
) -> Seq<Seq<char>>
    decreases watched.len(),
{
    if watched.len() == 0 {
        Seq::empty()
    } else {
        let earlier = staying(watched.drop_last(), target, roots);
        if watcher_stays(watched.last(), target, roots) {
            earlier.push(watched.last().path.text@)
        } else {
            earlier
        }
    }
}

/// A watched directory that `candidate` takes over holds this one.
pub open spec fn taken_over(
    watched: WatchedDir,
    roots: Seq<paths::KnownModel>,
    candidate: paths::KnownModel,
) -> bool {
    exists|i: int|
        0 <= i < roots.len() && paths::lies_in(#[trigger] roots[i], candidate) && paths::lies_in(
            watched.path@,
            roots[i],
        )
}

/// The watchers that stay when `candidate` takes over the directories in it.
pub open spec fn not_taken_over(
    watched: Seq<WatchedDir>,
    roots: Seq<paths::KnownModel>,
    candidate: paths::KnownModel,
) -> Seq<Seq<char>>
    decreases watched.len(),
{
    if watched.len() == 0 {
        Seq::empty()
    } else {
        let earlier = not_taken_over(watched.drop_last(), roots, candidate);
        if taken_over(watched.last(), roots, candidate) {
            earlier
        } else {
            earlier.push(watched.last().path.text@)
        }
    }
}

/// The entries of the directory are watched.
pub open spec fn listed_dir(dir: paths::KnownModel, watched: Seq<paths::KnownModel>) -> bool {
    exists|i: int|
        0 <= i < watched.len() && paths::lies_in(dir, #[trigger] watched[i]) && paths::lies_in(
            watched[i],
            dir,
        )
}

/// The texts of watched directories.
pub open spec fn watched_texts(v: Seq<WatchedDir>) -> Seq<Seq<char>> {
    v.map_values(|w: WatchedDir| w.path.text@)
}

/// The members of `v` that are among `wanted`.
pub open spec fn common(v: Seq<Seq<char>>, wanted: Seq<Seq<char>>) -> Seq<Seq<char>>
    decreases v.len(),
{
    if v.len() == 0 {
        Seq::empty()
    } else {
        let earlier = common(v.drop_last(), wanted);
        if wanted.contains(v.last()) {
            earlier.push(v.last())
        } else {
            earlier
        }
    }
}

/// The members of `v` that are among `present` and not among `running`.
pub open spec fn startable(
    v: Seq<Seq<char>>,
    present: Seq<Seq<char>>,
    running: Seq<Seq<char>>,
) -> Seq<Seq<char>>
    decreases v.len(),
{
    if v.len() == 0 {
        Seq::empty()
    } else {
        let earlier = startable(v.drop_last(), present, running);
        if present.contains(v.last()) && !running.contains(v.last()) {
            earlier.push(v.last())
        } else {
            earlier
        }
    }
}

/// The watched directories and the watchers that run.
#[derive(Debug)]
pub struct WatchState {
    pub config: WatchConfig,
    /// Directories whose own entries are watched.
    pub watchers: Vec<String>,
    /// Directories below which arrivals are watched.
    pub arrival_watchers: Vec<String>,
}

fn keep_texts(v: &Vec<String>, wanted: &Vec<String>) -> (r: Vec<String>)
    ensures
        text::texts(r@) == common(text::texts(v@), text::texts(wanted@)),
{
    let ghost all = text::texts(v@);
    let mut r: Vec<String> = Vec::new();
    assert(text::texts(r@) =~= common(all.take(0), text::texts(wanted@)));
    for i in 0..v.len()
        invariant
            all == text::texts(v@),
            text::texts(r@) == common(all.take(i as int), text::texts(wanted@)),
    {
        let ghost before = r@;
        assert(all.take(i + 1).drop_last() =~= all.take(i as int));
        if contains_text(wanted, v[i].as_str()) {
            r.push(v[i].clone());
            assert(text::texts(r@) =~= text::texts(before).push(v@[i as int]@));
        }
    }
    assert(all.take(all.len() as int) =~= all);
    r
}

pub fn is_in_any(path: &KnownPath, roots: &Vec<KnownPath>) -> (r: bool)
    ensures
        r == paths::covered(path@, paths::known_models(roots@)),
{
    let ghost models = paths::known_models(roots@);
    for i in 0..roots.len()
        invariant
            models == paths::known_models(roots@),
            forall|j: int| 0 <= j < i ==> !paths::lies_in(path@, #[trigger] models[j]),
    {
        assert(models[i as int] == roots@[i as int]@);
        if path.is_inside(&roots[i]) {
            return true;
        }
    }
    false
}

fn is_one_of(path: &KnownPath, roots: &Vec<KnownPath>) -> (r: bool)
    ensures
        r == known_exactly(path@, paths::known_models(roots@)),
{
    let ghost models = paths::known_models(roots@);
    for i in 0..roots.len()
        invariant
            models == paths::known_models(roots@),
            forall|j: int| 0 <= j < i ==> (#[trigger] models[j]).parts != path@.parts,
    {
        assert(models[i as int] == roots@[i as int]@);
        if path.same_parts(&roots[i]) {
            return true;
        }
    }
    false
}

fn is_root_watcher(watched: &WatchedDir, roots: &Vec<KnownPath>) -> (r: bool)
    ensures
        r == watches_root(*watched, paths::known_models(roots@)),
{
    let ghost models = paths::known_models(roots@);
    for i in 0..roots.len()
        invariant
            models == paths::known_models(roots@),
            forall|j: int|
                0 <= j < i ==> !(paths::lies_in(watched.path@, #[trigger] models[j])
                    && paths::lies_in(models[j], watched.path@)),
    {
        assert(models[i as int] == roots@[i as int]@);
        if watched.path.is_inside(&roots[i]) && roots[i].is_inside(&watched.path) {
            return true;
        }
    }
    false
}

fn watcher_is_kept(watched: &WatchedDir, target: &KnownPath, roots: &Vec<KnownPath>) -> (r: bool)
    ensures
        r == watcher_stays(*watched, target@, paths::known_models(roots@)),
{
    !watched.path.is_inside(target) || watched.is_dir && is_root_watcher(watched, roots)
}

fn is_taken_over(watched: &WatchedDir, roots: &Vec<KnownPath>, candidate: &KnownPath) -> (r: bool)
    ensures
        r == taken_over(*watched, paths::known_models(roots@), candidate@),
{
    let ghost models = paths::known_models(roots@);
    for i in 0..roots.len()
        invariant
            models == paths::known_models(roots@),
            forall|j: int|
                0 <= j < i ==> !(paths::lies_in(#[trigger] models[j], candidate@)
                    && paths::lies_in(watched.path@, models[j])),
    {
        assert(models[i as int] == roots@[i as int]@);
        if roots[i].is_inside(candidate) && watched.path.is_inside(&roots[i]) {
            return true;
        }
    }
    false
}

fn keep_watchers(watched: &Vec<WatchedDir>, roots: &Vec<KnownPath>, candidate: &KnownPath) -> (r:
    Vec<String>)
    ensures
        text::texts(r@) == not_taken_over(watched@, paths::known_models(roots@), candidate@),
{
    let ghost models = paths::known_models(roots@);
    let mut kept: Vec<String> = Vec::new();
    assert(text::texts(kept@) =~= not_taken_over(watched@.take(0), models, candidate@));
    for i in 0..watched.len()
        invariant
            models == paths::known_models(roots@),
            text::texts(kept@) == not_taken_over(watched@.take(i as int), models, candidate@),
    {
        let ghost before = kept@;
        assert(watched@.take(i + 1).drop_last() =~= watched@.take(i as int));
        if !is_taken_over(&watched[i], roots, candidate) {
            kept.push(watched[i].path.text.clone());
            assert(text::texts(kept@) =~= text::texts(before).push(watched@[i as int].path.text@));
        }
    }
    assert(watched@.take(watched@.len() as int) =~= watched@);
    kept
}

/// What adding the directory `canonical` does: one that is watched gets a
/// new right, one below another changes nothing, and any other takes over
/// those below it.
pub open spec fn dir_added(
    before: WatchState,
    after: WatchState,
    canonical: paths::KnownModel,
    normalized: Seq<char>,
    roots: Seq<paths::KnownModel>,
    bookmark: Option<String>,
    watched: Seq<WatchedDir>,
    r: AddOutcome,
) -> bool {
    let config = before.config@;
    let removed = paths::path_texts(split_roots(roots, canonical, true));
    if paths::covered(canonical, roots) {
        &&& after.watchers == before.watchers
        &&& if known_exactly(canonical, roots) {
            &&& r is Known
            &&& after.config@ == (ConfigModel {
                bookmarks: with_entry(config.bookmarks, normalized, bookmark),
                ..config
            })
        } else {
            &&& r is Covered
            &&& after.config@ == config
        }
    } else {
        &&& r is Added
        &&& text::texts(r->removed@) == removed
        &&& text::texts(after.watchers@) == not_taken_over(watched, roots, canonical)
        &&& after.config@ == (ConfigModel {
            dirs: paths::path_texts(split_roots(roots, canonical, false)).push(normalized),
            bookmarks: with_entry(
                without_entries(config.bookmarks, removed),
                normalized,
                bookmark,
            ),
            ..config
        })
        &&& bookmarks_belong(config) ==> bookmarks_belong(after.config@)
    }
}

impl WatchState {
    pub open spec fn well_formed(self) -> bool {
        self.config.well_formed()
    }

    /// Takes up a stored configuration: `resolved` are its directories.
    /// Directories below others are left out. Also says whether that changed
    /// the directories.
    pub fn new(stored: WatchConfig, resolved: &Vec<KnownPath>) -> (r: (Self, bool))
        requires
            stored.well_formed(),
            paths::path_texts(paths::known_models(resolved@)) == stored@.dirs,
        ensures
            r.0.well_formed(),
            exists|roots: Seq<paths::KnownModel>|
                #[trigger] paths::is_coverage(paths::known_models(resolved@), roots)
                    && r.0.config@.dirs == paths::path_texts(roots),
            r.0.config@ == (ConfigModel {
                version: CONFIG_VERSION,
                dirs: r.0.config@.dirs,
                bookmarks: kept_entries(stored@.bookmarks, r.0.config@.dirs),
                ..stored@
            }),
            bookmarks_belong(r.0.config@),
            r.0.watchers@.len() == 0,
            r.0.arrival_watchers@.len() == 0,
            r.1 == (r.0.config@.dirs != stored@.dirs),
    {
        let dirs = minimal_coverage_roots(resolved);
        let changed: bool = !same_texts(&dirs, &stored.dirs);
        let macos_bookmarks = keep_bookmarks(&stored.macos_bookmarks, &dirs);
        let config = WatchConfig {
            version: CONFIG_VERSION,
            dirs,
            macos_bookmarks,
            suffixes: stored.suffixes,
            show_all: stored.show_all,
        };
        (WatchState { config, watchers: Vec::new(), arrival_watchers: Vec::new() }, changed)
    }

    pub fn list_dirs(&self) -> (r: Vec<String>)
        ensures
            text::texts(r@) == self.config@.dirs,
    {
        copy_texts(&self.config.dirs)
    }

    pub fn config(&self) -> (r: WatchConfig)
        requires
            self.well_formed(),
        ensures
            r.well_formed(),
            r@ == self.config@,
    {
        self.config.copy()
    }

    /// Whether a right to the directory is stored.
    pub fn has_bookmark(&self, dir: &str) -> (r: bool)
        requires
            self.well_formed(),
        ensures
            r == self.config@.bookmarks.contains_key(dir@),
    {
        self.config.macos_bookmarks.contains(dir)
    }

    /// Stores a right that was renewed.
    pub fn refresh_bookmark(&mut self, dir: String, bookmark: String)
        requires
            old(self).well_formed(),
        ensures
            final(self).well_formed(),
            final(self).config@ == (ConfigModel {
                bookmarks: old(self).config@.bookmarks.insert(dir@, bookmark),
                ..old(self).config@
            }),
            final(self).watchers == old(self).watchers,
            final(self).arrival_watchers == old(self).arrival_watchers,
    {
        self.config.macos_bookmarks.insert(dir, bookmark);
    }

    /// Whether a path lies in a watched directory; `roots` are the watched
    /// directories.
    pub fn is_watched_path(&self, path: &KnownPath, roots: &Vec<KnownPath>) -> (r: bool)
        requires
            paths::path_texts(paths::known_models(roots@)) == self.config@.dirs,
        ensures
            r == paths::covered(path@, paths::known_models(roots@)),
    {
        is_in_any(path, roots)
    }

    /// Whether a directory may be listed: it exists and lies in a watched
    /// directory that could be resolved. `roots` are those.
    pub fn is_allowed_directory(
        &self,
        candidate: Option<&KnownPath>,
        is_dir: bool,
        roots: &Vec<KnownPath>,
    ) -> (r: bool)
        ensures
            r == match candidate {
                Some(c) => is_dir && exists|i: int|
                    0 <= i < roots@.len() && (#[trigger] paths::known_models(
                        roots@,
                    )[i]).parts.is_prefix_of(c@.parts),
                None => false,
            },
    {
        match candidate {
            None => false,
            Some(c) => {
                if !is_dir {
                    return false;
                }
                for i in 0..roots.len()
                    invariant
                        is_dir,
                        candidate == Some(c),
                        forall|j: int|
                            0 <= j < i ==> !(#[trigger] paths::known_models(
                                roots@,
                            )[j]).parts.is_prefix_of(c@.parts),
                {
                    assert(paths::known_models(roots@)[i as int] == roots@[i as int]@);
                    if parts_within(&c.parts, &roots[i].parts) {
                        return true;
                    }
                }
                false
            },
        }
    }

    /// Whether the entries of a directory are watched; `watched` are the
    /// directories for which that holds.
    pub fn is_structure_watched(&self, dir: &KnownPath, watched: &Vec<KnownPath>) -> (r: bool)
        requires
            paths::path_texts(paths::known_models(watched@)) == text::texts(self.watchers@),
        ensures
            r == listed_dir(dir@, paths::known_models(watched@)),
    {
        let ghost models = paths::known_models(watched@);
        for i in 0..watched.len()
            invariant
                models == paths::known_models(watched@),
                forall|j: int|
                    0 <= j < i ==> !(paths::lies_in(dir@, #[trigger] models[j]) && paths::lies_in(
                        models[j],
                        dir@,
                    )),
        {
            assert(models[i as int] == watched@[i as int]@);
            if dir.is_inside(&watched[i]) && watched[i].is_inside(dir) {
                return true;
            }
        }
        false
    }

    /// Takes up what became of the stored rights: tells the directories that
    /// cannot be read any more, and whether the configuration has to be
    /// written.
    pub fn restore_persisted_access(&mut self, results: Vec<AccessResult>) -> (r: (Vec<String>, bool))
        requires
            old(self).well_formed(),
        ensures
            final(self).well_formed(),
            final(self).config@ == (ConfigModel {
                bookmarks: with_renewed(old(self).config@.bookmarks, results@),
                ..old(self).config@
            }),
            text::texts(r.0@) == refused_dirs(results@),
            r.1 == exists|i: int|
                0 <= i < results@.len() && (#[trigger] results@[i]).access is Renewed,
            final(self).watchers == old(self).watchers,
            final(self).arrival_watchers == old(self).arrival_watchers,
    {
        let ghost before = self.config@;
        let mut refused: Vec<String> = Vec::new();
        let mut renewed: bool = false;
        assert(text::texts(refused@) =~= refused_dirs(results@.take(0)));
        for i in 0..results.len()
            invariant
                before == old(self).config@,
                self.well_formed(),
                self.config@ == (ConfigModel {
                    bookmarks: with_renewed(before.bookmarks, results@.take(i as int)),
                    ..before
                }),
                text::texts(refused@) == refused_dirs(results@.take(i as int)),
                renewed == exists|j: int|
                    0 <= j < i && (#[trigger] results@[j]).access is Renewed,
                self.watchers == old(self).watchers,
                self.arrival_watchers == old(self).arrival_watchers,
        {
            assert(results@.take(i + 1).drop_last() =~= results@.take(i as int));
            match &results[i].access {
                RestoredAccess::Refused => {
                    let ghost told = refused@;
                    refused.push(results[i].dir.clone());
                    assert(text::texts(refused@) =~= text::texts(told).push(
                        results@[i as int].dir@,
                    ));
                },
                RestoredAccess::Valid => {},
                RestoredAccess::Renewed(bookmark) => {
                    assert(results@[i as int].access is Renewed);
                    let value = bookmark.clone();
                    self.config.macos_bookmarks.insert(results[i].dir.clone(), value);
                    renewed = true;
                },
            }
        }
        assert(results@.take(results@.len() as int) =~= results@);
        (refused, renewed)
    }

    /// Renews the right to a watched directory; `selected` must be that
    /// directory.
    pub fn reauthorize_dir(
        &mut self,
        existing: &KnownPath,
        selected: &KnownPath,
        normalized: String,
        roots: &Vec<KnownPath>,
        bookmark: String,
        watched: &Vec<WatchedDir>,
    ) -> (r: Result<AddOutcome, IdentityMismatch>)
        requires
            old(self).well_formed(),
            paths::path_texts(paths::known_models(roots@)) == old(self).config@.dirs,
            watched_texts(watched@) == text::texts(old(self).watchers@),
        ensures
            final(self).well_formed(),
            final(self).arrival_watchers == old(self).arrival_watchers,
            r is Ok == (existing@.parts == selected@.parts),
            r is Err ==> *final(self) == *old(self),
            r matches Ok(outcome) ==> dir_added(
                *old(self),
                *final(self),
                selected@,
                normalized@,
                paths::known_models(roots@),
                Some(bookmark),
                watched@,
                outcome,
            ),
    {
        if !existing.same_parts(selected) {
            return Err(IdentityMismatch);
        }
        Ok(self.add_dir(selected, normalized, roots, Some(bookmark), watched))
    }

    /// Watches one more directory. `roots` are the directories watched so
    /// far; `normalized` is the path as it is stored.
    pub fn add_dir(
        &mut self,
        canonical: &KnownPath,
        normalized: String,
        roots: &Vec<KnownPath>,
        bookmark: Option<String>,
        watched: &Vec<WatchedDir>,
    ) -> (r: AddOutcome)
        requires
            old(self).well_formed(),
            paths::path_texts(paths::known_models(roots@)) == old(self).config@.dirs,
            watched_texts(watched@) == text::texts(old(self).watchers@),
        ensures
            final(self).well_formed(),
            final(self).arrival_watchers == old(self).arrival_watchers,
            dir_added(
                *old(self),
                *final(self),
                canonical@,
                normalized@,
                paths::known_models(roots@),
                bookmark,
                watched@,
                r,
            ),
    {
        let ghost models = paths::known_models(roots@);
        let ghost before = self.config@;
        if is_in_any(canonical, roots) {
            if !is_one_of(canonical, roots) {
                return AddOutcome::Covered;
            }
            match bookmark {
                Some(value) => self.config.macos_bookmarks.insert(normalized, value),
                None => {},
            }
            return AddOutcome::Known;
        }
        let mut kept: Vec<String> = Vec::new();
        let mut removed: Vec<String> = Vec::new();
        assert(text::texts(kept@) =~= paths::path_texts(
            split_roots(models.take(0), canonical@, false),
        ));
        assert(text::texts(removed@) =~= paths::path_texts(
            split_roots(models.take(0), canonical@, true),
        ));
        assert(without_entries(before.bookmarks, text::texts(removed@)) =~= before.bookmarks);
        for i in 0..roots.len()
            invariant
                models == paths::known_models(roots@),
                self.well_formed(),
                self.watchers == old(self).watchers,
                self.arrival_watchers == old(self).arrival_watchers,
                text::texts(kept@) == paths::path_texts(
                    split_roots(models.take(i as int), canonical@, false),
                ),
                text::texts(removed@) == paths::path_texts(
                    split_roots(models.take(i as int), canonical@, true),
                ),
                self.config@ == (ConfigModel {
                    bookmarks: without_entries(before.bookmarks, text::texts(removed@)),
                    ..before
                }),
        {
            let ghost kept_before = kept@;
            let ghost removed_before = removed@;
            let ghost longer = models.take(i + 1);
            assert(longer.drop_last() =~= models.take(i as int));
            assert(longer.last() == roots@[i as int]@);
            if roots[i].is_inside(canonical) {
                self.config.macos_bookmarks.remove(roots[i].text.as_str());
                removed.push(roots[i].text.clone());
                proof {
                    let t = roots@[i as int].text@;
                    assert(text::texts(removed@) =~= text::texts(removed_before).push(t));
                    assert forall|k: Seq<char>| #[trigger]
                        text::texts(removed@).contains(k) <==> (text::texts(
                        removed_before,
                    ).contains(k) || k == t) by {
                        vstd::seq_lib::lemma_seq_contains_after_push(
                            text::texts(removed_before),
                            t,
                            k,
                        );
                    }
                    assert(self.config@.bookmarks =~= without_entries(
                        before.bookmarks,
                        text::texts(removed@),
                    ));
                    assert(paths::path_texts(split_roots(longer, canonical@, true))
                        =~= paths::path_texts(
                        split_roots(models.take(i as int), canonical@, true),
                    ).push(t));
                }
            } else {
                kept.push(roots[i].text.clone());
                proof {
                    let t = roots@[i as int].text@;
                    assert(text::texts(kept@) =~= text::texts(kept_before).push(t));
                    assert(paths::path_texts(split_roots(longer, canonical@, false))
                        =~= paths::path_texts(
                        split_roots(models.take(i as int), canonical@, false),
                    ).push(t));
                }
            }
        }
        assert(models.take(models.len() as int) =~= models);
        let ghost kept_texts = text::texts(kept@);
        kept.push(normalized.clone());
        assert(text::texts(kept@) =~= kept_texts.push(normalized@));
        self.config.dirs = kept;
        self.watchers = keep_watchers(watched, roots, canonical);
        match bookmark {
            Some(value) => self.config.macos_bookmarks.insert(normalized, value),
            None => {},
        }
        proof {
            if bookmarks_belong(before) {
                assert forall|k: Seq<char>| #[trigger]
                    self.config@.bookmarks.contains_key(k) implies self.config@.dirs.contains(k) by {
                    vstd::seq_lib::lemma_seq_contains_after_push(kept_texts, normalized@, k);
                    if k != normalized@ {
                        assert(before.bookmarks.contains_key(k));
                        assert(before.dirs.contains(k));
                        let i = before.dirs.index_of(k);
                        assert(models[i].text == k);
                        split_is_complete(models, canonical@, i);
                    }
                }
            }
        }
        AddOutcome::Added { removed }
    }

    /// Watches a directory no longer: `target` is where it is, `roots` are
    /// the directories that remain.
    pub fn remove_dir(
        &mut self,
        dir: &str,
        target: &KnownPath,
        roots: &Vec<KnownPath>,
        watched: &Vec<WatchedDir>,
    )
        requires
            old(self).well_formed(),
            paths::path_texts(paths::known_models(roots@)) == without_dir(
                old(self).config@.dirs,
                dir@,
            ),
            watched_texts(watched@) == text::texts(old(self).watchers@),
        ensures
            final(self).well_formed(),
            final(self).config@ == (ConfigModel {
                dirs: without_dir(old(self).config@.dirs, dir@),
                bookmarks: old(self).config@.bookmarks.remove(dir@),
                ..old(self).config@
            }),
            bookmarks_belong(old(self).config@) ==> bookmarks_belong(final(self).config@),
            text::texts(final(self).watchers@) == staying(
                watched@,
                target@,
                paths::known_models(roots@),
            ),
            final(self).arrival_watchers == old(self).arrival_watchers,
    {
        let ghost all = text::texts(self.config.dirs@);
        let mut kept: Vec<String> = Vec::new();
        assert(text::texts(kept@) =~= without_dir(all.take(0), dir@));
        for i in 0..self.config.dirs.len()
            invariant
                *self == *old(self),
                all == text::texts(self.config.dirs@),
                text::texts(kept@) == without_dir(all.take(i as int), dir@),
        {
            let ghost before = kept@;
            assert(all.take(i + 1).drop_last() =~= all.take(i as int));
            if !same_text(self.config.dirs[i].as_str(), dir) {
                kept.push(self.config.dirs[i].clone());
                assert(text::texts(kept@) =~= text::texts(before).push(all[i as int]));
            }
        }
        assert(all.take(all.len() as int) =~= all);
        self.config.dirs = kept;
        self.config.macos_bookmarks.remove(dir);
        proof {
            if bookmarks_belong(old(self).config@) {
                assert forall|k: Seq<char>| #[trigger]
                    self.config@.bookmarks.contains_key(k) implies self.config@.dirs.contains(k) by {
                    assert(old(self).config@.bookmarks.contains_key(k));
                    others_stay(all, dir@, k);
                }
            }
        }
        self.stop_watch_tree(target, roots, watched);
    }

    /// Follows a watched directory to its new name: `target` is where it
    /// was, `roots` are the directories with the new name.
    pub fn rename_dir(
        &mut self,
        dir: &str,
        new_dir: &str,
        target: &KnownPath,
        roots: &Vec<KnownPath>,
        watched: &Vec<WatchedDir>,
    ) -> (bookmark: Option<String>)
        requires
            old(self).well_formed(),
            paths::path_texts(paths::known_models(roots@)) == renamed(
                old(self).config@.dirs,
                dir@,
                new_dir@,
            ),
            watched_texts(watched@) == text::texts(old(self).watchers@),
        ensures
            final(self).well_formed(),
            bookmark == if old(self).config@.bookmarks.contains_key(dir@) {
                Some(old(self).config@.bookmarks[dir@])
            } else {
                None
            },
            ({
                let before = old(self).config@;
                final(self).config@ == (ConfigModel {
                    dirs: renamed(before.dirs, dir@, new_dir@),
                    bookmarks: with_entry(before.bookmarks.remove(dir@), new_dir@, bookmark),
                    ..before
                })
            }),
            bookmarks_belong(old(self).config@) ==> bookmarks_belong(final(self).config@),
            text::texts(final(self).watchers@) == staying(
                watched@,
                target@,
                paths::known_models(roots@),
            ),
            final(self).arrival_watchers == old(self).arrival_watchers,
    {
        let ghost all = text::texts(self.config.dirs@);
        let mut dirs: Vec<String> = Vec::new();
        assert(text::texts(dirs@) =~= renamed(all, dir@, new_dir@).take(0));
        for i in 0..self.config.dirs.len()
            invariant
                *self == *old(self),
                all == text::texts(self.config.dirs@),
                text::texts(dirs@) == renamed(all, dir@, new_dir@).take(i as int),
        {
            let ghost before = dirs@;
            if same_text(self.config.dirs[i].as_str(), dir) {
                dirs.push(new_dir.to_owned());
            } else {
                dirs.push(self.config.dirs[i].clone());
            }
            assert(text::texts(dirs@) =~= text::texts(before).push(
                renamed(all, dir@, new_dir@)[i as int],
            ));
            assert(renamed(all, dir@, new_dir@).take(i + 1) =~= renamed(
                all,
                dir@,
                new_dir@,
            ).take(i as int).push(renamed(all, dir@, new_dir@)[i as int]));
        }
        assert(renamed(all, dir@, new_dir@).take(all.len() as int) =~= renamed(
            all,
            dir@,
            new_dir@,
        ));
        self.config.dirs = dirs;
        let bookmark = self.config.macos_bookmarks.remove(dir);
        match &bookmark {
            Some(value) => self.config.macos_bookmarks.insert(new_dir.to_owned(), value.clone()),
            None => {},
        }
        proof {
            if bookmarks_belong(old(self).config@) {
                assert forall|k: Seq<char>| #[trigger]
                    self.config@.bookmarks.contains_key(k) implies self.config@.dirs.contains(k) by {
                    let now = renamed(all, dir@, new_dir@);
                    if old(self).config@.bookmarks.contains_key(k) && k != dir@ {
                        let i = all.index_of(k);
                        assert(all[i] == k && now[i] == k);
                    } else {
                        assert(old(self).config@.bookmarks.contains_key(dir@));
                        let i = all.index_of(dir@);
                        assert(all[i] == dir@ && now[i] == new_dir@);
                    }
                }
            }
        }
        self.stop_watch_tree(target, roots, watched);
        bookmark
    }

    pub fn set_filter(&mut self, suffixes: Vec<String>, show_all: bool)
        requires
            old(self).well_formed(),
        ensures
            final(self).well_formed(),
            final(self).config@ == (ConfigModel {
                suffixes: text::texts(suffixes@),
                show_all,
                ..old(self).config@
            }),
            final(self).watchers == old(self).watchers,
            final(self).arrival_watchers == old(self).arrival_watchers,
    {
        self.config.suffixes = suffixes;
        self.config.show_all = show_all;
    }

    pub fn get_filter(&self) -> (r: (Vec<String>, bool))
        ensures
            text::texts(r.0@) == self.config@.suffixes,
            r.1 == self.config.show_all,
    {
        (copy_texts(&self.config.suffixes), self.config.show_all)
    }

    pub fn should_notify(&self, item: &DetectedItem) -> (r: bool)
        ensures
            r == self.config.notifies(item.kind@, item.name@),
    {
        self.config.should_notify(item)
    }

    /// Releases the watchers at and below `target` that were made on demand;
    /// those of configured directories always stay. `watched` are the
    /// directories with a watcher.
    pub fn stop_aux_watch_tree(
        &mut self,
        target: &KnownPath,
        roots: &Vec<KnownPath>,
        watched: &Vec<WatchedDir>,
    )
        requires
            watched_texts(watched@) == text::texts(old(self).watchers@),
            paths::path_texts(paths::known_models(roots@)) == old(self).config@.dirs,
        ensures
            text::texts(final(self).watchers@) == kept_on_release(
                watched@,
                target@,
                paths::known_models(roots@),
            ),
            final(self).config == old(self).config,
            final(self).arrival_watchers == old(self).arrival_watchers,
    {
        let ghost models = paths::known_models(roots@);
        let mut kept: Vec<String> = Vec::new();
        assert(text::texts(kept@) =~= kept_on_release(watched@.take(0), target@, models));
        for i in 0..watched.len()
            invariant
                models == paths::known_models(roots@),
                text::texts(kept@) == kept_on_release(watched@.take(i as int), target@, models),
        {
            let ghost before = kept@;
            assert(watched@.take(i + 1).drop_last() =~= watched@.take(i as int));
            if !watched[i].path.is_inside(target) || is_root_watcher(&watched[i], roots) {
                kept.push(watched[i].path.text.clone());
                assert(text::texts(kept@) =~= text::texts(before).push(
                    watched@[i as int].path.text@,
                ));
            }
        }
        assert(watched@.take(watched@.len() as int) =~= watched@);
        self.watchers = kept;
    }

    /// Stops the watchers at and below `target`; those of configured
    /// directories that exist stay. `watched` are the directories with a
    /// watcher.
    pub fn stop_watch_tree(
        &mut self,
        target: &KnownPath,
        roots: &Vec<KnownPath>,
        watched: &Vec<WatchedDir>,
    )
        requires
            watched_texts(watched@) == text::texts(old(self).watchers@),
            paths::path_texts(paths::known_models(roots@)) == old(self).config@.dirs,
        ensures
            text::texts(final(self).watchers@) == staying(
                watched@,
                target@,
                paths::known_models(roots@),
            ),
            final(self).config == old(self).config,
            final(self).arrival_watchers == old(self).arrival_watchers,
    {
        let ghost models = paths::known_models(roots@);
        let mut kept: Vec<String> = Vec::new();
        assert(text::texts(kept@) =~= staying(watched@.take(0), target@, models));
        for i in 0..watched.len()
            invariant
                models == paths::known_models(roots@),
                text::texts(kept@) == staying(watched@.take(i as int), target@, models),
        {
            let ghost before = kept@;
            assert(watched@.take(i + 1).drop_last() =~= watched@.take(i as int));
            if watcher_is_kept(&watched[i], target, roots) {
                kept.push(watched[i].path.text.clone());
                assert(text::texts(kept@) =~= text::texts(before).push(
                    watched@[i as int].path.text@,
                ));
            }
        }
        assert(watched@.take(watched@.len() as int) =~= watched@);
        self.watchers = kept;
    }

    /// Whether a directory is one of the configured ones.
    pub fn is_configured_root(&self, dir: &KnownPath, roots: &Vec<KnownPath>) -> (r: bool)
        requires
            paths::path_texts(paths::known_models(roots@)) == self.config@.dirs,
        ensures
            r == known_exactly(dir@, paths::known_models(roots@)),
    {
        is_one_of(dir, roots)
    }

    /// Notes a watcher for the entries of a directory; `false` where there
    /// is one already, or no such directory.
    pub fn start_watch(&mut self, dir: &str, is_dir: bool) -> (r: bool)
        ensures
            r == (is_dir && !text::texts(old(self).watchers@).contains(dir@)),
            text::texts(final(self).watchers@) == if r {
                text::texts(old(self).watchers@).push(dir@)
            } else {
                text::texts(old(self).watchers@)
            },
            final(self).config == old(self).config,
            final(self).arrival_watchers == old(self).arrival_watchers,
    {
        if !is_dir || contains_text(&self.watchers, dir) {
            return false;
        }
        self.watchers.push(dir.to_owned());
        assert(text::texts(self.watchers@) =~= text::texts(old(self).watchers@).push(dir@));
        true
    }

    /// Drops watchers of arrivals that are no longer wanted and says which
    /// to start: one for each of the directories that cover all others, if
    /// it is present. `resolved` are the configured directories.
    pub fn rebuild_arrival_watchers(
        &mut self,
        resolved: &Vec<KnownPath>,
        present: &Vec<String>,
    ) -> (r: Vec<String>)
        requires
            paths::path_texts(paths::known_models(resolved@)) == old(self).config@.dirs,
        ensures
            exists|roots: Seq<paths::KnownModel>|
                {
                    let desired = paths::path_texts(roots);
                    let kept = common(text::texts(old(self).arrival_watchers@), desired);
                    &&& #[trigger] paths::is_coverage(paths::known_models(resolved@), roots)
                    &&& text::texts(final(self).arrival_watchers@) == kept
                    &&& text::texts(r@) == startable(desired, text::texts(present@), kept)
                },
            final(self).config == old(self).config,
            final(self).watchers == old(self).watchers,
    {
        let desired = minimal_coverage_roots(resolved);
        let kept = keep_texts(&self.arrival_watchers, &desired);
        let ghost all = text::texts(desired@);
        let mut r: Vec<String> = Vec::new();
        assert(text::texts(r@) =~= startable(
            all.take(0),
            text::texts(present@),
            text::texts(kept@),
        ));
        for i in 0..desired.len()
            invariant
                all == text::texts(desired@),
                text::texts(r@) == startable(
                    all.take(i as int),
                    text::texts(present@),
                    text::texts(kept@),
                ),
        {
            let ghost before = r@;
            assert(all.take(i + 1).drop_last() =~= all.take(i as int));
            if !contains_text(&kept, desired[i].as_str()) && contains_text(
                present,
                desired[i].as_str(),
            ) {
                r.push(desired[i].clone());
                assert(text::texts(r@) =~= text::texts(before).push(all[i as int]));
            }
        }
        assert(all.take(all.len() as int) =~= all);
        self.arrival_watchers = kept;
        r
    }

    /// Notes a watcher of arrivals that runs.
    pub fn arrival_watcher_started(&mut self, dir: String)
        ensures
            final(self).arrival_watchers@ == old(self).arrival_watchers@.push(dir),
            final(self).config == old(self).config,
            final(self).watchers == old(self).watchers,
    {
        self.arrival_watchers.push(dir);
    }
}

/// What lies in the candidate and what does not are all the roots.
proof fn split_is_complete(roots: Seq<paths::KnownModel>, candidate: paths::KnownModel, i: int)
    requires
        0 <= i < roots.len(),
    ensures
        split_roots(roots, candidate, paths::lies_in(roots[i], candidate)).contains(roots[i]),
        paths::path_texts(
            split_roots(roots, candidate, paths::lies_in(roots[i], candidate)),
        ).contains(roots[i].text),
    decreases roots.len(),
{
    let inside = paths::lies_in(roots[i], candidate);
    let all = split_roots(roots, candidate, inside);
    let earlier = split_roots(roots.drop_last(), candidate, inside);
    if i < roots.len() - 1 {
        split_is_complete(roots.drop_last(), candidate, i);
        let k = earlier.index_of(roots[i]);
        assert(earlier[k] == roots[i]);
        assert(all[k] == roots[i]);
    } else {
        assert(all[all.len() - 1] == roots[i]);
    }
    let k = all.index_of(roots[i]);
    assert(all[k] == roots[i]);
    assert(paths::path_texts(all)[k] == roots[i].text);
}

proof fn split_members(
    roots: Seq<paths::KnownModel>,
    candidate: paths::KnownModel,
    inside: bool,
    k: int,
) -> (i: int)
    requires
        0 <= k < split_roots(roots, candidate, inside).len(),
    ensures
        0 <= i < roots.len(),
        split_roots(roots, candidate, inside)[k] == roots[i],
        paths::lies_in(roots[i], candidate) == inside,
    decreases roots.len(),
{
    let earlier = split_roots(roots.drop_last(), candidate, inside);
    if k < earlier.len() {
        let i = split_members(roots.drop_last(), candidate, inside, k);
        i
    } else {
        roots.len() - 1
    }
}

proof fn split_keeps_order(
    roots: Seq<paths::KnownModel>,
    candidate: paths::KnownModel,
    inside: bool,
    k: int,
    l: int,
)
    requires
        0 <= k < l < split_roots(roots, candidate, inside).len(),
        roots_apart(roots),
    ensures
        !paths::lies_in(
            split_roots(roots, candidate, inside)[k],
            split_roots(roots, candidate, inside)[l],
        ),
        !paths::lies_in(
            split_roots(roots, candidate, inside)[l],
            split_roots(roots, candidate, inside)[k],
        ),
    decreases roots.len(),
{
    let short = roots.drop_last();
    let earlier = split_roots(short, candidate, inside);
    assert forall|i: int, j: int| 0 <= i < short.len() && 0 <= j < short.len() && i
        != j implies !paths::lies_in(#[trigger] short[i], #[trigger] short[j]) by {
        assert(!paths::lies_in(roots[i], roots[j]));
    }
    if l < earlier.len() {
        split_keeps_order(short, candidate, inside, k, l);
    } else {
        let i = split_members(short, candidate, inside, k);
        assert(earlier[k] == roots[i]);
        assert(!paths::lies_in(roots[i], roots[roots.len() - 1]));
        assert(!paths::lies_in(roots[roots.len() - 1], roots[i]));
    }
}

/// No directory lies in another one.
pub open spec fn roots_apart(roots: Seq<paths::KnownModel>) -> bool {
    forall|i: int, j: int|
        0 <= i < roots.len() && 0 <= j < roots.len() && i != j ==> !paths::lies_in(
            #[trigger] roots[i],
            #[trigger] roots[j],
        )
}

/// Adding a directory that is not watched yet keeps the watched directories
/// apart: none lies in another one.
pub proof fn added_directory_keeps_roots_apart(
    roots: Seq<paths::KnownModel>,
    candidate: paths::KnownModel,
)
    requires
        roots_apart(roots),
        !paths::covered(candidate, roots),
    ensures
        roots_apart(split_roots(roots, candidate, false).push(candidate)),
{
    let kept = split_roots(roots, candidate, false);
    let all = kept.push(candidate);
    assert forall|i: int, j: int| 0 <= i < all.len() && 0 <= j < all.len() && i
        != j implies !paths::lies_in(#[trigger] all[i], #[trigger] all[j]) by {
        if i == kept.len() {
            let m = split_members(roots, candidate, false, j);
            assert(!paths::lies_in(candidate, roots[m]));
        } else if j == kept.len() {
            let m = split_members(roots, candidate, false, i);
        } else if i < j {
            split_keeps_order(roots, candidate, false, i, j);
        } else {
            split_keeps_order(roots, candidate, false, j, i);
        }
    }
}

/// Adding a directory loses nothing: what was watched before still is.
pub proof fn added_directory_covers_more(
    roots: Seq<paths::KnownModel>,
    candidate: paths::KnownModel,
    path: paths::KnownModel,
)
    requires
        paths::covered(path, roots),
    ensures
        paths::covered(path, split_roots(roots, candidate, false).push(candidate)),
{
    let kept = split_roots(roots, candidate, false);
    let all = kept.push(candidate);
    let i = choose|i: int| 0 <= i < roots.len() && paths::lies_in(path, #[trigger] roots[i]);
    if paths::lies_in(roots[i], candidate) {
        let a = candidate.key;
        let b = roots[i].key;
        let c = path.key;
        assert(a =~= c.subrange(0, a.len() as int)) by {
            assert(a =~= b.subrange(0, a.len() as int));
            assert(b =~= c.subrange(0, b.len() as int));
        }
        assert(all[kept.len() as int] == candidate);
        assert(paths::lies_in(path, all[kept.len() as int]));
    } else {
        split_is_complete(roots, candidate, i);
        let k = kept.index_of(roots[i]);
        assert(all[k] == roots[i]);
    }
}

/// Taking directories over stops the same watchers as stopping the tree of
/// each of them does.
pub proof fn takeover_stops_trees(
    watched: WatchedDir,
    roots: Seq<paths::KnownModel>,
    candidate: paths::KnownModel,
)
    requires
        !paths::covered(candidate, roots),
    ensures
        taken_over(watched, roots, candidate) <==> exists|i: int|
            0 <= i < roots.len() && paths::lies_in(#[trigger] roots[i], candidate)
                && !watcher_stays(
                watched,
                roots[i],
                split_roots(roots, candidate, false).push(candidate),
            ),
{
    let kept = split_roots(roots, candidate, false);
    let after = kept.push(candidate);
    if taken_over(watched, roots, candidate) {
        let i = choose|i: int|
            0 <= i < roots.len() && paths::lies_in(#[trigger] roots[i], candidate)
                && paths::lies_in(watched.path@, roots[i]);
        let a = candidate.key;
        let b = roots[i].key;
        let w = watched.path@.key;
        assert forall|j: int|
            0 <= j < after.len() && paths::lies_in(
                watched.path@,
                #[trigger] after[j],
            ) implies !paths::lies_in(after[j], watched.path@) by {
            if paths::lies_in(after[j], watched.path@) {
                let c = after[j].key;
                assert(c =~= w.take(c.len() as int));
                assert(w =~= c.take(w.len() as int));
                assert(c =~= w);
                assert(a =~= b.take(a.len() as int));
                assert(b =~= w.take(b.len() as int));
                assert(a =~= w.take(a.len() as int));
                if j < kept.len() {
                    let k = split_members(roots, candidate, false, j);
                    assert(paths::lies_in(after[j], candidate));
                } else {
                    assert(paths::lies_in(candidate, roots[i]));
                }
            }
        }
        assert(!watcher_stays(watched, roots[i], after));
    }
}

proof fn others_stay(dirs: Seq<Seq<char>>, dir: Seq<char>, k: Seq<char>)
    requires
        dirs.contains(k),
        k != dir,
    ensures
        without_dir(dirs, dir).contains(k),
    decreases dirs.len(),
{
    let i = dirs.index_of(k);
    assert(dirs[i] == k);
    let all = without_dir(dirs, dir);
    let earlier = without_dir(dirs.drop_last(), dir);
    if i == dirs.len() - 1 {
        assert(all[all.len() - 1] == k);
    } else {
        assert(dirs.drop_last()[i] == k);
        others_stay(dirs.drop_last(), dir, k);
        let j = earlier.index_of(k);
        assert(earlier[j] == k);
        assert(all[j] == k);
    }
}

/// What a directory is called in reports: its name, or else its path.
pub fn source_label(name: Option<&str>, path: Option<&str>) -> (r: String)
    ensures
        r@ == match name {
            Some(n) => n@,
            None => match path {
                Some(p) => p@,
                None => "LogCrate"@,
            },
        },
{
    match name {
        Some(n) => n.to_owned(),
        None => match path {
            Some(p) => p.to_owned(),
            None => "LogCrate".to_owned(),
        },
    }
}

/// What an arrival is said to come from: the deepest watched directory that
/// holds it. `labels` are what the watched directories are called.
pub fn source_for_path(
    path: &KnownPath,
    roots: &Vec<KnownPath>,
    labels: &Vec<String>,
    fallback: &str,
) -> (r: String)
    requires
        roots@.len() == labels@.len(),
    ensures
        r@ == match paths::deepest(path@, paths::known_models(roots@)) {
            Some(i) => labels@[i]@,
            None => fallback@,
        },
{
    match deepest_root(path, roots) {
        Some(i) => labels[i].clone(),
        None => fallback.to_owned(),
    }
}

/// A directory that is no longer watched is taken out of the list wherever it
/// stands; all others stay, in their order.
pub proof fn other_directories_stay(dirs: Seq<Seq<char>>, dir: Seq<char>)
    ensures
        without_dir(dirs, dir) == dirs.filter(|d: Seq<char>| d != dir),
    decreases dirs.len(),
{
    reveal(Seq::filter);
    if dirs.len() > 0 {
        other_directories_stay(dirs.drop_last(), dir);
    }
}

/// Of the watched directories those lie in a new one whose components begin
/// with its components; they are told apart from the others, in their order.
pub proof fn directories_are_split_by_place(
    roots: Seq<paths::KnownModel>,
    candidate: paths::KnownModel,
    inside: bool,
)
    ensures
        split_roots(roots, candidate, inside) == roots.filter(
            |r: paths::KnownModel| candidate.key.is_prefix_of(r.key) == inside,
        ),
    decreases roots.len(),
{
    reveal(Seq::filter);
    if roots.len() > 0 {
        directories_are_split_by_place(roots.drop_last(), candidate, inside);
    }
}

/// One of the configured directories has the same components.
pub open spec fn is_configured(path: paths::KnownModel, roots: Seq<paths::KnownModel>) -> bool {
    exists|i: int| 0 <= i < roots.len() && (#[trigger] roots[i]).key == path.key
}

proof fn configured_directory_is_watched(watched: WatchedDir, roots: Seq<paths::KnownModel>)
    ensures
        watches_root(watched, roots) == is_configured(watched.path@, roots),
{
    if watches_root(watched, roots) {
        let i = choose|i: int|
            0 <= i < roots.len() && paths::lies_in(watched.path@, #[trigger] roots[i])
                && paths::lies_in(roots[i], watched.path@);
        let a = roots[i].key;
        let b = watched.path@.key;
        assert(a == b.take(a.len() as int));
        assert(b == a.take(b.len() as int));
        assert(a =~= b);
    }
    if is_configured(watched.path@, roots) {
        let i = choose|i: int| 0 <= i < roots.len() && (#[trigger] roots[i]).key == watched.path@.key;
        let a = roots[i].key;
        assert(a.take(a.len() as int) =~= a);
    }
}

/// When a tree is no longer watched, exactly the watchers of directories
/// outside of it stay, and of configured directories that still exist.
pub proof fn watchers_outside_stay(
    watched: Seq<WatchedDir>,
    target: paths::KnownModel,
    roots: Seq<paths::KnownModel>,
)
    ensures
        staying(watched, target, roots) == watched_texts(
            watched.filter(
                |w: WatchedDir|
                    !target.key.is_prefix_of(w.path@.key) || (w.is_dir && is_configured(
                        w.path@,
                        roots,
                    )),
            ),
        ),
    decreases watched.len(),
{
    let p = |w: WatchedDir|
        !target.key.is_prefix_of(w.path@.key) || (w.is_dir && is_configured(w.path@, roots));
    reveal(Seq::filter);
    if watched.len() > 0 {
        let w = watched.last();
        watchers_outside_stay(watched.drop_last(), target, roots);
        configured_directory_is_watched(w, roots);
        let earlier = watched.drop_last().filter(p);
        if p(w) {
            assert(watched_texts(earlier.push(w)) =~= watched_texts(earlier).push(w.path.text@));
        }
    } else {
        assert(staying(watched, target, roots) =~= watched_texts(watched.filter(p)));
    }
}

/// When watchers made on demand are released, exactly those of directories
/// outside of the tree stay, and of configured directories.
pub proof fn configured_watchers_survive_release(
    watched: Seq<WatchedDir>,
    target: paths::KnownModel,
    roots: Seq<paths::KnownModel>,
)
    ensures
        kept_on_release(watched, target, roots) == watched_texts(
            watched.filter(
                |w: WatchedDir|
                    !target.key.is_prefix_of(w.path@.key) || is_configured(w.path@, roots),
            ),
        ),
    decreases watched.len(),
{
    let p = |w: WatchedDir| !target.key.is_prefix_of(w.path@.key) || is_configured(w.path@, roots);
    reveal(Seq::filter);
    if watched.len() > 0 {
        let w = watched.last();
        configured_watchers_survive_release(watched.drop_last(), target, roots);
        configured_directory_is_watched(w, roots);
        let earlier = watched.drop_last().filter(p);
        if p(w) {
            assert(watched_texts(earlier.push(w)) =~= watched_texts(earlier).push(w.path.text@));
        }
    } else {
        assert(kept_on_release(watched, target, roots) =~= watched_texts(watched.filter(p)));
    }
}

/// A directory that takes others over stops exactly the watchers in these.
pub proof fn watchers_of_taken_directories_stop(
    watched: Seq<WatchedDir>,
    roots: Seq<paths::KnownModel>,
    candidate: paths::KnownModel,
)
    ensures
        not_taken_over(watched, roots, candidate) == watched_texts(
            watched.filter(
                |w: WatchedDir|
                    forall|i: int|
                        0 <= i < roots.len() && candidate.key.is_prefix_of(
                            (#[trigger] roots[i]).key,
                        ) ==> !roots[i].key.is_prefix_of(w.path@.key),
            ),
        ),
    decreases watched.len(),
{
    let p = |w: WatchedDir|
        forall|i: int|
            0 <= i < roots.len() && candidate.key.is_prefix_of((#[trigger] roots[i]).key)
                ==> !roots[i].key.is_prefix_of(w.path@.key);
    reveal(Seq::filter);
    if watched.len() > 0 {
        let w = watched.last();
        watchers_of_taken_directories_stop(watched.drop_last(), roots, candidate);
        assert(p(w) == !taken_over(w, roots, candidate));
        let earlier = watched.drop_last().filter(p);
        if p(w) {
            assert(watched_texts(earlier.push(w)) =~= watched_texts(earlier).push(w.path.text@));
        }
    } else {
        assert(not_taken_over(watched, roots, candidate) =~= watched_texts(watched.filter(p)));
    }
}

/// Of the running watchers exactly the wanted ones stay, and of the wanted
/// directories exactly those get one that are present and have none.
pub proof fn wanted_watchers_run(
    running: Seq<Seq<char>>,
    wanted: Seq<Seq<char>>,
    present: Seq<Seq<char>>,
)
    ensures
        common(running, wanted) == running.filter(|d: Seq<char>| wanted.contains(d)),
        startable(wanted, present, running) == wanted.filter(
            |d: Seq<char>| present.contains(d) && !running.contains(d),
        ),
{
    wanted_stay(running, wanted);
    absent_start(wanted, present, running);
}

proof fn wanted_stay(v: Seq<Seq<char>>, wanted: Seq<Seq<char>>)
    ensures
        common(v, wanted) == v.filter(|d: Seq<char>| wanted.contains(d)),
    decreases v.len(),
{
    reveal(Seq::filter);
    if v.len() > 0 {
        wanted_stay(v.drop_last(), wanted);
    }
}

proof fn absent_start(v: Seq<Seq<char>>, present: Seq<Seq<char>>, running: Seq<Seq<char>>)
    ensures
        startable(v, present, running) == v.filter(
            |d: Seq<char>| present.contains(d) && !running.contains(d),
        ),
    decreases v.len(),
{
    reveal(Seq::filter);
    if v.len() > 0 {
        absent_start(v.drop_last(), present, running);
    }
}

/// The directories that cannot be read any more are exactly those whose right
/// was refused, in their order.
pub proof fn refused_rights_are_told(results: Seq<AccessResult>)
    ensures
        refused_dirs(results) == results.filter(
            |r: AccessResult| r.access is Refused,
        ).map_values(|r: AccessResult| r.dir@),
    decreases results.len(),
{
    let p = |r: AccessResult| r.access is Refused;
    let f = |r: AccessResult| r.dir@;
    reveal(Seq::filter);
    if results.len() > 0 {
        refused_rights_are_told(results.drop_last());
        let earlier = results.drop_last().filter(p);
        if p(results.last()) {
            assert(earlier.push(results.last()).map_values(f) =~= earlier.map_values(f).push(
                f(results.last()),
            ));
        }
    } else {
        assert(refused_dirs(results) =~= results.filter(p).map_values(f));
    }
}

/// A right that was renewed is stored in its last new form; rights that were
/// not renewed stay as they were.
pub proof fn renewed_rights_are_stored(m: Map<Seq<char>, String>, results: Seq<AccessResult>, i: int)
    requires
        0 <= i < results.len(),
        results[i].access is Renewed,
        forall|k: int|
            i < k < results.len() && (#[trigger] results[k]).dir@ == results[i].dir@
                ==> !(results[k].access is Renewed),
    ensures
        with_renewed(m, results).contains_key(results[i].dir@),
        with_renewed(m, results)[results[i].dir@] == results[i].access->Renewed_0,
    decreases results.len(),
{
    if i < results.len() - 1 {
        let earlier = results.drop_last();
        assert forall|k: int|
            i < k < earlier.len() && (#[trigger] earlier[k]).dir@ == earlier[i].dir@ implies !(
        earlier[k].access is Renewed) by {
            assert(earlier[k] == results[k]);
        }
        renewed_rights_are_stored(m, earlier, i);
        assert(results[results.len() - 1] == results.last());
    }
}

/// Rights to directories of which none was renewed stay as they were.
pub proof fn other_rights_stay(
    m: Map<Seq<char>, String>,
    results: Seq<AccessResult>,
    dir: Seq<char>,
)
    requires
        forall|k: int|
            0 <= k < results.len() && (#[trigger] results[k]).dir@ == dir ==> !(
            results[k].access is Renewed),
    ensures
        with_renewed(m, results).contains_key(dir) == m.contains_key(dir),
        m.contains_key(dir) ==> with_renewed(m, results)[dir] == m[dir],
    decreases results.len(),
{
    if results.len() > 0 {
        let earlier = results.drop_last();
        assert forall|k: int| 0 <= k < earlier.len() && (#[trigger] earlier[k]).dir@ == dir implies !(
        earlier[k].access is Renewed) by {
            assert(earlier[k] == results[k]);
        }
        other_rights_stay(m, earlier, dir);
        assert(results[results.len() - 1] == results.last());
    }
}

/// An archive that arrives is always news, and so is everything where all is
/// shown; any other file is news exactly if its name ends in one of the
/// suffixes, whatever the case of both.
pub proof fn arrivals_that_are_news(config: WatchConfig, kind: Seq<char>, name: Seq<char>)
    ensures
        config.notifies(kind, name) <==> kind == "archive"@ || config.show_all || exists|i: int|
            0 <= i < config.suffixes@.len() && text::lowercase(
                (#[trigger] config.suffixes@[i])@,
            ).is_suffix_of(text::lowercase(name)),
        config.awaits(true, Some(name)) <==> config.show_all || archive::archive_name(
            text::lowercase(name),
        ) || config.notifies("file"@, name),
        !config.awaits(false, Some(name)),
        !config.awaits(false, None),
        config.awaits(true, None) == config.show_all,
{
    let s = config@.suffixes;
    let small = text::lowercase(name);
    assert forall|i: int| 0 <= i < s.len() implies #[trigger] text::ends_with(
        small,
        text::lowercase(s[i]),
    ) == text::lowercase(s[i]).is_suffix_of(small) by {
        let e = text::lowercase(s[i]);
        if e.len() <= small.len() {
            assert(small.skip(small.len() - e.len()) =~= small.subrange(
                small.len() - e.len(),
                small.len() as int,
            ));
        }
    }
    if suffix_matches(s, name) {
        let i = choose|i: int|
            0 <= i < s.len() && text::ends_with(
                text::lowercase(name),
                text::lowercase(#[trigger] s[i]),
            );
        assert(config.suffixes@[i]@ == s[i]);
    }
    if exists|i: int|
        0 <= i < config.suffixes@.len() && text::lowercase(
            (#[trigger] config.suffixes@[i])@,
        ).is_suffix_of(small) {
        let i = choose|i: int|
            0 <= i < config.suffixes@.len() && text::lowercase(
                (#[trigger] config.suffixes@[i])@,
            ).is_suffix_of(small);
        assert(config.suffixes@[i]@ == s[i]);
        assert(text::ends_with(small, text::lowercase(s[i])));
    }
    reveal_strlit("file");
    reveal_strlit("archive");
    assert("file"@.len() != "archive"@.len());
}

/// A directory that was added is watched from then on, with the right to it;
/// all others stay watched, but for those in it, which are named.
pub proof fn added_directory_is_watched(
    before: WatchState,
    after: WatchState,
    canonical: paths::KnownModel,
    normalized: Seq<char>,
    roots: Seq<paths::KnownModel>,
    bookmark: Option<String>,
    watched: Seq<WatchedDir>,
    r: AddOutcome,
    i: int,
)
    requires
        dir_added(before, after, canonical, normalized, roots, bookmark, watched, r),
        paths::path_texts(roots) == before.config@.dirs,
        0 <= i < roots.len(),
    ensures
        r is Added <==> forall|j: int|
            0 <= j < roots.len() ==> !(#[trigger] roots[j]).key.is_prefix_of(canonical.key),
        r is Added ==> after.config@.dirs.last() == normalized,
        r is Added && !canonical.key.is_prefix_of(roots[i].key) ==> after.config@.dirs.contains(
            roots[i].text,
        ),
        r is Added && canonical.key.is_prefix_of(roots[i].key) ==> text::texts(
            r->removed@,
        ).contains(roots[i].text),
        !(r is Added) ==> after.config@.dirs == before.config@.dirs,
        r is Covered ==> after.config@ == before.config@,
        !(r is Covered) && bookmark is Some ==> after.config@.bookmarks.contains_key(normalized)
            && after.config@.bookmarks[normalized] == bookmark->0,
        after.config@.suffixes == before.config@.suffixes,
        after.config@.show_all == before.config@.show_all,
{
    let kept = split_roots(roots, canonical, false);
    let gone = split_roots(roots, canonical, true);
    split_is_complete(roots, canonical, i);
    if paths::covered(canonical, roots) {
        let j = choose|j: int| 0 <= j < roots.len() && paths::lies_in(canonical, #[trigger] roots[j]);
        assert(roots[j].key.is_prefix_of(canonical.key));
    } else {
        assert forall|j: int| 0 <= j < roots.len() implies !(#[trigger] roots[j]).key.is_prefix_of(
            canonical.key,
        ) by {
            assert(!paths::lies_in(canonical, roots[j]));
        }
        if !paths::lies_in(roots[i], canonical) {
            let texts = paths::path_texts(kept);
            let n = choose|n: int| 0 <= n < texts.len() && texts[n] == roots[i].text;
            assert(texts.push(normalized)[n] == roots[i].text);
        }
    }
}

/// A directory that was renamed keeps its place; the others stay as they are.
pub proof fn renamed_directory_keeps_its_place(
    dirs: Seq<Seq<char>>,
    old_dir: Seq<char>,
    new_dir: Seq<char>,
    i: int,
)
    requires
        0 <= i < dirs.len(),
    ensures
        renamed(dirs, old_dir, new_dir).len() == dirs.len(),
        dirs[i] == old_dir ==> renamed(dirs, old_dir, new_dir)[i] == new_dir,
        dirs[i] != old_dir ==> renamed(dirs, old_dir, new_dir)[i] == dirs[i],
{
}

/// Rights are kept for the directories that are still watched and dropped for
/// those that are not, and a new one replaces the old.
pub proof fn rights_follow_their_directories(
    m: Map<Seq<char>, String>,
    keys: Seq<Seq<char>>,
    key: Seq<char>,
    value: String,
)
    ensures
        kept_entries(m, keys).contains_key(key) <==> m.contains_key(key) && keys.contains(key),
        without_entries(m, keys).contains_key(key) <==> m.contains_key(key) && !keys.contains(key),
        kept_entries(m, keys).contains_key(key) ==> kept_entries(m, keys)[key] == m[key],
        without_entries(m, keys).contains_key(key) ==> without_entries(m, keys)[key] == m[key],
        with_entry(m, key, Some(value)) == m.insert(key, value),
        with_entry(m, key, None) == m,
{
}

/// Unless set otherwise, names of logs end in one of three ways.
pub proof fn usual_logs_end_in_three_ways()
    ensures
        usual_suffixes() == seq![".log"@, ".txt"@, ".out"@],
{
}

/// A name may hold neither slash nor backslash.
pub proof fn names_hold_no_separators(name: Seq<char>)
    ensures
        holds_separator(name) <==> name.contains('/') || name.contains('\\'),
{
    if holds_separator(name) {
        let i = choose|i: int| 0 <= i < name.len() && text::is_separator(#[trigger] name[i]);
        assert(name.contains(name[i]));
    }
    if name.contains('/') || name.contains('\\') {
        let c = if name.contains('/') {
            '/'
        } else {
            '\\'
        };
        let i = choose|i: int| 0 <= i < name.len() && name[i] == c;
        assert(text::is_separator(name[i]));
    }
}

/// The entries of a directory are watched exactly if a watcher runs for the
/// same directory, not for one above or below it.
pub proof fn listing_is_watched_by_its_own_watcher(
    dir: paths::KnownModel,
    watched: Seq<paths::KnownModel>,
)
    ensures
        listed_dir(dir, watched) <==> exists|i: int|
            0 <= i < watched.len() && (#[trigger] watched[i]).key == dir.key,
{
    if listed_dir(dir, watched) {
        let i = choose|i: int|
            0 <= i < watched.len() && paths::lies_in(dir, #[trigger] watched[i]) && paths::lies_in(
                watched[i],
                dir,
            );
        let a = watched[i].key;
        let b = dir.key;
        assert(a == b.take(a.len() as int));
        assert(b == a.take(b.len() as int));
        assert(a =~= b);
    }
    if exists|i: int| 0 <= i < watched.len() && (#[trigger] watched[i]).key == dir.key {
        let i = choose|i: int| 0 <= i < watched.len() && (#[trigger] watched[i]).key == dir.key;
        let a = dir.key;
        assert(a.take(a.len() as int) =~= a);
        assert(paths::lies_in(dir, watched[i]) && paths::lies_in(watched[i], dir));
    }
}

} // verus!
