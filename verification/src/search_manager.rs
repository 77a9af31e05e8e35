//! The state of the file search: what it does, and what it tells.

use crate::paths::Platform;
use crate::search_config::{normalize_unique_paths, SearchConfig};
use crate::search_config;
use crate::search_store::{DatabaseInitialization, QueryIndexState};
use crate::text;
use crate::text::{contains_text, copy_texts, same_text};
use vstd::prelude::*;

verus! {

/// How one root is searched.
#[derive(Debug, PartialEq, Eq)]
pub struct SearchProviderStatus {
    pub root: String,
    pub provider: String,
    pub phase: String,
    pub fallback_reason: Option<String>,
}

impl Clone for SearchProviderStatus {
    fn clone(&self) -> (r: Self)
        ensures
            r == *self,
    {
        SearchProviderStatus {
            root: self.root.clone(),
            provider: self.provider.clone(),
            phase: self.phase.clone(),
            fallback_reason: copy_reason(&self.fallback_reason),
        }
    }
}

fn copy_reason(s: &Option<String>) -> (r: Option<String>)
    ensures
        r == *s,
{
    match s {
        Some(t) => Some(t.clone()),
        None => None,
    }
}

#[verifier::ext_equal]
pub struct ProviderModel {
    pub root: Seq<char>,
    pub provider: Seq<char>,
    pub phase: Seq<char>,
    pub fallback_reason: Option<Seq<char>>,
}

pub open spec fn reason_text(s: Option<String>) -> Option<Seq<char>> {
    match s {
        Some(t) => Some(t@),
        None => None,
    }
}

impl View for SearchProviderStatus {
    type V = ProviderModel;

    open spec fn view(&self) -> ProviderModel {
        ProviderModel {
            root: self.root@,
            provider: self.provider@,
            phase: self.phase@,
            fallback_reason: reason_text(self.fallback_reason),
        }
    }
}

pub open spec fn provider_models(v: Seq<SearchProviderStatus>) -> Seq<ProviderModel> {
    v.map_values(|p: SearchProviderStatus| p@)
}

/// How the roots are going to be searched; `ntfs` are those that are whole
/// NTFS volumes.
pub open spec fn planned(roots: Seq<Seq<char>>, ntfs: Seq<Seq<char>>) -> Seq<ProviderModel> {
    roots.map_values(
        |r: Seq<char>|
            ProviderModel {
                root: r,
                provider: if ntfs.contains(r) {
                    "windowsNtfs"@
                } else {
                    "folderScan"@
                },
                phase: "pending"@,
                fallback_reason: None,
            },
    )
}

pub fn planned_provider_statuses(roots: &Vec<String>, ntfs: &Vec<String>) -> (r: Vec<
    SearchProviderStatus,
>)
    ensures
        provider_models(r@) == planned(text::texts(roots@), text::texts(ntfs@)),
{
    let ghost wanted = planned(text::texts(roots@), text::texts(ntfs@));
    let mut r: Vec<SearchProviderStatus> = Vec::new();
    assert(provider_models(r@) =~= wanted.take(0));
    for i in 0..roots.len()
        invariant
            wanted == planned(text::texts(roots@), text::texts(ntfs@)),
            provider_models(r@) == wanted.take(i as int),
    {
        let ghost before = r@;
        let provider: &str = if contains_text(ntfs, roots[i].as_str()) {
            "windowsNtfs"
        } else {
            "folderScan"
        };
        r.push(
            SearchProviderStatus {
                root: roots[i].clone(),
                provider: provider.to_owned(),
                phase: "pending".to_owned(),
                fallback_reason: None,
            },
        );
        assert(provider_models(r@) =~= provider_models(before).push(r@.last()@));
        assert(text::texts(roots@)[i as int] == roots@[i as int]@);
        assert(wanted.take(i + 1) =~= wanted.take(i as int).push(wanted[i as int]));
    }
    assert(wanted.take(roots@.len() as int) =~= wanted);
    r
}

/// What the search tells about itself.
#[derive(Debug)]
pub struct SearchStatus {
    pub phase: String,
    pub scanned_files: u64,
    pub skipped_directories: u64,
    pub indexed_files: u64,
    pub index_bytes: u64,
    pub roots: Vec<String>,
    pub exclusions: Vec<String>,
    pub providers: Vec<SearchProviderStatus>,
    pub error: Option<String>,
}

#[verifier::ext_equal]
pub struct StatusModel {
    pub phase: Seq<char>,
    pub scanned_files: u64,
    pub skipped_directories: u64,
    pub indexed_files: u64,
    pub index_bytes: u64,
    pub roots: Seq<Seq<char>>,
    pub exclusions: Seq<Seq<char>>,
    pub providers: Seq<ProviderModel>,
    pub error: Option<Seq<char>>,
}

impl View for SearchStatus {
    type V = StatusModel;

    open spec fn view(&self) -> StatusModel {
        StatusModel {
            phase: self.phase@,
            scanned_files: self.scanned_files,
            skipped_directories: self.skipped_directories,
            indexed_files: self.indexed_files,
            index_bytes: self.index_bytes,
            roots: text::texts(self.roots@),
            exclusions: text::texts(self.exclusions@),
            providers: provider_models(self.providers@),
            error: reason_text(self.error),
        }
    }
}

/// What a search that does nothing tells.
pub open spec fn disabled_status(
    config: search_config::SearchModel,
    ntfs: Seq<Seq<char>>,
) -> StatusModel {
    StatusModel {
        phase: "disabled"@,
        scanned_files: 0,
        skipped_directories: 0,
        indexed_files: 0,
        index_bytes: 0,
        roots: config.roots,
        exclusions: config.exclusions,
        providers: planned(config.roots, ntfs),
        error: None,
    }
}

/// The first provider of `root` says something else.
pub open spec fn with_provider(
    v: Seq<ProviderModel>,
    root: Seq<char>,
    provider: Seq<char>,
    phase: Seq<char>,
    reason: Option<Seq<char>>,
) -> Seq<ProviderModel>
    decreases v.len(),
{
    if v.len() == 0 {
        v
    } else if v[0].root == root {
        seq![ProviderModel { root, provider, phase, fallback_reason: reason }] + v.drop_first()
    } else {
        seq![v[0]] + with_provider(v.drop_first(), root, provider, phase, reason)
    }
}

/// Only the first provider of a root is told anew, and all of it; the others
/// stay as they are.
pub proof fn first_provider_is_set(
    v: Seq<ProviderModel>,
    root: Seq<char>,
    provider: Seq<char>,
    phase: Seq<char>,
    reason: Option<Seq<char>>,
    at: int,
)
    requires
        0 <= at <= v.len(),
        forall|i: int| 0 <= i < at ==> (#[trigger] v[i]).root != root,
        at < v.len() ==> v[at].root == root,
    ensures
        with_provider(v, root, provider, phase, reason) == if at < v.len() {
            v.update(at, ProviderModel { root, provider, phase, fallback_reason: reason })
        } else {
            v
        },
    decreases v.len(),
{
    if v.len() > 0 {
        let rest = v.drop_first();
        let item = ProviderModel { root, provider, phase, fallback_reason: reason };
        if at == 0 {
            assert(seq![item] + rest =~= v.update(0, item));
        } else {
            assert forall|i: int| 0 <= i < at - 1 implies (#[trigger] rest[i]).root != root by {
                assert(v[i + 1].root != root);
            }
            first_provider_is_set(rest, root, provider, phase, reason, at - 1);
            if at < v.len() {
                assert(seq![v[0]] + rest.update(at - 1, item) =~= v.update(at, item));
            } else {
                assert(seq![v[0]] + rest =~= v);
            }
        }
    }
}

impl SearchStatus {
    pub fn disabled(config: &SearchConfig, ntfs: &Vec<String>) -> (r: Self)
        ensures
            r@ == disabled_status(config@, text::texts(ntfs@)),
    {
        SearchStatus {
            phase: "disabled".to_owned(),
            scanned_files: 0,
            skipped_directories: 0,
            indexed_files: 0,
            index_bytes: 0,
            roots: copy_texts(&config.roots),
            exclusions: copy_texts(&config.exclusions),
            providers: planned_provider_statuses(&config.roots, ntfs),
            error: None,
        }
    }

    /// Tells how a root is searched.
    pub fn set_provider_status(
        &mut self,
        root: &str,
        provider: &str,
        phase: &str,
        fallback_reason: Option<String>,
    )
        ensures
            final(self)@ == (StatusModel {
                providers: with_provider(
                    old(self)@.providers,
                    root@,
                    provider@,
                    phase@,
                    reason_text(fallback_reason),
                ),
                ..old(self)@
            }),
    {
        let ghost before = self@.providers;
        let mut at: usize = 0;
        while at < self.providers.len() && !same_text(self.providers[at].root.as_str(), root)
            invariant
                *self == *old(self),
                before == self@.providers,
                at <= self.providers@.len(),
                forall|i: int| 0 <= i < at ==> (#[trigger] before[i]).root != root@,
            decreases self.providers@.len() - at,
        {
            assert(before[at as int] == self.providers@[at as int]@);
            at += 1;
        }
        if at < self.providers.len() {
            assert(before[at as int] == self.providers@[at as int]@);
        }
        proof {
            first_provider_is_set(
                before,
                root@,
                provider@,
                phase@,
                reason_text(fallback_reason),
                at as int,
            );
        }
        if at < self.providers.len() {
            let item = SearchProviderStatus {
                root: root.to_owned(),
                provider: provider.to_owned(),
                phase: phase.to_owned(),
                fallback_reason,
            };
            self.providers.set(at, item);
            assert(provider_models(self.providers@) =~= before.update(at as int, item@));
        }
    }

    /// Why a root is searched otherwise than planned, if it is.
    pub fn fallback_reason(&self, root: &str) -> (r: Option<String>)
        ensures
            reason_text(r) == first_reason(self@.providers, root@),
    {
        let ghost all = self@.providers;
        assert(all.skip(0) =~= all);
        for i in 0..self.providers.len()
            invariant
                all == self@.providers,
                first_reason(all.skip(i as int), root@) == first_reason(all, root@),
        {
            assert(all.skip(i as int)[0] == self.providers@[i as int]@);
            assert(all.skip(i as int).drop_first() =~= all.skip(i + 1));
            if same_text(self.providers[i].root.as_str(), root) {
                return copy_reason(&self.providers[i].fallback_reason);
            }
        }
        assert(all.skip(all.len() as int) =~= Seq::empty());
        None
    }
}

/// The reason that the first provider of `root` tells.
pub open spec fn first_reason(v: Seq<ProviderModel>, root: Seq<char>) -> Option<Seq<char>>
    decreases v.len(),
{
    if v.len() == 0 {
        None
    } else if v[0].root == root {
        v[0].fallback_reason
    } else {
        first_reason(v.drop_first(), root)
    }
}

/// Which scan counts.
#[derive(Debug, Clone, Copy, PartialEq, Eq, Structural)]
pub struct ScanControl {
    pub generation: u64,
    pub cancel: bool,
}

impl ScanControl {
    /// A scan of `generation` has to stop.
    pub open spec fn cancelled(self, generation: u64) -> bool {
        self.cancel || self.generation != generation
    }

    pub open spec fn begun(self) -> ScanControl {
        ScanControl { generation: self.generation.wrapping_add(1), cancel: false }
    }

    pub open spec fn paused(self) -> ScanControl {
        ScanControl { generation: self.generation.wrapping_add(1), cancel: true }
    }

    /// Begins a scan; every earlier one stops.
    pub fn begin(&mut self) -> (generation: u64)
        ensures
            *final(self) == old(self).begun(),
            generation == final(self).generation,
    {
        self.generation = self.generation.wrapping_add(1);
        self.cancel = false;
        self.generation
    }

    /// Stops every scan.
    pub fn pause(&mut self)
        ensures
            *final(self) == old(self).paused(),
    {
        self.cancel = true;
        self.generation = self.generation.wrapping_add(1);
    }

    pub fn is_cancelled(&self, generation: u64) -> (r: bool)
        ensures
            r == self.cancelled(generation),
    {
        self.cancel || self.generation != generation
    }
}

/// A scan that just began goes on; the one before it stops.
pub proof fn new_scan_replaces_old(c: ScanControl)
    ensures
        !c.begun().cancelled(c.begun().generation),
        c.begun().cancelled(c.generation),
{
}

/// A pause stops all scans, whichever they are.
pub proof fn pause_stops_all_scans(c: ScanControl, generation: u64)
    ensures
        c.paused().cancelled(generation),
{
}

/// What was counted in the stored index.
#[derive(Debug, Clone, Copy, PartialEq, Eq, Structural)]
pub struct StoreCounts {
    pub files: u64,
    pub bytes: u64,
}

/// How searching goes on after a start of the program.
#[derive(Debug, Clone, Copy, PartialEq, Eq, Structural)]
pub enum ResumeAction {
    /// The index is built anew.
    Rebuild,
    /// The index is there: changes are watched.
    Watch,
}

/// The state of the file search.
#[derive(Debug)]
pub struct FileSearchManager {
    pub config: SearchConfig,
    pub status: SearchStatus,
    pub control: ScanControl,
    pub query_index: QueryIndexState,
    /// The files have to be written again.
    pub persistence_recovery: bool,
}

/// The counts that are shown after they were taken.
pub open spec fn recounted(
    s: StatusModel,
    q: QueryIndexState,
    recovery: bool,
    counts: Option<StoreCounts>,
) -> StatusModel {
    match counts {
        None => s,
        Some(c) => StatusModel {
            indexed_files: if q.bulk || recovery {
                s.indexed_files
            } else {
                c.files
            },
            index_bytes: c.bytes,
            ..s
        },
    }
}

/// The query index matches what is stored, or is complete by itself.
pub open spec fn query_ready(
    documents: Option<u64>,
    files: u64,
    state: DatabaseInitialization,
) -> bool {
    documents matches Some(d) && (d == files || (state.query_snapshot_complete && d > 0))
}

impl FileSearchManager {
    /// Takes up what is stored. `documents` are in the query index, which
    /// could be opened unless `index_error` says why not; `database` tells
    /// what the stored files are, or why they cannot be read.
    pub fn new_with_preferences(
        config: SearchConfig,
        ntfs: &Vec<String>,
        database_is_file: bool,
        documents: Option<u64>,
        index_error: Option<String>,
        database: Result<(DatabaseInitialization, Option<StoreCounts>), String>,
    ) -> (r: Self)
        ensures
            r.config@ == config@,
            r.control == (ScanControl { generation: 0, cancel: false }),
            ({
                let start = disabled_status(config@, text::texts(ntfs@));
                let base = StatusModel {
                    phase: if config.enabled && database_is_file {
                        "ready"@
                    } else {
                        start.phase
                    },
                    error: match index_error {
                        Some(e) => Some("Tantivy query index: "@ + e@),
                        None => None,
                    },
                    ..start
                };
                let fresh = QueryIndexState {
                    present: documents is Some,
                    ready: false,
                    bulk: false,
                    staged: false,
                };
                match database {
                    Err(e) => {
                        &&& r.status@ == (StatusModel { error: Some(e@), ..base })
                        &&& r.query_index == fresh
                        &&& !r.persistence_recovery
                    },
                    Ok((state, counts)) => {
                        let counted = recounted(base, fresh, false, counts);
                        let ready = query_ready(documents, counted.indexed_files, state);
                        &&& r.query_index == (QueryIndexState { ready, ..fresh })
                        &&& r.persistence_recovery == state.persistence_incomplete
                        &&& r.status@ == if ready && config.enabled {
                            StatusModel {
                                phase: "ready"@,
                                indexed_files: if state.query_snapshot_complete {
                                    documents->0
                                } else {
                                    counted.indexed_files
                                },
                                ..counted
                            }
                        } else {
                            counted
                        }
                    },
                }
            }),
    {
        let mut status = SearchStatus::disabled(&config, ntfs);
        if config.enabled && database_is_file {
            status.phase = "ready".to_owned();
        }
        match index_error {
            Some(e) => {
                let mut message = "Tantivy query index: ".to_owned();
                message.append(e.as_str());
                status.error = Some(message);
            },
            None => {},
        }
        let present: bool = documents.is_some();
        let query_index = QueryIndexState { present, ready: false, bulk: false, staged: false };
        let mut manager = FileSearchManager {
            config,
            status,
            control: ScanControl { generation: 0, cancel: false },
            query_index,
            persistence_recovery: false,
        };
        match database {
            Err(e) => {
                manager.status.error = Some(e);
            },
            Ok((state, counts)) => {
                manager.refresh_counts(counts);
                let ready: bool = match documents {
                    Some(d) => d == manager.status.indexed_files || (
                    state.query_snapshot_complete && d > 0),
                    None => false,
                };
                manager.query_index.ready = ready;
                manager.persistence_recovery = state.persistence_incomplete;
                if ready && manager.config.enabled {
                    manager.status.phase = "ready".to_owned();
                    if state.query_snapshot_complete {
                        match documents {
                            Some(d) => {
                                manager.status.indexed_files = d;
                            },
                            None => {},
                        }
                    }
                }
            },
        }
        manager
    }

    /// Takes the counts of the stored index, if they could be taken.
    pub fn refresh_counts(&mut self, counts: Option<StoreCounts>)
        ensures
            final(self).status@ == recounted(
                old(self).status@,
                old(self).query_index,
                old(self).persistence_recovery,
                counts,
            ),
            final(self).config == old(self).config,
            final(self).control == old(self).control,
            final(self).query_index == old(self).query_index,
            final(self).persistence_recovery == old(self).persistence_recovery,
    {
        match counts {
            Some(c) => {
                if !(self.query_index.bulk || self.persistence_recovery) {
                    self.status.indexed_files = c.files;
                }
                self.status.index_bytes = c.bytes;
            },
            None => {},
        }
    }

    pub fn config(&self) -> (r: SearchConfig)
        ensures
            r@ == self.config@,
    {
        self.config.clone()
    }

    /// The configuration to search by.
    pub fn runtime_config(&self, platform: Platform, data_dir: Option<&str>) -> (r: SearchConfig)
        ensures
            r@ == (search_config::SearchModel {
                exclusions: search_config::unique_paths(
                    platform,
                    match data_dir {
                        Some(d) => self.config@.exclusions.push(d@),
                        None => self.config@.exclusions,
                    },
                ),
                ..self.config@
            }),
    {
        self.config.runtime_config(platform, data_dir)
    }

    /// Begins to build the index: every earlier scan stops, and without
    /// roots those of the system are taken.
    pub fn start(&mut self, fixed_roots: Vec<String>) -> (generation: u64)
        ensures
            final(self).control == old(self).control.begun(),
            generation == final(self).control.generation,
            final(self).config@ == if old(self).config@.roots.len() == 0 {
                (search_config::SearchModel {
                    roots: text::texts(fixed_roots@),
                    ..old(self).config@
                })
            } else {
                old(self).config@
            },
            final(self).status == old(self).status,
            final(self).query_index == old(self).query_index,
            final(self).persistence_recovery == old(self).persistence_recovery,
    {
        let generation: u64 = self.control.begin();
        if self.config.roots.len() == 0 {
            self.config.roots = fixed_roots;
        }
        generation
    }

    /// Tells that a scan began.
    pub fn scanning(&mut self, rebuild: bool, ntfs: &Vec<String>)
        ensures
            final(self).status@ == (StatusModel {
                phase: "scanning"@,
                scanned_files: 0,
                indexed_files: if rebuild {
                    0
                } else {
                    old(self).status@.indexed_files
                },
                skipped_directories: 0,
                roots: old(self).config@.roots,
                exclusions: old(self).config@.exclusions,
                providers: planned(old(self).config@.roots, text::texts(ntfs@)),
                error: None,
                ..old(self).status@
            }),
            final(self).config == old(self).config,
            final(self).control == old(self).control,
            final(self).query_index == old(self).query_index,
            final(self).persistence_recovery == old(self).persistence_recovery,
    {
        self.status.phase = "scanning".to_owned();
        self.status.scanned_files = 0;
        if rebuild {
            self.status.indexed_files = 0;
        }
        self.status.skipped_directories = 0;
        self.status.roots = copy_texts(&self.config.roots);
        self.status.exclusions = copy_texts(&self.config.exclusions);
        self.status.providers = planned_provider_statuses(&self.config.roots, ntfs);
        self.status.error = None;
    }

    /// How searching goes on after a start of the program.
    pub fn resume_or_watch(&self, database_is_file: bool) -> (r: ResumeAction)
        ensures
            r == if database_is_file && (self.status.indexed_files > 0 || self.query_index.ready) {
                ResumeAction::Watch
            } else {
                ResumeAction::Rebuild
            },
    {
        if database_is_file && (self.status.indexed_files > 0 || self.query_index.ready) {
            ResumeAction::Watch
        } else {
            ResumeAction::Rebuild
        }
    }

    /// Begins to bring the index up to date.
    pub fn begin_resume(&mut self, platform: Platform) -> (generation: u64)
        ensures
            final(self).control == old(self).control.begun(),
            generation == final(self).control.generation,
            final(self).status@ == (StatusModel {
                phase: if platform == Platform::Windows && old(self).persistence_recovery {
                    "ready"@
                } else {
                    "scanning"@
                },
                ..old(self).status@
            }),
            final(self).config == old(self).config,
            final(self).query_index == old(self).query_index,
            final(self).persistence_recovery == old(self).persistence_recovery,
    {
        let generation: u64 = self.control.begin();
        let recover: bool = match platform {
            Platform::Windows => self.persistence_recovery,
            _ => false,
        };
        self.status.phase = if recover {
            "ready".to_owned()
        } else {
            "scanning".to_owned()
        };
        generation
    }

    /// Stops.
    pub fn pause(&mut self)
        ensures
            final(self).control == old(self).control.paused(),
            final(self).status@ == (StatusModel { phase: "paused"@, ..old(self).status@ }),
            final(self).config == old(self).config,
            final(self).query_index == old(self).query_index,
            final(self).persistence_recovery == old(self).persistence_recovery,
    {
        self.control.pause();
        self.status.phase = "paused".to_owned();
    }

    /// Tells that the index is empty.
    pub fn cleared(&mut self, ntfs: &Vec<String>)
        ensures
            final(self).status@ == disabled_status(old(self).config@, text::texts(ntfs@)),
            final(self).query_index == (QueryIndexState {
                staged: false,
                ..old(self).query_index
            }),
            final(self).config == old(self).config,
            final(self).control == old(self).control,
            final(self).persistence_recovery == old(self).persistence_recovery,
    {
        self.query_index.staged = false;
        self.status = SearchStatus::disabled(&self.config, ntfs);
    }

    pub fn set_exclusions(&mut self, platform: Platform, exclusions: &Vec<String>)
        ensures
            final(self).config@ == (search_config::SearchModel {
                exclusions: search_config::unique_paths(platform, text::texts(exclusions@)),
                ..old(self).config@
            }),
            final(self).status == old(self).status,
            final(self).control == old(self).control,
            final(self).query_index == old(self).query_index,
            final(self).persistence_recovery == old(self).persistence_recovery,
    {
        self.config.exclusions = normalize_unique_paths(platform, exclusions);
    }

    /// Tells that everything is done.
    pub fn ready(&mut self)
        ensures
            final(self).status@ == (StatusModel {
                phase: "ready"@,
                error: None,
                ..old(self).status@
            }),
            final(self).config == old(self).config,
            final(self).control == old(self).control,
            final(self).query_index == old(self).query_index,
            final(self).persistence_recovery == old(self).persistence_recovery,
    {
        self.status.phase = "ready".to_owned();
        self.status.error = None;
    }

    /// Tells that a scan failed, unless it was stopped; says whether it did.
    pub fn finish_with_error(&mut self, generation: u64, error: String) -> (r: bool)
        ensures
            r == !old(self).control.cancelled(generation),
            final(self).status@ == if r {
                (StatusModel { phase: "error"@, error: Some(error@), ..old(self).status@ })
            } else {
                old(self).status@
            },
            final(self).config == old(self).config,
            final(self).control == old(self).control,
            final(self).query_index == old(self).query_index,
            final(self).persistence_recovery == old(self).persistence_recovery,
    {
        if self.control.is_cancelled(generation) {
            return false;
        }
        self.status.phase = "error".to_owned();
        self.status.error = Some(error);
        true
    }

    /// Counts files that went into the query index.
    pub fn files_indexed(&mut self, count: u64)
        ensures
            final(self).status@ == (StatusModel {
                indexed_files: if !old(self).query_index.bulk {
                    old(self).status@.indexed_files
                } else if old(self).status@.indexed_files + count > u64::MAX {
                    u64::MAX
                } else {
                    (old(self).status@.indexed_files + count) as u64
                },
                ..old(self).status@
            }),
            final(self).config == old(self).config,
            final(self).control == old(self).control,
            final(self).query_index == old(self).query_index,
            final(self).persistence_recovery == old(self).persistence_recovery,
    {
        if self.query_index.bulk {
            self.status.indexed_files = self.status.indexed_files.saturating_add(count);
        }
    }
}

/// Every root has one provider at first: NTFS volumes their own, all others
/// the scan of directories; nothing has been done yet.
pub proof fn every_root_has_a_provider(roots: Seq<Seq<char>>, ntfs: Seq<Seq<char>>, i: int)
    requires
        0 <= i < roots.len(),
    ensures
        planned(roots, ntfs).len() == roots.len(),
        planned(roots, ntfs)[i].root == roots[i],
        planned(roots, ntfs)[i].phase == "pending"@,
        planned(roots, ntfs)[i].fallback_reason is None,
        ntfs.contains(roots[i]) ==> planned(roots, ntfs)[i].provider == "windowsNtfs"@,
        !ntfs.contains(roots[i]) ==> planned(roots, ntfs)[i].provider == "folderScan"@,
{
}

/// The reason that was told for a root is told again when it is asked for, and
/// the reasons of other roots stay.
pub proof fn told_reason_is_known(
    v: Seq<ProviderModel>,
    root: Seq<char>,
    provider: Seq<char>,
    phase: Seq<char>,
    reason: Option<Seq<char>>,
    other: Seq<char>,
)
    ensures
        (exists|i: int| 0 <= i < v.len() && (#[trigger] v[i]).root == root) ==> first_reason(
            with_provider(v, root, provider, phase, reason),
            root,
        ) == reason,
        other != root ==> first_reason(with_provider(v, root, provider, phase, reason), other)
            == first_reason(v, other),
    decreases v.len(),
{
    if v.len() > 0 {
        let rest = v.drop_first();
        let now = with_provider(v, root, provider, phase, reason);
        told_reason_is_known(rest, root, provider, phase, reason, other);
        if v[0].root == root {
            assert(now.drop_first() =~= rest);
        } else {
            assert(now.drop_first() =~= with_provider(rest, root, provider, phase, reason));
            if exists|i: int| 0 <= i < v.len() && (#[trigger] v[i]).root == root {
                let i = choose|i: int| 0 <= i < v.len() && (#[trigger] v[i]).root == root;
                assert(rest[i - 1].root == root);
            }
        }
    }
}

/// Counts are shown as they were taken, unless the index is just being filled;
/// where none could be taken, the old ones stay.
pub proof fn counts_are_shown_as_taken(
    s: StatusModel,
    q: QueryIndexState,
    recovery: bool,
    counts: StoreCounts,
)
    ensures
        recounted(s, q, recovery, None) == s,
        recounted(s, q, recovery, Some(counts)).index_bytes == counts.bytes,
        !q.bulk && !recovery ==> recounted(s, q, recovery, Some(counts)).indexed_files
            == counts.files,
        q.bulk || recovery ==> recounted(s, q, recovery, Some(counts)).indexed_files
            == s.indexed_files,
        recounted(s, q, recovery, Some(counts)).phase == s.phase,
        recounted(s, q, recovery, Some(counts)).scanned_files == s.scanned_files,
        recounted(s, q, recovery, Some(counts)).error == s.error,
{
}

/// The query index can answer where it holds as many documents as there are
/// files, or is known to be complete and holds any; without one it cannot.
pub proof fn complete_index_is_ready(documents: u64, files: u64, state: DatabaseInitialization)
    ensures
        documents == files ==> query_ready(Some(documents), files, state),
        documents > 0 && state.query_snapshot_complete ==> query_ready(
            Some(documents),
            files,
            state,
        ),
        documents != files && !state.query_snapshot_complete ==> !query_ready(
            Some(documents),
            files,
            state,
        ),
        !query_ready(None, files, state),
{
}

/// The reason of a root is that of its first provider.
pub proof fn first_reason_is_found(v: Seq<ProviderModel>, root: Seq<char>, at: int)
    requires
        0 <= at < v.len(),
        v[at].root == root,
        forall|j: int| 0 <= j < at ==> (#[trigger] v[j]).root != root,
    ensures
        first_reason(v, root) == v[at].fallback_reason,
    decreases v.len(),
{
    if at > 0 {
        let rest = v.drop_first();
        assert(v[0].root != root);
        assert forall|j: int| 0 <= j < at - 1 implies (#[trigger] rest[j]).root != root by {
            assert(rest[j] == v[j + 1]);
        }
        first_reason_is_found(rest, root, at - 1);
    }
}

/// A search that is disabled tells what would be searched, and that nothing
/// was.
pub proof fn disabled_search_tells_its_roots(
    config: search_config::SearchModel,
    ntfs: Seq<Seq<char>>,
)
    ensures
        ({
            let s = disabled_status(config, ntfs);
            &&& s.phase == "disabled"@
            &&& s.roots == config.roots
            &&& s.exclusions == config.exclusions
            &&& s.providers == planned(config.roots, ntfs)
            &&& s.error is None
            &&& s.scanned_files == 0 && s.indexed_files == 0 && s.index_bytes == 0
                && s.skipped_directories == 0
        }),
{
}

/// Where the first provider of a root stands, or behind all where there is
/// none.
pub proof fn first_place(v: Seq<ProviderModel>, root: Seq<char>) -> (at: int)
    ensures
        0 <= at <= v.len(),
        forall|i: int| 0 <= i < at ==> (#[trigger] v[i]).root != root,
        at < v.len() ==> v[at].root == root,
    decreases v.len(),
{
    if v.len() == 0 {
        0
    } else {
        let rest = v.drop_last();
        let at = first_place(rest, root);
        assert forall|i: int| 0 <= i < at implies (#[trigger] v[i]).root != root by {
            assert(rest[i] == v[i]);
        }
        if at < rest.len() {
            assert(rest[at] == v[at]);
            at
        } else if v.last().root == root {
            v.len() - 1
        } else {
            assert forall|i: int| 0 <= i < v.len() implies (#[trigger] v[i]).root != root by {
                if i < rest.len() {
                    assert(rest[i] == v[i]);
                }
            }
            v.len() as int
        }
    }
}

} // verus!
