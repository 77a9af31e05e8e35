//! How the index is built and brought up to date, step by step. Every step
//! is work on disk; what follows depends on how it went.

use crate::paths::Platform;
use crate::search_manager;
use crate::search_manager::FileSearchManager;
use crate::search_store::QueryIndexState;
use crate::text;
use vstd::prelude::*;

verus! {

/// A step of building the index.
#[derive(Debug, Clone, Copy, PartialEq, Eq, Structural)]
pub enum StartStep {
    /// Changes are noticed from now on.
    InstallWatcher,
    /// The store takes many files at once.
    PrepareBulk,
    /// The query index takes many files at once.
    BeginQueryBulk,
    /// All files are found.
    Scan,
    /// The new query index takes the place of the old one.
    FinishQueryBulk,
    /// The store is complete.
    FinishBulk,
    /// The changes noticed so far are stored.
    DrainEvents,
    /// The stored changes go into the query index.
    DrainChanges,
}

/// What comes after a step of building the index.
#[derive(Debug, Clone, Copy, PartialEq, Eq, Structural)]
pub enum StartNext {
    Perform(StartStep),
    /// The work ends.
    End {
        /// Changes are not noticed any more.
        stop_watcher: bool,
        /// The status is shown.
        show: bool,
    },
    /// The index is complete; changes are followed.
    Ready,
}

/// What comes after a step, which may have failed, of work that may have
/// been stopped.
pub open spec fn after_start_step(
    step: StartStep,
    rebuild: bool,
    failed: bool,
    cancelled: bool,
) -> StartNext {
    if failed {
        StartNext::End { stop_watcher: step != StartStep::InstallWatcher, show: !cancelled }
    } else {
        match step {
            StartStep::InstallWatcher => StartNext::Perform(StartStep::PrepareBulk),
            StartStep::PrepareBulk => StartNext::Perform(
                if rebuild {
                    StartStep::BeginQueryBulk
                } else {
                    StartStep::Scan
                },
            ),
            StartStep::BeginQueryBulk => StartNext::Perform(StartStep::Scan),
            StartStep::Scan => if cancelled {
                StartNext::End { stop_watcher: true, show: false }
            } else {
                StartNext::Perform(StartStep::FinishQueryBulk)
            },
            StartStep::FinishQueryBulk => StartNext::Perform(StartStep::FinishBulk),
            StartStep::FinishBulk => if cancelled {
                StartNext::End { stop_watcher: true, show: false }
            } else {
                StartNext::Perform(StartStep::DrainEvents)
            },
            StartStep::DrainEvents => StartNext::Perform(StartStep::DrainChanges),
            StartStep::DrainChanges => StartNext::Ready,
        }
    }
}

/// The status when a step failed.
pub open spec fn with_error(
    s: search_manager::StatusModel,
    error: Option<Seq<char>>,
    cancelled: bool,
) -> search_manager::StatusModel {
    match error {
        Some(e) if !cancelled => search_manager::StatusModel {
            phase: "error"@,
            error: Some(e),
            ..s
        },
        _ => s,
    }
}

/// How far a step is.
pub open spec fn start_rank(step: StartStep) -> int {
    match step {
        StartStep::InstallWatcher => 0,
        StartStep::PrepareBulk => 1,
        StartStep::BeginQueryBulk => 2,
        StartStep::Scan => 3,
        StartStep::FinishQueryBulk => 4,
        StartStep::FinishBulk => 5,
        StartStep::DrainEvents => 6,
        StartStep::DrainChanges => 7,
    }
}

/// Building the index always comes to an end: no step is repeated.
pub proof fn building_goes_forward(
    step: StartStep,
    rebuild: bool,
    failed: bool,
    cancelled: bool,
    next: StartStep,
)
    requires
        after_start_step(step, rebuild, failed, cancelled) == StartNext::Perform(next),
    ensures
        start_rank(step) < start_rank(next) <= 7,
{
}

/// A scan that was stopped replaces no index.
pub proof fn stopped_scan_replaces_nothing(rebuild: bool, failed: bool)
    ensures
        after_start_step(StartStep::Scan, rebuild, failed, true) == (StartNext::End {
            stop_watcher: true,
            show: false,
        }),
{
}

/// A failure after changes were first noticed ends that, too.
pub proof fn failure_stops_the_watcher(step: StartStep, rebuild: bool, cancelled: bool)
    requires
        step != StartStep::InstallWatcher,
    ensures
        after_start_step(step, rebuild, true, cancelled) == (StartNext::End {
            stop_watcher: true,
            show: !cancelled,
        }),
{
}

/// A step of bringing the index up to date; numbers are places of volumes.
#[derive(Debug, Clone, Copy, PartialEq, Eq, Structural)]
pub enum ResumeStep {
    /// The query index gets what is stored.
    FillIndex,
    /// A volume whose files were not stored completely is read again.
    Recover(usize),
    /// The changes of a volume are stored.
    CatchUp(usize),
    /// A volume is read again.
    Rescan(usize),
    /// The stored changes of a volume go into the query index.
    DrainVolume(usize),
    /// The store is complete.
    FinishBulk,
    /// The changes noticed so far are stored.
    DrainEvents,
    /// The stored changes go into the query index.
    DrainChanges,
}

/// What comes after a step of bringing the index up to date.
#[derive(Debug, Clone, Copy, PartialEq, Eq, Structural)]
pub enum ResumeNext {
    Perform(ResumeStep),
    /// The work ends; the status may be shown.
    End { show: bool },
    /// The index is up to date and changes are followed; the stored files
    /// may be counted again.
    Ready { recount: bool },
}

/// What is brought up to date.
#[verifier::ext_equal]
pub struct ResumeWork {
    pub platform: Platform,
    /// The roots that are volumes.
    pub volumes: Seq<Seq<char>>,
    /// The files of the volumes were not stored completely.
    pub recover: bool,
}

impl ResumeWork {
    /// What is done with the volume at a place, or behind the last one.
    pub open spec fn at_volume(self, i: int) -> ResumeNext {
        if i < self.volumes.len() {
            ResumeNext::Perform(
                if self.recover {
                    ResumeStep::Recover(i as usize)
                } else {
                    ResumeStep::CatchUp(i as usize)
                },
            )
        } else if self.recover {
            ResumeNext::Perform(ResumeStep::FinishBulk)
        } else {
            ResumeNext::Perform(ResumeStep::DrainEvents)
        }
    }

    /// The status when it is the turn of the volume at a place.
    pub open spec fn volume_status(
        self,
        s: search_manager::StatusModel,
        i: int,
    ) -> search_manager::StatusModel {
        if i < self.volumes.len() {
            provider_set(s, self.volumes[i], "windowsNtfs"@, "scanning"@, None)
        } else {
            s
        }
    }

    pub open spec fn after(self, step: ResumeStep, failed: bool, cancelled: bool) -> ResumeNext {
        match step {
            ResumeStep::CatchUp(i) => ResumeNext::Perform(
                if failed {
                    ResumeStep::Rescan(i)
                } else {
                    ResumeStep::DrainVolume(i)
                },
            ),
            ResumeStep::Rescan(i) => if failed {
                self.at_volume(i + 1)
            } else {
                ResumeNext::Perform(ResumeStep::DrainVolume(i))
            },
            _ => if failed {
                ResumeNext::End { show: !cancelled }
            } else {
                match step {
                    ResumeStep::FillIndex => if self.platform == Platform::Windows {
                        self.at_volume(0)
                    } else {
                        ResumeNext::Ready { recount: false }
                    },
                    ResumeStep::Recover(i) => self.at_volume(i + 1),
                    ResumeStep::DrainVolume(i) => self.at_volume(i + 1),
                    ResumeStep::FinishBulk => ResumeNext::Perform(ResumeStep::DrainEvents),
                    ResumeStep::DrainEvents => ResumeNext::Perform(ResumeStep::DrainChanges),
                    _ => ResumeNext::Ready { recount: true },
                }
            },
        }
    }

    /// The status after a step.
    pub open spec fn status_after(
        self,
        s: search_manager::StatusModel,
        step: ResumeStep,
        error: Option<Seq<char>>,
        cancelled: bool,
    ) -> search_manager::StatusModel {
        match step {
            ResumeStep::CatchUp(i) => s,
            ResumeStep::Rescan(i) => if error is Some {
                self.volume_status(
                    provider_set(s, self.volumes[i as int], "folderScan"@, "fallback"@, error),
                    i + 1,
                )
            } else {
                s
            },
            _ => if error is Some {
                with_error(s, error, cancelled)
            } else {
                match step {
                    ResumeStep::FillIndex => if self.platform == Platform::Windows {
                        self.volume_status(s, 0)
                    } else {
                        search_manager::StatusModel { phase: "ready"@, ..s }
                    },
                    ResumeStep::Recover(i) => self.volume_status(
                        provider_set(s, self.volumes[i as int], "windowsNtfs"@, "ready"@, None),
                        i + 1,
                    ),
                    ResumeStep::DrainVolume(i) => self.volume_status(
                        provider_set(s, self.volumes[i as int], "windowsNtfs"@, "ready"@, None),
                        i + 1,
                    ),
                    ResumeStep::DrainChanges => search_manager::StatusModel { phase: "ready"@, ..s },
                    _ => s,
                }
            },
        }
    }

    /// A step is one of this work.
    pub open spec fn has(self, step: ResumeStep) -> bool {
        match step {
            ResumeStep::Recover(i) => i < self.volumes.len(),
            ResumeStep::CatchUp(i) => i < self.volumes.len(),
            ResumeStep::Rescan(i) => i < self.volumes.len(),
            ResumeStep::DrainVolume(i) => i < self.volumes.len(),
            _ => true,
        }
    }

    /// How far a step is.
    pub open spec fn rank(self, step: ResumeStep) -> int {
        let n = self.volumes.len() as int;
        match step {
            ResumeStep::FillIndex => 0,
            ResumeStep::Recover(i) => 1 + 3 * i,
            ResumeStep::CatchUp(i) => 1 + 3 * i,
            ResumeStep::Rescan(i) => 2 + 3 * i,
            ResumeStep::DrainVolume(i) => 3 + 3 * i,
            ResumeStep::FinishBulk => 1 + 3 * n,
            ResumeStep::DrainEvents => 2 + 3 * n,
            ResumeStep::DrainChanges => 3 + 3 * n,
        }
    }
}

/// The status with another one of a root.
pub open spec fn provider_set(
    s: search_manager::StatusModel,
    root: Seq<char>,
    provider: Seq<char>,
    phase: Seq<char>,
    reason: Option<Seq<char>>,
) -> search_manager::StatusModel {
    search_manager::StatusModel {
        providers: search_manager::with_provider(s.providers, root, provider, phase, reason),
        ..s
    }
}

/// Bringing the index up to date always comes to an end, and stays with the
/// volumes there are.
pub proof fn resuming_goes_forward(
    work: ResumeWork,
    step: ResumeStep,
    failed: bool,
    cancelled: bool,
    next: ResumeStep,
)
    requires
        work.volumes.len() <= usize::MAX,
        work.has(step),
        work.after(step, failed, cancelled) == ResumeNext::Perform(next),
    ensures
        work.has(next),
        work.rank(step) < work.rank(next) <= 3 + 3 * work.volumes.len(),
{
}

/// A volume that cannot be caught up with does not keep the others back.
pub proof fn failed_volume_is_passed_over(work: ResumeWork, i: usize, cancelled: bool)
    ensures
        work.after(ResumeStep::CatchUp(i), true, cancelled) == ResumeNext::Perform(
            ResumeStep::Rescan(i),
        ),
        work.after(ResumeStep::Rescan(i), true, cancelled) == work.at_volume(i + 1),
{
}

impl FileSearchManager {
    /// Goes on with building the index after a step; `error` tells why it
    /// failed.
    pub fn start_step(
        &mut self,
        step: StartStep,
        rebuild: bool,
        generation: u64,
        error: Option<String>,
    ) -> (r: StartNext)
        ensures
            ({
                let cancelled = old(self).control.cancelled(generation);
                &&& r == after_start_step(step, rebuild, error is Some, cancelled)
                &&& final(self).status@ == if r == StartNext::Ready {
                    search_manager::StatusModel { phase: "ready"@, error: None, ..old(self).status@ }
                } else {
                    with_error(old(self).status@, search_manager::reason_text(error), cancelled)
                }
            }),
            final(self).query_index == if step == StartStep::BeginQueryBulk && error is None {
                QueryIndexState { ready: true, ..old(self).query_index }
            } else {
                old(self).query_index
            },
            final(self).config == old(self).config,
            final(self).control == old(self).control,
            final(self).persistence_recovery == old(self).persistence_recovery,
    {
        let cancelled: bool = self.control.is_cancelled(generation);
        match error {
            Some(e) => {
                let show: bool = self.finish_with_error(generation, e);
                let stop_watcher: bool = match step {
                    StartStep::InstallWatcher => false,
                    _ => true,
                };
                return StartNext::End { stop_watcher, show };
            },
            None => {},
        }
        match step {
            StartStep::InstallWatcher => StartNext::Perform(StartStep::PrepareBulk),
            StartStep::PrepareBulk => {
                if rebuild {
                    StartNext::Perform(StartStep::BeginQueryBulk)
                } else {
                    StartNext::Perform(StartStep::Scan)
                }
            },
            StartStep::BeginQueryBulk => {
                self.query_index.ready = true;
                StartNext::Perform(StartStep::Scan)
            },
            StartStep::Scan => {
                if cancelled {
                    StartNext::End { stop_watcher: true, show: false }
                } else {
                    StartNext::Perform(StartStep::FinishQueryBulk)
                }
            },
            StartStep::FinishQueryBulk => StartNext::Perform(StartStep::FinishBulk),
            StartStep::FinishBulk => {
                if cancelled {
                    StartNext::End { stop_watcher: true, show: false }
                } else {
                    StartNext::Perform(StartStep::DrainEvents)
                }
            },
            StartStep::DrainEvents => StartNext::Perform(StartStep::DrainChanges),
            StartStep::DrainChanges => {
                self.ready();
                StartNext::Ready
            },
        }
    }

    /// Takes up the volume at a place, or what comes behind the last one.
    fn take_up_volume(&mut self, volumes: &Vec<String>, recover: bool, i: usize) -> (r: ResumeNext)
        ensures
            ({
                let work = ResumeWork {
                    platform: Platform::Windows,
                    volumes: text::texts(volumes@),
                    recover,
                };
                &&& r == work.at_volume(i as int)
                &&& final(self).status@ == work.volume_status(old(self).status@, i as int)
            }),
            final(self).query_index == old(self).query_index,
            final(self).config == old(self).config,
            final(self).control == old(self).control,
            final(self).persistence_recovery == old(self).persistence_recovery,
    {
        if i < volumes.len() {
            self.status.set_provider_status(volumes[i].as_str(), "windowsNtfs", "scanning", None);
            if recover {
                ResumeNext::Perform(ResumeStep::Recover(i))
            } else {
                ResumeNext::Perform(ResumeStep::CatchUp(i))
            }
        } else if recover {
            ResumeNext::Perform(ResumeStep::FinishBulk)
        } else {
            ResumeNext::Perform(ResumeStep::DrainEvents)
        }
    }

    /// Goes on with bringing the index up to date after a step; `volumes`
    /// are the roots that are volumes, `error` tells why it failed.
    pub fn resume_step(
        &mut self,
        platform: Platform,
        volumes: &Vec<String>,
        recover: bool,
        step: ResumeStep,
        generation: u64,
        error: Option<String>,
    ) -> (r: ResumeNext)
        requires
            (ResumeWork { platform, volumes: text::texts(volumes@), recover }).has(step),
        ensures
            ({
                let work = ResumeWork { platform, volumes: text::texts(volumes@), recover };
                let cancelled = old(self).control.cancelled(generation);
                &&& r == work.after(step, error is Some, cancelled)
                &&& final(self).status@ == work.status_after(
                    old(self).status@,
                    step,
                    search_manager::reason_text(error),
                    cancelled,
                )
            }),
            final(self).persistence_recovery == if step == ResumeStep::FinishBulk && error is None {
                false
            } else {
                old(self).persistence_recovery
            },
            final(self).query_index == old(self).query_index,
            final(self).config == old(self).config,
            final(self).control == old(self).control,
    {
        let count: usize = volumes.len();
        assert(text::texts(volumes@).len() == count);
        match step {
            ResumeStep::CatchUp(i) => {
                if error.is_some() {
                    return ResumeNext::Perform(ResumeStep::Rescan(i));
                }
                return ResumeNext::Perform(ResumeStep::DrainVolume(i));
            },
            ResumeStep::Rescan(i) => {
                if error.is_some() {
                    self.status.set_provider_status(
                        volumes[i].as_str(),
                        "folderScan",
                        "fallback",
                        error,
                    );
                    return self.take_up_volume(volumes, recover, i + 1);
                }
                return ResumeNext::Perform(ResumeStep::DrainVolume(i));
            },
            _ => {},
        }
        match error {
            Some(e) => {
                let show: bool = self.finish_with_error(generation, e);
                return ResumeNext::End { show };
            },
            None => {},
        }
        match step {
            ResumeStep::FillIndex => match platform {
                Platform::Windows => self.take_up_volume(volumes, recover, 0),
                _ => {
                    self.status.phase = "ready".to_owned();
                    ResumeNext::Ready { recount: false }
                },
            },
            ResumeStep::Recover(i) | ResumeStep::DrainVolume(i) => {
                self.status.set_provider_status(volumes[i].as_str(), "windowsNtfs", "ready", None);
                self.take_up_volume(volumes, recover, i + 1)
            },
            ResumeStep::FinishBulk => {
                self.persistence_recovery = false;
                ResumeNext::Perform(ResumeStep::DrainEvents)
            },
            ResumeStep::DrainEvents => ResumeNext::Perform(ResumeStep::DrainChanges),
            _ => {
                self.status.phase = "ready".to_owned();
                ResumeNext::Ready { recount: true }
            },
        }
    }

    /// A volume could not be read: its root is read directory by directory,
    /// unless the work was stopped; says whether it goes on.
    pub fn provider_failed(
        &mut self,
        folders: &mut Vec<String>,
        root: String,
        reason: String,
        generation: u64,
    ) -> (r: bool)
        ensures
            r == !old(self).control.cancelled(generation),
            text::texts(final(folders)@) == if r {
                text::texts(old(folders)@).push(root@)
            } else {
                text::texts(old(folders)@)
            },
            final(self).status@ == if r {
                provider_set(
                    old(self).status@,
                    root@,
                    "folderScan"@,
                    "fallback"@,
                    Some(reason@),
                )
            } else {
                old(self).status@
            },
            final(self).query_index == old(self).query_index,
            final(self).config == old(self).config,
            final(self).control == old(self).control,
            final(self).persistence_recovery == old(self).persistence_recovery,
    {
        if self.control.is_cancelled(generation) {
            return false;
        }
        let ghost before = folders@;
        self.status.set_provider_status(root.as_str(), "folderScan", "fallback", Some(reason));
        folders.push(root);
        assert(text::texts(folders@) =~= text::texts(before).push(root@));
        true
    }

    /// The directories of roots were read: what is told about them, and why
    /// they were read that way, stays.
    pub fn folders_scanned(&mut self, folders: &Vec<String>)
        ensures
            final(self).status@ == folders_ready(old(self).status@, text::texts(folders@)),
            final(self).query_index == old(self).query_index,
            final(self).config == old(self).config,
            final(self).control == old(self).control,
            final(self).persistence_recovery == old(self).persistence_recovery,
    {
        let ghost all = text::texts(folders@);
        for i in 0..folders.len()
            invariant
                all == text::texts(folders@),
                self.status@ == folders_ready(old(self).status@, all.take(i as int)),
                self.query_index == old(self).query_index,
                self.config == old(self).config,
                self.control == old(self).control,
                self.persistence_recovery == old(self).persistence_recovery,
        {
            assert(all.take(i + 1).drop_last() =~= all.take(i as int));
            let reason = self.status.fallback_reason(folders[i].as_str());
            self.status.set_provider_status(folders[i].as_str(), "folderScan", "ready", reason);
        }
        assert(all.take(all.len() as int) =~= all);
    }
}

/// The status when the directories of `folders` were read.
pub open spec fn folders_ready(
    s: search_manager::StatusModel,
    folders: Seq<Seq<char>>,
) -> search_manager::StatusModel
    decreases folders.len(),
{
    if folders.len() == 0 {
        s
    } else {
        let earlier = folders_ready(s, folders.drop_last());
        provider_set(
            earlier,
            folders.last(),
            "folderScan"@,
            "ready"@,
            search_manager::first_reason(earlier.providers, folders.last()),
        )
    }
}

/// What is done when no change was noticed for a while.
#[derive(Debug, Clone, Copy, PartialEq, Eq, Structural)]
pub enum QuietAction {
    /// Changes are not followed any more.
    Stop,
    /// Changes were lost: the index is built anew.
    Rebuild,
    Wait,
}

/// `listening` tells whether changes are still noticed, `dirty` whether some
/// were lost.
pub fn after_quiet(listening: bool, dirty: bool) -> (r: QuietAction)
    ensures
        r == if !listening {
            QuietAction::Stop
        } else if dirty {
            QuietAction::Rebuild
        } else {
            QuietAction::Wait
        },
{
    if !listening {
        QuietAction::Stop
    } else if dirty {
        QuietAction::Rebuild
    } else {
        QuietAction::Wait
    }
}

/// Where nothing fails and nobody stops it, building the index performs every
/// step in turn: changes are noticed before anything is read, the old query
/// index is replaced only after the scan, and it is ready in the end.
pub proof fn building_leaves_nothing_out(rebuild: bool)
    ensures
        after_start_step(StartStep::InstallWatcher, rebuild, false, false) == StartNext::Perform(
            StartStep::PrepareBulk,
        ),
        after_start_step(StartStep::PrepareBulk, true, false, false) == StartNext::Perform(
            StartStep::BeginQueryBulk,
        ),
        after_start_step(StartStep::PrepareBulk, false, false, false) == StartNext::Perform(
            StartStep::Scan,
        ),
        after_start_step(StartStep::BeginQueryBulk, rebuild, false, false) == StartNext::Perform(
            StartStep::Scan,
        ),
        after_start_step(StartStep::Scan, rebuild, false, false) == StartNext::Perform(
            StartStep::FinishQueryBulk,
        ),
        after_start_step(StartStep::FinishQueryBulk, rebuild, false, false) == StartNext::Perform(
            StartStep::FinishBulk,
        ),
        after_start_step(StartStep::FinishBulk, rebuild, false, false) == StartNext::Perform(
            StartStep::DrainEvents,
        ),
        after_start_step(StartStep::DrainEvents, rebuild, false, false) == StartNext::Perform(
            StartStep::DrainChanges,
        ),
        after_start_step(StartStep::DrainChanges, rebuild, false, false) == StartNext::Ready,
{
}

/// A volume follows the other until all had their turn, whether one could be
/// read or not; then what was noticed meanwhile is stored, and the index is
/// ready.
pub proof fn every_volume_has_its_turn(work: ResumeWork, i: usize, cancelled: bool)
    requires
        i < work.volumes.len() <= usize::MAX,
    ensures
        work.after(ResumeStep::CatchUp(i), false, cancelled) == ResumeNext::Perform(
            ResumeStep::DrainVolume(i),
        ),
        work.after(ResumeStep::Rescan(i), false, cancelled) == ResumeNext::Perform(
            ResumeStep::DrainVolume(i),
        ),
        i + 1 < work.volumes.len() && !work.recover ==> work.after(
            ResumeStep::DrainVolume(i),
            false,
            cancelled,
        ) == ResumeNext::Perform(ResumeStep::CatchUp((i + 1) as usize)) && work.after(
            ResumeStep::Rescan(i),
            true,
            cancelled,
        ) == ResumeNext::Perform(ResumeStep::CatchUp((i + 1) as usize)),
        i + 1 < work.volumes.len() && work.recover ==> work.after(
            ResumeStep::Recover(i),
            false,
            cancelled,
        ) == ResumeNext::Perform(ResumeStep::Recover((i + 1) as usize)),
        i + 1 == work.volumes.len() && !work.recover ==> work.after(
            ResumeStep::DrainVolume(i),
            false,
            cancelled,
        ) == ResumeNext::Perform(ResumeStep::DrainEvents),
        i + 1 == work.volumes.len() && work.recover ==> work.after(
            ResumeStep::Recover(i),
            false,
            cancelled,
        ) == ResumeNext::Perform(ResumeStep::FinishBulk),
        work.after(ResumeStep::FinishBulk, false, cancelled) == ResumeNext::Perform(
            ResumeStep::DrainEvents,
        ),
        work.after(ResumeStep::DrainEvents, false, cancelled) == ResumeNext::Perform(
            ResumeStep::DrainChanges,
        ),
        work.after(ResumeStep::DrainChanges, false, cancelled) == (ResumeNext::Ready {
            recount: true,
        }),
{
}

/// A failure is told unless the work was stopped.
pub proof fn failure_is_told_unless_stopped(
    s: search_manager::StatusModel,
    error: Seq<char>,
    cancelled: bool,
)
    ensures
        !cancelled ==> with_error(s, Some(error), cancelled).error == Some(error) && with_error(
            s,
            Some(error),
            cancelled,
        ).phase == "error"@,
        cancelled ==> with_error(s, Some(error), cancelled) == s,
        with_error(s, None, cancelled) == s,
        with_error(s, Some(error), cancelled).indexed_files == s.indexed_files,
{
}

/// A root whose directories were read is told to be ready, with the reason why
/// they were; what is told about the other roots stays.
pub proof fn scanned_folders_are_ready(
    s: search_manager::StatusModel,
    folders: Seq<Seq<char>>,
    i: int,
)
    requires
        0 <= i < s.providers.len(),
        forall|j: int, k: int|
            0 <= j < k < s.providers.len() ==> (#[trigger] s.providers[j]).root != (
            #[trigger] s.providers[k]).root,
    ensures
        folders_ready(s, folders).providers.len() == s.providers.len(),
        folders_ready(s, folders).providers[i].root == s.providers[i].root,
        folders_ready(s, folders).providers[i].fallback_reason == s.providers[i].fallback_reason,
        folders.contains(s.providers[i].root) ==> folders_ready(s, folders).providers[i].phase
            == "ready"@ && folders_ready(s, folders).providers[i].provider == "folderScan"@,
        !folders.contains(s.providers[i].root) ==> folders_ready(s, folders).providers[i]
            == s.providers[i],
        folders_ready(s, folders).phase == s.phase,
        folders_ready(s, folders).error == s.error,
{
    folders_are_told(s, folders);
    assert(told(s, folders, i));
}

/// What is told about the root at `i` when the directories of `folders` were
/// read.
spec fn told(s: search_manager::StatusModel, folders: Seq<Seq<char>>, i: int) -> bool {
    let now = folders_ready(s, folders).providers[i];
    let was = s.providers[i];
    &&& now.root == was.root
    &&& now.fallback_reason == was.fallback_reason
    &&& folders.contains(was.root) ==> now.phase == "ready"@ && now.provider == "folderScan"@
    &&& !folders.contains(was.root) ==> now == was
}

proof fn folders_are_told(s: search_manager::StatusModel, folders: Seq<Seq<char>>)
    requires
        forall|j: int, k: int|
            0 <= j < k < s.providers.len() ==> (#[trigger] s.providers[j]).root != (
            #[trigger] s.providers[k]).root,
    ensures
        folders_ready(s, folders).providers.len() == s.providers.len(),
        forall|i: int| 0 <= i < s.providers.len() ==> #[trigger] told(s, folders, i),
        folders_ready(s, folders).phase == s.phase,
        folders_ready(s, folders).error == s.error,
    decreases folders.len(),
{
    if folders.len() > 0 {
        let rest = folders.drop_last();
        let root = folders.last();
        folders_are_told(s, rest);
        let v = folders_ready(s, rest).providers;
        let reason = search_manager::first_reason(v, root);
        assert forall|i: int| 0 <= i < v.len() implies (#[trigger] v[i]).root
            == s.providers[i].root by {
            assert(told(s, rest, i));
        }
        if exists|at: int| 0 <= at < v.len() && (#[trigger] v[at]).root == root {
            let at = choose|at: int| 0 <= at < v.len() && (#[trigger] v[at]).root == root;
            assert forall|j: int| 0 <= j < at implies (#[trigger] v[j]).root != root by {
                assert(s.providers[j].root != s.providers[at].root);
            }
            search_manager::first_provider_is_set(v, root, "folderScan"@, "ready"@, reason, at);
            search_manager::first_reason_is_found(v, root, at);
        } else {
            search_manager::first_provider_is_set(
                v,
                root,
                "folderScan"@,
                "ready"@,
                reason,
                v.len() as int,
            );
        }
        assert forall|i: int| 0 <= i < s.providers.len() implies #[trigger] told(s, folders, i) by {
            assert(told(s, rest, i));
            let name = s.providers[i].root;
            if folders.contains(name) && name != root {
                let n = choose|n: int| 0 <= n < folders.len() && folders[n] == name;
                assert(rest[n] == name);
            }
            if rest.contains(name) {
                let n = choose|n: int| 0 <= n < rest.len() && rest[n] == name;
                assert(folders[n] == name);
            }
            assert(folders[folders.len() - 1] == root);
            assert(v[i].root == name);
        }
    }
}

/// What is told follows the work: a volume whose changes were taken over is
/// ready, one that could not be read is scanned by directories for the reason
/// that is told, the next one is being read, and in the end all is ready.
pub proof fn status_follows_the_work(
    work: ResumeWork,
    s: search_manager::StatusModel,
    i: usize,
    at: int,
    error: Seq<char>,
    cancelled: bool,
)
    requires
        i < work.volumes.len(),
        i + 1 < work.volumes.len() ==> work.volumes[i + 1] != work.volumes[i as int],
        0 <= at < s.providers.len(),
        s.providers[at].root == work.volumes[i as int],
        forall|j: int| 0 <= j < at ==> (#[trigger] s.providers[j]).root != work.volumes[i as int],
    ensures
        ({
            let t = work.status_after(s, ResumeStep::DrainVolume(i), None, cancelled).providers[at];
            t.root == work.volumes[i as int] && t.provider == "windowsNtfs"@ && t.phase == "ready"@
                && t.fallback_reason is None
        }),
        ({
            let t = work.status_after(s, ResumeStep::Recover(i), None, cancelled).providers[at];
            t.root == work.volumes[i as int] && t.provider == "windowsNtfs"@ && t.phase == "ready"@
                && t.fallback_reason is None
        }),
        ({
            let t = work.status_after(
                s,
                ResumeStep::Rescan(i),
                Some(error),
                cancelled,
            ).providers[at];
            t.root == work.volumes[i as int] && t.provider == "folderScan"@ && t.phase
                == "fallback"@ && t.fallback_reason == Some(error)
        }),
        work.status_after(s, ResumeStep::DrainChanges, None, cancelled).phase == "ready"@,
        work.status_after(s, ResumeStep::CatchUp(i), Some(error), cancelled) == s,
        work.status_after(s, ResumeStep::FinishBulk, Some(error), false).error == Some(error),
        work.status_after(s, ResumeStep::FinishBulk, Some(error), true) == s,
{
    let root = work.volumes[i as int];
    provider_stays_told(work, s, root, "windowsNtfs"@, "ready"@, None, at, i + 1);
    provider_stays_told(work, s, root, "folderScan"@, "fallback"@, Some(error), at, i + 1);
}

proof fn provider_stays_told(
    work: ResumeWork,
    s: search_manager::StatusModel,
    root: Seq<char>,
    provider: Seq<char>,
    phase: Seq<char>,
    reason: Option<Seq<char>>,
    at: int,
    next: int,
)
    requires
        0 <= next,
        next < work.volumes.len() ==> work.volumes[next] != root,
        0 <= at < s.providers.len(),
        s.providers[at].root == root,
        forall|j: int| 0 <= j < at ==> (#[trigger] s.providers[j]).root != root,
    ensures
        work.volume_status(
            provider_set(s, root, provider, phase, reason),
            next,
        ).providers[at] == (search_manager::ProviderModel {
            root,
            provider,
            phase,
            fallback_reason: reason,
        }),
{
    let v = s.providers;
    let now = search_manager::ProviderModel { root, provider, phase, fallback_reason: reason };
    search_manager::first_provider_is_set(v, root, provider, phase, reason, at);
    let w = provider_set(s, root, provider, phase, reason).providers;
    assert(w == v.update(at, now));
    if next < work.volumes.len() {
        let other = work.volumes[next];
        let k = search_manager::first_place(w, other);
        search_manager::first_provider_is_set(w, other, "windowsNtfs"@, "scanning"@, None, k);
        assert(k != at);
    }
}

} // verus!
