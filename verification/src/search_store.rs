//! The stored search index between runs: what is kept, what is built anew.

use vstd::prelude::*;

verus! {

/// The version of the stored tables.
pub const SCHEMA_VERSION: i64 = 8;

/// The marks that the stored index carries.
#[derive(Debug, Clone, Copy, PartialEq, Eq, Structural)]
pub struct StoreFlags {
    pub schema_version: Option<i64>,
    /// The files are being written.
    pub bulk_rebuild: Option<i64>,
    pub fts_ready: Option<i64>,
    /// The query index holds all files, though they may not be written yet.
    pub query_snapshot_complete: Option<i64>,
}

/// What is done with the stored index when it is opened.
#[derive(Debug, Clone, Copy, PartialEq, Eq, Structural)]
pub enum StoreAction {
    /// Its tables are from another version: they are made anew.
    Recreate,
    /// Only the query index is complete: the files are written again.
    ResetPersistence,
    /// Nothing is complete: it is emptied.
    Reset,
    Keep,
}

/// What an opened index holds.
#[derive(Debug, Clone, Copy, PartialEq, Eq, Structural)]
pub struct DatabaseInitialization {
    pub query_snapshot_complete: bool,
    pub persistence_incomplete: bool,
}

impl StoreFlags {
    pub open spec fn incomplete(self) -> bool {
        self.bulk_rebuild == Some(1i64)
    }

    /// The query index is complete: by its mark, or, where there is no such
    /// mark, because files and documents are there.
    pub open spec fn snapshot(self, files: u64, documents: Option<u64>) -> bool {
        self.query_snapshot_complete == Some(1i64) || (self.query_snapshot_complete is None
            && self.incomplete() && files > 0 && (documents matches Some(d) && d > 0))
    }

    pub open spec fn action(self, files: u64, documents: Option<u64>) -> StoreAction {
        if self.schema_version != Some(SCHEMA_VERSION) {
            StoreAction::Recreate
        } else if self.incomplete() && self.snapshot(files, documents) {
            StoreAction::ResetPersistence
        } else if self.incomplete() {
            StoreAction::Reset
        } else {
            StoreAction::Keep
        }
    }

    /// The marks after the index was opened.
    pub open spec fn opened(self, files: u64, documents: Option<u64>) -> StoreFlags {
        match self.action(files, documents) {
            StoreAction::Recreate => StoreFlags {
                schema_version: Some(SCHEMA_VERSION),
                bulk_rebuild: Some(0),
                fts_ready: Some(1),
                query_snapshot_complete: Some(0),
            },
            StoreAction::ResetPersistence => StoreFlags {
                bulk_rebuild: Some(1),
                fts_ready: Some(0),
                query_snapshot_complete: Some(1),
                ..self
            },
            StoreAction::Reset => StoreFlags {
                bulk_rebuild: Some(0),
                fts_ready: Some(1),
                query_snapshot_complete: Some(0),
                ..self
            },
            StoreAction::Keep => StoreFlags {
                fts_ready: match self.fts_ready {
                    Some(v) => Some(v),
                    None => Some(1),
                },
                ..self
            },
        }
    }

    /// What the opened index holds.
    pub open spec fn holds(self, files: u64, documents: Option<u64>) -> DatabaseInitialization {
        DatabaseInitialization {
            query_snapshot_complete: self.opened(files, documents).query_snapshot_complete == Some(
                1i64,
            ),
            persistence_incomplete: self.action(files, documents) == StoreAction::ResetPersistence,
        }
    }

    /// Decides what to do with the stored index: `files` are stored, and the
    /// query index, where there is one, holds `documents`.
    pub fn initialize_database(self, files: u64, documents: Option<u64>) -> (r: (
        StoreAction,
        StoreFlags,
        DatabaseInitialization,
    ))
        ensures
            r.0 == self.action(files, documents),
            r.1 == self.opened(files, documents),
            r.2 == self.holds(files, documents),
    {
        let current: bool = match self.schema_version {
            Some(v) => v == SCHEMA_VERSION,
            None => false,
        };
        let incomplete: bool = match self.bulk_rebuild {
            Some(v) => v == 1,
            None => false,
        };
        let has_documents: bool = match documents {
            Some(d) => d > 0,
            None => false,
        };
        let snapshot: bool = match self.query_snapshot_complete {
            Some(v) => v == 1,
            None => incomplete && files > 0 && has_documents,
        };
        let mut flags: StoreFlags = self;
        let action: StoreAction = if !current {
            flags = StoreFlags {
                schema_version: Some(SCHEMA_VERSION),
                bulk_rebuild: Some(0),
                fts_ready: Some(1),
                query_snapshot_complete: Some(0),
            };
            StoreAction::Recreate
        } else if incomplete && snapshot {
            flags.bulk_rebuild = Some(1);
            flags.fts_ready = Some(0);
            flags.query_snapshot_complete = Some(1);
            StoreAction::ResetPersistence
        } else if incomplete {
            flags.bulk_rebuild = Some(0);
            flags.fts_ready = Some(1);
            flags.query_snapshot_complete = Some(0);
            StoreAction::Reset
        } else {
            if flags.fts_ready.is_none() {
                flags.fts_ready = Some(1);
            }
            StoreAction::Keep
        };
        let complete: bool = match flags.query_snapshot_complete {
            Some(v) => v == 1,
            None => false,
        };
        let state = DatabaseInitialization {
            query_snapshot_complete: complete,
            persistence_incomplete: action == StoreAction::ResetPersistence,
        };
        (action, flags, state)
    }

    /// The marks while files are being written.
    pub open spec fn prepared(self, rebuild: bool) -> StoreFlags {
        StoreFlags {
            bulk_rebuild: Some(1),
            fts_ready: Some(0),
            query_snapshot_complete: if rebuild {
                Some(0)
            } else {
                self.query_snapshot_complete
            },
            ..self
        }
    }

    pub fn prepare_bulk_index(self, rebuild: bool) -> (r: StoreFlags)
        ensures
            r == self.prepared(rebuild),
    {
        StoreFlags {
            bulk_rebuild: Some(1),
            fts_ready: Some(0),
            query_snapshot_complete: if rebuild {
                Some(0)
            } else {
                self.query_snapshot_complete
            },
            ..self
        }
    }

    /// The marks once the query index holds all files.
    pub open spec fn marked(self) -> StoreFlags {
        StoreFlags { query_snapshot_complete: Some(1), ..self }
    }

    pub fn mark_query_snapshot_complete(self) -> (r: StoreFlags)
        ensures
            r == self.marked(),
    {
        StoreFlags { query_snapshot_complete: Some(1), ..self }
    }

    /// The marks once all files are written.
    pub open spec fn finished(self) -> StoreFlags {
        StoreFlags {
            bulk_rebuild: Some(0),
            fts_ready: Some(0),
            query_snapshot_complete: Some(1),
            ..self
        }
    }

    pub fn finish_bulk_index(self) -> (r: StoreFlags)
        ensures
            r == self.finished(),
    {
        StoreFlags {
            bulk_rebuild: Some(0),
            fts_ready: Some(0),
            query_snapshot_complete: Some(1),
            ..self
        }
    }

    /// The marks of an emptied index.
    pub open spec fn emptied(self) -> StoreFlags {
        StoreFlags {
            bulk_rebuild: Some(0),
            fts_ready: Some(1),
            query_snapshot_complete: Some(0),
            ..self
        }
    }

    pub fn reset_index(self) -> (r: StoreFlags)
        ensures
            r == self.emptied(),
    {
        StoreFlags {
            bulk_rebuild: Some(0),
            fts_ready: Some(1),
            query_snapshot_complete: Some(0),
            ..self
        }
    }
}

/// A rebuild that was interrupted before the query index was complete is
/// discarded.
pub proof fn interrupted_rebuild_is_discarded(f: StoreFlags, files: u64, documents: Option<u64>)
    requires
        f.schema_version == Some(SCHEMA_VERSION),
    ensures
        f.prepared(true).action(files, documents) == StoreAction::Reset,
        !f.prepared(true).holds(files, documents).query_snapshot_complete,
        !f.prepared(true).holds(files, documents).persistence_incomplete,
{
}

/// A complete query index survives when the files are not all written yet.
pub proof fn complete_snapshot_survives(f: StoreFlags, files: u64, documents: Option<u64>)
    requires
        f.schema_version == Some(SCHEMA_VERSION),
    ensures
        f.prepared(true).marked().action(files, documents) == StoreAction::ResetPersistence,
        f.prepared(true).marked().holds(files, documents).query_snapshot_complete,
        f.prepared(true).marked().holds(files, documents).persistence_incomplete,
{
}

/// A finished index is kept.
pub proof fn finished_index_is_kept(f: StoreFlags, files: u64, documents: Option<u64>)
    requires
        f.schema_version == Some(SCHEMA_VERSION),
    ensures
        f.finished().action(files, documents) == StoreAction::Keep,
        f.finished().opened(files, documents) == f.finished(),
        f.finished().holds(files, documents).query_snapshot_complete,
        !f.finished().holds(files, documents).persistence_incomplete,
{
}

/// Opening an index a second time does no more than the first time.
pub proof fn opening_again_changes_nothing(f: StoreFlags, files: u64, documents: Option<u64>)
    ensures
        f.opened(files, documents).opened(files, documents) == f.opened(files, documents),
{
}

/// Which directories of the query index are there.
#[derive(Debug, Clone, Copy, PartialEq, Eq, Structural)]
pub struct IndexDirs {
    pub active: bool,
    /// The index before the last change.
    pub previous: bool,
    /// An index that is being built.
    pub staging: bool,
}

/// What is done with the directories of the query index.
#[derive(Debug, Clone, Copy, PartialEq, Eq, Structural)]
pub struct RecoverySteps {
    pub previous_to_active: bool,
    pub staging_to_active: bool,
    pub remove_previous: bool,
    pub remove_staging: bool,
}

impl IndexDirs {
    /// The directories after `s`.
    pub open spec fn after(self, s: RecoverySteps) -> IndexDirs {
        IndexDirs {
            active: self.active || s.previous_to_active || s.staging_to_active,
            previous: self.previous && !s.previous_to_active && !s.remove_previous,
            staging: self.staging && !s.staging_to_active && !s.remove_staging,
        }
    }

    /// Puts the directories right after an interruption: a missing index is
    /// replaced by the previous one, or else by the one that was being
    /// built; the others go.
    pub fn recover_query_index_directories(self) -> (r: RecoverySteps)
        ensures
            self.after(r).active == (self.active || self.previous || self.staging),
            !self.after(r).previous,
            !self.after(r).staging,
            r.previous_to_active == (!self.active && self.previous),
            r.staging_to_active == (!self.active && !self.previous && self.staging),
            r.remove_previous == (self.active && self.previous),
            r.remove_staging == (self.staging && (self.active || self.previous)),
    {
        let previous_to_active: bool = !self.active && self.previous;
        let staging_to_active: bool = !self.active && !self.previous && self.staging;
        let active: bool = self.active || previous_to_active || staging_to_active;
        RecoverySteps {
            previous_to_active,
            staging_to_active,
            remove_previous: active && self.previous && !previous_to_active,
            remove_staging: active && self.staging && !staging_to_active,
        }
    }

    /// Making room for a new index: the previous one goes, the active one
    /// becomes the previous one.
    pub open spec fn set_aside(self) -> IndexDirs {
        IndexDirs { active: false, previous: self.active, staging: self.staging }
    }

    /// The new index took its place.
    pub open spec fn promoted(self) -> IndexDirs {
        IndexDirs { active: true, staging: false, ..self }
    }

    /// The new index could not be moved: the old one comes back.
    pub open spec fn move_failed(self) -> IndexDirs {
        if self.previous && !self.active {
            IndexDirs { active: true, previous: false, ..self }
        } else {
            self
        }
    }

    /// The new index could not be opened: it is moved back, and the old one
    /// too.
    pub open spec fn open_failed(self) -> IndexDirs {
        IndexDirs { active: self.previous, previous: false, staging: true }
    }

    /// Whether the old index has to be moved back after a failed move.
    pub fn restores_after_failed_move(self) -> (r: bool)
        ensures
            r == (self.previous && !self.active),
            self.move_failed() == if r {
                (IndexDirs { active: true, previous: false, ..self })
            } else {
                self
            },
    {
        self.previous && !self.active
    }
}

/// Whatever fails while a new index takes the place of the old one, there
/// is an index afterwards if there was one before.
pub proof fn activation_keeps_an_index(d: IndexDirs)
    requires
        d.active,
    ensures
        d.set_aside().move_failed().active,
        d.set_aside().promoted().active,
        d.set_aside().promoted().open_failed().active,
{
}

/// An index is rebuilt beside one that can be queried; that one is not
/// touched until the new one is complete.
#[derive(Debug, Clone, Copy, PartialEq, Eq, Structural)]
pub struct QueryIndexState {
    /// There is an active index.
    pub present: bool,
    pub ready: bool,
    pub bulk: bool,
    pub staged: bool,
}

/// Where files go.
#[derive(Debug, Clone, Copy, PartialEq, Eq, Structural)]
pub enum IndexTarget {
    Nowhere,
    /// Added to the index that is being built beside the active one.
    AddStaged,
    AddActive,
    UpsertActive,
}

impl QueryIndexState {
    /// The state after a rebuild began; `documents` are in the active index.
    pub open spec fn begun(self, documents: u64) -> QueryIndexState {
        QueryIndexState {
            bulk: true,
            staged: if self.present {
                documents > 0
            } else {
                self.staged
            },
            ..self
        }
    }

    /// Begins a rebuild: beside the active index where that holds anything,
    /// else in place.
    pub fn begin_query_index_bulk(&mut self, documents: u64)
        ensures
            *final(self) == old(self).begun(documents),
    {
        if self.present {
            self.staged = documents > 0;
        }
        self.bulk = true;
    }

    pub open spec fn finished(self) -> QueryIndexState {
        QueryIndexState { bulk: false, staged: false, ready: true, ..self }
    }

    /// Ends a rebuild.
    pub fn finish_query_index_bulk(&mut self)
        ensures
            *final(self) == old(self).finished(),
    {
        self.bulk = false;
        self.staged = false;
        self.ready = true;
    }

    /// Where files go.
    pub open spec fn goes_to(self, staged_present: bool) -> IndexTarget {
        if self.bulk && self.staged {
            if staged_present {
                IndexTarget::AddStaged
            } else {
                IndexTarget::Nowhere
            }
        } else if !self.present {
            IndexTarget::Nowhere
        } else if self.bulk {
            IndexTarget::AddActive
        } else {
            IndexTarget::UpsertActive
        }
    }

    pub fn index_target(&self, staged_present: bool) -> (r: IndexTarget)
        ensures
            r == self.goes_to(staged_present),
    {
        if self.bulk && self.staged {
            if staged_present {
                IndexTarget::AddStaged
            } else {
                IndexTarget::Nowhere
            }
        } else if !self.present {
            IndexTarget::Nowhere
        } else if self.bulk {
            IndexTarget::AddActive
        } else {
            IndexTarget::UpsertActive
        }
    }

    /// Whether the index can answer queries.
    pub fn can_query(&self, documents: u64) -> (r: bool)
        ensures
            r == (self.ready && self.present && documents > 0),
    {
        self.ready && self.present && documents > 0
    }

    /// Whether the index has to be filled from the stored files.
    pub fn needs_filling(&self) -> (r: bool)
        ensures
            r == (!self.ready && self.present),
    {
        !self.ready && self.present
    }
}

/// While an index with contents is rebuilt, files never go to the active
/// one: queries see the old contents until the new ones are complete.
pub proof fn rebuild_leaves_active_index_alone(
    s: QueryIndexState,
    documents: u64,
    staged_present: bool,
)
    requires
        s.present,
        documents > 0,
    ensures
        s.begun(documents).goes_to(staged_present) != IndexTarget::AddActive,
        s.begun(documents).goes_to(staged_present) != IndexTarget::UpsertActive,
        s.begun(documents).ready == s.ready,
{
}

/// A stored index of this version is kept as it is unless its files were being
/// written; one of another version is made anew whatever it holds.
pub proof fn stored_index_is_kept_unless_incomplete(
    f: StoreFlags,
    files: u64,
    documents: Option<u64>,
)
    ensures
        f.schema_version != Some(8i64) ==> f.action(files, documents) == StoreAction::Recreate,
        f.schema_version == Some(8i64) && f.bulk_rebuild != Some(1i64) ==> f.action(
            files,
            documents,
        ) == StoreAction::Keep && f.opened(files, documents).query_snapshot_complete
            == f.query_snapshot_complete && f.opened(files, documents).bulk_rebuild
            == f.bulk_rebuild,
        f.opened(files, documents).schema_version == Some(8i64),
        f.opened(files, documents).fts_ready is Some,
{
}

/// Outside of a rebuild files go into the active index, replacing what it
/// holds of them; during one they are added, beside the active index where
/// that holds anything.
pub proof fn files_go_into_the_index(s: QueryIndexState, documents: u64, staged_present: bool)
    ensures
        s.present && !s.bulk ==> s.goes_to(staged_present) == IndexTarget::UpsertActive,
        s.present && documents == 0 ==> s.begun(documents).goes_to(staged_present)
            == IndexTarget::AddActive,
        s.present && documents > 0 ==> s.begun(documents).goes_to(true) == IndexTarget::AddStaged,
        s.present ==> s.begun(documents).finished().goes_to(staged_present)
            == IndexTarget::UpsertActive,
        s.begun(documents).finished().ready,
        s.begun(documents).present == s.present,
{
}

/// An emptied index is kept when it is opened, and known to be incomplete.
pub proof fn emptied_index_is_kept(f: StoreFlags, files: u64, documents: Option<u64>)
    requires
        f.schema_version == Some(8i64),
    ensures
        f.emptied().action(files, documents) == StoreAction::Keep,
        !f.emptied().holds(files, documents).query_snapshot_complete,
        !f.emptied().holds(files, documents).persistence_incomplete,
        f.emptied().schema_version == f.schema_version,
{
}

} // verus!
