//! What the system reports about watched directories, put in order.

use crate::inventory;
use crate::inventory::{scan_dir, DetectedItem, FileFacts};
use crate::order;
use crate::paths;
use crate::paths::{parts_within, KnownPath};
use crate::text;
use crate::text::{contains_text, same_texts};
use crate::text_map;
use crate::text_map::TextMap;
use crate::watch;
use crate::watch::WatchState;
use vstd::prelude::*;

verus! {

/// How many paths are remembered while events come in too fast.
pub const ARRIVAL_OVERFLOW_CAPACITY: usize = 4096;

/// What happened.
#[derive(Debug, Clone, Copy, PartialEq, Eq, Structural)]
pub enum ChangeKind {
    Access,
    Create,
    /// Contents were written.
    Data,
    Remove,
    /// A rename with its old and its new path.
    RenameBoth,
    /// The old path of a rename.
    RenameFrom,
    /// Any other half of a rename.
    RenameOther,
    /// Any other change.
    Modify,
    Unknown,
}

/// A path of an event, as the watched directory names it.
#[derive(Debug)]
pub struct EventPath {
    /// The path, where the watcher is concerned with it.
    pub path: Option<String>,
    pub exists: bool,
    /// What a listing shows there.
    pub node: Option<DetectedItem>,
}

#[derive(Debug)]
pub struct WatchEvent {
    pub kind: ChangeKind,
    /// Events were lost.
    pub rescan: bool,
    pub paths: Vec<EventPath>,
}

/// Where a path of an event lies.
#[derive(Debug)]
pub enum EventPlace {
    /// Not below the watched directory.
    Outside,
    /// Below it, by the path as it stands.
    Same,
    /// Below it, behind these components.
    Below(Vec<String>),
}

/// The components of `path` behind those of `root`.
pub open spec fn below(path: Seq<Seq<char>>, root: Seq<Seq<char>>) -> Option<Seq<Seq<char>>> {
    if root.is_prefix_of(path) {
        Some(path.skip(root.len() as int))
    } else {
        None
    }
}

/// Places a path below a watched directory: as it stands, or else by what
/// both are in truth.
pub fn normalize_descendant_path(
    root: &KnownPath,
    path: &KnownPath,
    canonical_root: Option<&KnownPath>,
    canonical_path: Option<&KnownPath>,
) -> (r: EventPlace)
    ensures
        paths::lies_in(path@, root@) ==> r is Same,
        !paths::lies_in(path@, root@) ==> match (canonical_root, canonical_path) {
            (Some(a), Some(b)) => match below(b@.parts, a@.parts) {
                Some(rest) => r is Below && text::texts(r->Below_0@) == rest,
                None => r is Outside,
            },
            _ => r is Outside,
        },
{
    if path.is_inside(root) {
        return EventPlace::Same;
    }
    match (canonical_root, canonical_path) {
        (Some(a), Some(b)) => {
            if !parts_within(&b.parts, &a.parts) {
                return EventPlace::Outside;
            }
            let ghost wanted = b@.parts.skip(a@.parts.len() as int);
            let mut rest: Vec<String> = Vec::new();
            assert(text::texts(rest@) =~= wanted.take(0));
            for i in a.parts.len()..b.parts.len()
                invariant
                    a.parts@.len() <= b.parts@.len(),
                    wanted == b@.parts.skip(a@.parts.len() as int),
                    text::texts(rest@) == wanted.take(i - a.parts@.len()),
            {
                let ghost before = rest@;
                rest.push(b.parts[i].clone());
                assert(text::texts(rest@) =~= text::texts(before).push(b.parts@[i as int]@));
                assert(wanted.take(i + 1 - a.parts@.len()) =~= wanted.take(
                    i - a.parts@.len(),
                ).push(b.parts@[i as int]@));
            }
            assert(wanted.take(wanted.len() as int) =~= wanted);
            EventPlace::Below(rest)
        },
        _ => EventPlace::Outside,
    }
}

/// Places a path directly in a watched directory: as it stands, or else by
/// what both directories are in truth.
pub fn normalize_top_level_path(
    watch_dir: &KnownPath,
    parent: Option<&KnownPath>,
    file_name: Option<&str>,
    canonical_parent: Option<&KnownPath>,
    canonical_watch_dir: Option<&KnownPath>,
) -> (r: EventPlace)
    ensures
        match parent {
            None => r is Outside,
            Some(p) => if p@.parts == watch_dir@.parts {
                r is Same
            } else {
                match (canonical_parent, canonical_watch_dir, file_name) {
                    (Some(a), Some(b), Some(n)) => if a@.parts == b@.parts {
                        r is Below && text::texts(r->Below_0@) == seq![n@]
                    } else {
                        r is Outside
                    },
                    _ => r is Outside,
                }
            },
        },
{
    let p = match parent {
        Some(p) => p,
        None => {
            return EventPlace::Outside;
        },
    };
    if p.same_parts(watch_dir) {
        return EventPlace::Same;
    }
    match (canonical_parent, canonical_watch_dir, file_name) {
        (Some(a), Some(b), Some(n)) => {
            if !same_texts(&a.parts, &b.parts) {
                return EventPlace::Outside;
            }
            let mut rest: Vec<String> = Vec::new();
            rest.push(n.to_owned());
            assert(text::texts(rest@) =~= seq![n@]);
            EventPlace::Below(rest)
        },
        _ => EventPlace::Outside,
    }
}

/// Whether an event makes a path arrive (`true`) or go.
pub open spec fn arrives(kind: ChangeKind, exists: bool) -> Option<bool> {
    match kind {
        ChangeKind::Access => None,
        ChangeKind::Create | ChangeKind::Data => Some(true),
        ChangeKind::Remove | ChangeKind::RenameFrom => Some(false),
        _ => Some(exists),
    }
}

/// Notes that a path arrives or goes.
pub open spec fn noted(
    m: Map<Seq<char>, bool>,
    path: EventPath,
    arrival: Option<bool>,
) -> Map<Seq<char>, bool> {
    match (path.path, arrival) {
        (Some(p), Some(a)) => m.insert(p@, a),
        _ => m,
    }
}

pub open spec fn noted_all(m: Map<Seq<char>, bool>, kind: ChangeKind, v: Seq<EventPath>) -> Map<
    Seq<char>,
    bool,
>
    decreases v.len(),
{
    if v.len() == 0 {
        m
    } else {
        noted(
            noted_all(m, kind, v.drop_last()),
            v.last(),
            arrives(kind, v.last().exists),
        )
    }
}

pub open spec fn noted_event(m: Map<Seq<char>, bool>, e: WatchEvent) -> Map<Seq<char>, bool> {
    if e.kind == ChangeKind::RenameBoth {
        if e.paths@.len() != 2 {
            m
        } else {
            noted(noted(m, e.paths@[0], Some(false)), e.paths@[1], Some(true))
        }
    } else {
        noted_all(m, e.kind, e.paths@)
    }
}

/// Which paths arrive and which go: of several events the last decides.
pub open spec fn arrivals(events: Seq<WatchEvent>) -> Map<Seq<char>, bool>
    decreases events.len(),
{
    if events.len() == 0 {
        Map::empty()
    } else {
        noted_event(arrivals(events.drop_last()), events.last())
    }
}

/// An event that may stand for more than it says.
pub open spec fn is_vague(e: WatchEvent) -> bool {
    e.rescan || e.kind == ChangeKind::Unknown || (e.kind == ChangeKind::RenameBoth
        && e.paths@.len() != 2)
}

pub open spec fn any_vague(events: Seq<WatchEvent>) -> bool {
    exists|i: int| 0 <= i < events.len() && is_vague(#[trigger] events[i])
}

/// `v` lists, in order, the paths that `m` maps to `arrival`.
pub open spec fn lists_arrivals(m: Map<Seq<char>, bool>, v: Seq<Seq<char>>, arrival: bool) -> bool {
    &&& text_map::ascending(v)
    &&& forall|k: Seq<char>| #[trigger]
        v.contains(k) <==> m.contains_key(k) && m[k] == arrival
}

/// Paths that arrive and go.
#[derive(Debug)]
pub struct ArrivalEvents {
    pub schedule: Vec<String>,
    pub cancel: Vec<String>,
    /// Something may have been missed.
    pub degraded: bool,
}

fn note(m: &mut TextMap<bool>, path: &EventPath, arrival: bool)
    requires
        old(m).well_formed(),
    ensures
        final(m).well_formed(),
        final(m)@ == noted(old(m)@, *path, Some(arrival)),
{
    match &path.path {
        Some(p) => m.insert(p.clone(), arrival),
        None => {},
    }
}

fn note_event(m: &mut TextMap<bool>, e: &WatchEvent) -> (vague: bool)
    requires
        old(m).well_formed(),
    ensures
        final(m).well_formed(),
        final(m)@ == noted_event(old(m)@, *e),
        vague == is_vague(*e),
{
    match e.kind {
        ChangeKind::RenameBoth => {
            if e.paths.len() != 2 {
                return true;
            }
            note(m, &e.paths[0], false);
            note(m, &e.paths[1], true);
        },
        _ => {
            let ghost before = m@;
            let ghost all = e.paths@;
            assert(all.take(0) =~= Seq::empty());
            for i in 0..e.paths.len()
                invariant
                    m.well_formed(),
                    all == e.paths@,
                    m@ == noted_all(before, e.kind, all.take(i as int)),
            {
                assert(all.take(i + 1).drop_last() =~= all.take(i as int));
                match e.kind {
                    ChangeKind::Access => {},
                    ChangeKind::Create | ChangeKind::Data => note(m, &e.paths[i], true),
                    ChangeKind::Remove | ChangeKind::RenameFrom => note(m, &e.paths[i], false),
                    _ => {
                        let exists: bool = e.paths[i].exists;
                        note(m, &e.paths[i], exists)
                    },
                }
            }
            assert(all.take(all.len() as int) =~= all);
        },
    }
    e.rescan || e.kind == ChangeKind::Unknown
}

/// The paths that arrive and go in a batch of events.
pub fn normalize_arrival_events(events: &Vec<WatchEvent>) -> (r: ArrivalEvents)
    ensures
        lists_arrivals(arrivals(events@), text::texts(r.schedule@), true),
        lists_arrivals(arrivals(events@), text::texts(r.cancel@), false),
        r.degraded == any_vague(events@),
{
    let mut m: TextMap<bool> = TextMap::new();
    let mut degraded: bool = false;
    assert(events@.take(0) =~= Seq::empty());
    for i in 0..events.len()
        invariant
            m.well_formed(),
            m@ == arrivals(events@.take(i as int)),
            degraded ==> any_vague(events@),
            !degraded ==> forall|j: int| 0 <= j < i ==> !is_vague(#[trigger] events@[j]),
    {
        assert(events@.take(i + 1).drop_last() =~= events@.take(i as int));
        let vague: bool = note_event(&mut m, &events[i]);
        if vague {
            assert(is_vague(events@[i as int]));
            degraded = true;
        }
    }
    assert(events@.take(events@.len() as int) =~= events@);
    let schedule = paths_with(&m, true);
    let cancel = paths_with(&m, false);
    ArrivalEvents { schedule, cancel, degraded }
}

fn paths_with(m: &TextMap<bool>, arrival: bool) -> (r: Vec<String>)
    requires
        m.well_formed(),
    ensures
        lists_arrivals(m@, text::texts(r@), arrival),
{
    let keys = m.keys();
    let ghost all = text::texts(keys@);
    let mut r: Vec<String> = Vec::new();
    let ghost mut places: Seq<int> = Seq::empty();
    assert(text::texts(r@) =~= Seq::empty());
    for i in 0..keys.len()
        invariant
            m.well_formed(),
            all == text::texts(keys@),
            text_map::ascending(all),
            forall|k: Seq<char>| #[trigger] m@.contains_key(k) <==> all.contains(k),
            places.len() == r@.len(),
            forall|a: int|
                0 <= a < places.len() ==> 0 <= #[trigger] places[a] < i && text::texts(r@)[a]
                    == all[places[a]],
            forall|a: int, b: int|
                0 <= a < b < places.len() ==> (#[trigger] places[a]) < (#[trigger] places[b]),
            forall|k: Seq<char>| #[trigger]
                text::texts(r@).contains(k) <==> all.take(i as int).contains(k) && m@[k] == arrival,
    {
        let ghost before = text::texts(r@);
        let ghost key = keys@[i as int]@;
        proof {
            assert(all.take(i + 1) =~= all.take(i as int).push(key));
            assert forall|k: Seq<char>| #[trigger] all.take(i + 1).contains(k) <==> (all.take(
                i as int,
            ).contains(k) || k == key) by {
                vstd::seq_lib::lemma_seq_contains_after_push(all.take(i as int), key, k);
            }
            assert(all[i as int] == key);
            assert(all.contains(key));
        }
        let wanted: bool = match m.get(keys[i].as_str()) {
            Some(a) => *a == arrival,
            None => false,
        };
        if wanted {
            r.push(keys[i].clone());
            proof {
                places = places.push(i as int);
                assert(text::texts(r@) =~= before.push(key));
                assert forall|k: Seq<char>| #[trigger]
                    text::texts(r@).contains(k) <==> before.contains(k) || k == key by {
                    vstd::seq_lib::lemma_seq_contains_after_push(before, key, k);
                }
            }
        }
    }
    proof {
        assert(all.take(all.len() as int) =~= all);
        let v = text::texts(r@);
        assert forall|a: int, b: int| 0 <= a < b < v.len() implies text_map::text_before(
            #[trigger] v[a],
            #[trigger] v[b],
        ) by {
            assert(places[a] < places[b]);
            assert(v[a] == all[places[a]]);
            assert(v[b] == all[places[b]]);
        }
    }
    r
}

/// Adds a path that came in too fast: it arrives if it exists, else it goes.
pub fn add_overflow(events: &mut ArrivalEvents, path: &EventPath)
    ensures
        final(events).schedule@ == if path.path is Some && path.exists {
            old(events).schedule@.push(path.path->0)
        } else {
            old(events).schedule@
        },
        final(events).cancel@ == if path.path is Some && !path.exists {
            old(events).cancel@.push(path.path->0)
        } else {
            old(events).cancel@
        },
        final(events).degraded == old(events).degraded,
{
    match &path.path {
        Some(p) => {
            if path.exists {
                events.schedule.push(p.clone());
            } else {
                events.cancel.push(p.clone());
            }
        },
        None => {},
    }
}

/// Paths of events for which the queue had no room.
#[derive(Debug)]
pub struct ArrivalOverflow {
    pub paths: Vec<String>,
    pub degraded: bool,
}

/// The paths that are remembered, and whether some are not.
pub open spec fn remembered(v: Seq<Seq<char>>, more: Seq<Seq<char>>) -> (Seq<Seq<char>>, bool)
    decreases more.len(),
{
    if more.len() == 0 {
        (v, false)
    } else if v.len() >= ARRIVAL_OVERFLOW_CAPACITY {
        (v, true)
    } else if v.contains(more[0]) {
        remembered(v, more.drop_first())
    } else {
        remembered(v.push(more[0]), more.drop_first())
    }
}

impl ArrivalOverflow {
    pub fn new() -> (r: Self)
        ensures
            r.paths@.len() == 0,
            !r.degraded,
    {
        ArrivalOverflow { paths: Vec::new(), degraded: false }
    }

    /// Remembers the paths of an event, each once, as long as there is room.
    pub fn add(&mut self, more: &Vec<String>)
        requires
            old(self).paths@.len() <= ARRIVAL_OVERFLOW_CAPACITY,
        ensures
            final(self).paths@.len() <= ARRIVAL_OVERFLOW_CAPACITY,
            text::texts(final(self).paths@) == remembered(
                text::texts(old(self).paths@),
                text::texts(more@),
            ).0,
            final(self).degraded == (old(self).degraded || remembered(
                text::texts(old(self).paths@),
                text::texts(more@),
            ).1),
    {
        let ghost all = text::texts(more@);
        let ghost wanted = remembered(text::texts(self.paths@), all);
        assert(all.skip(0) =~= all);
        for i in 0..more.len()
            invariant
                all == text::texts(more@),
                self.paths@.len() <= ARRIVAL_OVERFLOW_CAPACITY,
                remembered(text::texts(self.paths@), all.skip(i as int)) == wanted,
                self.degraded == old(self).degraded,
                wanted == remembered(text::texts(old(self).paths@), text::texts(more@)),
        {
            assert(all.skip(i as int)[0] == more@[i as int]@);
            assert(all.skip(i as int).drop_first() =~= all.skip(i + 1));
            if self.paths.len() >= ARRIVAL_OVERFLOW_CAPACITY {
                self.degraded = true;
                return;
            }
            if !contains_text(&self.paths, more[i].as_str()) {
                let ghost before = text::texts(self.paths@);
                self.paths.push(more[i].clone());
                assert(text::texts(self.paths@) =~= before.push(more@[i as int]@));
            }
        }
        assert(all.skip(all.len() as int) =~= Seq::empty());
    }
}

/// A change in a watched directory.
#[derive(Debug)]
pub enum DirectoryChange {
    Upsert { node: DetectedItem },
    Remove { path: String },
    Rename { old_path: String, node: DetectedItem },
    Rescan { nodes: Vec<DetectedItem> },
}

#[verifier::ext_equal]
pub enum ChangeModel {
    Upsert(inventory::ItemModel),
    Remove(Seq<char>),
    Rename(Seq<char>, inventory::ItemModel),
    Rescan(Seq<inventory::ItemModel>),
}

impl View for DirectoryChange {
    type V = ChangeModel;

    open spec fn view(&self) -> ChangeModel {
        match self {
            DirectoryChange::Upsert { node } => ChangeModel::Upsert(node@),
            DirectoryChange::Remove { path } => ChangeModel::Remove(path@),
            DirectoryChange::Rename { old_path, node } => ChangeModel::Rename(old_path@, node@),
            DirectoryChange::Rescan { nodes } => ChangeModel::Rescan(
                inventory::item_models(nodes@),
            ),
        }
    }
}

/// Changes of one directory.
#[derive(Debug)]
pub struct DirectoryChangeBatch {
    pub watch_dir: String,
    pub changes: Vec<DirectoryChange>,
}

pub open spec fn change_models(v: Seq<DirectoryChange>) -> Seq<ChangeModel> {
    v.map_values(|c: DirectoryChange| c@)
}

/// The key under which a rename is kept.
pub open spec fn rename_key(old_path: Seq<char>) -> Seq<char> {
    "rename:"@ + old_path
}

/// The changes so far, and whether the directory has to be read anew.
pub type Changes = (Map<Seq<char>, ChangeModel>, bool);

pub open spec fn changed_by_path(c: Changes, kind: ChangeKind, p: EventPath) -> Changes {
    match p.path {
        None => c,
        Some(path) => match kind {
            ChangeKind::Create => match p.node {
                Some(node) => (c.0.insert(node.path@, ChangeModel::Upsert(node@)), c.1),
                None => c,
            },
            ChangeKind::Remove => (c.0.insert(path@, ChangeModel::Remove(path@)), c.1),
            ChangeKind::Data | ChangeKind::Modify => match p.node {
                Some(node) => (c.0.insert(path@, ChangeModel::Upsert(node@)), c.1),
                None => (c.0, true),
            },
            ChangeKind::RenameFrom | ChangeKind::RenameOther | ChangeKind::Unknown => (c.0, true),
            _ => c,
        },
    }
}

pub open spec fn changed_by_paths(c: Changes, kind: ChangeKind, v: Seq<EventPath>) -> Changes
    decreases v.len(),
{
    if v.len() == 0 {
        c
    } else {
        changed_by_path(changed_by_paths(c, kind, v.drop_last()), kind, v.last())
    }
}

pub open spec fn renamed_by(c: Changes, from: EventPath, to: EventPath) -> Changes {
    match (from.path, to.path) {
        (Some(a), Some(b)) => match to.node {
            Some(node) => (
                c.0.remove(a@).remove(node.path@).insert(
                    rename_key(a@),
                    ChangeModel::Rename(a@, node@),
                ),
                c.1,
            ),
            None => (c.0, true),
        },
        _ => c,
    }
}

pub open spec fn changed_by(c: Changes, e: WatchEvent) -> Changes {
    let d = (c.0, c.1 || e.rescan);
    match e.kind {
        ChangeKind::Access => d,
        ChangeKind::RenameBoth => if e.paths@.len() != 2 {
            (d.0, true)
        } else {
            renamed_by(d, e.paths@[0], e.paths@[1])
        },
        ChangeKind::Unknown => if e.paths@.len() == 0 {
            (d.0, true)
        } else {
            changed_by_paths(d, e.kind, e.paths@)
        },
        _ => changed_by_paths(d, e.kind, e.paths@),
    }
}

/// What a batch of events changes.
pub open spec fn changed_by_all(events: Seq<WatchEvent>, force: bool) -> Changes
    decreases events.len(),
{
    if events.len() == 0 {
        (Map::empty(), force)
    } else {
        changed_by(changed_by_all(events.drop_last(), force), events.last())
    }
}

/// `v` lists the changes in the order of their keys.
pub open spec fn lists_changes(m: Map<Seq<char>, ChangeModel>, v: Seq<ChangeModel>) -> bool {
    exists|keys: Seq<Seq<char>>| #[trigger] text_map::lists(m, keys, v)
}

/// The changes that a table holds.
pub open spec fn table_models(m: Map<Seq<char>, DirectoryChange>) -> Map<Seq<char>, ChangeModel> {
    Map::new(|k: Seq<char>| m.contains_key(k), |k: Seq<char>| m[k]@)
}

fn change_by_path(
    m: &mut TextMap<DirectoryChange>,
    kind: ChangeKind,
    p: &EventPath,
    Ghost(flag): Ghost<bool>,
) -> (force: bool)
    requires
        old(m).well_formed(),
    ensures
        final(m).well_formed(),
        (table_models(final(m)@), flag || force) == changed_by_path(
            (table_models(old(m)@), flag),
            kind,
            *p,
        ),
{
    let ghost before = m@;
    let path = match &p.path {
        Some(path) => path,
        None => {
            return false;
        },
    };
    let mut force: bool = false;
    match kind {
        ChangeKind::Create => {
            match &p.node {
                Some(node) => m.insert(
                    node.path.clone(),
                    DirectoryChange::Upsert { node: node.clone() },
                ),
                None => {},
            }
        },
        ChangeKind::Remove => m.insert(
            path.clone(),
            DirectoryChange::Remove { path: path.clone() },
        ),
        ChangeKind::Data | ChangeKind::Modify => {
            match &p.node {
                Some(node) => m.insert(path.clone(), DirectoryChange::Upsert { node: node.clone() }),
                None => {
                    force = true;
                },
            }
        },
        ChangeKind::RenameFrom | ChangeKind::RenameOther | ChangeKind::Unknown => {
            force = true;
        },
        _ => {},
    }
    assert(table_models(m@) =~= changed_by_path((table_models(before), flag), kind, *p).0);
    force
}

fn rename_by(
    m: &mut TextMap<DirectoryChange>,
    from: &EventPath,
    to: &EventPath,
    Ghost(flag): Ghost<bool>,
) -> (force: bool)
    requires
        old(m).well_formed(),
    ensures
        final(m).well_formed(),
        (table_models(final(m)@), flag || force) == renamed_by(
            (table_models(old(m)@), flag),
            *from,
            *to,
        ),
{
    let ghost before = m@;
    match (&from.path, &to.path) {
        (Some(a), Some(_)) => match &to.node {
            Some(node) => {
                m.remove(a.as_str());
                m.remove(node.path.as_str());
                let mut key = "rename:".to_owned();
                key.append(a.as_str());
                m.insert(
                    key,
                    DirectoryChange::Rename { old_path: a.clone(), node: node.clone() },
                );
                assert(table_models(m@) =~= renamed_by(
                    (table_models(before), flag),
                    *from,
                    *to,
                ).0);
                false
            },
            None => true,
        },
        _ => false,
    }
}

fn change_by(m: &mut TextMap<DirectoryChange>, e: &WatchEvent, Ghost(flag): Ghost<bool>) -> (force:
    bool)
    requires
        old(m).well_formed(),
    ensures
        final(m).well_formed(),
        (table_models(final(m)@), flag || force) == changed_by(
            (table_models(old(m)@), flag),
            *e,
        ),
{
    match e.kind {
        ChangeKind::Access => {
            return e.rescan;
        },
        ChangeKind::RenameBoth => {
            if e.paths.len() != 2 {
                return true;
            }
            let ghost now = flag || e.rescan;
            let lost: bool = rename_by(m, &e.paths[0], &e.paths[1], Ghost(now));
            return e.rescan || lost;
        },
        _ => {},
    }
    if e.kind == ChangeKind::Unknown && e.paths.len() == 0 {
        return true;
    }
    let mut force: bool = e.rescan;
    let ghost start = (table_models(m@), flag || e.rescan);
    let ghost all = e.paths@;
    assert(all.take(0) =~= Seq::empty());
    for i in 0..e.paths.len()
        invariant
            m.well_formed(),
            all == e.paths@,
            (table_models(m@), flag || force) == changed_by_paths(
                start,
                e.kind,
                all.take(i as int),
            ),
    {
        assert(all.take(i + 1).drop_last() =~= all.take(i as int));
        let ghost now = flag || force;
        let lost: bool = change_by_path(m, e.kind, &e.paths[i], Ghost(now));
        force = force || lost;
    }
    assert(all.take(all.len() as int) =~= all);
    force
}

/// Puts a batch of events in order: the last change of each path, sorted by
/// path. `None` where the directory has to be read anew.
pub fn normalize_events(watch_dir: &str, events: &Vec<WatchEvent>, force_rescan: bool) -> (r:
    Option<DirectoryChangeBatch>)
    ensures
        ({
            let c = changed_by_all(events@, force_rescan);
            match r {
                None => c.1,
                Some(batch) => !c.1 && batch.watch_dir@ == watch_dir@ && lists_changes(
                    c.0,
                    change_models(batch.changes@),
                ),
            }
        }),
{
    let mut m: TextMap<DirectoryChange> = TextMap::new();
    let mut force: bool = force_rescan;
    assert(events@.take(0) =~= Seq::empty());
    assert(table_models(m@) =~= Map::empty());
    for i in 0..events.len()
        invariant
            m.well_formed(),
            (table_models(m@), force) == changed_by_all(events@.take(i as int), force_rescan),
    {
        assert(events@.take(i + 1).drop_last() =~= events@.take(i as int));
        let ghost now = force;
        let lost: bool = change_by(&mut m, &events[i], Ghost(now));
        force = force || lost;
    }
    assert(events@.take(events@.len() as int) =~= events@);
    if force {
        return None;
    }
    let ghost table = m@;
    assert((table_models(table), false) == changed_by_all(events@, force_rescan));
    let changes = m.into_values();
    proof {
        let keys = choose|keys: Seq<Seq<char>>| #[trigger]
            text_map::lists(table, keys, changes@);
        let c = changed_by_all(events@, force_rescan);
        assert forall|k: Seq<char>| #[trigger] c.0.contains_key(k) <==> keys.contains(k) by {
            assert(table.contains_key(k) <==> keys.contains(k));
        }
        assert forall|i: int| 0 <= i < keys.len() implies c.0[#[trigger] keys[i]] == change_models(
            changes@,
        )[i] by {
            assert(table[keys[i]] == changes@[i]);
            assert(keys.contains(keys[i]));
            assert(table.contains_key(keys[i]));
        }
        assert(text_map::lists(c.0, keys, change_models(changes@)));
        assert(lists_changes(c.0, change_models(changes@)));
    }
    Some(DirectoryChangeBatch { watch_dir: watch_dir.to_owned(), changes })
}

/// A batch that replaces all that is known of a directory.
pub fn rescan_batch(watch_dir: &str, facts: &Vec<FileFacts>, source: &str) -> (r:
    DirectoryChangeBatch)
    ensures
        r.watch_dir@ == watch_dir@,
        r.changes@.len() == 1,
        r.changes@[0] is Rescan,
        order::is_stably_sorted(
            inventory::listed_items(facts@, source@),
            inventory::listing_keys(inventory::listed_items(facts@, source@)),
            inventory::item_models(r.changes@[0]->nodes@),
        ),
{
    let nodes = scan_dir(facts, source);
    let mut changes: Vec<DirectoryChange> = Vec::new();
    changes.push(DirectoryChange::Rescan { nodes });
    DirectoryChangeBatch { watch_dir: watch_dir.to_owned(), changes }
}

/// Repeating an event changes nothing: a storm of updates of one path is
/// one arrival.
pub proof fn repeated_update_arrives_once(events: Seq<WatchEvent>, e: WatchEvent)
    ensures
        arrivals(events.push(e).push(e)) == arrivals(events.push(e)),
{
    let once = events.push(e);
    let twice = once.push(e);
    assert(once.drop_last() =~= events);
    assert(twice.drop_last() =~= once);
    let m = arrivals(events);
    if e.kind == ChangeKind::RenameBoth {
        assert(noted_event(noted_event(m, e), e) =~= noted_event(m, e));
    } else {
        noted_twice(m, e.kind, e.paths@);
    }
}

/// What a path was noted with last.
spec fn last_note(kind: ChangeKind, v: Seq<EventPath>, k: Seq<char>) -> Option<bool>
    decreases v.len(),
{
    if v.len() == 0 {
        None
    } else {
        match (v.last().path, arrives(kind, v.last().exists)) {
            (Some(p), Some(a)) => if p@ == k {
                Some(a)
            } else {
                last_note(kind, v.drop_last(), k)
            },
            _ => last_note(kind, v.drop_last(), k),
        }
    }
}

proof fn noted_by_last(m: Map<Seq<char>, bool>, kind: ChangeKind, v: Seq<EventPath>, k: Seq<char>)
    ensures
        match last_note(kind, v, k) {
            Some(a) => noted_all(m, kind, v).contains_key(k) && noted_all(m, kind, v)[k] == a,
            None => noted_all(m, kind, v).contains_key(k) == m.contains_key(k) && noted_all(
                m,
                kind,
                v,
            )[k] == m[k],
        },
    decreases v.len(),
{
    if v.len() > 0 {
        noted_by_last(m, kind, v.drop_last(), k);
    }
}

proof fn noted_twice(m: Map<Seq<char>, bool>, kind: ChangeKind, v: Seq<EventPath>)
    ensures
        noted_all(noted_all(m, kind, v), kind, v) == noted_all(m, kind, v),
{
    let once = noted_all(m, kind, v);
    let twice = noted_all(once, kind, v);
    assert forall|k: Seq<char>| once.contains_key(k) == twice.contains_key(k) && once[k]
        == #[trigger] twice[k] by {
        noted_by_last(m, kind, v, k);
        noted_by_last(once, kind, v, k);
    }
    assert forall|k: Seq<char>| once.dom().contains(k) == twice.dom().contains(k) by {
        assert(once[k] == twice[k]);
    }
    assert(twice =~= once);
}

/// The path of an event is `path`.
pub open spec fn is_path(p: EventPath, path: Seq<char>) -> bool {
    p.path is Some && p.path->0@ == path
}

/// An event tells something about a path: it names it, is more than an
/// access, and if it is a rename, has an old and a new path.
pub open spec fn tells_of(e: WatchEvent, path: Seq<char>) -> bool {
    &&& e.kind != ChangeKind::Access
    &&& e.kind == ChangeKind::RenameBoth ==> e.paths@.len() == 2
    &&& exists|j: int| 0 <= j < e.paths@.len() && is_path(#[trigger] e.paths@[j], path)
}

/// The path of a created or written file is among those that arrive, the path
/// of a removed or renamed one among those that go, the new path of a rename
/// arrives again, and any other change counts as arrival if the file is
/// there: the last event that tells of a path decides. The path is in one list
/// only.
pub proof fn last_event_decides(
    events: Seq<WatchEvent>,
    i: int,
    path: Seq<char>,
    schedule: Seq<Seq<char>>,
    cancel: Seq<Seq<char>>,
)
    requires
        lists_arrivals(arrivals(events), schedule, true),
        lists_arrivals(arrivals(events), cancel, false),
        0 <= i < events.len(),
        tells_of(events[i], path),
        forall|k: int| i < k < events.len() ==> !tells_of(#[trigger] events[k], path),
    ensures
        events[i].kind == ChangeKind::Create || events[i].kind == ChangeKind::Data ==> {
            schedule.contains(path) && !cancel.contains(path)
        },
        events[i].kind == ChangeKind::Remove || events[i].kind == ChangeKind::RenameFrom ==> {
            !schedule.contains(path) && cancel.contains(path)
        },
        events[i].kind == ChangeKind::RenameBoth && is_path(events[i].paths@[1], path) ==> {
            schedule.contains(path) && !cancel.contains(path)
        },
        events[i].kind == ChangeKind::RenameBoth && !is_path(events[i].paths@[1], path) ==> {
            !schedule.contains(path) && cancel.contains(path)
        },
        events[i].kind == ChangeKind::RenameOther || events[i].kind == ChangeKind::Modify
            || events[i].kind == ChangeKind::Unknown ==> {
            &&& (forall|j: int|
                0 <= j < events[i].paths@.len() && is_path(#[trigger] events[i].paths@[j], path)
                    ==> events[i].paths@[j].exists) ==> schedule.contains(path)
                && !cancel.contains(path)
            &&& (forall|j: int|
                0 <= j < events[i].paths@.len() && is_path(#[trigger] events[i].paths@[j], path)
                    ==> !events[i].paths@[j].exists) ==> !schedule.contains(path)
                && cancel.contains(path)
        },
{
    let e = events[i];
    let upto = events.take(i + 1);
    later_events_keep(events, i + 1, path);
    assert(upto.drop_last() =~= events.take(i));
    assert(upto.last() == e);
    let before = arrivals(events.take(i));
    let m = arrivals(upto);
    assert(m == noted_event(before, e));
    let j = choose|j: int| 0 <= j < e.paths@.len() && is_path(#[trigger] e.paths@[j], path);
    if e.kind != ChangeKind::RenameBoth {
        if forall|j: int|
            0 <= j < e.paths@.len() && is_path(#[trigger] e.paths@[j], path) ==> arrives(
                e.kind,
                e.paths@[j].exists,
            ) == Some(true) {
            named_path_is_noted(before, e.kind, e.paths@, path, true);
        }
        if forall|j: int|
            0 <= j < e.paths@.len() && is_path(#[trigger] e.paths@[j], path) ==> arrives(
                e.kind,
                e.paths@[j].exists,
            ) == Some(false) {
            named_path_is_noted(before, e.kind, e.paths@, path, false);
        }
    }
}

/// A path of which no event tells is in neither list.
pub proof fn untold_path_is_not_listed(
    events: Seq<WatchEvent>,
    path: Seq<char>,
    schedule: Seq<Seq<char>>,
    cancel: Seq<Seq<char>>,
)
    requires
        lists_arrivals(arrivals(events), schedule, true),
        lists_arrivals(arrivals(events), cancel, false),
        forall|k: int| 0 <= k < events.len() ==> !tells_of(#[trigger] events[k], path),
    ensures
        !schedule.contains(path),
        !cancel.contains(path),
{
    later_events_keep(events, 0, path);
    assert(events.take(0) =~= Seq::empty());
}

/// Something may have been missed exactly where events were lost, where an
/// event is of unknown kind, or where a rename lacks one of its paths.
pub proof fn batch_is_degraded_by_one_event(events: Seq<WatchEvent>)
    ensures
        any_vague(events) <==> !(forall|i: int|
            0 <= i < events.len() ==> !(#[trigger] events[i]).rescan && events[i].kind
                != ChangeKind::Unknown && (events[i].kind == ChangeKind::RenameBoth
                ==> events[i].paths@.len() == 2)),
{
    if !any_vague(events) {
        assert forall|i: int| 0 <= i < events.len() implies !(#[trigger] events[i]).rescan
            && events[i].kind != ChangeKind::Unknown && (events[i].kind == ChangeKind::RenameBoth
            ==> events[i].paths@.len() == 2) by {
            assert(!is_vague(events[i]));
        }
    }
}

/// Events that tell nothing of a path leave it as it was.
proof fn later_events_keep(events: Seq<WatchEvent>, from: int, path: Seq<char>)
    requires
        0 <= from <= events.len(),
        forall|k: int| from <= k < events.len() ==> !tells_of(#[trigger] events[k], path),
    ensures
        arrivals(events).contains_key(path) == arrivals(events.take(from)).contains_key(path),
        arrivals(events).contains_key(path) ==> arrivals(events)[path] == arrivals(
            events.take(from),
        )[path],
    decreases events.len() - from,
{
    if from == events.len() {
        assert(events.take(from) =~= events);
    } else {
        let earlier = events.drop_last();
        let e = events.last();
        assert forall|k: int| from <= k < earlier.len() implies !tells_of(
            #[trigger] earlier[k],
            path,
        ) by {
            assert(earlier[k] == events[k]);
        }
        later_events_keep(earlier, from, path);
        assert(earlier.take(from) =~= events.take(from));
        assert(!tells_of(events[events.len() - 1], path));
        let m = arrivals(earlier);
        if e.kind != ChangeKind::RenameBoth {
            if e.kind == ChangeKind::Access {
                access_is_not_noted(m, e.paths@);
            } else {
                assert forall|j: int| 0 <= j < e.paths@.len() implies !is_path(
                    #[trigger] e.paths@[j],
                    path,
                ) by {}
                other_path_stays(m, e.kind, e.paths@, path);
            }
        } else if e.paths@.len() == 2 {
            assert(!is_path(e.paths@[0], path));
            assert(!is_path(e.paths@[1], path));
        }
    }
}

proof fn access_is_not_noted(m: Map<Seq<char>, bool>, v: Seq<EventPath>)
    ensures
        noted_all(m, ChangeKind::Access, v) == m,
    decreases v.len(),
{
    if v.len() > 0 {
        access_is_not_noted(m, v.drop_last());
    }
}

proof fn other_path_stays(
    m: Map<Seq<char>, bool>,
    kind: ChangeKind,
    v: Seq<EventPath>,
    path: Seq<char>,
)
    requires
        forall|j: int| 0 <= j < v.len() ==> !is_path(#[trigger] v[j], path),
    ensures
        noted_all(m, kind, v).contains_key(path) == m.contains_key(path),
        m.contains_key(path) ==> noted_all(m, kind, v)[path] == m[path],
    decreases v.len(),
{
    if v.len() > 0 {
        assert forall|j: int| 0 <= j < v.drop_last().len() implies !is_path(
            #[trigger] v.drop_last()[j],
            path,
        ) by {
            assert(v.drop_last()[j] == v[j]);
        }
        other_path_stays(m, kind, v.drop_last(), path);
        assert(!is_path(v[v.len() - 1], path));
    }
}

proof fn named_path_is_noted(
    m: Map<Seq<char>, bool>,
    kind: ChangeKind,
    v: Seq<EventPath>,
    path: Seq<char>,
    arrival: bool,
)
    requires
        exists|j: int| 0 <= j < v.len() && is_path(#[trigger] v[j], path),
        forall|j: int|
            0 <= j < v.len() && is_path(#[trigger] v[j], path) ==> arrives(kind, v[j].exists)
                == Some(arrival),
    ensures
        noted_all(m, kind, v).contains_key(path),
        noted_all(m, kind, v)[path] == arrival,
    decreases v.len(),
{
    let earlier = v.drop_last();
    if !is_path(v[v.len() - 1], path) {
        let j = choose|j: int| 0 <= j < v.len() && is_path(#[trigger] v[j], path);
        assert(is_path(earlier[j], path));
        assert forall|j: int| 0 <= j < earlier.len() && is_path(#[trigger] earlier[j], path) implies
            arrives(kind, earlier[j].exists) == Some(arrival) by {
            assert(earlier[j] == v[j]);
        }
        named_path_is_noted(m, kind, earlier, path, arrival);
    }
}

/// A path of an event leaves open what has become of it.
pub open spec fn leaves_doubt(kind: ChangeKind, p: EventPath) -> bool {
    p.path is Some && match kind {
        ChangeKind::RenameFrom | ChangeKind::RenameOther | ChangeKind::Unknown => true,
        ChangeKind::Data | ChangeKind::Modify => p.node is None,
        _ => false,
    }
}

/// An event after which a directory has to be read anew: events were lost, a
/// rename lacks a path or shows nothing at its new one, nothing at all is
/// known, or one of its paths leaves doubt.
pub open spec fn demands_reading(e: WatchEvent) -> bool {
    ||| e.rescan
    ||| e.kind == ChangeKind::RenameBoth && e.paths@.len() != 2
    ||| e.kind == ChangeKind::RenameBoth && e.paths@.len() == 2 && e.paths@[0].path is Some
        && e.paths@[1].path is Some && e.paths@[1].node is None
    ||| e.kind == ChangeKind::Unknown && e.paths@.len() == 0
    ||| exists|j: int| 0 <= j < e.paths@.len() && leaves_doubt(e.kind, #[trigger] e.paths@[j])
}

/// A directory is read anew exactly where that was asked for or one of the
/// events demands it.
pub proof fn one_event_can_demand_reading(events: Seq<WatchEvent>, force: bool)
    ensures
        changed_by_all(events, force).1 <==> force || exists|i: int|
            0 <= i < events.len() && demands_reading(#[trigger] events[i]),
    decreases events.len(),
{
    if events.len() > 0 {
        let earlier = events.drop_last();
        let e = events.last();
        one_event_can_demand_reading(earlier, force);
        let c = changed_by_all(earlier, force);
        let d = (c.0, c.1 || e.rescan);
        if e.kind != ChangeKind::Access && e.kind != ChangeKind::RenameBoth {
            paths_can_demand_reading(d, e.kind, e.paths@);
        }
        assert(changed_by_all(events, force).1 == (c.1 || demands_reading(e)));
        if exists|i: int| 0 <= i < earlier.len() && demands_reading(#[trigger] earlier[i]) {
            let i = choose|i: int| 0 <= i < earlier.len() && demands_reading(#[trigger] earlier[i]);
            assert(demands_reading(events[i]));
        }
        if exists|i: int| 0 <= i < events.len() && demands_reading(#[trigger] events[i]) {
            let i = choose|i: int| 0 <= i < events.len() && demands_reading(#[trigger] events[i]);
            if i < earlier.len() {
                assert(demands_reading(earlier[i]));
            }
        }
        if demands_reading(e) {
            assert(demands_reading(events[events.len() - 1]));
        }
    }
}

proof fn paths_can_demand_reading(c: Changes, kind: ChangeKind, v: Seq<EventPath>)
    requires
        kind != ChangeKind::RenameBoth,
    ensures
        changed_by_paths(c, kind, v).1 <==> c.1 || exists|j: int|
            0 <= j < v.len() && leaves_doubt(kind, #[trigger] v[j]),
    decreases v.len(),
{
    if v.len() > 0 {
        let earlier = v.drop_last();
        paths_can_demand_reading(c, kind, earlier);
        if exists|j: int| 0 <= j < earlier.len() && leaves_doubt(kind, #[trigger] earlier[j]) {
            let j = choose|j: int|
                0 <= j < earlier.len() && leaves_doubt(kind, #[trigger] earlier[j]);
            assert(leaves_doubt(kind, v[j]));
        }
        if exists|j: int| 0 <= j < v.len() && leaves_doubt(kind, #[trigger] v[j]) {
            let j = choose|j: int| 0 <= j < v.len() && leaves_doubt(kind, #[trigger] v[j]);
            if j < earlier.len() {
                assert(leaves_doubt(kind, earlier[j]));
            }
        }
        if leaves_doubt(kind, v.last()) {
            assert(leaves_doubt(kind, v[v.len() - 1]));
        }
    }
}

/// A path of an event says under `key` what has changed.
pub open spec fn changes_key(kind: ChangeKind, p: EventPath, key: Seq<char>) -> bool {
    p.path is Some && match kind {
        ChangeKind::Create => p.node is Some && p.node->0.path@ == key,
        ChangeKind::Remove => p.path->0@ == key,
        ChangeKind::Data | ChangeKind::Modify => p.node is Some && p.path->0@ == key,
        _ => false,
    }
}

/// An event changes what is known under `key`. A rename concerns its old path,
/// its new one and the rename itself.
pub open spec fn event_changes_key(e: WatchEvent, key: Seq<char>) -> bool {
    if e.kind == ChangeKind::RenameBoth {
        e.paths@.len() == 2 && e.paths@[0].path is Some && e.paths@[1].path is Some
            && e.paths@[1].node is Some && (key == e.paths@[0].path->0@ || key
            == e.paths@[1].node->0.path@ || key == rename_key(e.paths@[0].path->0@))
    } else {
        exists|j: int| 0 <= j < e.paths@.len() && changes_key(e.kind, #[trigger] e.paths@[j], key)
    }
}

/// The last event that concerns a path decides what is told about it: a
/// created or changed file is told with what a listing shows, a removed one as
/// removed.
pub proof fn last_change_is_told(
    events: Seq<WatchEvent>,
    force: bool,
    i: int,
    j: int,
    key: Seq<char>,
    told: Seq<ChangeModel>,
)
    requires
        0 <= i < events.len(),
        events[i].kind != ChangeKind::RenameBoth,
        0 <= j < events[i].paths@.len(),
        changes_key(events[i].kind, events[i].paths@[j], key),
        forall|n: int|
            j < n < events[i].paths@.len() ==> !changes_key(
                events[i].kind,
                #[trigger] events[i].paths@[n],
                key,
            ),
        forall|k: int| i < k < events.len() ==> !event_changes_key(#[trigger] events[k], key),
        lists_changes(changed_by_all(events, force).0, told),
    ensures
        events[i].kind == ChangeKind::Remove ==> told.contains(ChangeModel::Remove(key)),
        events[i].kind != ChangeKind::Remove ==> told.contains(
            ChangeModel::Upsert(events[i].paths@[j].node->0@),
        ),
{
    let e = events[i];
    let upto = events.take(i + 1);
    later_changes_keep(events, force, i + 1, key);
    assert(upto.drop_last() =~= events.take(i));
    assert(upto.last() == e);
    let c = changed_by_all(events.take(i), force);
    let d = (c.0, c.1 || e.rescan);
    assert(changed_by_all(upto, force) == changed_by_paths(d, e.kind, e.paths@));
    last_path_changes_key(d, e.kind, e.paths@, j, key);
    let m = changed_by_all(events, force).0;
    let keys = choose|keys: Seq<Seq<char>>| #[trigger] text_map::lists(m, keys, told);
    assert(keys.contains(key));
    let n = choose|n: int| 0 <= n < keys.len() && keys[n] == key;
    assert(told[n] == m[key]);
}

/// A rename is told with its old path and what a listing shows at its new
/// one, and nothing is told of either path by itself, unless a later event
/// concerns them.
pub proof fn last_rename_is_told(
    events: Seq<WatchEvent>,
    force: bool,
    i: int,
    from: Seq<char>,
    told: Seq<ChangeModel>,
)
    requires
        0 <= i < events.len(),
        events[i].kind == ChangeKind::RenameBoth,
        events[i].paths@.len() == 2,
        is_path(events[i].paths@[0], from),
        events[i].paths@[1].path is Some,
        events[i].paths@[1].node is Some,
        forall|k: int|
            i < k < events.len() ==> !event_changes_key(#[trigger] events[k], rename_key(from)),
        lists_changes(changed_by_all(events, force).0, told),
    ensures
        told.contains(ChangeModel::Rename(from, events[i].paths@[1].node->0@)),
        forall|key: Seq<char>|
            (key == from || key == events[i].paths@[1].node->0.path@) && key != rename_key(from)
                && (forall|k: int|
                i < k < events.len() ==> !event_changes_key(#[trigger] events[k], key))
                ==> !#[trigger] changed_by_all(events, force).0.contains_key(key),
{
    let e = events[i];
    let upto = events.take(i + 1);
    let c = changed_by_all(events.take(i), force);
    assert(upto.drop_last() =~= events.take(i));
    assert(upto.last() == e);
    later_changes_keep(events, force, i + 1, rename_key(from));
    let m = changed_by_all(events, force).0;
    let keys = choose|keys: Seq<Seq<char>>| #[trigger] text_map::lists(m, keys, told);
    assert(keys.contains(rename_key(from)));
    let n = choose|n: int| 0 <= n < keys.len() && keys[n] == rename_key(from);
    assert(told[n] == m[rename_key(from)]);
    assert forall|key: Seq<char>|
        (key == from || key == e.paths@[1].node->0.path@) && key != rename_key(from) && (forall|
            k: int,
        |
            i < k < events.len() ==> !event_changes_key(#[trigger] events[k], key)) implies
        !#[trigger] changed_by_all(events, force).0.contains_key(key) by {
        later_changes_keep(events, force, i + 1, key);
    }
}

proof fn later_changes_keep(events: Seq<WatchEvent>, force: bool, from: int, key: Seq<char>)
    requires
        0 <= from <= events.len(),
        forall|k: int| from <= k < events.len() ==> !event_changes_key(#[trigger] events[k], key),
    ensures
        changed_by_all(events, force).0.contains_key(key) == changed_by_all(
            events.take(from),
            force,
        ).0.contains_key(key),
        changed_by_all(events, force).0.contains_key(key) ==> changed_by_all(events, force).0[key]
            == changed_by_all(events.take(from), force).0[key],
    decreases events.len() - from,
{
    if from == events.len() {
        assert(events.take(from) =~= events);
    } else {
        let earlier = events.drop_last();
        let e = events.last();
        assert forall|k: int| from <= k < earlier.len() implies !event_changes_key(
            #[trigger] earlier[k],
            key,
        ) by {
            assert(earlier[k] == events[k]);
        }
        later_changes_keep(earlier, force, from, key);
        assert(earlier.take(from) =~= events.take(from));
        assert(!event_changes_key(events[events.len() - 1], key));
        let c = changed_by_all(earlier, force);
        let d = (c.0, c.1 || e.rescan);
        if e.kind != ChangeKind::RenameBoth && e.kind != ChangeKind::Access {
            other_key_stays(d, e.kind, e.paths@, key);
        }
    }
}

proof fn other_key_stays(c: Changes, kind: ChangeKind, v: Seq<EventPath>, key: Seq<char>)
    requires
        kind != ChangeKind::RenameBoth,
        forall|j: int| 0 <= j < v.len() ==> !changes_key(kind, #[trigger] v[j], key),
    ensures
        changed_by_paths(c, kind, v).0.contains_key(key) == c.0.contains_key(key),
        c.0.contains_key(key) ==> changed_by_paths(c, kind, v).0[key] == c.0[key],
    decreases v.len(),
{
    if v.len() > 0 {
        assert forall|j: int| 0 <= j < v.drop_last().len() implies !changes_key(
            kind,
            #[trigger] v.drop_last()[j],
            key,
        ) by {
            assert(v.drop_last()[j] == v[j]);
        }
        other_key_stays(c, kind, v.drop_last(), key);
        assert(!changes_key(kind, v[v.len() - 1], key));
    }
}

proof fn last_path_changes_key(
    c: Changes,
    kind: ChangeKind,
    v: Seq<EventPath>,
    j: int,
    key: Seq<char>,
)
    requires
        kind != ChangeKind::RenameBoth,
        0 <= j < v.len(),
        changes_key(kind, v[j], key),
        forall|n: int| j < n < v.len() ==> !changes_key(kind, #[trigger] v[n], key),
    ensures
        changed_by_paths(c, kind, v).0.contains_key(key),
        changed_by_paths(c, kind, v).0[key] == if kind == ChangeKind::Remove {
            ChangeModel::Remove(key)
        } else {
            ChangeModel::Upsert(v[j].node->0@)
        },
    decreases v.len(),
{
    if j < v.len() - 1 {
        let earlier = v.drop_last();
        assert forall|n: int| j < n < earlier.len() implies !changes_key(
            kind,
            #[trigger] earlier[n],
            key,
        ) by {
            assert(earlier[n] == v[n]);
        }
        last_path_changes_key(c, kind, earlier, j, key);
        assert(!changes_key(kind, v[v.len() - 1], key));
    }
}

/// What is told about an item that was found stable: listings of its
/// directory are updated where they are watched, and it counts as new where
/// it lies in a watched directory and the filter lets it pass.
pub fn tell_detected(
    state: &WatchState,
    item: &DetectedItem,
    path: &KnownPath,
    parent: Option<&KnownPath>,
    roots: &Vec<KnownPath>,
    watched: &Vec<KnownPath>,
) -> (r: (Option<DirectoryChangeBatch>, bool))
    requires
        paths::path_texts(paths::known_models(roots@)) == state.config@.dirs,
        paths::path_texts(paths::known_models(watched@)) == text::texts(state.watchers@),
    ensures
        match parent {
            Some(dir) if watch::listed_dir(dir@, paths::known_models(watched@)) => {
                &&& r.0 is Some
                &&& r.0->0.watch_dir@ == dir@.text
                &&& change_models(r.0->0.changes@) == seq![ChangeModel::Upsert(item@)]
            },
            _ => r.0 is None,
        },
        r.1 == (paths::covered(path@, paths::known_models(roots@)) && state.config.notifies(
            item.kind@,
            item.name@,
        )),
{
    let batch: Option<DirectoryChangeBatch> = match parent {
        Some(dir) => {
            if state.is_structure_watched(dir, watched) {
                let mut changes: Vec<DirectoryChange> = Vec::new();
                changes.push(DirectoryChange::Upsert { node: item.clone() });
                assert(change_models(changes@) =~= seq![ChangeModel::Upsert(item@)]);
                Some(DirectoryChangeBatch { watch_dir: dir.text.clone(), changes })
            } else {
                None
            }
        },
        None => None,
    };
    (batch, state.is_watched_path(path, roots) && state.should_notify(item))
}

/// Of the paths for which there was no room all are remembered, each once, up
/// to 4096 of them; where one was not looked at, that is told.
pub proof fn overflow_is_remembered(v: Seq<Seq<char>>, more: Seq<Seq<char>>)
    requires
        v.no_duplicates(),
        v.len() <= 4096,
    ensures
        v.is_prefix_of(remembered(v, more).0),
        remembered(v, more).0.no_duplicates(),
        remembered(v, more).0.len() <= 4096,
        remembered(v, more).1 ==> remembered(v, more).0.len() == 4096,
        !remembered(v, more).1 ==> forall|i: int|
            0 <= i < more.len() ==> remembered(v, more).0.contains(#[trigger] more[i]),
        forall|k: Seq<char>| #[trigger]
            remembered(v, more).0.contains(k) ==> v.contains(k) || more.contains(k),
        v.len() + more.len() <= 4096 ==> !remembered(v, more).1,
    decreases more.len(),
{
    let r = remembered(v, more).0;
    if more.len() == 0 || v.len() >= ARRIVAL_OVERFLOW_CAPACITY {
        assert(r.take(v.len() as int) =~= v);
    } else {
        let rest = more.drop_first();
        let next = if v.contains(more[0]) {
            v
        } else {
            v.push(more[0])
        };
        overflow_is_remembered(next, rest);
        assert(next.take(v.len() as int) =~= v);
        assert(r.take(v.len() as int) =~= next.take(v.len() as int)) by {
            assert(r.take(next.len() as int) == next);
            assert(r.take(next.len() as int).take(v.len() as int) =~= r.take(v.len() as int));
        }
        assert(next.contains(more[0])) by {
            if !v.contains(more[0]) {
                assert(next.last() == more[0]);
            }
        }
        if !remembered(v, more).1 {
            assert forall|i: int| 0 <= i < more.len() implies r.contains(#[trigger] more[i]) by {
                if i == 0 {
                    let n = choose|n: int| 0 <= n < next.len() && next[n] == more[0];
                    assert(r.take(next.len() as int)[n] == r[n]);
                } else {
                    assert(rest[i - 1] == more[i]);
                }
            }
        }
        assert forall|k: Seq<char>| #[trigger] r.contains(k) implies v.contains(k)
            || more.contains(k) by {
            if next.contains(k) {
                let n = choose|n: int| 0 <= n < next.len() && next[n] == k;
                if n < v.len() {
                    assert(v[n] == k);
                } else {
                    assert(more[0] == k);
                }
            } else {
                let n = choose|n: int| 0 <= n < rest.len() && rest[n] == k;
                assert(more[n + 1] == k);
            }
        }
    }
}

/// A path lies below another exactly if it goes on with components behind
/// those of the other; what is told are these.
pub proof fn path_goes_on_below(root: Seq<Seq<char>>, rest: Seq<Seq<char>>, path: Seq<Seq<char>>)
    ensures
        below(root + rest, root) == Some(rest),
        below(path, root) matches Some(more) ==> path == root + more,
{
    assert((root + rest).take(root.len() as int) =~= root);
    assert((root + rest).skip(root.len() as int) =~= rest);
    if root.is_prefix_of(path) {
        assert(path =~= path.take(root.len() as int) + path.skip(root.len() as int));
    }
}

} // verus!
