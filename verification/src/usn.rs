//! Changes of an NTFS volume, applied to what is known of it.

use crate::mft_paths;
use crate::mft_paths::{resolve_mft_files_in_batches, MftFileResolver, ResolvedMftEntry};
use crate::ntfs::{FileId, MftRecord};
use crate::order;
use crate::order::{stable_order, Key};
use crate::paths;
use crate::paths::{to_backslashes, trim_trailing_backslashes, Platform};
use crate::search_files;
use crate::search_files::{indexed_mft_entry, is_excluded, IndexedFile};
use crate::text;
use crate::text::{
    chars_of, copy_texts, is_ascii_letter, push_decimal, same_text, to_ascii_lower, to_ascii_upper,
};
use crate::volume::UsnJournalInfo;
use std::collections::{HashMap, HashSet};
use vstd::prelude::*;

verus! {

broadcast use vstd::std_specs::hash::group_hash_axioms;

/// The change is that the file was deleted.
pub const USN_REASON_FILE_DELETE: u32 = 0x0000_0200;

/// The record tells the name before a rename.
pub const USN_REASON_RENAME_OLD_NAME: u32 = 0x0000_1000;

/// How many files are resolved at a time.
pub const NTFS_RESOLVE_BATCH: usize = 2_048;

/// How many changes are applied before a volume is read anew instead.
pub const MAX_USN_REPLAY_RECORDS: usize = 1_000_000;

/// Records by their reference.
pub type Table = Map<FileId, MftRecord>;

/// The records that count, by their reference.
pub open spec fn table_of(records: Seq<MftRecord>) -> Table {
    Map::new(
        |id: FileId| mft_paths::lookup(records, id) is Some,
        |id: FileId| mft_paths::lookup(records, id)->0,
    )
}

pub open spec fn deletes(change: MftRecord) -> bool {
    change.reason & USN_REASON_FILE_DELETE != 0
}

/// The record tells how the file is now.
pub open spec fn updates(change: MftRecord) -> bool {
    !deletes(change) && change.reason & USN_REASON_RENAME_OLD_NAME == 0
}

pub open spec fn after_change(t: Table, change: MftRecord) -> Table {
    if deletes(change) {
        t.remove(change.id)
    } else if updates(change) {
        t.insert(change.id, change)
    } else {
        t
    }
}

/// The records after some changes.
pub open spec fn after_changes(t: Table, changes: Seq<MftRecord>) -> Table
    decreases changes.len(),
{
    if changes.len() == 0 {
        t
    } else {
        after_change(after_changes(t, changes.drop_last()), changes.last())
    }
}

/// A record of `changes` is about `id`.
pub open spec fn changed(changes: Seq<MftRecord>, id: FileId) -> bool {
    exists|i: int| 0 <= i < changes.len() && (#[trigger] changes[i]).id == id
}

/// A record of `changes` is about the directory `id`.
pub open spec fn changed_directory(t: Table, changes: Seq<MftRecord>, id: FileId) -> bool {
    exists|i: int|
        0 <= i < changes.len() && (#[trigger] changes[i]).id == id && (changes[i].directory() || (
        t.contains_key(id) && t[id].directory()))
}

/// The directory above, where a record names one.
pub open spec fn above(t: Table, id: FileId) -> Option<FileId> {
    if t.contains_key(id) && t[id].id != t[id].parent_id {
        Some(t[id].parent_id)
    } else {
        None
    }
}

/// A directory of `dirs` is met at most `n` steps up from `id`.
pub open spec fn meets_within(t: Table, dirs: spec_fn(FileId) -> bool, id: FileId, n: nat) -> bool
    decreases n,
{
    n > 0 && (dirs(id) || match above(t, id) {
        Some(up) => meets_within(t, dirs, up, (n - 1) as nat),
        None => false,
    })
}

/// A directory of `dirs` is `id` or lies above it.
pub open spec fn meets(t: Table, dirs: spec_fn(FileId) -> bool, id: FileId) -> bool {
    exists|n: nat| meets_within(t, dirs, id, n)
}

/// The path of the file `id` may be another one after the changes: the file
/// or a directory above it changed. `t` holds the records to go by, `before`
/// those before the changes.
pub open spec fn affected(t: Table, before: Table, changes: Seq<MftRecord>, id: FileId) -> bool {
    t.contains_key(id) && !t[id].directory() && (changed(changes, id) || meets(
        t,
        |d: FileId| changed_directory(before, changes, d),
        t[id].parent_id,
    ))
}

/// Each member of `v` stands in `t`, and each record of `t` in `v` once.
pub open spec fn lists_table(t: Table, v: Seq<MftRecord>) -> bool {
    &&& forall|i: int| 0 <= i < v.len() ==> t.contains_key((#[trigger] v[i]).id) && t[v[i].id] == v[i]
    &&& forall|i: int, j: int|
        0 <= i < v.len() && 0 <= j < v.len() && i != j ==> (#[trigger] v[i]).id != (#[trigger] v[j]).id
    &&& forall|id: FileId| #[trigger]
        t.contains_key(id) ==> exists|i: int| 0 <= i < v.len() && (#[trigger] v[i]).id == id
}

/// `ids` are those for which `p` holds, each once.
pub open spec fn lists_ids(p: spec_fn(FileId) -> bool, ids: Seq<FileId>) -> bool {
    &&& ids.no_duplicates()
    &&& forall|id: FileId| #[trigger] ids.contains(id) <==> p(id)
}

/// Records by their reference; a slot is kept for each.
struct RecordTable {
    slots: Vec<Option<MftRecord>>,
    places: HashMap<u128, usize>,
    owners: Ghost<Seq<FileId>>,
}

impl RecordTable {
    spec fn wf(self) -> bool {
        &&& self.slots@.len() == self.owners@.len()
        &&& forall|i: int|
            0 <= i < self.slots@.len() ==> ((#[trigger] self.slots@[i]) matches Some(r)
                ==> r.id == self.owners@[i])
        &&& forall|i: int|
            0 <= i < self.slots@.len() ==> self.places@.contains_key(
                (#[trigger] self.owners@[i]).number(),
            ) && self.places@[self.owners@[i].number()] == i
        &&& forall|id: FileId| #[trigger]
            self.places@.contains_key(id.number()) ==> self.places@[id.number()]
                < self.slots@.len() && self.owners@[self.places@[id.number()] as int] == id
    }

    spec fn table(self) -> Table {
        Map::new(
            |id: FileId|
                self.places@.contains_key(id.number())
                    && self.slots@[self.places@[id.number()] as int] is Some,
            |id: FileId| self.slots@[self.places@[id.number()] as int]->0,
        )
    }

    fn new() -> (r: Self)
        ensures
            r.wf(),
            r.table() == Map::<FileId, MftRecord>::empty(),
    {
        let r = RecordTable {
            slots: Vec::new(),
            places: HashMap::new(),
            owners: Ghost(Seq::empty()),
        };
        assert(r.table() =~= Map::empty());
        r
    }

    fn get(&self, id: FileId) -> (r: Option<&MftRecord>)
        requires
            self.wf(),
        ensures
            match r {
                Some(record) => self.table().contains_key(id) && *record == self.table()[id],
                None => !self.table().contains_key(id),
            },
    {
        let key: u128 = id.key();
        match self.places.get(&key) {
            Some(place) => match &self.slots[*place] {
                Some(record) => Some(record),
                None => None,
            },
            None => None,
        }
    }

    fn put(&mut self, record: MftRecord)
        requires
            old(self).wf(),
        ensures
            final(self).wf(),
            final(self).table() == old(self).table().insert(record.id, record),
    {
        let ghost before = *self;
        let ghost r = record;
        let key: u128 = record.id.key();
        proof {
            assert forall|id: FileId| (#[trigger] id.number()) == key implies id == r.id by {
                FileId::number_is_unique(id, r.id);
            }
        }
        let known: Option<usize> = match self.places.get(&key) {
            Some(place) => Some(*place),
            None => None,
        };
        match known {
            Some(place) => {
                assert(before.owners@[place as int] == r.id);
                self.slots.set(place, Some(record));
                assert forall|id: FileId| self.places@.contains_key(id.number()) && id
                    != r.id implies self.places@[#[trigger] id.number()] != place by {
                    assert(before.owners@[before.places@[id.number()] as int] == id);
                }
            },
            None => {
                let place: usize = self.slots.len();
                self.slots.push(Some(record));
                self.places.insert(key, place);
                self.owners = Ghost(self.owners@.push(r.id));
                assert forall|i: int| 0 <= i < self.slots@.len() implies self.places@.contains_key(
                    (#[trigger] self.owners@[i]).number(),
                ) && self.places@[self.owners@[i].number()] == i by {
                    if i < place {
                        assert(before.places@.contains_key(before.owners@[i].number()));
                        if self.owners@[i].number() == key {
                            assert(self.owners@[i] == r.id);
                        }
                    }
                }
                assert forall|id: FileId| #[trigger]
                    self.places@.contains_key(id.number()) implies self.places@[id.number()]
                    < self.slots@.len() && self.owners@[self.places@[id.number()] as int] == id by {
                    if id.number() != key {
                        assert(before.places@.contains_key(id.number()));
                    }
                }
            },
        }
        assert(self.table() =~= before.table().insert(r.id, r));
    }

    fn take_out(&mut self, id: FileId)
        requires
            old(self).wf(),
        ensures
            final(self).wf(),
            final(self).table() == old(self).table().remove(id),
    {
        let ghost before = *self;
        let key: u128 = id.key();
        proof {
            assert forall|other: FileId| (#[trigger] other.number()) == key implies other == id by {
                FileId::number_is_unique(other, id);
            }
        }
        let known: Option<usize> = match self.places.get(&key) {
            Some(place) => Some(*place),
            None => None,
        };
        match known {
            Some(place) => {
                assert(before.owners@[place as int] == id);
                self.slots.set(place, None);
                assert forall|other: FileId| self.places@.contains_key(other.number()) && other
                    != id implies self.places@[#[trigger] other.number()] != place by {
                    assert(before.owners@[before.places@[other.number()] as int] == other);
                }
            },
            None => {},
        }
        assert(self.table() =~= before.table().remove(id));
    }

    /// The records, in the order of their slots.
    fn records(&self) -> (r: Vec<MftRecord>)
        requires
            self.wf(),
        ensures
            lists_table(self.table(), r@),
    {
        let mut r: Vec<MftRecord> = Vec::new();
        let ghost mut from: Seq<int> = Seq::empty();
        for i in 0..self.slots.len()
            invariant
                self.wf(),
                from.len() == r@.len(),
                forall|k: int|
                    0 <= k < r@.len() ==> 0 <= #[trigger] from[k] < i && self.slots@[from[k]]
                        == Some(r@[k]),
                forall|k: int, l: int|
                    0 <= k < l < r@.len() ==> (#[trigger] from[k]) < (#[trigger] from[l]),
                forall|j: int|
                    0 <= j < i && (#[trigger] self.slots@[j]) is Some ==> from.contains(j),
        {
            let ghost earlier = from;
            match &self.slots[i] {
                Some(record) => {
                    r.push(record.clone());
                    proof {
                        from = from.push(i as int);
                    }
                },
                None => {},
            }
            assert forall|j: int|
                0 <= j < i + 1 && (#[trigger] self.slots@[j]) is Some implies from.contains(j) by {
                if j < i {
                    assert(earlier.contains(j));
                    let k = earlier.index_of(j);
                    assert(from[k] == j);
                } else {
                    assert(from[from.len() - 1] == j);
                }
            }
        }
        proof {
            let t = self.table();
            assert forall|k: int| 0 <= k < r@.len() implies t.contains_key((#[trigger] r@[k]).id)
                && t[r@[k].id] == r@[k] by {
                let i = from[k];
                assert(self.slots@[i] == Some(r@[k]));
                assert(self.owners@[i] == r@[k].id);
            }
            assert forall|k: int, l: int| 0 <= k < r@.len() && 0 <= l < r@.len() && k != l implies (
            #[trigger] r@[k]).id != (#[trigger] r@[l]).id by {
                assert(self.slots@[from[k]] == Some(r@[k]));
                assert(self.slots@[from[l]] == Some(r@[l]));
                assert(self.owners@[from[k]] == r@[k].id);
                assert(self.owners@[from[l]] == r@[l].id);
                if k < l {
                    assert(from[k] < from[l]);
                } else {
                    assert(from[l] < from[k]);
                }
            }
            assert forall|id: FileId| #[trigger] t.contains_key(id) implies exists|k: int|
                0 <= k < r@.len() && (#[trigger] r@[k]).id == id by {
                let i = self.places@[id.number()] as int;
                assert(self.slots@[i] is Some);
                assert(from.contains(i));
                let k = from.index_of(i);
                assert(from[k] == i);
                assert(self.slots@[from[k]] == Some(r@[k]));
                assert(self.owners@[i] == id);
            }
        }
        r
    }
}

/// A set of references.
struct IdSet {
    keys: HashSet<u128>,
}

impl IdSet {
    spec fn holds(self, id: FileId) -> bool {
        self.keys@.contains(id.number())
    }

    fn new() -> (r: Self)
        ensures
            forall|id: FileId| !(#[trigger] r.holds(id)),
    {
        IdSet { keys: HashSet::new() }
    }

    fn add(&mut self, id: FileId) -> (fresh: bool)
        ensures
            fresh == !old(self).holds(id),
            forall|other: FileId| #[trigger]
                final(self).holds(other) <==> old(self).holds(other) || other == id,
    {
        let key: u128 = id.key();
        proof {
            assert forall|other: FileId| (#[trigger] other.number()) == key implies other == id by {
                FileId::number_is_unique(other, id);
            }
        }
        self.keys.insert(key)
    }

    fn contains(&self, id: FileId) -> (r: bool)
        ensures
            r == self.holds(id),
    {
        let key: u128 = id.key();
        self.keys.contains(&key)
    }
}

/// Where no directory of a closed set of them is met, none is met at all.
proof fn closed_set_meets_nothing(
    t: Table,
    dirs: spec_fn(FileId) -> bool,
    inside: spec_fn(FileId) -> bool,
    id: FileId,
    n: nat,
)
    requires
        inside(id),
        forall|d: FileId| #[trigger]
            inside(d) ==> !dirs(d) && (above(t, d) matches Some(up) ==> inside(up)),
    ensures
        !meets_within(t, dirs, id, n),
    decreases n,
{
    if n > 0 {
        match above(t, id) {
            Some(up) => closed_set_meets_nothing(t, dirs, inside, up, (n - 1) as nat),
            None => {},
        }
    }
}

/// One step up changes nothing, unless the directory itself is one.
proof fn meets_one_step_up(t: Table, dirs: spec_fn(FileId) -> bool, id: FileId)
    ensures
        meets(t, dirs, id) == (dirs(id) || match above(t, id) {
            Some(up) => meets(t, dirs, up),
            None => false,
        }),
{
    if dirs(id) {
        assert(meets_within(t, dirs, id, 1));
    }
    match above(t, id) {
        Some(up) => {
            if meets(t, dirs, up) {
                let n = choose|n: nat| meets_within(t, dirs, up, n);
                assert(meets_within(t, dirs, id, n + 1));
            }
            if meets(t, dirs, id) && !dirs(id) {
                let n = choose|n: nat| meets_within(t, dirs, id, n);
                assert(meets_within(t, dirs, up, (n - 1) as nat));
            }
        },
        None => {},
    }
}

/// Whether a directory of `dirs` is `start` or lies above it.
fn climbs_into(table: &RecordTable, dirs: &IdSet, start: FileId) -> (r: bool)
    requires
        table.wf(),
    ensures
        r == meets(table.table(), |d: FileId| dirs.holds(d), start),
{
    let ghost t = table.table();
    let ghost p = |d: FileId| dirs.holds(d);
    let mut visited = IdSet::new();
    let mut current: FileId = start;
    let ghost mut passed: Set<FileId> = Set::empty();
    let bound: usize = table.slots.len();
    let mut steps: usize = 0;
    loop
        invariant
            table.wf(),
            t == table.table(),
            p == (|d: FileId| dirs.holds(d)),
            bound == table.slots@.len(),
            meets(t, p, start) == meets(t, p, current),
            forall|d: FileId| #[trigger] visited.holds(d) <==> passed.contains(d),
            forall|d: FileId| #[trigger]
                passed.contains(d) ==> !p(d) && (above(t, d) is Some && (passed.contains(
                    above(t, d)->0,
                ) || above(t, d)->0 == current)),
            passed.finite(),
            passed.len() == steps,
            forall|d: FileId| #[trigger] passed.contains(d) ==> t.contains_key(d),
            steps <= bound,
        decreases bound - steps,
    {
        if !visited.add(current) {
            proof {
                assert forall|n: nat| !meets_within(t, p, current, n) by {
                    closed_set_meets_nothing(t, p, |d: FileId| passed.contains(d), current, n);
                }
            }
            return false;
        }
        proof {
            meets_one_step_up(t, p, current);
        }
        if dirs.contains(current) {
            return true;
        }
        let next: Option<FileId> = match table.get(current) {
            Some(record) => {
                if record.id.same(record.parent_id) {
                    None
                } else {
                    Some(record.parent_id)
                }
            },
            None => None,
        };
        match next {
            Some(up) => {
                proof {
                    passed_fits(*table, passed, current);
                    passed = passed.insert(current);
                }
                steps += 1;
                current = up;
            },
            None => {
                return false;
            },
        }
    }
}

/// No more directories can be passed than there are records.
proof fn passed_fits(table: RecordTable, passed: Set<FileId>, current: FileId)
    requires
        table.wf(),
        passed.finite(),
        !passed.contains(current),
        table.table().contains_key(current),
        forall|d: FileId| #[trigger] passed.contains(d) ==> table.table().contains_key(d),
    ensures
        passed.len() + 1 <= table.slots@.len(),
{
    let all = passed.insert(current);
    let owners = table.owners@.to_set();
    assert forall|d: FileId| all.contains(d) implies owners.contains(d) by {
        assert(table.table().contains_key(d));
        let i = table.places@[d.number()] as int;
        assert(table.owners@[i] == d);
    }
    vstd::seq_lib::seq_to_set_is_finite(table.owners@);
    table.owners@.lemma_cardinality_of_set();
    vstd::set_lib::lemma_len_subset(all, owners);
}

fn affected_file_ids(
    table: &RecordTable,
    changed_ids: &IdSet,
    changed_directories: &IdSet,
    Ghost(before): Ghost<Table>,
    Ghost(changes): Ghost<Seq<MftRecord>>,
) -> (r: (Vec<FileId>, IdSet))
    requires
        table.wf(),
        forall|id: FileId| #[trigger] changed_ids.holds(id) <==> changed(changes, id),
        forall|id: FileId| #[trigger]
            changed_directories.holds(id) <==> changed_directory(before, changes, id),
    ensures
        lists_ids(|id: FileId| affected(table.table(), before, changes, id), r.0@),
        forall|id: FileId| #[trigger]
            r.1.holds(id) <==> affected(table.table(), before, changes, id),
{
    let ghost t = table.table();
    let ghost p = |d: FileId| changed_directory(before, changes, d);
    let ghost q = |d: FileId| changed_directories.holds(d);
    assert(p =~= q);
    let records = table.records();
    let mut ids: Vec<FileId> = Vec::new();
    let mut set = IdSet::new();
    for i in 0..records.len()
        invariant
            table.wf(),
            t == table.table(),
            lists_table(t, records@),
            p == (|d: FileId| changed_directory(before, changes, d)),
            q == (|d: FileId| changed_directories.holds(d)),
            p == q,
            forall|id: FileId| #[trigger] changed_ids.holds(id) <==> changed(changes, id),
            ids@.no_duplicates(),
            forall|id: FileId| #[trigger] set.holds(id) <==> ids@.contains(id),
            forall|id: FileId| #[trigger]
                ids@.contains(id) <==> affected(t, before, changes, id) && exists|k: int|
                    0 <= k < i && (#[trigger] records@[k]).id == id,
    {
        let id: FileId = records[i].id;
        let ghost earlier = ids@;
        assert(t.contains_key(id) && t[id] == records@[i as int]);
        let hit: bool = !records[i].is_directory() && (changed_ids.contains(id) || climbs_into(
            table,
            changed_directories,
            records[i].parent_id,
        ));
        assert(hit == affected(t, before, changes, id));
        if hit {
            assert(!earlier.contains(id)) by {
                if earlier.contains(id) {
                    let k = choose|k: int| 0 <= k < i && (#[trigger] records@[k]).id == id;
                    assert(records@[k].id != records@[i as int].id);
                }
            }
            ids.push(id);
            set.add(id);
        }
        proof {
            assert forall|other: FileId| #[trigger]
                ids@.contains(other) <==> affected(t, before, changes, other) && exists|k: int|
                    0 <= k < i + 1 && (#[trigger] records@[k]).id == other by {
                if hit {
                    vstd::seq_lib::lemma_seq_contains_after_push(earlier, id, other);
                }
                if other == id {
                    assert(records@[i as int].id == other);
                }
                if earlier.contains(other) {
                    let k = choose|k: int| 0 <= k < i && (#[trigger] records@[k]).id == other;
                    assert(records@[k].id == other);
                }
            }
        }
    }
    assert forall|id: FileId| #[trigger] ids@.contains(id) <==> affected(t, before, changes, id) by {
        if affected(t, before, changes, id) {
            assert(t.contains_key(id));
            let k = choose|k: int| 0 <= k < records@.len() && (#[trigger] records@[k]).id == id;
            assert(records@[k].id == id);
        }
    }
    (ids, set)
}

/// What is done to the stored records.
#[derive(Debug)]
pub enum NodeChange {
    Delete(FileId),
    Upsert(MftRecord),
}

/// The changes of the stored records, in order.
pub open spec fn node_changes(changes: Seq<MftRecord>) -> Seq<NodeChange>
    decreases changes.len(),
{
    if changes.len() == 0 {
        Seq::empty()
    } else {
        let earlier = node_changes(changes.drop_last());
        if deletes(changes.last()) {
            earlier.push(NodeChange::Delete(changes.last().id))
        } else if updates(changes.last()) {
            earlier.push(NodeChange::Upsert(changes.last()))
        } else {
            earlier
        }
    }
}

/// What changes of a volume do to what is stored about it.
#[derive(Debug)]
pub struct UsnPlan {
    pub nodes: Vec<NodeChange>,
    /// Files that are forgotten first.
    pub deleted_files: Vec<FileId>,
    /// Files that are stored anew, under their present path.
    pub files: Vec<IndexedFile>,
}

/// The entries that are stored anew.
pub open spec fn stored_entries(
    entries: Seq<mft_paths::EntryModel>,
    root: Seq<char>,
    wanted: spec_fn(FileId) -> bool,
    exclusions: Seq<Seq<char>>,
) -> Seq<search_files::FileModel>
    decreases entries.len(),
{
    if entries.len() == 0 {
        Seq::empty()
    } else {
        let earlier = stored_entries(entries.drop_last(), root, wanted, exclusions);
        let e = entries.last();
        if wanted(e.id) && !search_files::excluded(Platform::Windows, e.path, exclusions) {
            earlier.push(search_files::mft_file(root, e))
        } else {
            earlier
        }
    }
}

/// The files of a volume, under their paths: `records` are its records.
pub open spec fn volume_files(records: Seq<MftRecord>, root: Seq<char>) -> Seq<
    mft_paths::EntryModel,
> {
    mft_paths::file_entries(
        records,
        text::without_trailing_separators(root),
        mft_paths::retained(records),
    )
}

proof fn stored_entries_join(
    a: Seq<mft_paths::EntryModel>,
    b: Seq<mft_paths::EntryModel>,
    root: Seq<char>,
    wanted: spec_fn(FileId) -> bool,
    exclusions: Seq<Seq<char>>,
)
    ensures
        stored_entries(a + b, root, wanted, exclusions) == stored_entries(
            a,
            root,
            wanted,
            exclusions,
        ) + stored_entries(b, root, wanted, exclusions),
    decreases b.len(),
{
    if b.len() == 0 {
        assert(a + b =~= a);
        assert(stored_entries(b, root, wanted, exclusions) =~= Seq::empty());
    } else {
        assert((a + b).drop_last() =~= a + b.drop_last());
        stored_entries_join(a, b.drop_last(), root, wanted, exclusions);
        assert(stored_entries(a + b, root, wanted, exclusions) =~= stored_entries(
            a,
            root,
            wanted,
            exclusions,
        ) + stored_entries(b, root, wanted, exclusions));
    }
}

fn store_entries(
    entries: &Vec<ResolvedMftEntry>,
    root: &str,
    wanted: Option<&IdSet>,
    exclusions: &Vec<String>,
    out: &mut Vec<IndexedFile>,
    Ghost(p): Ghost<spec_fn(FileId) -> bool>,
)
    requires
        forall|id: FileId| #[trigger] p(id) <==> match wanted {
            Some(set) => set.holds(id),
            None => true,
        },
    ensures
        search_files::file_models(final(out)@) == search_files::file_models(old(out)@)
            + stored_entries(
            mft_paths::entry_models(entries@),
            root@,
            p,
            text::texts(exclusions@),
        ),
{
    let ghost start = search_files::file_models(out@);
    let ghost all = mft_paths::entry_models(entries@);
    let ghost ex = text::texts(exclusions@);
    assert(stored_entries(all.take(0), root@, p, ex) =~= Seq::empty());
    assert(start + Seq::empty() =~= start);
    for i in 0..entries.len()
        invariant
            all == mft_paths::entry_models(entries@),
            ex == text::texts(exclusions@),
            forall|id: FileId| #[trigger] p(id) <==> match wanted {
                Some(set) => set.holds(id),
                None => true,
            },
            search_files::file_models(out@) == start + stored_entries(
                all.take(i as int),
                root@,
                p,
                ex,
            ),
    {
        let ghost before = search_files::file_models(out@);
        assert(all.take(i + 1).drop_last() =~= all.take(i as int));
        assert(all[i as int] == entries@[i as int]@);
        let id: FileId = entries[i].id;
        let take: bool = match wanted {
            Some(set) => set.contains(id),
            None => true,
        };
        assert(take == p(id));
        if take && !is_excluded(Platform::Windows, entries[i].path.as_str(), exclusions) {
            let file = indexed_mft_entry(root, &entries[i]);
            out.push(file);
            assert(search_files::file_models(out@) =~= before.push(file@));
            assert(search_files::file_models(out@) =~= start + stored_entries(
                all.take(i + 1),
                root@,
                p,
                ex,
            ));
        }
    }
    assert(all.take(all.len() as int) =~= all);
}

fn store_batches(
    batches: &Vec<Vec<ResolvedMftEntry>>,
    root: &str,
    wanted: Option<&IdSet>,
    exclusions: &Vec<String>,
    Ghost(p): Ghost<spec_fn(FileId) -> bool>,
) -> (r: Vec<IndexedFile>)
    requires
        forall|id: FileId| #[trigger] p(id) <==> match wanted {
            Some(set) => set.holds(id),
            None => true,
        },
    ensures
        search_files::file_models(r@) == stored_entries(
            mft_paths::all_of(batches@),
            root@,
            p,
            text::texts(exclusions@),
        ),
{
    let ghost ex = text::texts(exclusions@);
    let mut out: Vec<IndexedFile> = Vec::new();
    assert(batches@.take(0) =~= Seq::empty());
    assert(mft_paths::all_of(batches@.take(0)) =~= Seq::empty());
    assert(search_files::file_models(out@) =~= Seq::empty());
    for i in 0..batches.len()
        invariant
            ex == text::texts(exclusions@),
            forall|id: FileId| #[trigger] p(id) <==> match wanted {
                Some(set) => set.holds(id),
                None => true,
            },
            search_files::file_models(out@) == stored_entries(
                mft_paths::all_of(batches@.take(i as int)),
                root@,
                p,
                ex,
            ),
    {
        assert(batches@.take(i + 1).drop_last() =~= batches@.take(i as int));
        store_entries(&batches[i], root, wanted, exclusions, &mut out, Ghost(p));
        proof {
            stored_entries_join(
                mft_paths::all_of(batches@.take(i as int)),
                mft_paths::entry_models(batches@[i as int]@),
                root@,
                p,
                ex,
            );
        }
    }
    assert(batches@.take(batches@.len() as int) =~= batches@);
    out
}

/// Plans what changes of a volume do to what is stored about it: `stored`
/// are the records so far.
pub fn plan_usn_changes(
    root: &str,
    exclusions: &Vec<String>,
    stored: &Vec<MftRecord>,
    changes: &Vec<MftRecord>,
) -> (r: UsnPlan)
    ensures
        ({
            let before = table_of(stored@);
            let after = after_changes(before, changes@);
            &&& r.nodes@ == node_changes(changes@)
            &&& lists_ids(|id: FileId| affected(before, before, changes@, id), r.deleted_files@)
            &&& exists|records: Seq<MftRecord>|
                #[trigger] lists_table(after, records) && search_files::file_models(r.files@)
                    == stored_entries(
                    volume_files(records, root@),
                    root@,
                    |id: FileId| affected(after, before, changes@, id),
                    text::texts(exclusions@),
                )
        }),
{
    let ghost before = table_of(stored@);
    let mut old_table = RecordTable::new();
    let mut new_table = RecordTable::new();
    assert(table_of(stored@.take(0)) =~= Map::empty());
    for i in 0..stored.len()
        invariant
            old_table.wf(),
            new_table.wf(),
            old_table.table() == table_of(stored@.take(i as int)),
            new_table.table() == table_of(stored@.take(i as int)),
    {
        old_table.put(stored[i].clone());
        new_table.put(stored[i].clone());
        proof {
            assert(stored@.take(i + 1).drop_last() =~= stored@.take(i as int));
            assert(table_of(stored@.take(i + 1)) =~= table_of(stored@.take(i as int)).insert(
                stored@[i as int].id,
                stored@[i as int],
            ));
        }
    }
    assert(stored@.take(stored@.len() as int) =~= stored@);
    let mut changed_ids = IdSet::new();
    let mut changed_directories = IdSet::new();
    let mut nodes: Vec<NodeChange> = Vec::new();
    assert(changes@.take(0) =~= Seq::empty());
    for i in 0..changes.len()
        invariant
            old_table.wf(),
            new_table.wf(),
            before == table_of(stored@),
            old_table.table() == before,
            new_table.table() == after_changes(before, changes@.take(i as int)),
            nodes@ == node_changes(changes@.take(i as int)),
            forall|id: FileId| #[trigger]
                changed_ids.holds(id) <==> changed(changes@.take(i as int), id),
            forall|id: FileId| #[trigger]
                changed_directories.holds(id) <==> changed_directory(
                    before,
                    changes@.take(i as int),
                    id,
                ),
    {
        let ghost done = changes@.take(i as int);
        let ghost more = changes@.take(i + 1);
        let ghost ids_before = changed_ids;
        let ghost directories_before = changed_directories;
        let change: &MftRecord = &changes[i];
        assert(more.drop_last() =~= done);
        changed_ids.add(change.id);
        let was_directory: bool = match old_table.get(change.id) {
            Some(record) => record.is_directory(),
            None => false,
        };
        if change.is_directory() || was_directory {
            changed_directories.add(change.id);
        }
        if change.reason & USN_REASON_FILE_DELETE != 0 {
            new_table.take_out(change.id);
            nodes.push(NodeChange::Delete(change.id));
        } else if change.reason & USN_REASON_RENAME_OLD_NAME == 0 {
            new_table.put(change.clone());
            nodes.push(NodeChange::Upsert(change.clone()));
        }
        proof {
            assert forall|id: FileId| #[trigger] changed_ids.holds(id) <==> changed(more, id) by {
                assert(ids_before.holds(id) <==> changed(done, id));
                if changed(done, id) {
                    let k = choose|k: int| 0 <= k < done.len() && (#[trigger] done[k]).id == id;
                    assert(more[k].id == id);
                }
                if id == change.id {
                    assert(more[i as int].id == id);
                }
                if changed(more, id) && id != change.id {
                    let k = choose|k: int| 0 <= k < more.len() && (#[trigger] more[k]).id == id;
                    assert(done[k].id == id);
                }
            }
            assert forall|id: FileId| #[trigger]
                changed_directories.holds(id) <==> changed_directory(before, more, id) by {
                assert(directories_before.holds(id) <==> changed_directory(before, done, id));
                if changed_directory(before, done, id) {
                    let k = choose|k: int|
                        0 <= k < done.len() && (#[trigger] done[k]).id == id && (
                        done[k].directory() || (before.contains_key(id) && before[id].directory()));
                    assert(more[k].id == id);
                }
                if changed_directories.holds(id) && id == change.id {
                    assert(more[i as int].id == id);
                }
                if changed_directory(before, more, id) {
                    let k = choose|k: int|
                        0 <= k < more.len() && (#[trigger] more[k]).id == id && (
                        more[k].directory() || (before.contains_key(id) && before[id].directory()));
                    if k < i {
                        assert(done[k].id == id);
                    }
                }
            }
        }
    }
    assert(changes@.take(changes@.len() as int) =~= changes@);
    let ghost after = after_changes(before, changes@);
    let (deleted_files, _) = affected_file_ids(
        &old_table,
        &changed_ids,
        &changed_directories,
        Ghost(before),
        Ghost(changes@),
    );
    let (_, new_affected) = affected_file_ids(
        &new_table,
        &changed_ids,
        &changed_directories,
        Ghost(before),
        Ghost(changes@),
    );
    let records = new_table.records();
    let ghost listed = records@;
    let ghost p = |id: FileId| affected(after, before, changes@, id);
    let mut files: Vec<IndexedFile> = Vec::new();
    match resolve_mft_files_in_batches(root, records, NTFS_RESOLVE_BATCH) {
        Ok((batches, _)) => {
            files = store_batches(&batches, root, Some(&new_affected), exclusions, Ghost(p));
        },
        Err(_) => {},
    }
    assert(lists_table(after, listed));
    UsnPlan { nodes, deleted_files, files }
}

/// Stored files of several batches.
pub open spec fn files_of(batches: Seq<Vec<IndexedFile>>) -> Seq<search_files::FileModel>
    decreases batches.len(),
{
    if batches.len() == 0 {
        Seq::empty()
    } else {
        files_of(batches.drop_last()) + search_files::file_models(batches.last()@)
    }
}

/// Takes the files of a volume up a batch at a time: nothing but the records
/// and the paths of directories is held meanwhile.
pub struct VolumeIndexer {
    resolver: MftFileResolver,
    duplicates: u64,
    root: String,
    exclusions: Vec<String>,
}

impl VolumeIndexer {
    /// The records of the volume.
    pub closed spec fn records(self) -> Seq<MftRecord> {
        self.resolver.records()
    }

    pub closed spec fn root(self) -> Seq<char> {
        self.root@
    }

    pub closed spec fn exclusions(self) -> Seq<Seq<char>> {
        text::texts(self.exclusions@)
    }

    /// How many of the records that count have been handled.
    pub closed spec fn handled(self) -> nat {
        self.resolver.handled()
    }

    pub open spec fn finished(self) -> bool {
        self.handled() == mft_paths::retained(self.records()).len()
    }

    /// The files handed out so far.
    pub open spec fn stored(self) -> Seq<search_files::FileModel> {
        stored_entries(
            mft_paths::file_entries(
                self.records(),
                text::without_trailing_separators(self.root()),
                mft_paths::retained(self.records()).take(self.handled() as int),
            ),
            self.root(),
            |id: FileId| true,
            self.exclusions(),
        )
    }

    pub open spec fn same_volume(self, other: Self) -> bool {
        self.records() == other.records() && self.root() == other.root() && self.exclusions()
            == other.exclusions()
    }

    pub closed spec fn wf(self) -> bool {
        &&& self.resolver.wf()
        &&& self.resolver.root() == text::without_trailing_separators(self.root@)
        &&& self.resolver.limit() == NTFS_RESOLVE_BATCH
        &&& self.duplicates == self.records().len() - mft_paths::distinct_ids(self.records()).len()
    }

    pub fn new(root: &str, exclusions: &Vec<String>, records: Vec<MftRecord>) -> (r: Self)
        ensures
            r.wf(),
            r.records() == records@,
            r.root() == root@,
            r.exclusions() == text::texts(exclusions@),
            r.handled() == 0,
    {
        let (resolver, duplicates) = MftFileResolver::start(root, records, NTFS_RESOLVE_BATCH);
        VolumeIndexer {
            resolver,
            duplicates,
            root: root.to_owned(),
            exclusions: copy_texts(exclusions),
        }
    }

    /// The next files in their stored form, until all records have been
    /// handled. Excluded files are left out, so a batch can be empty.
    pub fn next_batch(&mut self) -> (r: Option<Vec<IndexedFile>>)
        requires
            old(self).wf(),
        ensures
            final(self).wf(),
            final(self).same_volume(*old(self)),
            r is None <==> old(self).finished(),
            r is None ==> final(self).handled() == old(self).handled(),
            r matches Some(files) ==> old(self).handled() < final(self).handled()
                <= mft_paths::retained(old(self).records()).len() && files@.len()
                <= NTFS_RESOLVE_BATCH && final(self).stored() == old(self).stored()
                + search_files::file_models(files@),
    {
        if self.resolver.is_finished() {
            return None;
        }
        let ghost p = |id: FileId| true;
        let ghost ex = text::texts(self.exclusions@);
        let ghost root = text::without_trailing_separators(self.root@);
        let ghost before = mft_paths::file_entries(self.records(), root, self.resolver.done());
        let batch = self.resolver.next_batch();
        let mut files: Vec<IndexedFile> = Vec::new();
        store_entries(&batch, self.root.as_str(), None, &self.exclusions, &mut files, Ghost(p));
        proof {
            let b = mft_paths::entry_models(batch@);
            assert(search_files::file_models(files@) =~= stored_entries(b, self.root@, p, ex));
            stored_entries_join(before, b, self.root@, p, ex);
            stored_entries_are_fewer(b, self.root@, p, ex);
            assert(search_files::file_models(files@).len() == files@.len());
        }
        Some(files)
    }

    /// Once all records have been handled, all files of the volume have been
    /// handed out that are not excluded, each once and in order.
    pub proof fn finished_indexer_handed_out_all(self)
        requires
            self.finished(),
        ensures
            self.stored() == stored_entries(
                volume_files(self.records(), self.root()),
                self.root(),
                |id: FileId| true,
                self.exclusions(),
            ),
    {
        let nodes = mft_paths::retained(self.records());
        assert(nodes.take(nodes.len() as int) =~= nodes);
    }

    /// The records that count.
    pub fn finish(self) -> (r: Vec<MftRecord>)
        requires
            self.wf(),
        ensures
            r@ == mft_paths::retained(self.records()),
    {
        let duplicates: u64 = self.duplicates;
        let (_, kept) = self.resolver.finish(duplicates);
        kept
    }
}

/// The files of a volume in their stored form, a batch at a time, and the
/// records that count. Excluded files are left out.
pub fn index_ntfs_volume_paths(root: &str, exclusions: &Vec<String>, records: Vec<MftRecord>) -> (r:
    (Vec<Vec<IndexedFile>>, Vec<MftRecord>))
    ensures
        files_of(r.0@) == stored_entries(
            volume_files(records@, root@),
            root@,
            |id: FileId| true,
            text::texts(exclusions@),
        ),
        forall|i: int| 0 <= i < r.0@.len() ==> (#[trigger] r.0@[i])@.len() <= NTFS_RESOLVE_BATCH,
        r.1@ == mft_paths::retained(records@),
{
    let ghost all = records@;
    let ghost nodes = mft_paths::retained(all);
    let mut out: Vec<Vec<IndexedFile>> = Vec::new();
    let mut indexer = VolumeIndexer::new(root, exclusions, records);
    proof {
        assert(nodes.take(0) =~= Seq::empty());
        assert(indexer.stored() =~= Seq::empty());
        assert(files_of(out@) =~= Seq::empty());
    }
    let mut open: bool = true;
    while open
        invariant
            indexer.wf(),
            indexer.records() == all,
            indexer.root() == root@,
            indexer.exclusions() == text::texts(exclusions@),
            nodes == mft_paths::retained(all),
            !open ==> indexer.finished(),
            files_of(out@) == indexer.stored(),
            forall|j: int|
                0 <= j < out@.len() ==> (#[trigger] out@[j])@.len() <= NTFS_RESOLVE_BATCH,
        decreases
                nodes.len() - indexer.handled(),
                if open {
                    1int
                } else {
                    0
                },
    {
        let ghost before = out@;
        match indexer.next_batch() {
            Some(files) => {
                out.push(files);
                assert(out@.drop_last() =~= before);
            },
            None => {
                open = false;
            },
        }
    }
    proof {
        indexer.finished_indexer_handed_out_all();
    }
    (out, indexer.finish())
}

proof fn stored_entries_are_fewer(
    entries: Seq<mft_paths::EntryModel>,
    root: Seq<char>,
    wanted: spec_fn(FileId) -> bool,
    exclusions: Seq<Seq<char>>,
)
    ensures
        stored_entries(entries, root, wanted, exclusions).len() <= entries.len(),
    decreases entries.len(),
{
    if entries.len() > 0 {
        stored_entries_are_fewer(entries.drop_last(), root, wanted, exclusions);
    }
}

/// What no record is about stays as it was.
proof fn unchanged_record_stays(t: Table, changes: Seq<MftRecord>, id: FileId)
    requires
        !changed(changes, id),
    ensures
        after_changes(t, changes).contains_key(id) == t.contains_key(id),
        after_changes(t, changes)[id] == t[id],
    decreases changes.len(),
{
    if changes.len() > 0 {
        let short = changes.drop_last();
        assert(changes[changes.len() - 1].id != id);
        if changed(short, id) {
            let k = choose|k: int| 0 <= k < short.len() && (#[trigger] short[k]).id == id;
            assert(changes[k].id == id);
        }
        unchanged_record_stays(t, short, id);
    }
}

/// What was no directory and is not said to be one, is none.
proof fn file_stays_file(t: Table, changes: Seq<MftRecord>, id: FileId)
    requires
        !changed_directory(t, changes, id),
        changed(changes, id),
    ensures
        t.contains_key(id) ==> !t[id].directory(),
        after_changes(t, changes).contains_key(id) ==> !after_changes(t, changes)[id].directory(),
    decreases changes.len(),
{
    let k = choose|k: int| 0 <= k < changes.len() && (#[trigger] changes[k]).id == id;
    assert(changes[k].id == id);
    let short = changes.drop_last();
    let last = changes[changes.len() - 1];
    if changed(short, id) {
        if changed_directory(t, short, id) {
            let m = choose|m: int|
                0 <= m < short.len() && (#[trigger] short[m]).id == id && (short[m].directory() || (
                t.contains_key(id) && t[id].directory()));
            assert(changes[m].id == id);
        }
        file_stays_file(t, short, id);
    } else {
        unchanged_record_stays(t, short, id);
    }
    assert(last.id == id ==> !last.directory());
}

proof fn unaffected_way_is_the_same(
    before: Seq<MftRecord>,
    after: Seq<MftRecord>,
    changes: Seq<MftRecord>,
    root: Seq<char>,
    id: FileId,
    n: nat,
)
    requires
        table_of(after) == after_changes(table_of(before), changes),
        !meets(
            table_of(after),
            |d: FileId| changed_directory(table_of(before), changes, d),
            id,
        ),
    ensures
        mft_paths::path_within(before, true, root, id, n) == mft_paths::path_within(
            after,
            true,
            root,
            id,
            n,
        ),
    decreases n,
{
    let t = table_of(before);
    let u = table_of(after);
    let p = |d: FileId| changed_directory(t, changes, d);
    meets_one_step_up(u, p, id);
    assert(!p(id));
    assert(u.contains_key(id) == (mft_paths::lookup(after, id) is Some));
    assert(t.contains_key(id) == (mft_paths::lookup(before, id) is Some));
    if changed(changes, id) {
        file_stays_file(t, changes, id);
    } else {
        unchanged_record_stays(t, changes, id);
        mft_paths::ids_have_records(after);
        if n > 0 {
            match mft_paths::step(after, true, id) {
                mft_paths::Step::Up(up) => {
                    assert(above(u, id) == Some(up));
                    unaffected_way_is_the_same(before, after, changes, root, up, (n - 1) as nat);
                },
                _ => {},
            }
        }
    }
}

/// A file that is not affected by changes is still there and keeps its path:
/// updating only the affected files keeps every stored path right.
pub proof fn unaffected_file_keeps_its_path(
    before: Seq<MftRecord>,
    after: Seq<MftRecord>,
    changes: Seq<MftRecord>,
    root: Seq<char>,
    id: FileId,
)
    requires
        lists_table(after_changes(table_of(before), changes), after),
        table_of(after).contains_key(id),
        !table_of(after)[id].directory(),
        !affected(table_of(after), table_of(before), changes, id),
    ensures
        table_of(before).contains_key(id),
        table_of(before)[id] == table_of(after)[id],
        mft_paths::full_path(before, true, root, table_of(before)[id].parent_id)
            == mft_paths::full_path(after, true, root, table_of(after)[id].parent_id),
{
    let t = table_of(before);
    listed_table_is_found(after_changes(t, changes), after);
    unchanged_record_stays(t, changes, id);
    let parent = table_of(after)[id].parent_id;
    assert forall|n: nat| mft_paths::path_within(before, true, root, parent, n)
        == mft_paths::path_within(after, true, root, parent, n) by {
        unaffected_way_is_the_same(before, after, changes, root, parent, n);
    }
    let has_old = exists|n: nat| mft_paths::path_within(before, true, root, parent, n) is Some;
    let has_new = exists|n: nat| mft_paths::path_within(after, true, root, parent, n) is Some;
    if has_old {
        let n = choose|n: nat| mft_paths::path_within(before, true, root, parent, n) is Some;
        assert(mft_paths::path_within(after, true, root, parent, n) is Some);
        let m = choose|m: nat| mft_paths::path_within(after, true, root, parent, m) is Some;
        mft_paths::paths_agree(before, true, root, parent, n, m);
    }
    if has_new {
        let m = choose|m: nat| mft_paths::path_within(after, true, root, parent, m) is Some;
        assert(mft_paths::path_within(before, true, root, parent, m) is Some);
    }
}

/// The records that a list of a table counts are those of the table.
proof fn listed_table_is_found(t: Table, v: Seq<MftRecord>)
    requires
        lists_table(t, v),
    ensures
        table_of(v) == t,
{
    assert forall|id: FileId| (mft_paths::lookup(v, id) is Some) == #[trigger] t.contains_key(id)
        && (mft_paths::lookup(v, id) is Some ==> mft_paths::lookup(v, id)->0 == t[id]) by {
        lookup_finds_member(v, id);
        if t.contains_key(id) {
            let i = choose|i: int| 0 <= i < v.len() && (#[trigger] v[i]).id == id;
            assert(v[i].id == id);
        }
        if mft_paths::lookup(v, id) is Some {
            let i = choose|i: int|
                0 <= i < v.len() && (#[trigger] v[i]).id == id && mft_paths::lookup(v, id) == Some(
                    v[i],
                );
            assert(t[v[i].id] == v[i]);
        }
    }
    assert forall|id: FileId| #[trigger] table_of(v).contains_key(id) == t.contains_key(id) && (
    t.contains_key(id) ==> table_of(v)[id] == t[id]) by {
        assert((mft_paths::lookup(v, id) is Some) == t.contains_key(id));
    }
    assert(table_of(v) =~= t);
}

proof fn lookup_finds_member(v: Seq<MftRecord>, id: FileId)
    ensures
        (mft_paths::lookup(v, id) is Some) <==> exists|i: int|
            0 <= i < v.len() && (#[trigger] v[i]).id == id,
        mft_paths::lookup(v, id) is Some ==> exists|i: int|
            0 <= i < v.len() && (#[trigger] v[i]).id == id && mft_paths::lookup(v, id) == Some(
                v[i],
            ),
    decreases v.len(),
{
    if v.len() > 0 {
        let short = v.drop_last();
        lookup_finds_member(short, id);
        if v.last().id == id {
            assert(v[v.len() - 1].id == id);
        } else {
            if mft_paths::lookup(short, id) is Some {
                let i = choose|i: int|
                    0 <= i < short.len() && (#[trigger] short[i]).id == id && mft_paths::lookup(
                        short,
                        id,
                    ) == Some(short[i]);
                assert(v[i].id == id);
            }
            if exists|i: int| 0 <= i < v.len() && (#[trigger] v[i]).id == id {
                let i = choose|i: int| 0 <= i < v.len() && (#[trigger] v[i]).id == id;
                assert(short[i].id == id);
            }
        }
    }
}

/// A record that stands for the root of the volume names itself as the
/// directory above, as NTFS writes it.
pub open spec fn rooted(t: Table) -> bool {
    forall|id: FileId|
        #[trigger] t.contains_key(id) && (id.names_root() || t[id].name@ == "."@) ==> t[id].parent_id
            == id
}

/// The record of `d` is the same in both tables, or neither tells of a
/// directory.
spec fn alike(t: Table, u: Table, d: FileId) -> bool {
    ||| t.contains_key(d) == u.contains_key(d) && t[d] == u[d]
    ||| (t.contains_key(d) ==> !t[d].directory()) && (u.contains_key(d) ==> !u[d].directory())
}

/// Where only one of two tables leads up to a directory of `dirs`, the other
/// does not lead to the root.
proof fn way_beside_has_no_path(
    a: Seq<MftRecord>,
    b: Seq<MftRecord>,
    dirs: spec_fn(FileId) -> bool,
    root: Seq<char>,
    id: FileId,
    n: nat,
)
    requires
        rooted(table_of(b)),
        forall|d: FileId| !(#[trigger] dirs(d)) ==> alike(table_of(a), table_of(b), d),
        !meets(table_of(a), dirs, id),
        meets_within(table_of(b), dirs, id, n),
    ensures
        mft_paths::full_path(a, true, root, id) is None,
    decreases n,
{
    let t = table_of(a);
    let u = table_of(b);
    meets_one_step_up(t, dirs, id);
    assert(!dirs(id));
    assert(alike(t, u, id));
    assert(above(u, id) is Some);
    assert(u.contains_key(id));
    let up = u[id].parent_id;
    mft_paths::ids_have_records(b);
    assert(mft_paths::lookup(b, id) == Some(u[id]));
    mft_paths::path_extends_parent(a, true, root, id);
    if t.contains_key(id) {
        assert(mft_paths::lookup(a, id) == Some(t[id]));
        if t[id] == u[id] {
            assert(above(t, id) == Some(up));
            way_beside_has_no_path(a, b, dirs, root, up, (n - 1) as nat);
        }
    } else {
        assert(mft_paths::lookup(a, id) is None);
    }
}

/// The file of the record `r` is stored as `f`.
spec fn stored_as(
    records: Seq<MftRecord>,
    top: Seq<char>,
    r: MftRecord,
    root: Seq<char>,
    wanted: spec_fn(FileId) -> bool,
    exclusions: Seq<Seq<char>>,
    f: search_files::FileModel,
) -> bool {
    &&& !r.directory()
    &&& wanted(r.id)
    &&& mft_paths::full_path(records, true, top, r.parent_id) matches Some(parent)
        && !search_files::excluded(
        Platform::Windows,
        mft_paths::joined(parent, r.name@),
        exclusions,
    ) && f == search_files::mft_file(
        root,
        mft_paths::entry_of(r, mft_paths::joined(parent, r.name@)),
    )
}

proof fn entries_are_stored(
    records: Seq<MftRecord>,
    top: Seq<char>,
    nodes: Seq<MftRecord>,
    root: Seq<char>,
    wanted: spec_fn(FileId) -> bool,
    exclusions: Seq<Seq<char>>,
    f: search_files::FileModel,
)
    ensures
        stored_entries(
            mft_paths::file_entries(records, top, nodes),
            root,
            wanted,
            exclusions,
        ).contains(f) <==> exists|i: int|
            0 <= i < nodes.len() && stored_as(
                records,
                top,
                #[trigger] nodes[i],
                root,
                wanted,
                exclusions,
                f,
            ),
    decreases nodes.len(),
{
    if nodes.len() > 0 {
        let short = nodes.drop_last();
        let r = nodes.last();
        entries_are_stored(records, top, short, root, wanted, exclusions, f);
        let earlier = mft_paths::file_entries(records, top, short);
        let all = mft_paths::file_entries(records, top, nodes);
        let kept = stored_entries(earlier, root, wanted, exclusions);
        assert(forall|i: int| 0 <= i < short.len() ==> #[trigger] nodes[i] == short[i]);
        assert(nodes[nodes.len() - 1] == r);
        match mft_paths::full_path(records, true, top, r.parent_id) {
            Some(parent) if !r.directory() => {
                let e = mft_paths::entry_of(r, mft_paths::joined(parent, r.name@));
                assert(all == earlier.push(e));
                assert(all.drop_last() =~= earlier);
                vstd::seq_lib::lemma_seq_contains_after_push(
                    kept,
                    search_files::mft_file(root, e),
                    f,
                );
            },
            _ => {
                assert(all == earlier);
            },
        }
        if exists|i: int|
            0 <= i < nodes.len() && stored_as(
                records,
                top,
                #[trigger] nodes[i],
                root,
                wanted,
                exclusions,
                f,
            ) {
            let i = choose|i: int|
                0 <= i < nodes.len() && stored_as(
                    records,
                    top,
                    #[trigger] nodes[i],
                    root,
                    wanted,
                    exclusions,
                    f,
                );
            if i < short.len() {
                assert(stored_as(records, top, short[i], root, wanted, exclusions, f));
            }
        }
        if exists|i: int|
            0 <= i < short.len() && stored_as(
                records,
                top,
                #[trigger] short[i],
                root,
                wanted,
                exclusions,
                f,
            ) {
            let i = choose|i: int|
                0 <= i < short.len() && stored_as(
                    records,
                    top,
                    #[trigger] short[i],
                    root,
                    wanted,
                    exclusions,
                    f,
                );
            assert(stored_as(records, top, nodes[i], root, wanted, exclusions, f));
        }
    }
}

/// The stored files of a volume are those of the records that count.
proof fn volume_files_are_stored(
    records: Seq<MftRecord>,
    root: Seq<char>,
    wanted: spec_fn(FileId) -> bool,
    exclusions: Seq<Seq<char>>,
    f: search_files::FileModel,
)
    ensures
        stored_entries(volume_files(records, root), root, wanted, exclusions).contains(f)
            <==> exists|id: FileId| #[trigger]
            table_of(records).contains_key(id) && stored_as(
                records,
                text::without_trailing_separators(root),
                table_of(records)[id],
                root,
                wanted,
                exclusions,
                f,
            ),
{
    let top = text::without_trailing_separators(root);
    let ids = mft_paths::distinct_ids(records);
    let nodes = mft_paths::retained(records);
    let t = table_of(records);
    entries_are_stored(records, top, nodes, root, wanted, exclusions, f);
    mft_paths::ids_have_records(records);
    if exists|i: int|
        0 <= i < nodes.len() && stored_as(
            records,
            top,
            #[trigger] nodes[i],
            root,
            wanted,
            exclusions,
            f,
        ) {
        let i = choose|i: int|
            0 <= i < nodes.len() && stored_as(
                records,
                top,
                #[trigger] nodes[i],
                root,
                wanted,
                exclusions,
                f,
            );
        assert(ids.contains(ids[i]));
        assert(mft_paths::lookup(records, ids[i]) is Some);
        assert(t.contains_key(ids[i]) && t[ids[i]] == nodes[i]);
    }
    if exists|id: FileId| #[trigger]
        t.contains_key(id) && stored_as(records, top, t[id], root, wanted, exclusions, f) {
        let id = choose|id: FileId| #[trigger]
            t.contains_key(id) && stored_as(records, top, t[id], root, wanted, exclusions, f);
        assert(mft_paths::lookup(records, id) is Some);
        let i = ids.index_of(id);
        assert(ids[i] == id);
        assert(nodes[i] == t[id]);
    }
}

/// A stored file is one of those that are forgotten.
pub open spec fn forgotten(deleted: Seq<FileId>, f: search_files::FileModel) -> bool {
    exists|i: int| 0 <= i < deleted.len() && f.file_id == Some((#[trigger] deleted[i])@)
}

/// Catching up gives what reading the volume anew would give: a file is
/// stored afterwards exactly if it is stored anew, or was stored before and
/// is not forgotten.
pub proof fn catching_up_equals_reading_anew(
    before: Seq<MftRecord>,
    after: Seq<MftRecord>,
    changes: Seq<MftRecord>,
    root: Seq<char>,
    exclusions: Seq<Seq<char>>,
    deleted: Seq<FileId>,
    f: search_files::FileModel,
)
    requires
        lists_table(after_changes(table_of(before), changes), after),
        rooted(table_of(before)),
        rooted(after_changes(table_of(before), changes)),
        lists_ids(
            |id: FileId| affected(table_of(before), table_of(before), changes, id),
            deleted,
        ),
    ensures
        ({
            let t = table_of(before);
            let u = after_changes(t, changes);
            let all = |id: FileId| true;
            let anew = stored_entries(volume_files(after, root), root, all, exclusions);
            let was = stored_entries(volume_files(before, root), root, all, exclusions);
            let renewed = stored_entries(
                volume_files(after, root),
                root,
                |id: FileId| affected(u, t, changes, id),
                exclusions,
            );
            anew.contains(f) <==> renewed.contains(f) || (was.contains(f) && !forgotten(deleted, f))
        }),
{
    let t = table_of(before);
    let u = after_changes(t, changes);
    let all = |id: FileId| true;
    let hit = |id: FileId| affected(u, t, changes, id);
    let gone = |id: FileId| affected(t, t, changes, id);
    let dirs = |d: FileId| changed_directory(t, changes, d);
    let top = text::without_trailing_separators(root);
    let anew = stored_entries(volume_files(after, root), root, all, exclusions);
    let was = stored_entries(volume_files(before, root), root, all, exclusions);
    let renewed = stored_entries(volume_files(after, root), root, hit, exclusions);
    listed_table_is_found(u, after);
    mft_paths::ids_have_records(before);
    mft_paths::ids_have_records(after);
    volume_files_are_stored(after, root, all, exclusions, f);
    volume_files_are_stored(before, root, all, exclusions, f);
    volume_files_are_stored(after, root, hit, exclusions, f);
    assert forall|d: FileId| !(#[trigger] dirs(d)) implies alike(t, u, d) && alike(u, t, d) by {
        if changed(changes, d) {
            file_stays_file(t, changes, d);
        } else {
            unchanged_record_stays(t, changes, d);
        }
    }
    if anew.contains(f) {
        let id = choose|id: FileId| #[trigger]
            u.contains_key(id) && stored_as(after, top, u[id], root, all, exclusions, f);
        assert(u[id].id == id) by {
            assert(mft_paths::lookup(after, id) is Some);
        }
        if hit(id) {
            assert(stored_as(after, top, u[id], root, hit, exclusions, f));
        } else {
            unaffected_file_keeps_its_path(before, after, changes, top, id);
            assert(stored_as(before, top, t[id], root, all, exclusions, f));
            if forgotten(deleted, f) {
                let i = choose|i: int|
                    0 <= i < deleted.len() && f.file_id == Some((#[trigger] deleted[i])@);
                FileId::number_is_unique(deleted[i], id);
                assert(deleted.contains(id));
                assert(gone(id));
                let n = choose|n: nat| meets_within(t, dirs, t[id].parent_id, n);
                way_beside_has_no_path(after, before, dirs, top, u[id].parent_id, n);
            }
        }
    }
    if renewed.contains(f) {
        let id = choose|id: FileId| #[trigger]
            u.contains_key(id) && stored_as(after, top, u[id], root, hit, exclusions, f);
        assert(stored_as(after, top, u[id], root, all, exclusions, f));
    }
    if was.contains(f) && !forgotten(deleted, f) {
        let id = choose|id: FileId| #[trigger]
            t.contains_key(id) && stored_as(before, top, t[id], root, all, exclusions, f);
        assert(t[id].id == id) by {
            assert(mft_paths::lookup(before, id) is Some);
        }
        if gone(id) {
            assert(deleted.contains(id));
            let i = deleted.index_of(id);
            assert(deleted[i] == id);
        }
        unchanged_record_stays(t, changes, id);
        if meets(u, dirs, u[id].parent_id) {
            let n = choose|n: nat| meets_within(u, dirs, u[id].parent_id, n);
            way_beside_has_no_path(before, after, dirs, top, t[id].parent_id, n);
        }
        assert(!affected(u, t, changes, id));
        unaffected_file_keeps_its_path(before, after, changes, top, id);
        assert(stored_as(after, top, u[id], root, all, exclusions, f));
    }
}

/// The stored records after some of them were changed.
pub open spec fn with_node_changes(t: Table, v: Seq<NodeChange>) -> Table
    decreases v.len(),
{
    if v.len() == 0 {
        t
    } else {
        let earlier = with_node_changes(t, v.drop_last());
        match v.last() {
            NodeChange::Delete(id) => earlier.remove(id),
            NodeChange::Upsert(record) => earlier.insert(record.id, record),
        }
    }
}

/// The stored records follow the changes, so that the next ones can be
/// applied to them.
pub proof fn stored_records_follow_changes(t: Table, changes: Seq<MftRecord>)
    ensures
        with_node_changes(t, node_changes(changes)) == after_changes(t, changes),
    decreases changes.len(),
{
    if changes.len() > 0 {
        let last = changes.last();
        let earlier = node_changes(changes.drop_last());
        stored_records_follow_changes(t, changes.drop_last());
        if deletes(last) {
            assert(earlier.push(NodeChange::Delete(last.id)).drop_last() =~= earlier);
        } else if updates(last) {
            assert(earlier.push(NodeChange::Upsert(last)).drop_last() =~= earlier);
        }
    }
}

/// Changes may be applied in several rounds.
pub proof fn rounds_of_changes_add_up(t: Table, first: Seq<MftRecord>, second: Seq<MftRecord>)
    ensures
        after_changes(after_changes(t, first), second) == after_changes(t, first + second),
    decreases second.len(),
{
    if second.len() > 0 {
        rounds_of_changes_add_up(t, first, second.drop_last());
        assert((first + second).drop_last() =~= first + second.drop_last());
    } else {
        assert(first + second =~= first);
    }
}

/// No excluded file is stored.
pub proof fn excluded_files_are_not_stored(
    entries: Seq<mft_paths::EntryModel>,
    root: Seq<char>,
    wanted: spec_fn(FileId) -> bool,
    exclusions: Seq<Seq<char>>,
    f: search_files::FileModel,
)
    requires
        stored_entries(entries, root, wanted, exclusions).contains(f),
    ensures
        !search_files::excluded(Platform::Windows, f.path, exclusions),
    decreases entries.len(),
{
    if entries.len() > 0 {
        let earlier = stored_entries(entries.drop_last(), root, wanted, exclusions);
        if earlier.contains(f) {
            excluded_files_are_not_stored(entries.drop_last(), root, wanted, exclusions, f);
        } else {
            vstd::seq_lib::lemma_seq_contains_after_push(
                earlier,
                search_files::mft_file(root, entries.last()),
                f,
            );
        }
    }
}

/// A file that was deleted, and not named again, is gone.
pub proof fn deleted_file_is_gone(t: Table, changes: Seq<MftRecord>, change: MftRecord)
    requires
        deletes(change),
    ensures
        !after_changes(t, changes.push(change)).contains_key(change.id),
{
    assert(changes.push(change).drop_last() =~= changes);
}

/// What is stored about a volume between runs.
#[derive(Debug, PartialEq, Eq)]
pub struct NtfsVolumeState {
    pub volume_identity: String,
    pub journal_id: u64,
    pub next_usn: i64,
    pub snapshot_complete: bool,
}

/// A volume is known by its letter and serial number.
pub open spec fn identity(volume: char, serial: Option<u32>) -> Seq<char> {
    let number: nat = match serial {
        Some(s) => s as nat,
        None => 0,
    };
    seq![text::ascii_upper(volume), ':'] + text::decimal(number)
}

pub fn volume_identity(volume: char, serial: Option<u32>) -> (r: String)
    ensures
        r@ == identity(volume, serial),
{
    let mut r = String::new();
    r.push(to_ascii_upper(volume));
    r.push(':');
    let number: u64 = match serial {
        Some(s) => s as u64,
        None => 0,
    };
    let ghost head = r@;
    push_decimal(&mut r, number);
    assert(head =~= seq![text::ascii_upper(volume), ':']);
    r
}

/// Why what is stored about a volume cannot be brought up to date.
#[derive(Debug, Clone, Copy, PartialEq, Eq, Structural)]
pub enum CatchUpError {
    /// The volume was never read completely.
    Incomplete,
    /// It is another volume, or its journal does not reach back far enough.
    Stale,
    /// There are too many changes.
    TooMany,
    /// The journal was lost while the volume was read.
    JournalLost,
}

/// Where to read changes from: what is stored must belong to the volume,
/// and the journal must still hold everything since.
pub fn catch_up_start(
    state: Option<&NtfsVolumeState>,
    identity_now: &str,
    journal: &UsnJournalInfo,
) -> (r: Result<i64, CatchUpError>)
    ensures
        match state {
            Some(s) if s.snapshot_complete => r == if s.volume_identity@ == identity_now@
                && s.journal_id == journal.journal_id && journal.first_usn <= s.next_usn
                && s.next_usn <= journal.next_usn {
                Ok::<i64, CatchUpError>(s.next_usn)
            } else {
                Err(CatchUpError::Stale)
            },
            _ => r == Err::<i64, CatchUpError>(CatchUpError::Incomplete),
        },
{
    match state {
        None => Err(CatchUpError::Incomplete),
        Some(s) => {
            if !s.snapshot_complete {
                return Err(CatchUpError::Incomplete);
            }
            if !same_text(s.volume_identity.as_str(), identity_now) || s.journal_id
                != journal.journal_id || s.next_usn < journal.first_usn || s.next_usn
                > journal.next_usn {
                return Err(CatchUpError::Stale);
            }
            Ok(s.next_usn)
        },
    }
}

/// Takes up one more batch of changes, unless they become too many.
pub fn add_replay_batch(changes: &mut Vec<MftRecord>, batch: Vec<MftRecord>) -> (r: Result<
    (),
    CatchUpError,
>)
    ensures
        old(changes)@.len() + batch@.len() > MAX_USN_REPLAY_RECORDS ==> r == Err::<
            (),
            CatchUpError,
        >(CatchUpError::TooMany) && final(changes)@ == old(changes)@,
        old(changes)@.len() + batch@.len() <= MAX_USN_REPLAY_RECORDS ==> r is Ok
            && final(changes)@ == old(changes)@ + batch@,
{
    if changes.len() > MAX_USN_REPLAY_RECORDS || batch.len() > MAX_USN_REPLAY_RECORDS
        - changes.len() {
        return Err(CatchUpError::TooMany);
    }
    let mut batch = batch;
    changes.append(&mut batch);
    Ok(())
}

/// Whether the changes since a volume was read can still be read: the
/// journal is the same and reaches back to then.
pub fn check_snapshot_journal(before: &UsnJournalInfo, after: &UsnJournalInfo) -> (r: Result<
    (),
    CatchUpError,
>)
    ensures
        r == if before.journal_id == after.journal_id && after.first_usn <= before.next_usn {
            Ok::<(), CatchUpError>(())
        } else {
            Err(CatchUpError::JournalLost)
        },
{
    if after.journal_id != before.journal_id || before.next_usn < after.first_usn {
        Err(CatchUpError::JournalLost)
    } else {
        Ok(())
    }
}

/// The letter of the volume that a root names, if it names a whole one.
pub open spec fn volume_letter(root: Seq<char>) -> Option<char> {
    let t = paths::without_trailing_backslashes(paths::backslashed(root));
    if t.len() == 2 && t[1] == ':' && text::ascii_letter(t[0]) {
        Some(text::ascii_upper(t[0]))
    } else {
        None
    }
}

pub fn ntfs_volume_letter(root: &str) -> (r: Option<char>)
    ensures
        r == volume_letter(root@),
{
    let t = trim_trailing_backslashes(to_backslashes(root));
    if t.len() == 2 && t[1] == ':' && is_ascii_letter(t[0]) {
        Some(to_ascii_upper(t[0]))
    } else {
        None
    }
}

/// The letter of the volume that holds the system.
pub fn system_volume_letter(drive: &str) -> (r: Option<char>)
    ensures
        match r {
            Some(c) => exists|i: int|
                0 <= i < drive@.len() && text::ascii_letter(#[trigger] drive@[i]) && c
                    == text::ascii_upper(drive@[i]) && forall|j: int|
                    0 <= j < i ==> !text::ascii_letter(#[trigger] drive@[j]),
            None => forall|i: int| 0 <= i < drive@.len() ==> !text::ascii_letter(#[trigger] drive@[i]),
        },
{
    let chars = chars_of(drive);
    for i in 0..chars.len()
        invariant
            chars@ == drive@,
            forall|j: int| 0 <= j < i ==> !text::ascii_letter(#[trigger] drive@[j]),
    {
        if is_ascii_letter(chars[i]) {
            assert(text::ascii_letter(drive@[i as int]));
            return Some(to_ascii_upper(chars[i]));
        }
    }
    None
}

/// The order in which volumes are read: the one with the system last, else
/// those with fewer records first.
pub fn ntfs_scan_priority(volume: char, record_count: usize, system_volume: Option<char>) -> (r: (
    bool,
    usize,
))
    ensures
        r.0 == match system_volume {
            Some(s) => text::ascii_lower(s) == text::ascii_lower(volume),
            None => false,
        },
        r.1 == record_count,
{
    let system: bool = match system_volume {
        Some(s) => to_ascii_lower(s) == to_ascii_lower(volume),
        None => false,
    };
    (system, record_count)
}

/// A volume that is to be read.
#[derive(Debug, Clone, Copy, PartialEq, Eq, Structural)]
pub struct VolumeSize {
    pub volume: char,
    pub record_count: usize,
}

pub open spec fn scan_keys(v: Seq<VolumeSize>, system_volume: Option<char>) -> Seq<Seq<Seq<u64>>> {
    v.map_values(
        |s: VolumeSize|
            seq![
                seq![
                    if system_volume matches Some(c) && text::ascii_lower(c) == text::ascii_lower(
                        s.volume,
                    ) {
                        1u64
                    } else {
                        0u64
                    },
                    s.record_count as u64,
                ],
            ],
    )
}

/// The places of volumes in the order in which they are read.
pub fn scan_order(volumes: &Vec<VolumeSize>, system_volume: Option<char>) -> (r: Vec<usize>)
    ensures
        order::is_stable_order(scan_keys(volumes@, system_volume), r@),
{
    let mut keys: Vec<Key> = Vec::new();
    for i in 0..volumes.len()
        invariant
            keys@.len() == i,
            forall|j: int|
                0 <= j < i ==> (#[trigger] keys@[j]).deep_view() == scan_keys(
                    volumes@,
                    system_volume,
                )[j],
    {
        let (system, count): (bool, usize) = ntfs_scan_priority(
            volumes[i].volume,
            volumes[i].record_count,
            system_volume,
        );
        let mut word: Vec<u64> = Vec::new();
        word.push(
            if system {
                1
            } else {
                0
            },
        );
        word.push(count as u64);
        let mut key: Key = Vec::new();
        key.push(word);
        assert(key.deep_view() =~~= scan_keys(volumes@, system_volume)[i as int]);
        keys.push(key);
    }
    assert(keys.deep_view() =~= scan_keys(volumes@, system_volume));
    stable_order(&keys)
}

/// Other volumes are read before the one with the system.
pub proof fn system_volume_is_read_last(
    volumes: Seq<VolumeSize>,
    system: char,
    order: Seq<usize>,
    i: int,
    j: int,
)
    requires
        order::is_stable_order(scan_keys(volumes, Some(system)), order),
        0 <= i < order.len(),
        0 <= j < order.len(),
        text::ascii_lower(volumes[order[i] as int].volume) == text::ascii_lower(system),
        text::ascii_lower(volumes[order[j] as int].volume) != text::ascii_lower(system),
    ensures
        j < i,
{
    let keys = scan_keys(volumes, Some(system));
    let a = keys[order[i] as int];
    let b = keys[order[j] as int];
    assert(order[i] < keys.len() && order[j] < keys.len());
    assert(a[0][0] == 1 && b[0][0] == 0);
    reveal_with_fuel(order::word_less, 2);
    reveal_with_fuel(order::key_less, 2);
    assert(order::word_less(b[0], a[0]));
    assert(!order::word_less(a[0], b[0]));
    assert(order::key_less(b, a));
    if i < j {
        assert(order::precedes(keys, order[i] as int, order[j] as int));
        order::key_less_is_strict(a, b, a);
    }
}

/// The last change of a file decides: a deletion (bit 9 of its reason) takes
/// the file out, anything else puts the record in, and records that tell the
/// name before a rename (bit 12) do neither.
pub proof fn last_change_of_a_file_decides(t: Table, changes: Seq<MftRecord>, i: int)
    requires
        0 <= i < changes.len(),
        (changes[i].reason / 0x200) % 2 == 1 || (changes[i].reason / 0x1000) % 2 == 0,
        forall|k: int|
            i < k < changes.len() && (#[trigger] changes[k]).id == changes[i].id ==> (
            changes[k].reason / 0x200) % 2 == 0 && (changes[k].reason / 0x1000) % 2 == 1,
    ensures
        (changes[i].reason / 0x200) % 2 == 1 ==> !after_changes(t, changes).contains_key(
            changes[i].id,
        ),
        (changes[i].reason / 0x200) % 2 == 0 ==> after_changes(t, changes).contains_key(
            changes[i].id,
        ) && after_changes(t, changes)[changes[i].id] == changes[i],
    decreases changes.len(),
{
    let last = changes.last();
    reasons_are_bits(last);
    if i < changes.len() - 1 {
        let earlier = changes.drop_last();
        assert forall|k: int| i < k < earlier.len() && (#[trigger] earlier[k]).id
            == earlier[i].id implies (earlier[k].reason / 0x200) % 2 == 0 && (earlier[k].reason
            / 0x1000) % 2 == 1 by {
            assert(earlier[k] == changes[k]);
        }
        last_change_of_a_file_decides(t, earlier, i);
        assert(changes[changes.len() - 1] == last);
    }
}

/// A file that no record tells of, but for names before a rename, stays as it
/// was.
pub proof fn untold_file_stays(t: Table, changes: Seq<MftRecord>, id: FileId)
    requires
        forall|k: int|
            0 <= k < changes.len() && (#[trigger] changes[k]).id == id ==> (changes[k].reason
                / 0x200) % 2 == 0 && (changes[k].reason / 0x1000) % 2 == 1,
    ensures
        after_changes(t, changes).contains_key(id) == t.contains_key(id),
        t.contains_key(id) ==> after_changes(t, changes)[id] == t[id],
    decreases changes.len(),
{
    if changes.len() > 0 {
        let earlier = changes.drop_last();
        let last = changes.last();
        reasons_are_bits(last);
        assert forall|k: int| 0 <= k < earlier.len() && (#[trigger] earlier[k]).id == id implies (
        earlier[k].reason / 0x200) % 2 == 0 && (earlier[k].reason / 0x1000) % 2 == 1 by {
            assert(earlier[k] == changes[k]);
        }
        untold_file_stays(t, earlier, id);
        assert(changes[changes.len() - 1] == last);
    }
}

proof fn reasons_are_bits(change: MftRecord)
    ensures
        deletes(change) == ((change.reason / 0x200) % 2 == 1),
        updates(change) == ((change.reason / 0x200) % 2 == 0 && (change.reason / 0x1000) % 2 == 0),
{
    let r = change.reason;
    assert((r & 0x200u32 != 0) == ((r / 0x200) % 2 == 1)) by (bit_vector);
    assert((r & 0x1000u32 == 0) == ((r / 0x1000) % 2 == 0)) by (bit_vector);
}

/// Of the files of a volume all are stored that are wanted and not excluded,
/// each once and in their order, and nothing else.
pub proof fn wanted_files_are_stored(
    entries: Seq<mft_paths::EntryModel>,
    root: Seq<char>,
    wanted: spec_fn(FileId) -> bool,
    exclusions: Seq<Seq<char>>,
)
    ensures
        ({
            let kept = entries.filter(
                |e: mft_paths::EntryModel|
                    wanted(e.id) && forall|i: int|
                        0 <= i < exclusions.len() ==> !paths::within(
                            Platform::Windows,
                            e.path,
                            #[trigger] exclusions[i],
                        ),
            );
            let stored = stored_entries(entries, root, wanted, exclusions);
            &&& stored.len() == kept.len()
            &&& forall|i: int|
                0 <= i < stored.len() ==> (#[trigger] stored[i]).path == kept[i].path
                    && stored[i].name == kept[i].name && stored[i].root == root
                    && stored[i].file_id == Some(kept[i].id@) && stored[i].parent_id == Some(
                    kept[i].parent_id@,
                )
        }),
    decreases entries.len(),
{
    let p = |e: mft_paths::EntryModel|
        wanted(e.id) && forall|i: int|
            0 <= i < exclusions.len() ==> !paths::within(
                Platform::Windows,
                e.path,
                #[trigger] exclusions[i],
            );
    reveal(Seq::filter);
    if entries.len() > 0 {
        let e = entries.last();
        wanted_files_are_stored(entries.drop_last(), root, wanted, exclusions);
        assert(p(e) == (wanted(e.id) && !search_files::excluded(
            Platform::Windows,
            e.path,
            exclusions,
        )));
        let earlier = entries.drop_last().filter(p);
        assert(entries.filter(p) == if p(e) {
            earlier.push(e)
        } else {
            earlier
        });
    }
}

/// A root that is a letter and a colon names the volume with that letter,
/// whatever slashes follow, and no other root names one.
pub proof fn volume_is_named_by_its_letter(letter: char, slashes: Seq<char>, other: Seq<char>)
    requires
        'a' <= letter <= 'z' || 'A' <= letter <= 'Z',
        forall|i: int| 0 <= i < slashes.len() ==> #[trigger] slashes[i] == '/' || slashes[i] == '\\',
        other.len() > 0,
        other.last() != '/' && other.last() != '\\',
        other.len() != 2,
    ensures
        volume_letter(seq![letter, ':'] + slashes) == Some(
            if 'a' <= letter <= 'z' {
                (letter as u32 - 32) as char
            } else {
                letter
            },
        ),
        volume_letter(other) is None,
        volume_letter(slashes) is None,
{
    let named = seq![letter, ':'];
    slashes_are_dropped(named, slashes);
    slashes_are_dropped(Seq::empty(), slashes);
    assert(paths::backslashed(named) =~= named);
    assert(Seq::<char>::empty() + slashes =~= slashes);
    let b = paths::backslashed(other);
    assert(b.last() == other.last());
    assert(paths::without_trailing_backslashes(b) == b);
}

proof fn slashes_are_dropped(s: Seq<char>, slashes: Seq<char>)
    requires
        s.len() == 0 || (s.last() != '/' && s.last() != '\\'),
        forall|i: int| 0 <= i < slashes.len() ==> #[trigger] slashes[i] == '/' || slashes[i] == '\\',
    ensures
        paths::without_trailing_backslashes(paths::backslashed(s + slashes)) == paths::backslashed(s),
    decreases slashes.len(),
{
    let whole = paths::backslashed(s + slashes);
    if slashes.len() == 0 {
        assert(s + slashes =~= s);
        if s.len() > 0 {
            assert(whole.last() == s.last());
        }
    } else {
        let rest = slashes.drop_last();
        assert forall|i: int| 0 <= i < rest.len() implies #[trigger] rest[i] == '/' || rest[i]
            == '\\' by {
            assert(rest[i] == slashes[i]);
        }
        slashes_are_dropped(s, rest);
        assert(slashes[slashes.len() - 1] == slashes.last());
        assert(whole.last() == '\\');
        assert(whole.drop_last() =~= paths::backslashed(s + rest));
    }
}

/// Volumes are told apart by their letter, whatever its case, and by their
/// serial number.
pub proof fn identities_tell_volumes_apart(
    a: char,
    b: char,
    first: u32,
    second: u32,
)
    ensures
        identity(a, Some(first)) == identity(b, Some(second)) <==> text::ascii_upper(a)
            == text::ascii_upper(b) && first == second,
        identity(a, None) == identity(a, Some(0)),
{
    let x = identity(a, Some(first));
    let y = identity(b, Some(second));
    assert(x.skip(2) =~= text::decimal(first as nat));
    assert(y.skip(2) =~= text::decimal(second as nat));
    if x == y {
        assert(x[0] == text::ascii_upper(a) && y[0] == text::ascii_upper(b));
        text::decimal_is_injective(first as nat, second as nat);
    }
}

/// Of the other volumes, those with fewer records are read first.
pub proof fn small_volumes_are_read_first(
    volumes: Seq<VolumeSize>,
    system: Option<char>,
    order: Seq<usize>,
    i: int,
    j: int,
)
    requires
        order::is_stable_order(scan_keys(volumes, system), order),
        0 <= i < j < order.len(),
        system matches Some(c) ==> text::ascii_lower(volumes[order[i] as int].volume)
            != text::ascii_lower(c) && text::ascii_lower(volumes[order[j] as int].volume)
            != text::ascii_lower(c),
    ensures
        volumes[order[i] as int].record_count <= volumes[order[j] as int].record_count,
{
    let keys = scan_keys(volumes, system);
    let a = keys[order[i] as int];
    let b = keys[order[j] as int];
    assert(order::precedes(keys, order[i] as int, order[j] as int));
    order::key_less_is_strict(a, b, a);
    if b[0][1] < a[0][1] {
        assert(b[0].take(1) =~= a[0].take(1));
        order::first_difference_decides(b[0], a[0], 1);
        assert(b.take(0) =~= a.take(0));
        order::first_differing_word_decides(b, a, 0);
    }
}

/// Changes touch only files, never directories, and a file only where a record
/// is about it or about a directory on its way up; a file that a record is
/// about is always touched.
pub proof fn changes_touch_only_files(
    t: Table,
    before: Table,
    changes: Seq<MftRecord>,
    id: FileId,
    i: int,
)
    ensures
        affected(t, before, changes, id) ==> t.contains_key(id) && (t[id].attributes / 0x10) % 2
            == 0,
        changes.len() == 0 ==> !affected(t, before, changes, id),
        0 <= i < changes.len() && changes[i].id == id && t.contains_key(id) && (t[id].attributes
            / 0x10) % 2 == 0 ==> affected(t, before, changes, id),
{
    if t.contains_key(id) {
        crate::ntfs::attributes_are_bits(t[id]);
    }
    if changes.len() == 0 && affected(t, before, changes, id) {
        let dirs = |d: FileId| changed_directory(before, changes, d);
        let n = choose|n: nat| meets_within(t, dirs, t[id].parent_id, n);
        closed_set_meets_nothing(t, dirs, |d: FileId| true, t[id].parent_id, n);
    }
}

} // verus!
