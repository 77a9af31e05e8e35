//! Full paths of the files on an NTFS volume, rebuilt from its records.

use crate::ntfs;
use crate::ntfs::{FileId, MftRecord};
use crate::order;
use crate::order::{code_points_of, stable_order, Key};
use crate::text;
use crate::text::{chars_of, same_text, string_of, trim_trailing_separators};
use std::collections::{HashMap, HashSet};
use vstd::prelude::*;

verus! {

broadcast use vstd::std_specs::hash::group_hash_axioms;

/// A file or directory whose full path is known.
#[derive(Debug, PartialEq, Eq)]
pub struct ResolvedMftEntry {
    pub id: FileId,
    pub parent_id: FileId,
    pub path: String,
    pub name: String,
    pub attributes: u32,
}

impl Clone for ResolvedMftEntry {
    fn clone(&self) -> (r: Self)
        ensures
            r == *self,
    {
        ResolvedMftEntry {
            id: self.id,
            parent_id: self.parent_id,
            path: self.path.clone(),
            name: self.name.clone(),
            attributes: self.attributes,
        }
    }
}

/// What could not be resolved.
#[derive(Debug, Clone, Copy, PartialEq, Eq)]
pub struct ResolveDiagnostics {
    pub orphan_records: u64,
    pub cyclic_records: u64,
    pub duplicate_records: u64,
    pub reparse_records: u64,
}

/// The record that counts for `id`: the last one given.
pub open spec fn lookup(records: Seq<MftRecord>, id: FileId) -> Option<MftRecord>
    decreases records.len(),
{
    if records.len() == 0 {
        None
    } else if records.last().id == id {
        Some(records.last())
    } else {
        lookup(records.drop_last(), id)
    }
}

/// The references that have a record, in the order of their first record.
pub open spec fn distinct_ids(records: Seq<MftRecord>) -> Seq<FileId>
    decreases records.len(),
{
    if records.len() == 0 {
        Seq::empty()
    } else {
        let earlier = distinct_ids(records.drop_last());
        if earlier.contains(records.last().id) {
            earlier
        } else {
            earlier.push(records.last().id)
        }
    }
}

/// The records that count, in the order of `distinct_ids`.
pub open spec fn retained(records: Seq<MftRecord>) -> Seq<MftRecord> {
    distinct_ids(records).map_values(|id: FileId| lookup(records, id)->0)
}

/// Where the way up from a directory leads.
pub enum Step {
    /// The volume root, named by its well-known reference.
    Root,
    /// A record that stands for the volume root.
    Top,
    /// Nothing that could be a directory.
    Orphan,
    /// A directory that redirects elsewhere.
    Reparse,
    /// A directory inside another one.
    Up(FileId),
}

/// A record that stands for the volume root.
pub open spec fn is_top(r: MftRecord) -> bool {
    r.id == r.parent_id || r.name@ == "."@
}

/// One step up. Where `files_only`, the root reference needs no record, a
/// parent must be a directory, and redirecting directories are skipped.
pub open spec fn step(records: Seq<MftRecord>, files_only: bool, id: FileId) -> Step {
    if files_only && id.names_root() {
        Step::Root
    } else {
        match lookup(records, id) {
            None => Step::Orphan,
            Some(r) => if files_only && !r.directory() {
                Step::Orphan
            } else if files_only && r.reparse_point() {
                Step::Reparse
            } else if is_top(r) {
                Step::Top
            } else {
                Step::Up(r.parent_id)
            },
        }
    }
}

/// A path one level deeper.
pub open spec fn joined(parent: Seq<char>, name: Seq<char>) -> Seq<char> {
    parent.push('\\') + name
}

/// The path of `id` if the root is at most `n` steps up.
pub open spec fn path_within(
    records: Seq<MftRecord>,
    files_only: bool,
    root: Seq<char>,
    id: FileId,
    n: nat,
) -> Option<Seq<char>>
    decreases n,
{
    if n == 0 {
        None
    } else {
        match step(records, files_only, id) {
            Step::Root | Step::Top => Some(root),
            Step::Orphan | Step::Reparse => None,
            Step::Up(parent) => match path_within(
                records,
                files_only,
                root,
                parent,
                (n - 1) as nat,
            ) {
                None => None,
                Some(path) => Some(joined(path, lookup(records, id)->0.name@)),
            },
        }
    }
}

/// The path of `id`: the names on the way up to the root, if it gets there.
pub open spec fn full_path(
    records: Seq<MftRecord>,
    files_only: bool,
    root: Seq<char>,
    id: FileId,
) -> Option<Seq<char>> {
    if exists|n: nat| path_within(records, files_only, root, id, n) is Some {
        path_within(
            records,
            files_only,
            root,
            id,
            choose|n: nat| path_within(records, files_only, root, id, n) is Some,
        )
    } else {
        None
    }
}

/// How a way up ended.
pub enum End {
    /// At the root, or at a directory that is known already.
    Known,
    Orphan,
    Reparse,
    /// Back at a directory passed before.
    Cycle,
}

/// The references that have a record.
pub open spec fn id_set(records: Seq<MftRecord>) -> Set<FileId> {
    distinct_ids(records).to_set()
}

/// The way up from `id`: the directories passed on it, together with `seen`,
/// and how it ended. It stops at directories that are settled.
pub open spec fn way_up(
    records: Seq<MftRecord>,
    files_only: bool,
    settled: Set<FileId>,
    id: FileId,
    seen: Set<FileId>,
) -> (Set<FileId>, End)
    decreases id_set(records).difference(seen).len(),
{
    if settled.contains(id) {
        (seen, End::Known)
    } else {
        match step(records, files_only, id) {
            Step::Root => (seen, End::Known),
            Step::Orphan => (seen, End::Orphan),
            Step::Reparse => (seen.insert(id), End::Reparse),
            Step::Top => if seen.contains(id) {
                (seen, End::Cycle)
            } else {
                (seen.insert(id), End::Known)
            },
            Step::Up(parent) => if seen.contains(id) {
                (seen, End::Cycle)
            } else {
                proof {
                    ids_have_records(records);
                    seen_directory_shrinks_rest(records, id, seen);
                }
                way_up(records, files_only, settled, parent, seen.insert(id))
            },
        }
    }
}

/// Counts of the ways that failed; each directory is walked only once.
#[verifier::ext_equal]
pub struct Tally {
    pub settled: Set<FileId>,
    pub orphan: nat,
    pub cyclic: nat,
    pub reparse: nat,
}

/// The counts after walking up from each of `starts` in turn.
pub open spec fn tally(
    records: Seq<MftRecord>,
    files_only: bool,
    starts: Seq<FileId>,
) -> Tally
    decreases starts.len(),
{
    if starts.len() == 0 {
        Tally { settled: Set::empty(), orphan: 0, cyclic: 0, reparse: 0 }
    } else {
        let t = tally(records, files_only, starts.drop_last());
        let (seen, end) = way_up(records, files_only, t.settled, starts.last(), Set::empty());
        Tally {
            settled: t.settled.union(seen),
            orphan: t.orphan + if end is Orphan { 1nat } else { 0 },
            cyclic: t.cyclic + if end is Cycle { 1nat } else { 0 },
            reparse: t.reparse + if end is Reparse { 1nat } else { 0 },
        }
    }
}

/// `d` reports `t` and the records that were replaced by later ones.
pub open spec fn reports(d: ResolveDiagnostics, records: Seq<MftRecord>, t: Tally) -> bool {
    &&& d.orphan_records == t.orphan
    &&& d.cyclic_records == t.cyclic
    &&& d.reparse_records == t.reparse
    &&& d.duplicate_records == records.len() - distinct_ids(records).len()
}

/// What a resolved entry says.
#[verifier::ext_equal]
pub struct EntryModel {
    pub id: FileId,
    pub parent_id: FileId,
    pub path: Seq<char>,
    pub name: Seq<char>,
    pub attributes: u32,
}

impl View for ResolvedMftEntry {
    type V = EntryModel;

    open spec fn view(&self) -> EntryModel {
        EntryModel {
            id: self.id,
            parent_id: self.parent_id,
            path: self.path@,
            name: self.name@,
            attributes: self.attributes,
        }
    }
}

pub open spec fn entry_models(entries: Seq<ResolvedMftEntry>) -> Seq<EntryModel> {
    entries.map_values(|e: ResolvedMftEntry| e@)
}

pub open spec fn entry_of(r: MftRecord, path: Seq<char>) -> EntryModel {
    EntryModel { id: r.id, parent_id: r.parent_id, path, name: r.name@, attributes: r.attributes }
}

/// The files among `nodes` whose directory has a path, in that order.
pub open spec fn file_entries(
    records: Seq<MftRecord>,
    root: Seq<char>,
    nodes: Seq<MftRecord>,
) -> Seq<EntryModel>
    decreases nodes.len(),
{
    if nodes.len() == 0 {
        Seq::empty()
    } else {
        let r = nodes.last();
        let earlier = file_entries(records, root, nodes.drop_last());
        match full_path(records, true, root, r.parent_id) {
            Some(parent) if !r.directory() => earlier.push(
                entry_of(r, joined(parent, r.name@)),
            ),
            _ => earlier,
        }
    }
}

/// The directories of the files among `nodes`.
pub open spec fn file_parents(nodes: Seq<MftRecord>) -> Seq<FileId>
    decreases nodes.len(),
{
    if nodes.len() == 0 {
        Seq::empty()
    } else if nodes.last().directory() {
        file_parents(nodes.drop_last())
    } else {
        file_parents(nodes.drop_last()).push(nodes.last().parent_id)
    }
}

/// The files and directories among `nodes` that have a path, in that order.
pub open spec fn all_entries(
    records: Seq<MftRecord>,
    root: Seq<char>,
    nodes: Seq<MftRecord>,
) -> Seq<EntryModel>
    decreases nodes.len(),
{
    if nodes.len() == 0 {
        Seq::empty()
    } else {
        let r = nodes.last();
        let earlier = all_entries(records, root, nodes.drop_last());
        match full_path(records, false, root, r.id) {
            Some(path) if !is_top(r) => earlier.push(entry_of(r, path)),
            _ => earlier,
        }
    }
}

pub proof fn ids_have_records(records: Seq<MftRecord>)
    ensures
        distinct_ids(records).no_duplicates(),
        distinct_ids(records).len() <= records.len(),
        forall|id: FileId|
            #![trigger lookup(records, id)]
            (lookup(records, id) is Some) == distinct_ids(records).contains(id),
        forall|id: FileId|
            #![trigger lookup(records, id)]
            lookup(records, id) is Some ==> lookup(records, id)->0.id == id,
    decreases records.len(),
{
    if records.len() > 0 {
        let earlier = distinct_ids(records.drop_last());
        let last = records.last().id;
        ids_have_records(records.drop_last());
        assert forall|id: FileId| #![trigger lookup(records, id)] (lookup(records, id) is Some)
            == distinct_ids(records).contains(id) by {
            assert(lookup(records.drop_last(), id) is Some == earlier.contains(id));
            if !earlier.contains(last) {
                if id == last {
                    assert(earlier.push(last)[earlier.len() as int] == last);
                } else if earlier.contains(id) {
                    let i = choose|i: int| 0 <= i < earlier.len() && earlier[i] == id;
                    assert(earlier.push(last)[i] == id);
                }
            }
        }
        assert forall|id: FileId| #![trigger lookup(records, id)] lookup(
            records,
            id,
        ) is Some implies lookup(records, id)->0.id == id by {
            assert(lookup(records.drop_last(), id) is Some ==> lookup(
                records.drop_last(),
                id,
            )->0.id == id);
        }
    }
}

pub proof fn seen_directory_shrinks_rest(records: Seq<MftRecord>, id: FileId, seen: Set<FileId>)
    requires
        distinct_ids(records).contains(id),
        !seen.contains(id),
    ensures
        id_set(records).finite(),
        id_set(records).difference(seen.insert(id)).len() < id_set(records).difference(seen).len(),
{
    let rest = id_set(records).difference(seen);
    vstd::seq_lib::seq_to_set_is_finite(distinct_ids(records));
    assert(id_set(records).difference(seen.insert(id)) =~= rest.remove(id));
}

proof fn longer_way_same_path(
    records: Seq<MftRecord>,
    files_only: bool,
    root: Seq<char>,
    id: FileId,
    n: nat,
    m: nat,
)
    requires
        path_within(records, files_only, root, id, n) is Some,
        n <= m,
    ensures
        path_within(records, files_only, root, id, m) == path_within(
            records,
            files_only,
            root,
            id,
            n,
        ),
    decreases n,
{
    match step(records, files_only, id) {
        Step::Up(parent) => {
            longer_way_same_path(
                records,
                files_only,
                root,
                parent,
                (n - 1) as nat,
                (m - 1) as nat,
            );
        },
        _ => {},
    }
}

/// Two ways up from a directory lead to the same path.
pub proof fn paths_agree(
    records: Seq<MftRecord>,
    files_only: bool,
    root: Seq<char>,
    id: FileId,
    n: nat,
    m: nat,
)
    requires
        path_within(records, files_only, root, id, n) is Some,
        path_within(records, files_only, root, id, m) is Some,
    ensures
        path_within(records, files_only, root, id, n) == path_within(
            records,
            files_only,
            root,
            id,
            m,
        ),
{
    if n <= m {
        longer_way_same_path(records, files_only, root, id, n, m);
    } else {
        longer_way_same_path(records, files_only, root, id, m, n);
    }
}

/// A path is the path of the directory above, a backslash and the own name;
/// only the root has the volume's path, and nothing else has any.
pub proof fn path_extends_parent(
    records: Seq<MftRecord>,
    files_only: bool,
    root: Seq<char>,
    id: FileId,
)
    ensures
        full_path(records, files_only, root, id) == match step(records, files_only, id) {
            Step::Root | Step::Top => Some(root),
            Step::Orphan | Step::Reparse => None,
            Step::Up(parent) => match full_path(records, files_only, root, parent) {
                None => None,
                Some(path) => Some(joined(path, lookup(records, id)->0.name@)),
            },
        },
{
    match step(records, files_only, id) {
        Step::Root | Step::Top => {
            assert(path_within(records, files_only, root, id, 1) is Some);
        },
        Step::Orphan | Step::Reparse => {},
        Step::Up(parent) => {
            if exists|n: nat| path_within(records, files_only, root, parent, n) is Some {
                let n = choose|n: nat| path_within(records, files_only, root, parent, n) is Some;
                assert(path_within(records, files_only, root, id, n + 1) is Some);
                let m = choose|m: nat| path_within(records, files_only, root, id, m) is Some;
                let top = if m > n + 1 { m } else { n + 1 };
                longer_way_same_path(records, files_only, root, id, m, top);
                longer_way_same_path(records, files_only, root, id, n + 1, top);
            } else if exists|m: nat| path_within(records, files_only, root, id, m) is Some {
                let m = choose|m: nat| path_within(records, files_only, root, id, m) is Some;
                assert(path_within(records, files_only, root, parent, (m - 1) as nat) is Some);
            }
        },
    }
}

/// A chain of directories each inside the next.
spec fn is_chain(records: Seq<MftRecord>, files_only: bool, chain: Seq<FileId>, next: FileId) -> bool {
    forall|i: int|
        0 <= i < chain.len() ==> #[trigger] step(records, files_only, chain[i]) == Step::Up(
            if i + 1 < chain.len() {
                chain[i + 1]
            } else {
                next
            },
        )
}

proof fn ring_has_no_short_way(
    records: Seq<MftRecord>,
    files_only: bool,
    root: Seq<char>,
    chain: Seq<FileId>,
    at: int,
    n: nat,
    i: int,
)
    requires
        0 <= at < chain.len(),
        at <= i < chain.len(),
        is_chain(records, files_only, chain, chain[at]),
    ensures
        path_within(records, files_only, root, chain[i], n) is None,
    decreases n,
{
    if n > 0 {
        assert(step(records, files_only, chain[i]) is Up);
        if i + 1 < chain.len() {
            ring_has_no_short_way(records, files_only, root, chain, at, (n - 1) as nat, i + 1);
        } else {
            ring_has_no_short_way(records, files_only, root, chain, at, (n - 1) as nat, at);
        }
    }
}

proof fn ring_has_no_path(
    records: Seq<MftRecord>,
    files_only: bool,
    root: Seq<char>,
    chain: Seq<FileId>,
    at: int,
)
    requires
        0 <= at < chain.len(),
        is_chain(records, files_only, chain, chain[at]),
    ensures
        full_path(records, files_only, root, chain[at]) is None,
{
    assert forall|n: nat| path_within(records, files_only, root, chain[at], n) is None by {
        ring_has_no_short_way(records, files_only, root, chain, at, n, at);
    }
}

/// A directory that is inside itself, at any depth, has no path.
pub proof fn directory_inside_itself_has_no_path(
    records: Seq<MftRecord>,
    files_only: bool,
    root: Seq<char>,
    ring: Seq<FileId>,
)
    requires
        ring.len() > 0,
        forall|i: int|
            0 <= i < ring.len() ==> #[trigger] step(records, files_only, ring[i]) == Step::Up(
                ring[(i + 1) % (ring.len() as int)],
            ),
    ensures
        full_path(records, files_only, root, ring[0]) is None,
{
    assert forall|i: int| 0 <= i < ring.len() implies #[trigger] step(records, files_only, ring[i])
        == Step::Up(
        if i + 1 < ring.len() {
            ring[i + 1]
        } else {
            ring[0]
        },
    ) by {
        if i + 1 < ring.len() {
            vstd::arithmetic::div_mod::lemma_small_mod((i + 1) as nat, ring.len());
        } else {
            vstd::arithmetic::div_mod::lemma_mod_self_0(ring.len() as int);
        }
    }
    ring_has_no_path(records, files_only, root, ring, 0);
}

/// The records by reference.
struct Nodes {
    nodes: Vec<MftRecord>,
    places: HashMap<u128, usize>,
    source: Ghost<Seq<MftRecord>>,
}

impl Nodes {
    spec fn wf(self) -> bool {
        let ids = distinct_ids(self.source@);
        &&& self.nodes@.len() == ids.len()
        &&& forall|i: int| 0 <= i < ids.len() ==> (#[trigger] self.nodes@[i]).id == ids[i]
        &&& forall|i: int|
            0 <= i < ids.len() ==> lookup(self.source@, ids[i]) == Some(#[trigger] self.nodes@[i])
        &&& forall|id: FileId|
            self.places@.contains_key(#[trigger] id.number()) == ids.contains(id)
        &&& forall|id: FileId|
            ids.contains(id) ==> {
                let place = self.places@[#[trigger] id.number()];
                place < ids.len() && ids[place as int] == id
            }
    }

    /// Takes one more record; tells whether its reference had one already.
    fn add(&mut self, record: MftRecord) -> (known: bool)
        requires
            old(self).wf(),
        ensures
            final(self).wf(),
            final(self).source@ == old(self).source@.push(record),
            known == distinct_ids(old(self).source@).contains(record.id),
    {
        let ghost before = self.source@;
        let ghost after = before.push(record);
        let ghost ids = distinct_ids(before);
        let ghost new_ids = distinct_ids(after);
        let ghost r = record;
        let key: u128 = record.id.key();
        proof {
            assert(after.drop_last() =~= before);
            assert(after.last() == r);
            ids_have_records(before);
            ids_have_records(after);
            assert forall|id: FileId| (#[trigger] id.number()) == key implies id == r.id by {
                FileId::number_is_unique(id, r.id);
            }
        }
        let known: Option<usize> = match self.places.get(&key) {
            Some(place) => Some(*place),
            None => None,
        };
        self.source = Ghost(after);
        match known {
            Some(place) => {
                assert(new_ids == ids);
                assert(ids[place as int] == r.id);
                self.nodes.set(place, record);
                assert forall|i: int| 0 <= i < ids.len() implies lookup(after, ids[i]) == Some(
                    #[trigger] self.nodes@[i],
                ) by {
                    if i != place {
                        assert(ids[i] != ids[place as int]);
                    }
                }
                true
            },
            None => {
                assert(r.id.number() == key);
                assert(new_ids == ids.push(r.id));
                let place: usize = self.nodes.len();
                self.nodes.push(record);
                self.places.insert(key, place);
                proof {
                    assert forall|i: int| 0 <= i < new_ids.len() implies lookup(after, new_ids[i])
                        == Some(#[trigger] self.nodes@[i]) by {
                        if i < ids.len() {
                            assert(ids.contains(ids[i]));
                        }
                    }
                    assert forall|id: FileId| new_ids.contains(id) == (ids.contains(id) || id
                        == r.id) by {
                        if ids.contains(id) {
                            let i = choose|i: int| 0 <= i < ids.len() && ids[i] == id;
                            assert(new_ids[i] == id);
                        }
                        if id == r.id {
                            assert(new_ids[ids.len() as int] == id);
                        }
                    }
                }
                false
            },
        }
    }

    /// Keeps the last record of each reference, in the order of their first.
    fn new(records: Vec<MftRecord>) -> (r: (Self, u64))
        ensures
            r.0.wf(),
            r.0.source@ == records@,
            r.1 == records@.len() - distinct_ids(records@).len(),
    {
        let ghost all = records@;
        let total: usize = records.len();
        let mut table = Nodes {
            nodes: Vec::new(),
            places: HashMap::new(),
            source: Ghost(Seq::empty()),
        };
        let mut duplicates: u64 = 0;
        for record in it: records
            invariant
                it.seq() == all,
                all.len() == total,
                table.wf(),
                table.source@ =~= all.take(it.index() as int),
                duplicates == it.index() - distinct_ids(table.source@).len(),
        {
            let ghost before = table.source@;
            proof {
                ids_have_records(before);
                assert(before.push(record).drop_last() =~= before);
            }
            if table.add(record) {
                duplicates = duplicates + 1;
            }
        }
        assert(all.take(all.len() as int) =~= all);
        (table, duplicates)
    }

    /// The records that count.
    proof fn nodes_are_retained(&self)
        requires
            self.wf(),
        ensures
            self.nodes@ == retained(self.source@),
    {
        assert(self.nodes@ =~= retained(self.source@));
    }

    fn find(&self, id: FileId) -> (r: Option<&MftRecord>)
        requires
            self.wf(),
        ensures
            match lookup(self.source@, id) {
                Some(record) => r is Some && *r->0 == record,
                None => r is None,
            },
    {
        proof {
            ids_have_records(self.source@);
        }
        let key: u128 = id.key();
        match self.places.get(&key) {
            Some(place) => Some(&self.nodes[*place]),
            None => None,
        }
    }
}

spec fn text_of(path: Option<String>) -> Option<Seq<char>> {
    match path {
        Some(s) => Some(s@),
        None => None,
    }
}

fn copy_path(path: &Option<String>) -> (r: Option<String>)
    ensures
        text_of(r) == text_of(*path),
{
    match path {
        Some(s) => Some(s.clone()),
        None => None,
    }
}

/// A path one level deeper.
fn join_path(parent: &str, name: &str) -> (r: String)
    ensures
        r@ == joined(parent@, name@),
{
    let mut r = parent.to_owned();
    r.push('\\');
    r.append(name);
    assert(r@ =~= joined(parent@, name@));
    r
}

/// Whether a record stands for the volume root.
fn stands_for_root(r: &MftRecord) -> (t: bool)
    ensures
        t == is_top(*r),
{
    r.id.same(r.parent_id) || same_text(r.name.as_str(), ".")
}

/// Resolved directories, so that none is walked twice.
struct Resolver {
    table: Nodes,
    root: String,
    files_only: bool,
    memo: HashMap<u128, Option<String>>,
    settled: Ghost<Set<FileId>>,
    orphan: u64,
    cyclic: u64,
    reparse: u64,
}

/// What `climb` found at the end of a way up.
struct Climbed {
    chain: Vec<FileId>,
    last: FileId,
    path: Option<String>,
}

impl Resolver {
    spec fn records(self) -> Seq<MftRecord> {
        self.table.source@
    }

    spec fn path_of(self, id: FileId) -> Option<Seq<char>> {
        full_path(self.records(), self.files_only, self.root@, id)
    }

    spec fn wf(self) -> bool {
        &&& self.table.wf()
        &&& forall|id: FileId|
            self.memo@.contains_key(#[trigger] id.number()) == self.settled@.contains(id)
        &&& forall|id: FileId|
            self.settled@.contains(id) ==> text_of(self.memo@[#[trigger] id.number()])
                == self.path_of(id)
    }

    spec fn same_frame(self, other: Self) -> bool {
        &&& self.table == other.table
        &&& self.root == other.root
        &&& self.files_only == other.files_only
    }

    /// The counts that `t` asks for.
    spec fn counts(self, t: Tally) -> bool {
        &&& self.settled@ == t.settled
        &&& self.orphan == t.orphan
        &&& self.cyclic == t.cyclic
        &&& self.reparse == t.reparse
    }

    fn remember(&mut self, id: FileId, path: &Option<String>)
        requires
            old(self).wf(),
            text_of(*path) == old(self).path_of(id),
        ensures
            final(self).wf(),
            final(self).same_frame(*old(self)),
            final(self).settled@ == old(self).settled@.insert(id),
            final(self).orphan == old(self).orphan,
            final(self).cyclic == old(self).cyclic,
            final(self).reparse == old(self).reparse,
    {
        let key: u128 = id.key();
        let value = copy_path(path);
        self.memo.insert(key, value);
        self.settled = Ghost(self.settled@.insert(id));
        proof {
            assert forall|other: FileId| (#[trigger] other.number()) == key implies other == id by {
                FileId::number_is_unique(other, id);
            }
        }
    }

    /// Goes up from `start` to the root, to a settled directory or to where
    /// the way fails.
    fn climb(&mut self, start: FileId) -> (c: Climbed)
        requires
            old(self).wf(),
            old(self).orphan < u64::MAX,
            old(self).cyclic < u64::MAX,
            old(self).reparse < u64::MAX,
        ensures
            final(self).wf(),
            final(self).same_frame(*old(self)),
            is_chain(final(self).records(), final(self).files_only, c.chain@, c.last),
            c.chain@.len() == 0 ==> c.last == start,
            c.chain@.len() > 0 ==> c.chain@[0] == start,
            text_of(c.path) == final(self).path_of(c.last),
            ({
                let (seen, end) = way_up(
                    old(self).records(),
                    old(self).files_only,
                    old(self).settled@,
                    start,
                    Set::empty(),
                );
                &&& final(self).settled@.union(c.chain@.to_set()) == old(self).settled@.union(seen)
                &&& final(self).orphan == old(self).orphan + if end is Orphan { 1int } else { 0 }
                &&& final(self).cyclic == old(self).cyclic + if end is Cycle { 1int } else { 0 }
                &&& final(self).reparse == old(self).reparse + if end is Reparse { 1int } else { 0 }
            }),
    {
        let ghost records = self.records();
        let ghost files_only = self.files_only;
        let ghost settled = self.settled@;
        let mut chain: Vec<FileId> = Vec::new();
        let mut visiting: HashSet<u128> = HashSet::new();
        let mut current: FileId = start;
        assert(chain@.to_set() =~= Set::empty());
        loop
            invariant
                *self == *old(self),
                self.wf(),
                records == self.records(),
                files_only == self.files_only,
                settled == self.settled@,
                self.orphan < u64::MAX,
                self.cyclic < u64::MAX,
                self.reparse < u64::MAX,
                is_chain(records, files_only, chain@, current),
                chain@.len() == 0 ==> current == start,
                chain@.len() > 0 ==> chain@[0] == start,
                forall|id: FileId|
                    visiting@.contains(#[trigger] id.number()) == chain@.to_set().contains(id),
                way_up(records, files_only, settled, current, chain@.to_set()) == way_up(
                    records,
                    files_only,
                    settled,
                    start,
                    Set::empty(),
                ),
            decreases id_set(records).difference(chain@.to_set()).len(),
        {
            let ghost seen = chain@.to_set();
            proof {
                ids_have_records(records);
                path_extends_parent(records, files_only, self.root@, current);
            }
            let key: u128 = current.key();
            match self.memo.get(&key) {
                Some(path) => {
                    let path = copy_path(path);
                    return Climbed { chain, last: current, path };
                },
                None => {},
            }
            if self.files_only && current.is_ntfs_root_reference() {
                return Climbed { chain, last: current, path: Some(self.root.clone()) };
            }
            let record: &MftRecord = match self.table.find(current) {
                Some(record) => record,
                None => {
                    self.orphan = self.orphan + 1;
                    return Climbed { chain, last: current, path: None };
                },
            };
            if self.files_only && !record.is_directory() {
                self.orphan = self.orphan + 1;
                return Climbed { chain, last: current, path: None };
            }
            if self.files_only && record.attributes & crate::ntfs::FILE_ATTRIBUTE_REPARSE_POINT
                != 0 {
                self.reparse = self.reparse + 1;
                let path: Option<String> = None;
                self.remember(current, &path);
                assert(self.settled@.union(seen) =~= settled.union(seen.insert(current)));
                return Climbed { chain, last: current, path };
            }
            if visiting.contains(&key) {
                proof {
                    assert(seen.contains(current));
                    assert(chain@.contains(current));
                    let at = choose|at: int| 0 <= at < chain@.len() && chain@[at] == current;
                    ring_has_no_path(records, files_only, self.root@, chain@, at);
                }
                self.cyclic = self.cyclic + 1;
                return Climbed { chain, last: current, path: None };
            }
            if stands_for_root(record) {
                let path: Option<String> = Some(self.root.clone());
                self.remember(current, &path);
                assert(self.settled@.union(seen) =~= settled.union(seen.insert(current)));
                return Climbed { chain, last: current, path };
            }
            let parent: FileId = record.parent_id;
            proof {
                seen_directory_shrinks_rest(records, current, seen);
                assert(chain@.push(current).to_set() =~= seen.insert(current)) by {
                    assert forall|id: FileId| chain@.push(current).contains(id) == (chain@.contains(
                        id,
                    ) || id == current) by {
                        if chain@.contains(id) {
                            let i = choose|i: int| 0 <= i < chain@.len() && chain@[i] == id;
                            assert(chain@.push(current)[i] == id);
                        }
                        if id == current {
                            assert(chain@.push(current)[chain@.len() as int] == id);
                        }
                    }
                }
                assert forall|other: FileId| (#[trigger] other.number()) == key implies other
                    == current by {
                    FileId::number_is_unique(other, current);
                }
                let longer = chain@.push(current);
                assert forall|i: int| 0 <= i < longer.len() implies #[trigger] step(
                    records,
                    files_only,
                    longer[i],
                ) == Step::Up(
                    if i + 1 < longer.len() {
                        longer[i + 1]
                    } else {
                        parent
                    },
                ) by {
                    if i < chain@.len() {
                        assert(step(records, files_only, chain@[i]) is Up);
                    }
                }
            }
            visiting.insert(key);
            chain.push(current);
            current = parent;
        }
    }

    /// The path of `start`, counting a failed way.
    fn resolve(&mut self, start: FileId) -> (path: Option<String>)
        requires
            old(self).wf(),
            old(self).orphan < u64::MAX,
            old(self).cyclic < u64::MAX,
            old(self).reparse < u64::MAX,
        ensures
            final(self).wf(),
            final(self).same_frame(*old(self)),
            text_of(path) == final(self).path_of(start),
            ({
                let (seen, end) = way_up(
                    old(self).records(),
                    old(self).files_only,
                    old(self).settled@,
                    start,
                    Set::empty(),
                );
                &&& final(self).settled@ == old(self).settled@.union(seen)
                &&& final(self).orphan == old(self).orphan + if end is Orphan { 1int } else { 0 }
                &&& final(self).cyclic == old(self).cyclic + if end is Cycle { 1int } else { 0 }
                &&& final(self).reparse == old(self).reparse + if end is Reparse { 1int } else { 0 }
            }),
    {
        let climbed = self.climb(start);
        let mut chain = climbed.chain;
        let mut path = climbed.path;
        let ghost mut next = climbed.last;
        let ghost all = self.settled@.union(chain@.to_set());
        let ghost after = *self;
        while chain.len() > 0
            invariant
                self.wf(),
                self.same_frame(after),
                self.orphan == after.orphan,
                self.cyclic == after.cyclic,
                self.reparse == after.reparse,
                is_chain(self.records(), self.files_only, chain@, next),
                chain@.len() == 0 ==> next == start,
                chain@.len() > 0 ==> chain@[0] == start,
                text_of(path) == self.path_of(next),
                self.settled@.union(chain@.to_set()) =~= all,
            decreases chain.len(),
        {
            let ghost before = chain@;
            let ghost settled = self.settled@;
            match chain.pop() {
                Some(id) => {
                    proof {
                        path_extends_parent(self.records(), self.files_only, self.root@, id);
                        assert(id == before[before.len() - 1]);
                        assert(step(self.records(), self.files_only, before[before.len() - 1])
                            == Step::Up(next));
                        assert(before =~= chain@.push(id));
                        assert forall|i: int| 0 <= i < chain@.len() implies #[trigger] step(
                            self.records(),
                            self.files_only,
                            chain@[i],
                        ) == Step::Up(
                            if i + 1 < chain@.len() {
                                chain@[i + 1]
                            } else {
                                id
                            },
                        ) by {
                            assert(step(self.records(), self.files_only, before[i]) is Up);
                        }
                        assert forall|x: FileId| before.contains(x) == (chain@.contains(x) || x
                            == id) by {
                            if chain@.contains(x) {
                                let i = choose|i: int| 0 <= i < chain@.len() && chain@[i] == x;
                                assert(before[i] == x);
                            }
                        }
                    }
                    path = match (&path, self.table.find(id)) {
                        (Some(parent), Some(record)) => Some(
                            join_path(parent.as_str(), record.name.as_str()),
                        ),
                        _ => None,
                    };
                    self.remember(id, &path);
                    proof {
                        next = id;
                    }
                },
                None => {},
            }
        }
        assert(chain@.to_set() =~= Set::empty());
        assert(self.settled@ =~= all);
        path
    }
}

/// Why paths were not resolved.
#[derive(Debug, Clone, Copy, PartialEq, Eq)]
pub enum ResolveError {
    /// A batch must hold at least one entry.
    EmptyBatchSize,
}

/// Rebuilds file paths while keeping only the records and the paths of
/// directories: full file paths are handed out in bounded batches.
pub struct MftFileResolver {
    resolver: Resolver,
    next: usize,
    batch_size: usize,
}

impl MftFileResolver {
    /// The records given.
    pub closed spec fn records(self) -> Seq<MftRecord> {
        self.resolver.records()
    }

    /// The path of the volume.
    pub closed spec fn root(self) -> Seq<char> {
        self.resolver.root@
    }

    /// How many of the records that count have been handled.
    pub closed spec fn handled(self) -> nat {
        self.next as nat
    }

    /// The most entries in a batch.
    pub closed spec fn limit(self) -> nat {
        self.batch_size as nat
    }

    /// The records handled.
    pub open spec fn done(self) -> Seq<MftRecord> {
        retained(self.records()).take(self.handled() as int)
    }

    pub open spec fn finished(self) -> bool {
        self.handled() == retained(self.records()).len()
    }

    pub closed spec fn wf(self) -> bool {
        &&& self.resolver.wf()
        &&& self.resolver.files_only
        &&& self.next <= self.resolver.table.nodes@.len()
        &&& self.batch_size > 0
        &&& self.resolver.counts(tally(self.records(), true, file_parents(self.done())))
        &&& self.records().len() <= u64::MAX
    }

    /// What one resolver tells about another of the same volume.
    pub open spec fn same_volume(self, other: Self) -> bool {
        self.records() == other.records() && self.root() == other.root() && self.limit()
            == other.limit()
    }

    /// Starts on a volume; the second result counts replaced records.
    pub fn new(volume_root: &str, records: Vec<MftRecord>, batch_size: usize) -> (r: Result<
        (Self, u64),
        ResolveError,
    >)
        ensures
            batch_size == 0 <==> r is Err,
            r is Ok ==> r->Ok_0.0.wf() && r->Ok_0.0.records() == records@ && r->Ok_0.0.root()
                == text::without_trailing_separators(volume_root@) && r->Ok_0.0.limit()
                == batch_size && r->Ok_0.0.handled() == 0 && r->Ok_0.1 == records@.len()
                - distinct_ids(records@).len(),
    {
        if batch_size == 0 {
            return Err(ResolveError::EmptyBatchSize);
        }
        Ok(Self::start(volume_root, records, batch_size))
    }

    /// Starts on a volume with batches that hold something.
    pub fn start(volume_root: &str, records: Vec<MftRecord>, batch_size: usize) -> (r: (Self, u64))
        requires
            batch_size > 0,
        ensures
            r.0.wf(),
            r.0.records() == records@,
            r.0.root() == text::without_trailing_separators(volume_root@),
            r.0.limit() == batch_size,
            r.0.handled() == 0,
            r.1 == records@.len() - distinct_ids(records@).len(),
    {
        let total: u64 = records.len() as u64;
        let (table, duplicates) = Nodes::new(records);
        let resolver = Resolver {
            table,
            root: trim_trailing_separators(volume_root),
            files_only: true,
            memo: HashMap::new(),
            settled: Ghost(Set::empty()),
            orphan: 0,
            cyclic: 0,
            reparse: 0,
        };
        let r = MftFileResolver { resolver, next: 0, batch_size };
        assert(r.done() =~= Seq::empty());
        (r, duplicates)
    }

    /// Whether all records that count have been handled.
    pub fn is_finished(&self) -> (r: bool)
        requires
            self.wf(),
        ensures
            r == self.finished(),
    {
        proof {
            self.resolver.table.nodes_are_retained();
        }
        self.next == self.resolver.table.nodes.len()
    }

    /// The next files with a path: a full batch, or the last ones.
    pub fn next_batch(&mut self) -> (batch: Vec<ResolvedMftEntry>)
        requires
            old(self).wf(),
        ensures
            final(self).wf(),
            final(self).same_volume(*old(self)),
            old(self).handled() <= final(self).handled() <= retained(final(self).records()).len(),
            file_entries(final(self).records(), final(self).root(), final(self).done())
                == file_entries(old(self).records(), old(self).root(), old(self).done())
                + entry_models(batch@),
            batch@.len() <= final(self).limit(),
            batch@.len() < final(self).limit() ==> final(self).finished(),
            old(self).finished() ==> batch@.len() == 0,
            !old(self).finished() ==> old(self).handled() < final(self).handled(),
    {
        let mut batch: Vec<ResolvedMftEntry> = Vec::new();
        let ghost records = self.records();
        let ghost root = self.root();
        let ghost earlier = file_entries(records, root, self.done());
        assert(earlier + entry_models(batch@) =~= earlier);
        proof {
            self.resolver.table.nodes_are_retained();
        }
        while batch.len() < self.batch_size && self.next < self.resolver.table.nodes.len()
            invariant
                self.wf(),
                records == self.records(),
                root == self.root(),
                self.same_volume(*old(self)),
                self.resolver.table.nodes@ == retained(records),
                old(self).handled() <= self.handled(),
                file_entries(records, root, self.done()) == earlier + entry_models(batch@),
                batch@.len() <= self.batch_size,
                old(self).finished() ==> batch@.len() == 0 && self.handled() == old(self).handled(),
                batch@.len() > 0 ==> old(self).handled() < self.handled(),
                self.handled() == old(self).handled() ==> batch@.len() == 0,
            decreases retained(records).len() - self.handled(),
        {
            let ghost done = self.done();
            let ghost nodes = retained(records);
            let node: MftRecord = self.resolver.table.nodes[self.next].clone();
            let ghost longer = nodes.take(self.next + 1);
            proof {
                assert(longer.drop_last() =~= done);
                assert(longer.last() == node);
                ids_have_records(records);
                tally_is_bounded(records, true, file_parents(done));
                file_parents_are_bounded(done);
                assert(done.len() == self.next);
            }
            if !node.is_directory() {
                let ghost starts = file_parents(longer);
                assert(starts.drop_last() =~= file_parents(done));
                match self.resolver.resolve(node.parent_id) {
                    Some(parent) => {
                        let ghost before = batch@;
                        let path = join_path(parent.as_str(), node.name.as_str());
                        batch.push(
                            ResolvedMftEntry {
                                id: node.id,
                                parent_id: node.parent_id,
                                path,
                                name: node.name,
                                attributes: node.attributes,
                            },
                        );
                        assert(entry_models(batch@) =~= entry_models(before).push(batch@.last()@));
                        assert(earlier + entry_models(batch@) =~= (earlier + entry_models(
                            before,
                        )).push(batch@.last()@));
                    },
                    None => {},
                }
            }
            self.next = self.next + 1;
            assert(self.done() =~= longer);
        }
        batch
    }

    /// The counts so far, and the records that count.
    pub fn finish(self, duplicates: u64) -> (r: (ResolveDiagnostics, Vec<MftRecord>))
        requires
            self.wf(),
            duplicates == self.records().len() - distinct_ids(self.records()).len(),
        ensures
            reports(r.0, self.records(), tally(self.records(), true, file_parents(self.done()))),
            r.1@ == retained(self.records()),
    {
        proof {
            self.resolver.table.nodes_are_retained();
        }
        let resolver = self.resolver;
        (
            ResolveDiagnostics {
                orphan_records: resolver.orphan,
                cyclic_records: resolver.cyclic,
                duplicate_records: duplicates,
                reparse_records: resolver.reparse,
            },
            resolver.table.nodes,
        )
    }
}

proof fn tally_is_bounded(records: Seq<MftRecord>, files_only: bool, starts: Seq<FileId>)
    ensures
        tally(records, files_only, starts).orphan <= starts.len(),
        tally(records, files_only, starts).cyclic <= starts.len(),
        tally(records, files_only, starts).reparse <= starts.len(),
    decreases starts.len(),
{
    if starts.len() > 0 {
        tally_is_bounded(records, files_only, starts.drop_last());
    }
}

proof fn file_parents_are_bounded(nodes: Seq<MftRecord>)
    ensures
        file_parents(nodes).len() <= nodes.len(),
    decreases nodes.len(),
{
    if nodes.len() > 0 {
        file_parents_are_bounded(nodes.drop_last());
    }
}

/// All batches behind one another.
pub open spec fn all_of(batches: Seq<Vec<ResolvedMftEntry>>) -> Seq<EntryModel>
    decreases batches.len(),
{
    if batches.len() == 0 {
        Seq::empty()
    } else {
        all_of(batches.drop_last()) + entry_models(batches.last()@)
    }
}

/// `batches` holds `entries` in order, `size` at a time.
pub open spec fn is_batched(
    batches: Seq<Vec<ResolvedMftEntry>>,
    entries: Seq<EntryModel>,
    size: nat,
) -> bool {
    &&& all_of(batches) == entries
    &&& forall|i: int|
        0 <= i < batches.len() ==> 0 < (#[trigger] batches[i])@.len() <= size && (i + 1
            < batches.len() ==> batches[i]@.len() == size)
}

/// Resolves all files of a volume in batches, and hands the records back.
fn resolve_mft_files_internal(
    volume_root: &str,
    records: Vec<MftRecord>,
    batch_size: usize,
) -> (r: Result<(Vec<Vec<ResolvedMftEntry>>, ResolveDiagnostics, Vec<MftRecord>), ResolveError>)
    ensures
        batch_size == 0 <==> r is Err,
        r is Ok ==> {
            let nodes = retained(records@);
            let root = text::without_trailing_separators(volume_root@);
            &&& is_batched(r->Ok_0.0@, file_entries(records@, root, nodes), batch_size as nat)
            &&& reports(r->Ok_0.1, records@, tally(records@, true, file_parents(nodes)))
            &&& r->Ok_0.2@ == nodes
        },
{
    let ghost all = records@;
    let ghost root = text::without_trailing_separators(volume_root@);
    match MftFileResolver::new(volume_root, records, batch_size) {
        Err(e) => Err(e),
        Ok((mut resolver, duplicates)) => {
            let mut batches: Vec<Vec<ResolvedMftEntry>> = Vec::new();
            let mut open: bool = true;
            assert(resolver.done() =~= Seq::empty());
            while open
                invariant
                    resolver.wf(),
                    resolver.records() == all,
                    resolver.root() == root,
                    resolver.limit() == batch_size,
                    resolver.handled() <= retained(all).len(),
                    !open ==> resolver.finished(),
                    is_batched(
                        batches@,
                        file_entries(all, root, resolver.done()),
                        batch_size as nat,
                    ),
                    open && batches@.len() > 0 ==> batches@.last()@.len() == batch_size,
                decreases
                        retained(all).len() - resolver.handled(),
                        if open { 1int } else { 0 },
            {
                let ghost before = batches@;
                let ghost old_done = resolver.done();
                let ghost old_handled = resolver.handled();
                let batch = resolver.next_batch();
                if batch.len() < batch_size {
                    open = false;
                }
                if batch.len() > 0 {
                    proof {
                        if resolver.handled() == old_handled {
                            assert(entry_models(batch@).len() == 0) by {
                                assert(file_entries(all, root, resolver.done()).len()
                                    == file_entries(all, root, old_done).len() + entry_models(
                                    batch@,
                                ).len());
                            }
                        }
                    }
                    batches.push(batch);
                    assert(batches@.drop_last() =~= before);
                } else {
                    assert(file_entries(all, root, resolver.done()) =~= file_entries(
                        all,
                        root,
                        old_done,
                    ));
                }
            }
            assert(resolver.done() =~= retained(all));
            let (diagnostics, nodes) = resolver.finish(duplicates);
            Ok((batches, diagnostics, nodes))
        },
    }
}

/// The files of a volume with their paths, in batches of `batch_size`, and
/// what could not be resolved.
pub fn resolve_mft_files_in_batches(
    volume_root: &str,
    records: Vec<MftRecord>,
    batch_size: usize,
) -> (r: Result<(Vec<Vec<ResolvedMftEntry>>, ResolveDiagnostics), ResolveError>)
    ensures
        batch_size == 0 <==> r is Err,
        r is Ok ==> {
            let nodes = retained(records@);
            let root = text::without_trailing_separators(volume_root@);
            &&& is_batched(r->Ok_0.0@, file_entries(records@, root, nodes), batch_size as nat)
            &&& reports(r->Ok_0.1, records@, tally(records@, true, file_parents(nodes)))
        },
{
    match resolve_mft_files_internal(volume_root, records, batch_size) {
        Ok((batches, diagnostics, _)) => Ok((batches, diagnostics)),
        Err(e) => Err(e),
    }
}

/// As `resolve_mft_files_in_batches`, with the records that count.
pub fn resolve_mft_files_in_batches_retain(
    volume_root: &str,
    records: Vec<MftRecord>,
    batch_size: usize,
) -> (r: Result<(Vec<Vec<ResolvedMftEntry>>, ResolveDiagnostics, Vec<MftRecord>), ResolveError>)
    ensures
        batch_size == 0 <==> r is Err,
        r is Ok ==> {
            let nodes = retained(records@);
            let root = text::without_trailing_separators(volume_root@);
            &&& is_batched(r->Ok_0.0@, file_entries(records@, root, nodes), batch_size as nat)
            &&& reports(r->Ok_0.1, records@, tally(records@, true, file_parents(nodes)))
            &&& r->Ok_0.2@ == nodes
        },
{
    resolve_mft_files_internal(volume_root, records, batch_size)
}

/// The key that sorts entries by path.
pub open spec fn path_keys(entries: Seq<EntryModel>) -> Seq<Seq<Seq<u64>>> {
    entries.map_values(|e: EntryModel| seq![order::code_points(e.path)])
}

/// All files and directories of a volume that have a path, sorted by path.
pub fn resolve_mft_paths(volume_root: &str, records: Vec<MftRecord>) -> (r: (
    Vec<ResolvedMftEntry>,
    ResolveDiagnostics,
))
    ensures
        ({
            let nodes = retained(records@);
            let root = text::without_trailing_separators(volume_root@);
            let entries = all_entries(records@, root, nodes);
            &&& order::is_stably_sorted(entries, path_keys(entries), entry_models(r.0@))
            &&& reports(r.1, records@, tally(records@, false, distinct_ids(records@)))
        }),
{
    let ghost all = records@;
    let ghost root = text::without_trailing_separators(volume_root@);
    let total: usize = records.len();
    let (table, duplicates) = Nodes::new(records);
    let mut resolver = Resolver {
        table,
        root: trim_trailing_separators(volume_root),
        files_only: false,
        memo: HashMap::new(),
        settled: Ghost(Set::empty()),
        orphan: 0,
        cyclic: 0,
        reparse: 0,
    };
    let mut entries: Vec<ResolvedMftEntry> = Vec::new();
    let mut i: usize = 0;
    let ghost ids = distinct_ids(all);
    let ghost nodes = retained(all);
    proof {
        resolver.table.nodes_are_retained();
        ids_have_records(all);
        assert(nodes.take(0) =~= Seq::empty());
        assert(ids.take(0) =~= Seq::empty());
        assert(entry_models(entries@) =~= Seq::empty());
    }
    while i < resolver.table.nodes.len()
        invariant
            resolver.wf(),
            resolver.records() == all,
            resolver.root@ == root,
            !resolver.files_only,
            resolver.table.nodes@ == nodes,
            nodes == retained(all),
            ids == distinct_ids(all),
            ids.len() == nodes.len(),
            ids.len() <= all.len() == total,
            i <= nodes.len(),
            resolver.counts(tally(all, false, ids.take(i as int))),
            entry_models(entries@) == all_entries(all, root, nodes.take(i as int)),
        decreases nodes.len() - i,
    {
        let node: MftRecord = resolver.table.nodes[i].clone();
        proof {
            assert(ids.take(i + 1).drop_last() =~= ids.take(i as int));
            assert(ids.take(i + 1).last() == node.id);
            assert(nodes.take(i + 1).drop_last() =~= nodes.take(i as int));
            tally_is_bounded(all, false, ids.take(i as int));
        }
        match resolver.resolve(node.id) {
            Some(path) => {
                if !stands_for_root(&node) {
                    let ghost before = entries@;
                    entries.push(
                        ResolvedMftEntry {
                            id: node.id,
                            parent_id: node.parent_id,
                            path,
                            name: node.name,
                            attributes: node.attributes,
                        },
                    );
                    assert(entry_models(entries@) =~= entry_models(before).push(entries@.last()@));
                }
            },
            None => {},
        }
        i = i + 1;
    }
    assert(nodes.take(i as int) =~= nodes);
    assert(ids.take(i as int) =~= ids);
    let sorted = sort_by_path(&entries);
    (
        sorted,
        ResolveDiagnostics {
            orphan_records: resolver.orphan,
            cyclic_records: resolver.cyclic,
            duplicate_records: duplicates,
            reparse_records: resolver.reparse,
        },
    )
}

fn sort_by_path(entries: &Vec<ResolvedMftEntry>) -> (out: Vec<ResolvedMftEntry>)
    ensures
        order::is_stably_sorted(
            entry_models(entries@),
            path_keys(entry_models(entries@)),
            entry_models(out@),
        ),
{
    let mut keys: Vec<Key> = Vec::new();
    let ghost models = entry_models(entries@);
    for i in 0..entries.len()
        invariant
            models == entry_models(entries@),
            keys@.len() == i,
            forall|j: int| 0 <= j < i ==> (#[trigger] keys@[j]).deep_view() == path_keys(models)[j],
    {
        let mut key: Key = Vec::new();
        key.push(code_points_of(&chars_of(entries[i].path.as_str())));
        assert(key.deep_view() =~~= path_keys(models)[i as int]);
        keys.push(key);
    }
    assert(keys.deep_view() =~= path_keys(models));
    let places = stable_order(&keys);
    let mut out: Vec<ResolvedMftEntry> = Vec::new();
    for i in 0..places.len()
        invariant
            models == entry_models(entries@),
            order::is_stable_order(path_keys(models), places@),
            entry_models(out@) =~= order::arranged(models, places@.take(i as int)),
    {
        let ghost before = out@;
        assert(places@[i as int] < models.len());
        out.push(entries[places[i]].clone());
        assert(entry_models(out@) =~= entry_models(before).push(out@.last()@));
        assert(order::arranged(models, places@.take(i + 1)) =~= order::arranged(
            models,
            places@.take(i as int),
        ).push(models[places@[i as int] as int]));
    }
    assert(places@.take(places@.len() as int) =~= places@);
    out
}

/// Of several records of one reference the last one counts, and a record
/// changes nothing about other references.
pub proof fn last_record_counts(records: Seq<MftRecord>, r: MftRecord, other: FileId)
    ensures
        lookup(records.push(r), r.id) == Some(r),
        other != r.id ==> lookup(records.push(r), other) == lookup(records, other),
{
    assert(records.push(r).drop_last() =~= records);
}

/// A path from the root down.
pub open spec fn path_down(root: Seq<char>, names: Seq<Seq<char>>) -> Seq<char>
    decreases names.len(),
{
    if names.len() == 0 {
        root
    } else {
        path_down(root, names.drop_last()) + seq!['\\'] + names.last()
    }
}

/// Directories lead down from the root of the volume: each is a directory
/// that does not redirect, lies in the one before it, and the first one lies
/// in the root.
pub open spec fn leads_down(records: Seq<MftRecord>, way: Seq<MftRecord>) -> bool {
    forall|i: int|
        #![trigger way[i]]
        0 <= i < way.len() ==> {
            &&& lookup(records, way[i].id) == Some(way[i])
            &&& !way[i].id.names_root()
            &&& (way[i].attributes / 0x10) % 2 == 1
            &&& (way[i].attributes / 0x400) % 2 == 0
            &&& way[i].id != way[i].parent_id
            &&& way[i].name@ != "."@
            &&& if i == 0 {
                way[i].parent_id.names_root()
            } else {
                way[i].parent_id == way[i - 1].id
            }
        }
}

/// Every file below directories that lead down from the root is listed, under
/// the names of these directories and its own, and nothing is left out.
pub proof fn file_is_listed_below_its_directories(
    records: Seq<MftRecord>,
    root: Seq<char>,
    nodes: Seq<MftRecord>,
    k: int,
    way: Seq<MftRecord>,
)
    requires
        leads_down(records, way),
        0 <= k < nodes.len(),
        (nodes[k].attributes / 0x10) % 2 == 0,
        if way.len() == 0 {
            nodes[k].parent_id.names_root()
        } else {
            nodes[k].parent_id == way.last().id
        },
    ensures
        file_entries(records, root, nodes).contains(
            EntryModel {
                id: nodes[k].id,
                parent_id: nodes[k].parent_id,
                path: path_down(root, way.map_values(|r: MftRecord| r.name@).push(nodes[k].name@)),
                name: nodes[k].name@,
                attributes: nodes[k].attributes,
            },
        ),
    decreases nodes.len(),
{
    let names = way.map_values(|r: MftRecord| r.name@);
    let r = nodes[k];
    ntfs::attributes_are_bits(r);
    directory_has_path(records, root, way);
    if way.len() == 0 {
        path_extends_parent(records, true, root, r.parent_id);
    }
    let all = names.push(r.name@);
    assert(all.drop_last() =~= names);
    let parent = path_down(root, names);
    assert(full_path(records, true, root, r.parent_id) == Some(parent));
    assert(joined(parent, r.name@) =~= path_down(root, all));
    let e = entry_of(r, path_down(root, all));
    file_with_path_is_listed(records, root, nodes, k, parent);
    assert(entry_of(r, joined(parent, r.name@)) == e);
}

proof fn file_with_path_is_listed(
    records: Seq<MftRecord>,
    root: Seq<char>,
    nodes: Seq<MftRecord>,
    k: int,
    parent: Seq<char>,
)
    requires
        0 <= k < nodes.len(),
        !nodes[k].directory(),
        full_path(records, true, root, nodes[k].parent_id) == Some(parent),
    ensures
        file_entries(records, root, nodes).contains(
            entry_of(nodes[k], joined(parent, nodes[k].name@)),
        ),
    decreases nodes.len(),
{
    let e = entry_of(nodes[k], joined(parent, nodes[k].name@));
    let earlier = file_entries(records, root, nodes.drop_last());
    let all = file_entries(records, root, nodes);
    if k == nodes.len() - 1 {
        assert(all.last() == e);
    } else {
        file_with_path_is_listed(records, root, nodes.drop_last(), k, parent);
        let i = choose|i: int| 0 <= i < earlier.len() && earlier[i] == e;
        assert(all[i] == e);
    }
}

proof fn directory_has_path(records: Seq<MftRecord>, root: Seq<char>, way: Seq<MftRecord>)
    requires
        leads_down(records, way),
    ensures
        way.len() > 0 ==> full_path(records, true, root, way.last().id) == Some(
            path_down(root, way.map_values(|r: MftRecord| r.name@)),
        ),
    decreases way.len(),
{
    if way.len() > 0 {
        let names = way.map_values(|r: MftRecord| r.name@);
        let last = way.last();
        let upper = way.drop_last();
        assert(way[way.len() - 1] == last);
        assert forall|i: int|
            #![trigger upper[i]]
            0 <= i < upper.len() implies {
            &&& lookup(records, upper[i].id) == Some(upper[i])
            &&& !upper[i].id.names_root()
            &&& (upper[i].attributes / 0x10) % 2 == 1
            &&& (upper[i].attributes / 0x400) % 2 == 0
            &&& upper[i].id != upper[i].parent_id
            &&& upper[i].name@ != "."@
            &&& if i == 0 {
                upper[i].parent_id.names_root()
            } else {
                upper[i].parent_id == upper[i - 1].id
            }
        } by {
            assert(upper[i] == way[i]);
        }
        directory_has_path(records, root, upper);
        ntfs::attributes_are_bits(last);
        path_extends_parent(records, true, root, last.id);
        path_extends_parent(records, true, root, last.parent_id);
        assert(step(records, true, last.id) == Step::Up(last.parent_id));
        assert(names.drop_last() =~= upper.map_values(|r: MftRecord| r.name@));
        let parent = path_down(root, names.drop_last());
        assert(full_path(records, true, root, last.parent_id) == Some(parent));
        assert(joined(parent, last.name@) =~= path_down(root, names));
    }
}

/// No file is listed twice, and none that is not among `nodes`: there are no
/// more entries than files.
pub proof fn listed_files_are_among_the_records(
    records: Seq<MftRecord>,
    root: Seq<char>,
    nodes: Seq<MftRecord>,
    e: EntryModel,
)
    ensures
        file_entries(records, root, nodes).len() <= nodes.filter(
            |r: MftRecord| (r.attributes / 0x10) % 2 == 0,
        ).len(),
        file_entries(records, root, nodes).contains(e) ==> exists|k: int|
            0 <= k < nodes.len() && (#[trigger] nodes[k]).id == e.id && nodes[k].parent_id
                == e.parent_id && nodes[k].name@ == e.name && nodes[k].attributes == e.attributes
                && (nodes[k].attributes / 0x10) % 2 == 0,
    decreases nodes.len(),
{
    reveal(Seq::filter);
    if nodes.len() > 0 {
        let r = nodes.last();
        ntfs::attributes_are_bits(r);
        listed_files_are_among_the_records(records, root, nodes.drop_last(), e);
        let earlier = file_entries(records, root, nodes.drop_last());
        let all = file_entries(records, root, nodes);
        if all.contains(e) {
            let i = choose|i: int| 0 <= i < all.len() && all[i] == e;
            if i < earlier.len() {
                assert(earlier[i] == e);
                let k = choose|k: int|
                    0 <= k < nodes.drop_last().len() && (#[trigger] nodes.drop_last()[k]).id == e.id
                        && nodes.drop_last()[k].parent_id == e.parent_id
                        && nodes.drop_last()[k].name@ == e.name && nodes.drop_last()[k].attributes
                        == e.attributes && (nodes.drop_last()[k].attributes / 0x10) % 2 == 0;
                assert(nodes[k] == nodes.drop_last()[k]);
            } else {
                assert(nodes[nodes.len() - 1] == r);
            }
        }
    }
}

/// Of all files and directories those are listed that have a path and do not
/// stand for the volume root: each with its path, and nothing else.
pub proof fn everything_with_a_path_is_listed(
    records: Seq<MftRecord>,
    root: Seq<char>,
    nodes: Seq<MftRecord>,
)
    ensures
        all_entries(records, root, nodes) == nodes.filter(
            |r: MftRecord|
                full_path(records, false, root, r.id) is Some && r.id != r.parent_id && r.name@
                    != "."@,
        ).map_values(
            |r: MftRecord|
                EntryModel {
                    id: r.id,
                    parent_id: r.parent_id,
                    path: full_path(records, false, root, r.id)->0,
                    name: r.name@,
                    attributes: r.attributes,
                },
        ),
    decreases nodes.len(),
{
    let p = |r: MftRecord|
        full_path(records, false, root, r.id) is Some && r.id != r.parent_id && r.name@ != "."@;
    let f = |r: MftRecord|
        EntryModel {
            id: r.id,
            parent_id: r.parent_id,
            path: full_path(records, false, root, r.id)->0,
            name: r.name@,
            attributes: r.attributes,
        };
    reveal(Seq::filter);
    if nodes.len() > 0 {
        everything_with_a_path_is_listed(records, root, nodes.drop_last());
        let earlier = nodes.drop_last().filter(p);
        let r = nodes.last();
        if p(r) {
            assert(earlier.push(r).map_values(f) =~= earlier.map_values(f).push(f(r)));
        }
    } else {
        assert(all_entries(records, root, nodes) =~= nodes.filter(p).map_values(f));
    }
}

/// A file whose directory has a path adds nothing to what could not be
/// resolved.
pub proof fn resolved_way_is_not_counted(
    records: Seq<MftRecord>,
    files_only: bool,
    root: Seq<char>,
    starts: Seq<FileId>,
    id: FileId,
)
    requires
        full_path(records, files_only, root, id) is Some,
    ensures
        ({
            let before = tally(records, files_only, starts);
            let after = tally(records, files_only, starts.push(id));
            after.orphan == before.orphan && after.cyclic == before.cyclic && after.reparse
                == before.reparse
        }),
{
    assert(starts.push(id).drop_last() =~= starts);
    let n = choose|n: nat| path_within(records, files_only, root, id, n) is Some;
    let least = shortest_way(records, files_only, root, id, n);
    resolved_way_ends_well(
        records,
        files_only,
        root,
        tally(records, files_only, starts).settled,
        id,
        Set::empty(),
        least,
    );
}

proof fn shortest_way(
    records: Seq<MftRecord>,
    files_only: bool,
    root: Seq<char>,
    id: FileId,
    n: nat,
) -> (least: nat)
    requires
        path_within(records, files_only, root, id, n) is Some,
    ensures
        least > 0,
        path_within(records, files_only, root, id, least) is Some,
        path_within(records, files_only, root, id, (least - 1) as nat) is None,
    decreases n,
{
    if path_within(records, files_only, root, id, (n - 1) as nat) is Some {
        shortest_way(records, files_only, root, id, (n - 1) as nat)
    } else {
        n
    }
}

proof fn resolved_way_ends_well(
    records: Seq<MftRecord>,
    files_only: bool,
    root: Seq<char>,
    settled: Set<FileId>,
    id: FileId,
    seen: Set<FileId>,
    n: nat,
)
    requires
        n > 0,
        path_within(records, files_only, root, id, n) is Some,
        path_within(records, files_only, root, id, (n - 1) as nat) is None,
        forall|d: FileId| #[trigger]
            seen.contains(d) ==> path_within(records, files_only, root, d, n) is None,
    ensures
        way_up(records, files_only, settled, id, seen).1 is Known,
    decreases n,
{
    if !settled.contains(id) {
        match step(records, files_only, id) {
            Step::Up(parent) => {
                let more = seen.insert(id);
                assert forall|d: FileId| #[trigger] more.contains(d) implies path_within(
                    records,
                    files_only,
                    root,
                    d,
                    (n - 1) as nat,
                ) is None by {
                    if d != id {
                        assert(seen.contains(d));
                        if path_within(records, files_only, root, d, (n - 1) as nat) is Some {
                            longer_way_same_path(
                                records,
                                files_only,
                                root,
                                d,
                                (n - 1) as nat,
                                n,
                            );
                        }
                    }
                }
                assert(path_within(records, files_only, root, parent, (n - 1) as nat) is Some);
                assert(n > 1);
                resolved_way_ends_well(
                    records,
                    files_only,
                    root,
                    settled,
                    parent,
                    more,
                    (n - 1) as nat,
                );
            },
            _ => {},
        }
    }
}

/// The first way that is walked is counted once, as orphan, as cycle or as
/// redirection, where it leads to no path, and not at all where it does.
pub proof fn failing_way_is_counted_once(
    records: Seq<MftRecord>,
    files_only: bool,
    root: Seq<char>,
    id: FileId,
)
    ensures
        ({
            let t = tally(records, files_only, seq![id]);
            t.orphan + t.cyclic + t.reparse == if full_path(records, files_only, root, id) is None {
                1int
            } else {
                0
            }
        }),
        (step(records, files_only, id) is Orphan) ==> tally(records, files_only, seq![id]).orphan
            == 1,
        (step(records, files_only, id) is Reparse) ==> tally(records, files_only, seq![id]).reparse
            == 1,
{
    let none = Seq::<FileId>::empty();
    assert(none.push(id) =~= seq![id]);
    assert(seq![id].drop_last() =~= none);
    assert(seq![id].last() == id);
    let start = tally(records, files_only, none);
    assert(start == (Tally { settled: Set::empty(), orphan: 0, cyclic: 0, reparse: 0 }));
    if full_path(records, files_only, root, id) is Some {
        resolved_way_is_not_counted(records, files_only, root, none, id);
    } else {
        let (seen, end) = way_up(records, files_only, Set::empty(), id, Set::empty());
        if end is Known {
            good_end_has_path(records, files_only, root, id, Set::empty());
        }
    }
}

proof fn good_end_has_path(
    records: Seq<MftRecord>,
    files_only: bool,
    root: Seq<char>,
    id: FileId,
    seen: Set<FileId>,
)
    requires
        way_up(records, files_only, Set::empty(), id, seen).1 is Known,
    ensures
        full_path(records, files_only, root, id) is Some,
    decreases id_set(records).difference(seen).len(),
{
    path_extends_parent(records, files_only, root, id);
    match step(records, files_only, id) {
        Step::Up(parent) => {
            ids_have_records(records);
            seen_directory_shrinks_rest(records, id, seen);
            good_end_has_path(records, files_only, root, parent, seen.insert(id));
        },
        _ => {},
    }
}

} // verus!
