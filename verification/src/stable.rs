//! Waiting for files to stop growing before they are reported.

use crate::paths;
use crate::paths::KnownPath;
use crate::text;
use crate::text::{contains_text, same_text};
use crate::text_map::TextMap;
use crate::watch::{is_in_any, WatchConfig};
use vstd::prelude::*;

verus! {

/// How many paths may wait.
pub const STABLE_QUEUE_CAPACITY: usize = 256;

/// How many paths are probed at a time.
pub const STABLE_WORKER_COUNT: usize = 2;

/// How often a size is looked at before the file is given up.
pub const STABLE_POLLS: u8 = 20;

/// How often in a row a size must be found unchanged.
pub const STABLE_REPEATS: u8 = 3;

/// What a look at the size of a file tells.
#[derive(Debug, Clone, Copy, PartialEq, Eq, Structural)]
pub enum ProbeStep {
    /// Look once more.
    Wait,
    /// The size has stayed the same for long enough: the file is complete.
    Settled,
    /// The size kept changing for too long: nothing is reported.
    GivenUp,
}

/// The size of a file over time.
#[derive(Debug, Clone, Copy, PartialEq, Eq, Structural)]
pub struct StableProbe {
    pub last: u64,
    pub stable: u8,
    pub polls: u8,
}

impl StableProbe {
    /// What the sizes seen so far tell.
    pub open spec fn step(self) -> ProbeStep {
        if self.stable >= STABLE_REPEATS {
            ProbeStep::Settled
        } else if self.polls >= STABLE_POLLS {
            ProbeStep::GivenUp
        } else {
            ProbeStep::Wait
        }
    }

    /// Nothing more has to be looked at.
    pub open spec fn finished(self) -> bool {
        self.step() != ProbeStep::Wait
    }

    /// The probe after it saw one more size.
    pub open spec fn saw(self, size: u64) -> StableProbe {
        StableProbe {
            last: size,
            stable: if size == self.last {
                (self.stable + 1) as u8
            } else {
                0
            },
            polls: (self.polls + 1) as u8,
        }
    }

    /// The probe of a file that had size `first` and then `sizes`.
    pub open spec fn ran(first: u64, sizes: Seq<u64>) -> StableProbe
        decreases sizes.len(),
    {
        if sizes.len() == 0 {
            StableProbe { last: first, stable: 0, polls: 0 }
        } else {
            Self::ran(first, sizes.drop_last()).saw(sizes.last())
        }
    }

    pub fn start(size: u64) -> (r: Self)
        ensures
            r == Self::ran(size, Seq::empty()),
            !r.finished(),
    {
        StableProbe { last: size, stable: 0, polls: 0 }
    }

    /// Looks at the size once more; says whether that was enough.
    pub fn observe(&mut self, size: u64) -> (r: ProbeStep)
        requires
            !old(self).finished(),
        ensures
            *final(self) == old(self).saw(size),
            r == final(self).step(),
    {
        if size == self.last {
            self.stable = self.stable + 1;
        } else {
            self.stable = 0;
            self.last = size;
        }
        self.polls = self.polls + 1;
        if self.stable >= STABLE_REPEATS {
            ProbeStep::Settled
        } else if self.polls >= STABLE_POLLS {
            ProbeStep::GivenUp
        } else {
            ProbeStep::Wait
        }
    }
}

/// A probe was never run on after it had finished.
pub open spec fn ran_until_finished(first: u64, sizes: Seq<u64>) -> bool {
    forall|n: int|
        0 <= n < sizes.len() ==> !StableProbe::ran(first, #[trigger] sizes.take(n)).finished()
}

/// The size was the same at the last looks, as often as it takes, and at the
/// one before them.
pub open spec fn size_stayed(first: u64, sizes: Seq<u64>) -> bool {
    let all = seq![first] + sizes;
    all.len() > STABLE_REPEATS && forall|i: int|
        all.len() - 1 - STABLE_REPEATS <= i < all.len() ==> #[trigger] all[i] == all.last()
}

/// A probe settles exactly when the size stayed the same, and gives up
/// exactly when it has looked as often as it may and the size did not.
pub proof fn probe_settles_on_equal_sizes(first: u64, sizes: Seq<u64>)
    requires
        ran_until_finished(first, sizes),
    ensures
        sizes.len() <= STABLE_POLLS,
        (StableProbe::ran(first, sizes).step() == ProbeStep::Settled) == size_stayed(first, sizes),
        (StableProbe::ran(first, sizes).step() == ProbeStep::GivenUp) == (sizes.len()
            == STABLE_POLLS && !size_stayed(first, sizes)),
{
    probe_counts(first, sizes);
    let p = StableProbe::ran(first, sizes);
    let all = seq![first] + sizes;
    assert(all.last() == p.last);
    if p.stable < STABLE_REPEATS && size_stayed(first, sizes) {
        let i = all.len() - 2 - p.stable;
        assert(all[i] == all.last());
        assert(false);
    }
}

/// What the numbers of a probe say of the sizes it saw.
proof fn probe_counts(first: u64, sizes: Seq<u64>)
    requires
        ran_until_finished(first, sizes),
    ensures
        StableProbe::ran(first, sizes).polls == sizes.len() <= STABLE_POLLS,
        StableProbe::ran(first, sizes).stable <= sizes.len(),
        StableProbe::ran(first, sizes).stable <= STABLE_REPEATS,
        StableProbe::ran(first, sizes).last == (seq![first] + sizes).last(),
        forall|i: int|
            sizes.len() - StableProbe::ran(first, sizes).stable <= i <= sizes.len() ==> (#[trigger] (
            seq![first] + sizes)[i]) == StableProbe::ran(first, sizes).last,
        StableProbe::ran(first, sizes).stable < sizes.len() ==> (seq![first] + sizes)[sizes.len()
            - StableProbe::ran(first, sizes).stable - 1] != StableProbe::ran(first, sizes).last,
    decreases sizes.len(),
{
    if sizes.len() > 0 {
        let short = sizes.drop_last();
        assert(sizes.take(sizes.len() - 1) =~= short);
        assert forall|n: int| 0 <= n < short.len() implies !StableProbe::ran(
            first,
            #[trigger] short.take(n),
        ).finished() by {
            assert(short.take(n) =~= sizes.take(n));
        }
        probe_counts(first, short);
        assert(!StableProbe::ran(first, short).finished());
        let all = seq![first] + sizes;
        let before = seq![first] + short;
        assert(before =~= all.drop_last());
        assert forall|i: int| 0 <= i < before.len() implies #[trigger] all[i] == before[i] by {}
    }
}

/// A path whose file is awaited.
#[derive(Debug, PartialEq, Eq)]
pub struct PendingStable {
    pub generation: u64,
    pub source: String,
}

impl Clone for PendingStable {
    fn clone(&self) -> (r: Self)
        ensures
            r == *self,
    {
        PendingStable { generation: self.generation, source: self.source.clone() }
    }
}

/// What becomes of a finished probe.
#[derive(Debug, Clone, Copy, PartialEq, Eq, Structural)]
pub enum Settled {
    /// Its result stands.
    Report,
    /// The path was scheduled anew meanwhile: probe again.
    Retry,
    /// The path is no longer awaited.
    Dropped,
}

/// What a scheduler holds.
#[verifier::ext_equal]
pub struct SchedulerModel {
    /// Paths that wait, in order.
    pub waiting: Seq<Seq<char>>,
    /// Paths that are being probed.
    pub working: Seq<Seq<char>>,
    pub pending: Map<Seq<char>, PendingStable>,
    pub next_generation: u64,
}

/// `v` without its first `s`.
pub open spec fn without_first(v: Seq<Seq<char>>, s: Seq<char>) -> Seq<Seq<char>>
    decreases v.len(),
{
    if v.len() == 0 {
        v
    } else if v[0] == s {
        v.drop_first()
    } else {
        seq![v[0]] + without_first(v.drop_first(), s)
    }
}

impl SchedulerModel {
    pub open spec fn queued(self, path: Seq<char>) -> bool {
        self.waiting.contains(path) || self.working.contains(path)
    }

    /// Every awaited path waits or is being probed; no more wait or are
    /// probed than may.
    pub open spec fn consistent(self) -> bool {
        &&& self.waiting.len() <= STABLE_QUEUE_CAPACITY
        &&& self.working.len() <= STABLE_WORKER_COUNT
        &&& forall|k: Seq<char>| #[trigger] self.pending.contains_key(k) ==> self.queued(k)
    }

    /// A path is to be probed, also if it is already.
    pub open spec fn scheduled(self, path: Seq<char>, pending: PendingStable) -> (
        SchedulerModel,
        bool,
    ) {
        let next = SchedulerModel { next_generation: pending.generation.wrapping_add(1), ..self };
        if self.queued(path) {
            (SchedulerModel { pending: self.pending.insert(path, pending), ..next }, true)
        } else if self.waiting.len() < STABLE_QUEUE_CAPACITY {
            (
                SchedulerModel {
                    pending: self.pending.insert(path, pending),
                    waiting: self.waiting.push(path),
                    ..next
                },
                true,
            )
        } else {
            (SchedulerModel { pending: self.pending.remove(path), ..next }, false)
        }
    }

    /// A path is not awaited any more.
    pub open spec fn cancelled(self, path: Seq<char>) -> SchedulerModel {
        SchedulerModel { pending: self.pending.remove(path), ..self }
    }

    /// A path that is no longer probed.
    pub open spec fn released(self, path: Seq<char>) -> SchedulerModel {
        SchedulerModel {
            pending: self.pending.remove(path),
            working: without_first(self.working, path),
            ..self
        }
    }

    /// What a probe of `path` for `generation` leads to.
    pub open spec fn settled(self, path: Seq<char>, generation: u64) -> (SchedulerModel, Settled) {
        if !self.pending.contains_key(path) {
            (self.released(path), Settled::Dropped)
        } else if self.pending[path].generation == generation {
            (self.released(path), Settled::Report)
        } else {
            (self, Settled::Retry)
        }
    }
}

/// The paths that wait for their files to be complete.
#[derive(Debug)]
pub struct StableScheduler {
    waiting: Vec<String>,
    working: Vec<String>,
    pending: TextMap<PendingStable>,
    next_generation: u64,
}

impl View for StableScheduler {
    type V = SchedulerModel;

    closed spec fn view(&self) -> SchedulerModel {
        SchedulerModel {
            waiting: text::texts(self.waiting@),
            working: text::texts(self.working@),
            pending: self.pending@,
            next_generation: self.next_generation,
        }
    }
}

impl StableScheduler {
    pub closed spec fn well_formed(self) -> bool {
        self.pending.well_formed() && self@.consistent()
    }

    /// What every scheduler keeps: each awaited path waits or is being
    /// probed, and no more wait or are probed than may.
    pub proof fn is_consistent(&self)
        requires
            self.well_formed(),
        ensures
            self@.consistent(),
    {
    }

    pub fn new() -> (r: Self)
        ensures
            r.well_formed(),
            r@ == (SchedulerModel {
                waiting: Seq::empty(),
                working: Seq::empty(),
                pending: Map::empty(),
                next_generation: 1,
            }),
    {
        let r = StableScheduler {
            waiting: Vec::new(),
            working: Vec::new(),
            pending: TextMap::new(),
            next_generation: 1,
        };
        assert(text::texts(r.waiting@) =~= Seq::empty());
        assert(text::texts(r.working@) =~= Seq::empty());
        r
    }

    /// Awaits a path; `false` where too many wait already.
    pub fn schedule(&mut self, path: String, source: String) -> (r: bool)
        requires
            old(self).well_formed(),
        ensures
            final(self).well_formed(),
            (final(self)@, r) == old(self)@.scheduled(
                path@,
                PendingStable { generation: old(self)@.next_generation, source },
            ),
    {
        let generation: u64 = self.next_generation;
        let ghost before = self@;
        self.next_generation = generation.wrapping_add(1);
        if contains_text(&self.waiting, path.as_str()) || contains_text(
            &self.working,
            path.as_str(),
        ) {
            self.pending.insert(path, PendingStable { generation, source });
            proof {
                assert forall|k: Seq<char>| #[trigger]
                    self@.pending.contains_key(k) implies self@.queued(k) by {
                    if k != path@ {
                        assert(before.pending.contains_key(k));
                    }
                }
            }
            return true;
        }
        if self.waiting.len() < STABLE_QUEUE_CAPACITY {
            let ghost waiting = text::texts(self.waiting@);
            self.waiting.push(path.clone());
            self.pending.insert(path, PendingStable { generation, source });
            proof {
                assert(text::texts(self.waiting@) =~= waiting.push(path@));
                assert forall|k: Seq<char>| #[trigger]
                    self@.pending.contains_key(k) implies self@.queued(k) by {
                    vstd::seq_lib::lemma_seq_contains_after_push(waiting, path@, k);
                    if k != path@ {
                        assert(before.pending.contains_key(k));
                    }
                }
            }
            return true;
        }
        self.pending.remove(path.as_str());
        proof {
            assert forall|k: Seq<char>| #[trigger]
                self@.pending.contains_key(k) implies self@.queued(k) by {
                assert(before.pending.contains_key(k));
            }
        }
        false
    }

    /// A path is not awaited any more.
    pub fn cancel(&mut self, path: &str)
        requires
            old(self).well_formed(),
        ensures
            final(self).well_formed(),
            final(self)@ == old(self)@.cancelled(path@),
    {
        let ghost before = self@;
        self.pending.remove(path);
        proof {
            assert forall|k: Seq<char>| #[trigger]
                self@.pending.contains_key(k) implies self@.queued(k) by {
                assert(before.pending.contains_key(k));
            }
        }
    }

    /// The awaited paths.
    pub fn pending_paths(&self) -> (r: Vec<String>)
        requires
            self.well_formed(),
        ensures
            forall|k: Seq<char>| #[trigger]
                self@.pending.contains_key(k) <==> text::texts(r@).contains(k),
    {
        self.pending.keys()
    }

    /// Awaits only paths in one of `roots`; `known` are the awaited paths.
    pub fn cancel_uncovered(&mut self, known: &Vec<KnownPath>, roots: &Vec<KnownPath>)
        requires
            old(self).well_formed(),
        ensures
            final(self).well_formed(),
            final(self)@ == (SchedulerModel {
                pending: still_covered(
                    old(self)@.pending,
                    paths::known_models(known@),
                    paths::known_models(roots@),
                ),
                ..old(self)@
            }),
    {
        let ghost before = self@;
        let ghost models = paths::known_models(known@);
        let ghost held = paths::known_models(roots@);
        assert(self@.pending =~= still_covered(before.pending, models.take(0), held));
        for i in 0..known.len()
            invariant
                self.well_formed(),
                models == paths::known_models(known@),
                held == paths::known_models(roots@),
                self@ == (SchedulerModel {
                    pending: still_covered(before.pending, models.take(i as int), held),
                    ..before
                }),
        {
            let ghost now = self@.pending;
            let ghost longer = models.take(i + 1);
            assert(longer.drop_last() =~= models.take(i as int));
            assert(longer.last() == known@[i as int]@);
            if !is_in_any(&known[i], roots) {
                self.cancel(known[i].text.as_str());
            }
        }
        assert(models.take(models.len() as int) =~= models);
    }

    /// Takes the next path to probe.
    pub fn take_next(&mut self) -> (r: Option<String>)
        requires
            old(self).well_formed(),
        ensures
            final(self).well_formed(),
            match r {
                Some(p) => old(self)@.waiting.len() > 0 && old(self)@.working.len()
                    < STABLE_WORKER_COUNT && p@ == old(self)@.waiting[0] && final(self)@ == (SchedulerModel {
                    waiting: old(self)@.waiting.drop_first(),
                    working: old(self)@.working.push(p@),
                    ..old(self)@
                }),
                None => (old(self)@.waiting.len() == 0 || old(self)@.working.len()
                    == STABLE_WORKER_COUNT) && *final(self) == *old(self),
            },
    {
        if self.waiting.len() == 0 || self.working.len() >= STABLE_WORKER_COUNT {
            return None;
        }
        let ghost before = self@;
        let path = self.waiting.remove(0);
        self.working.push(path.clone());
        proof {
            assert(text::texts(self.waiting@) =~= before.waiting.drop_first());
            assert(text::texts(self.working@) =~= before.working.push(path@));
            assert forall|k: Seq<char>| #[trigger]
                self@.pending.contains_key(k) implies self@.queued(k) by {
                assert(before.pending.contains_key(k));
                vstd::seq_lib::lemma_seq_contains_after_push(before.working, path@, k);
                if before.waiting.contains(k) && k != path@ {
                    let i = before.waiting.index_of(k);
                    assert(before.waiting[i] == k);
                    assert(self@.waiting[i - 1] == k);
                }
            }
        }
        Some(path)
    }

    fn release(&mut self, path: &str)
        requires
            old(self).pending.well_formed(),
            old(self)@.waiting.len() <= STABLE_QUEUE_CAPACITY,
            old(self)@.working.len() <= STABLE_WORKER_COUNT,
            forall|k: Seq<char>| #[trigger]
                old(self)@.pending.contains_key(k) ==> old(self)@.queued(k),
            !old(self)@.pending.contains_key(path@),
        ensures
            final(self).well_formed(),
            final(self)@ == old(self)@.released(path@),
    {
        let ghost before = self@;
        let mut at: usize = 0;
        while at < self.working.len() && !same_text(self.working[at].as_str(), path)
            invariant
                *self == *old(self),
                at <= self.working@.len(),
                forall|i: int| 0 <= i < at ==> (#[trigger] text::texts(self.working@)[i]) != path@,
            decreases self.working@.len() - at,
        {
            assert(text::texts(self.working@)[at as int] == self.working@[at as int]@);
            at += 1;
        }
        proof {
            first_is_taken(before.working, path@, at as int);
        }
        if at < self.working.len() {
            assert(before.working[at as int] == self.working@[at as int]@);
            self.working.remove(at);
            assert(text::texts(self.working@) =~= before.working.remove(at as int));
        }
        proof {
            assert(before.pending.remove(path@) =~= before.pending);
            assert forall|k: Seq<char>| #[trigger]
                self@.pending.contains_key(k) implies self@.queued(k) by {
                assert(before.pending.contains_key(k));
                if before.working.contains(k) {
                    let i = before.working.index_of(k);
                    assert(before.working[i] == k);
                    if at < before.working.len() {
                        assert(before.working[at as int] == path@);
                        if i < at {
                            assert(self@.working[i] == k);
                        } else {
                            assert(self@.working[i - 1] == k);
                        }
                    } else {
                        assert(self@.working[i] == k);
                    }
                }
            }
        }
    }

    /// What a path that was taken is probed for; a path that is not awaited
    /// is let go.
    pub fn begin(&mut self, path: &str) -> (r: Option<PendingStable>)
        requires
            old(self).well_formed(),
        ensures
            final(self).well_formed(),
            match r {
                Some(p) => old(self)@.pending.contains_key(path@) && p == old(self)@.pending[path@]
                    && *final(self) == *old(self),
                None => !old(self)@.pending.contains_key(path@) && final(self)@ == old(
                    self,
                )@.released(path@),
            },
    {
        match self.pending.get(path) {
            Some(p) => {
                return Some(p.clone());
            },
            None => {},
        }
        self.release(path);
        None
    }

    /// Decides on a finished probe.
    pub fn settle(&mut self, path: &str, generation: u64) -> (r: Settled)
        requires
            old(self).well_formed(),
        ensures
            final(self).well_formed(),
            (final(self)@, r) == old(self)@.settled(path@, generation),
    {
        let ghost before = self@;
        let mut current: bool = false;
        match self.pending.get(path) {
            Some(p) => {
                if p.generation != generation {
                    return Settled::Retry;
                }
                current = true;
            },
            None => {},
        }
        if current {
            self.pending.remove(path);
            proof {
                assert forall|k: Seq<char>| #[trigger]
                    self@.pending.contains_key(k) implies self@.queued(k) by {
                    assert(before.pending.contains_key(k));
                }
            }
            self.release(path);
            assert(before.pending.remove(path@).remove(path@) =~= before.pending.remove(path@));
            return Settled::Report;
        }
        self.release(path);
        Settled::Dropped
    }
}

/// A file that may be arriving.
#[derive(Debug)]
pub struct Arrival {
    pub path: String,
    pub is_file: bool,
    /// The name, where it is text.
    pub name: Option<String>,
    pub source: String,
}

/// The arrivals among `arrivals` that are awaited, each path once.
pub open spec fn awaited(arrivals: Seq<Arrival>, config: WatchConfig) -> Seq<Arrival>
    decreases arrivals.len(),
{
    if arrivals.len() == 0 {
        Seq::empty()
    } else {
        let short = arrivals.drop_last();
        let last = arrivals.last();
        let earlier = awaited(short, config);
        if !arrival_paths(short).contains(last.path@) && config.awaits(
            last.is_file,
            match last.name {
                Some(n) => Some(n@),
                None => None,
            },
        ) {
            earlier.push(last)
        } else {
            earlier
        }
    }
}

pub open spec fn arrival_paths(v: Seq<Arrival>) -> Seq<Seq<char>> {
    v.map_values(|a: Arrival| a.path@)
}

/// The scheduler after some cancellations.
pub open spec fn all_cancelled(m: SchedulerModel, cancel: Seq<Seq<char>>) -> SchedulerModel
    decreases cancel.len(),
{
    if cancel.len() == 0 {
        m
    } else {
        all_cancelled(m, cancel.drop_last()).cancelled(cancel.last())
    }
}

/// The scheduler after some arrivals, and whether all found room.
pub open spec fn all_scheduled(m: SchedulerModel, arrivals: Seq<Arrival>) -> (SchedulerModel, bool)
    decreases arrivals.len(),
{
    if arrivals.len() == 0 {
        (m, true)
    } else {
        let (earlier, fits) = all_scheduled(m, arrivals.drop_last());
        let (now, taken) = earlier.scheduled(
            arrivals.last().path@,
            PendingStable {
                generation: earlier.next_generation,
                source: arrivals.last().source,
            },
        );
        (now, fits && taken)
    }
}

fn path_came_before(arrivals: &Vec<Arrival>, n: usize) -> (r: bool)
    requires
        n < arrivals@.len(),
    ensures
        r == arrival_paths(arrivals@.take(n as int)).contains(arrivals@[n as int].path@),
{
    let ghost earlier = arrival_paths(arrivals@.take(n as int));
    for i in 0..n
        invariant
            n < arrivals@.len(),
            earlier == arrival_paths(arrivals@.take(n as int)),
            forall|j: int| 0 <= j < i ==> (#[trigger] earlier[j]) != arrivals@[n as int].path@,
    {
        assert(earlier[i as int] == arrivals@[i as int].path@);
        if same_text(arrivals[i].path.as_str(), arrivals[n].path.as_str()) {
            return true;
        }
    }
    false
}

/// Hands a batch over to the scheduler: first what is cancelled, then what
/// arrives. Says whether everything found room.
pub fn deliver(
    scheduler: &mut StableScheduler,
    cancel: &Vec<String>,
    arrivals: &Vec<Arrival>,
    config: &WatchConfig,
) -> (r: bool)
    requires
        old(scheduler).well_formed(),
    ensures
        final(scheduler).well_formed(),
        (final(scheduler)@, r) == all_scheduled(
            all_cancelled(old(scheduler)@, text::texts(cancel@)),
            awaited(arrivals@, *config),
        ),
{
    let ghost before = scheduler@;
    let ghost gone = text::texts(cancel@);
    assert(gone.take(0) =~= Seq::empty());
    for i in 0..cancel.len()
        invariant
            scheduler.well_formed(),
            gone == text::texts(cancel@),
            scheduler@ == all_cancelled(before, gone.take(i as int)),
    {
        assert(gone.take(i + 1).drop_last() =~= gone.take(i as int));
        scheduler.cancel(cancel[i].as_str());
    }
    assert(gone.take(gone.len() as int) =~= gone);
    let ghost middle = scheduler@;
    let mut fits: bool = true;
    assert(arrivals@.take(0) =~= Seq::empty());
    for i in 0..arrivals.len()
        invariant
            scheduler.well_formed(),
            (scheduler@, fits) == all_scheduled(middle, awaited(arrivals@.take(i as int), *config)),
    {
        let ghost longer = arrivals@.take(i + 1);
        assert(longer.drop_last() =~= arrivals@.take(i as int));
        let name: Option<&str> = match &arrivals[i].name {
            Some(n) => Some(n.as_str()),
            None => None,
        };
        if !path_came_before(arrivals, i) && config.is_arrival_candidate(arrivals[i].is_file, name) {
            let ghost earlier = awaited(arrivals@.take(i as int), *config);
            assert(earlier.push(arrivals@[i as int]).drop_last() =~= earlier);
            let taken: bool = scheduler.schedule(arrivals[i].path.clone(), arrivals[i].source.clone());
            fits = fits && taken;
        }
    }
    assert(arrivals@.take(arrivals@.len() as int) =~= arrivals@);
    fits
}

/// What is left of `pending` when paths outside of `roots` are cancelled.
pub open spec fn still_covered(
    pending: Map<Seq<char>, PendingStable>,
    known: Seq<paths::KnownModel>,
    roots: Seq<paths::KnownModel>,
) -> Map<Seq<char>, PendingStable>
    decreases known.len(),
{
    if known.len() == 0 {
        pending
    } else {
        let earlier = still_covered(pending, known.drop_last(), roots);
        if paths::covered(known.last(), roots) {
            earlier
        } else {
            earlier.remove(known.last().text)
        }
    }
}

/// Only the first of several equal texts is taken out, and nothing else.
pub proof fn first_is_taken(v: Seq<Seq<char>>, s: Seq<char>, at: int)
    requires
        0 <= at <= v.len(),
        forall|i: int| 0 <= i < at ==> (#[trigger] v[i]) != s,
        at < v.len() ==> v[at] == s,
    ensures
        without_first(v, s) == if at < v.len() {
            v.remove(at)
        } else {
            v
        },
    decreases v.len(),
{
    if v.len() > 0 {
        let rest = v.drop_first();
        if at == 0 {
            assert(v.remove(0) =~= rest);
        } else {
            assert forall|i: int| 0 <= i < at - 1 implies (#[trigger] rest[i]) != s by {
                assert(v[i + 1] != s);
            }
            first_is_taken(rest, s, at - 1);
            if at < v.len() {
                assert(seq![v[0]] + rest.remove(at - 1) =~= v.remove(at));
            } else {
                assert(seq![v[0]] + rest =~= v);
            }
        }
    }
}

/// A path that was cancelled is not reported, whatever its probe found.
pub proof fn cancelled_path_is_not_reported(m: SchedulerModel, path: Seq<char>, generation: u64)
    ensures
        m.cancelled(path).settled(path, generation).1 == Settled::Dropped,
{
}

/// A path that is scheduled again is reported only for the later time: the
/// probe that was under way is repeated.
pub proof fn rescheduled_path_is_probed_again(
    m: SchedulerModel,
    path: Seq<char>,
    source: String,
    later: String,
)
    requires
        m.scheduled(path, PendingStable { generation: m.next_generation, source }).1,
    ensures
        ({
            let once = m.scheduled(path, PendingStable { generation: m.next_generation, source }).0;
            let twice = once.cancelled(path).scheduled(
                path,
                PendingStable { generation: once.next_generation, source: later },
            );
            &&& twice.1
            &&& twice.0.settled(path, m.next_generation).1 == Settled::Retry
            &&& twice.0.settled(path, once.next_generation).1 == Settled::Report
            &&& twice.0.pending[path].source == later
        }),
{
    let once = m.scheduled(path, PendingStable { generation: m.next_generation, source }).0;
    if !m.queued(path) {
        assert(once.waiting[once.waiting.len() - 1] == path);
    }
    assert(once.queued(path));
}

/// Scheduling a path that waits already takes no more room.
pub proof fn repeated_path_takes_no_room(m: SchedulerModel, path: Seq<char>, pending: PendingStable)
    requires
        m.queued(path),
    ensures
        m.scheduled(path, pending).1,
        m.scheduled(path, pending).0.waiting == m.waiting,
        m.scheduled(path, pending).0.working == m.working,
{
}

/// A path that finds no room leaves no trace.
pub proof fn refused_path_leaves_no_trace(
    m: SchedulerModel,
    path: Seq<char>,
    pending: PendingStable,
)
    requires
        m.consistent(),
        !m.scheduled(path, pending).1,
    ensures
        m.scheduled(path, pending).0 == (SchedulerModel {
            next_generation: pending.generation.wrapping_add(1),
            ..m
        }),
{
    assert(m.pending.remove(path) =~= m.pending);
}

/// Few paths are awaited: no more than wait and are probed.
pub proof fn awaited_paths_are_bounded(m: SchedulerModel)
    requires
        m.consistent(),
    ensures
        m.pending.dom().finite(),
        m.pending.dom().len() <= STABLE_QUEUE_CAPACITY + STABLE_WORKER_COUNT,
{
    let all = m.waiting + m.working;
    all.lemma_cardinality_of_set();
    vstd::seq_lib::seq_to_set_is_finite(all);
    assert(m.pending.dom().subset_of(all.to_set())) by {
        assert forall|k: Seq<char>| m.pending.dom().contains(k) implies all.to_set().contains(
            k,
        ) by {
            assert(m.pending.contains_key(k));
            if m.waiting.contains(k) {
                let i = m.waiting.index_of(k);
                assert(all[i] == k);
            } else {
                let i = m.working.index_of(k);
                assert(all[m.waiting.len() + i] == k);
            }
        }
    }
    vstd::set_lib::lemma_len_subset(m.pending.dom(), all.to_set());
}

/// As long as fewer than 256 paths wait, a path that arrives is awaited; those
/// awaited before still are.
pub proof fn path_is_awaited_while_there_is_room(
    m: SchedulerModel,
    path: Seq<char>,
    pending: PendingStable,
    other: Seq<char>,
)
    ensures
        m.waiting.len() < 256 ==> m.scheduled(path, pending).1,
        m.scheduled(path, pending).1 ==> {
            let after = m.scheduled(path, pending).0;
            &&& after.pending.contains_key(path)
            &&& after.pending[path] == pending
            &&& after.waiting.contains(path) || after.working.contains(path)
        },
        other != path ==> m.scheduled(path, pending).0.pending.contains_key(other)
            == m.pending.contains_key(other) && (m.pending.contains_key(other) ==> m.scheduled(
            path,
            pending,
        ).0.pending[other] == m.pending[other]),
        m.waiting.is_prefix_of(m.scheduled(path, pending).0.waiting),
        m.scheduled(path, pending).0.working == m.working,
{
    let after = m.scheduled(path, pending).0;
    if !m.queued(path) && m.waiting.len() < STABLE_QUEUE_CAPACITY {
        assert(after.waiting.last() == path);
    }
    assert(after.waiting.take(m.waiting.len() as int) =~= m.waiting);
}

/// A finished probe is reported exactly if its path is still awaited since the
/// probe began; a path scheduled anew is probed again, a cancelled one
/// dropped. Only a path that is probed again keeps its place.
pub proof fn finished_probe_is_reported(m: SchedulerModel, path: Seq<char>, generation: u64)
    ensures
        m.settled(path, generation).1 == Settled::Report <==> m.pending.contains_key(path)
            && m.pending[path].generation == generation,
        m.settled(path, generation).1 == Settled::Retry <==> m.pending.contains_key(path)
            && m.pending[path].generation != generation,
        m.settled(path, generation).1 == Settled::Retry ==> m.settled(path, generation).0 == m,
        m.settled(path, generation).1 != Settled::Retry ==> !m.settled(
            path,
            generation,
        ).0.pending.contains_key(path) && m.settled(path, generation).0.waiting == m.waiting,
{
}

/// A file settles at the third look in a row that finds its size unchanged,
/// and not before; a file that keeps changing is given up after twenty looks.
pub proof fn file_settles_at_the_third_equal_size(p: StableProbe, size: u64)
    requires
        !p.finished(),
    ensures
        size != p.last ==> p.saw(size).stable == 0,
        size == p.last && p.stable == 2 ==> p.saw(size).step() == ProbeStep::Settled,
        (size != p.last || p.stable < 2) && p.polls < 19 ==> p.saw(size).step() == ProbeStep::Wait,
        (size != p.last || p.stable < 2) && p.polls >= 19 ==> p.saw(size).step()
            == ProbeStep::GivenUp,
        size == p.last ==> p.saw(size).stable == p.stable + 1,
        p.saw(size).polls == p.polls + 1,
        p.saw(size).last == size,
{
}

/// Cancelling takes exactly the cancelled paths out of those awaited.
pub proof fn only_cancelled_paths_are_dropped(
    m: SchedulerModel,
    cancel: Seq<Seq<char>>,
    path: Seq<char>,
)
    ensures
        all_cancelled(m, cancel).pending.contains_key(path) <==> m.pending.contains_key(path)
            && !cancel.contains(path),
        all_cancelled(m, cancel).pending.contains_key(path) ==> all_cancelled(m, cancel).pending[path]
            == m.pending[path],
        all_cancelled(m, cancel).waiting == m.waiting,
        all_cancelled(m, cancel).working == m.working,
        all_cancelled(m, cancel).next_generation == m.next_generation,
    decreases cancel.len(),
{
    if cancel.len() > 0 {
        let rest = cancel.drop_last();
        only_cancelled_paths_are_dropped(m, rest, path);
        if cancel.contains(path) && path != cancel.last() {
            let i = choose|i: int| 0 <= i < cancel.len() && cancel[i] == path;
            assert(rest[i] == path);
        }
        if rest.contains(path) {
            let i = choose|i: int| 0 <= i < rest.len() && rest[i] == path;
            assert(cancel[i] == path);
        }
        assert(cancel[cancel.len() - 1] == cancel.last());
    }
}

/// The arrival at `i` is the first of its path.
pub open spec fn is_first(arrivals: Seq<Arrival>, i: int) -> bool {
    forall|k: int| 0 <= k < i ==> (#[trigger] arrivals[k]).path@ != arrivals[i].path@
}

/// Of the arrivals exactly those are awaited that are worth waiting for and
/// the first of their path; no path is awaited twice.
pub proof fn arrivals_are_awaited_once(arrivals: Seq<Arrival>, config: WatchConfig, i: int)
    requires
        0 <= i < arrivals.len(),
    ensures
        is_first(arrivals, i) ==> (awaited(arrivals, config).contains(arrivals[i]) <==> config.awaits(
            arrivals[i].is_file,
            match arrivals[i].name {
                Some(n) => Some(n@),
                None => None,
            },
        )),
        forall|a: int, b: int|
            0 <= a < b < awaited(arrivals, config).len() ==> (#[trigger] awaited(
                arrivals,
                config,
            )[a]).path@ != (#[trigger] awaited(arrivals, config)[b]).path@,
{
    awaited_are_arrivals(arrivals, config);
    if is_first(arrivals, i) {
        first_is_awaited(arrivals, config, i);
    }
}

proof fn awaited_are_arrivals(arrivals: Seq<Arrival>, config: WatchConfig)
    ensures
        forall|a: int|
            0 <= a < awaited(arrivals, config).len() ==> arrival_paths(arrivals).contains(
                (#[trigger] awaited(arrivals, config)[a]).path@,
            ),
        forall|a: int, b: int|
            0 <= a < b < awaited(arrivals, config).len() ==> (#[trigger] awaited(
                arrivals,
                config,
            )[a]).path@ != (#[trigger] awaited(arrivals, config)[b]).path@,
    decreases arrivals.len(),
{
    if arrivals.len() > 0 {
        let short = arrivals.drop_last();
        let last = arrivals.last();
        let earlier = awaited(short, config);
        let all = awaited(arrivals, config);
        awaited_are_arrivals(short, config);
        assert forall|a: int| 0 <= a < all.len() implies arrival_paths(arrivals).contains(
            (#[trigger] all[a]).path@,
        ) by {
            if a < earlier.len() {
                assert(all[a] == earlier[a]);
                let k = choose|k: int|
                    0 <= k < arrival_paths(short).len() && arrival_paths(short)[k]
                        == earlier[a].path@;
                assert(arrival_paths(arrivals)[k] == all[a].path@);
            } else {
                assert(arrival_paths(arrivals)[arrivals.len() - 1] == all[a].path@);
            }
        }
        assert forall|a: int, b: int| 0 <= a < b < all.len() implies (#[trigger] all[a]).path@ != (
        #[trigger] all[b]).path@ by {
            assert(all[a] == earlier[a]);
            if b < earlier.len() {
                assert(all[b] == earlier[b]);
            } else {
                assert(arrival_paths(short).contains(earlier[a].path@));
            }
        }
    }
}

proof fn first_is_awaited(arrivals: Seq<Arrival>, config: WatchConfig, i: int)
    requires
        0 <= i < arrivals.len(),
        is_first(arrivals, i),
    ensures
        awaited(arrivals, config).contains(arrivals[i]) <==> config.awaits(
            arrivals[i].is_file,
            match arrivals[i].name {
                Some(n) => Some(n@),
                None => None,
            },
        ),
    decreases arrivals.len(),
{
    let short = arrivals.drop_last();
    let last = arrivals.last();
    let earlier = awaited(short, config);
    let all = awaited(arrivals, config);
    let x = arrivals[i];
    awaited_are_arrivals(short, config);
    if i < arrivals.len() - 1 {
        assert forall|k: int| 0 <= k < i implies (#[trigger] short[k]).path@ != short[i].path@ by {
            assert(short[k] == arrivals[k]);
        }
        first_is_awaited(short, config, i);
        if earlier.contains(x) {
            let a = choose|a: int| 0 <= a < earlier.len() && earlier[a] == x;
            assert(all[a] == x);
        }
        if all.contains(x) {
            let a = choose|a: int| 0 <= a < all.len() && all[a] == x;
            if a < earlier.len() {
                assert(earlier[a] == x);
            } else {
                assert(arrival_paths(short)[i] == x.path@);
            }
        }
    } else {
        if arrival_paths(short).contains(x.path@) {
            let k = choose|k: int|
                0 <= k < arrival_paths(short).len() && arrival_paths(short)[k] == x.path@;
            assert(arrivals[k].path@ == x.path@);
        }
        if all.len() > earlier.len() {
            assert(all.last() == x);
        }
        if earlier.contains(x) {
            let a = choose|a: int| 0 <= a < earlier.len() && earlier[a] == x;
            assert(arrival_paths(short).contains(earlier[a].path@));
        }
    }
}

/// Where everything found room, every arrival is awaited, and so is all that
/// was awaited before.
pub proof fn every_arrival_finds_room(
    m: SchedulerModel,
    arrivals: Seq<Arrival>,
    i: int,
    other: Seq<char>,
)
    requires
        all_scheduled(m, arrivals).1,
    ensures
        0 <= i < arrivals.len() ==> all_scheduled(m, arrivals).0.pending.contains_key(
            arrivals[i].path@,
        ),
        m.pending.contains_key(other) ==> all_scheduled(m, arrivals).0.pending.contains_key(other),
    decreases arrivals.len(),
{
    if arrivals.len() > 0 {
        every_arrival_finds_room(m, arrivals.drop_last(), i, other);
    }
}

/// Where watched directories change, exactly those paths are awaited on that
/// are not known to lie outside of all of them.
pub proof fn covered_paths_are_awaited_on(
    pending: Map<Seq<char>, PendingStable>,
    known: Seq<paths::KnownModel>,
    roots: Seq<paths::KnownModel>,
    path: Seq<char>,
)
    ensures
        still_covered(pending, known, roots).contains_key(path) <==> pending.contains_key(path)
            && forall|i: int|
            0 <= i < known.len() && (#[trigger] known[i]).text == path ==> exists|j: int|
                0 <= j < roots.len() && (#[trigger] roots[j]).key.is_prefix_of(known[i].key),
        still_covered(pending, known, roots).contains_key(path) ==> still_covered(
            pending,
            known,
            roots,
        )[path] == pending[path],
    decreases known.len(),
{
    if known.len() > 0 {
        let rest = known.drop_last();
        let last = known.last();
        covered_paths_are_awaited_on(pending, rest, roots, path);
        assert(known[known.len() - 1] == last);
        assert(paths::covered(last, roots) == exists|j: int|
            0 <= j < roots.len() && (#[trigger] roots[j]).key.is_prefix_of(last.key)) by {
            if paths::covered(last, roots) {
                let j = choose|j: int|
                    0 <= j < roots.len() && paths::lies_in(last, #[trigger] roots[j]);
                assert(roots[j].key.is_prefix_of(last.key));
            }
            if exists|j: int|
                0 <= j < roots.len() && (#[trigger] roots[j]).key.is_prefix_of(last.key) {
                let j = choose|j: int|
                    0 <= j < roots.len() && (#[trigger] roots[j]).key.is_prefix_of(last.key);
                assert(paths::lies_in(last, roots[j]));
            }
        }
        assert forall|i: int| 0 <= i < rest.len() implies #[trigger] rest[i] == known[i] by {}
        if still_covered(pending, known, roots).contains_key(path) {
            assert forall|i: int| 0 <= i < known.len() && (#[trigger] known[i]).text
                == path implies exists|j: int|
                0 <= j < roots.len() && (#[trigger] roots[j]).key.is_prefix_of(known[i].key) by {
                if i < rest.len() {
                    assert(rest[i] == known[i]);
                }
            }
        }
    }
}

} // verus!
