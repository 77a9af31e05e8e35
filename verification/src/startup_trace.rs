//! How long the stages of a start took.

use crate::text::same_text;
use vstd::prelude::*;

verus! {

/// A stage that was reached.
#[derive(Debug, PartialEq, Eq)]
pub struct StartupStage {
    pub name: String,
    pub elapsed_micros: u64,
}

/// The stages that were reached, in order.
#[derive(Debug)]
pub struct StartupTrace {
    stages: Vec<StartupStage>,
}

/// Notes when the program began; only the first time counts.
pub fn record_process_start(start: &mut Option<u64>, now: u64)
    ensures
        *final(start) == match *old(start) {
            Some(t) => Some(t),
            None => Some(now),
        },
{
    if start.is_none() {
        *start = Some(now);
    }
}

/// What stages are called and when they were reached.
pub open spec fn stage_models(v: Seq<StartupStage>) -> Seq<(Seq<char>, u64)> {
    v.map_values(|s: StartupStage| (s.name@, s.elapsed_micros))
}

/// A stage of that name is among `v`.
pub open spec fn reached(v: Seq<(Seq<char>, u64)>, name: Seq<char>) -> bool {
    exists|i: int| 0 <= i < v.len() && (#[trigger] v[i]).0 == name
}

/// The stages after one more was reached; each counts once.
pub open spec fn marked(v: Seq<(Seq<char>, u64)>, name: Seq<char>, elapsed_micros: u64) -> Seq<
    (Seq<char>, u64),
> {
    if reached(v, name) {
        v
    } else {
        v.push((name, elapsed_micros))
    }
}

impl View for StartupTrace {
    type V = Seq<(Seq<char>, u64)>;

    closed spec fn view(&self) -> Seq<(Seq<char>, u64)> {
        stage_models(self.stages@)
    }
}

impl StartupTrace {
    /// Begins with the start of the program.
    pub fn new(elapsed_micros: u64) -> (r: Self)
        ensures
            r@ == seq![("process-start"@, elapsed_micros)],
    {
        let mut r = StartupTrace { stages: Vec::new() };
        assert(r@ =~= Seq::empty());
        r.mark("process-start", elapsed_micros);
        assert(r@ =~= seq![("process-start"@, elapsed_micros)]);
        r
    }

    /// Notes a stage; says whether the trace is complete with it.
    pub fn mark(&mut self, name: &str, elapsed_micros: u64) -> (flush: bool)
        ensures
            final(self)@ == marked(old(self)@, name@, elapsed_micros),
            flush == (name@ == "interactive-frame"@ && !reached(old(self)@, name@)),
    {
        let ghost before = self@;
        for i in 0..self.stages.len()
            invariant
                *self == *old(self),
                before == self@,
                forall|j: int| 0 <= j < i ==> (#[trigger] before[j]).0 != name@,
        {
            assert(before[i as int].0 == self.stages@[i as int].name@);
            if same_text(self.stages[i].name.as_str(), name) {
                return false;
            }
        }
        self.stages.push(StartupStage { name: name.to_owned(), elapsed_micros });
        assert(self@ =~= before.push((name@, elapsed_micros)));
        same_text(name, "interactive-frame")
    }

    /// The stages so far.
    pub fn stages(&self) -> (r: Vec<StartupStage>)
        ensures
            stage_models(r@) == self@,
    {
        let mut r: Vec<StartupStage> = Vec::new();
        assert(stage_models(r@) =~= self@.take(0));
        for i in 0..self.stages.len()
            invariant
                stage_models(r@) == self@.take(i as int),
        {
            let ghost before = r@;
            r.push(
                StartupStage {
                    name: self.stages[i].name.clone(),
                    elapsed_micros: self.stages[i].elapsed_micros,
                },
            );
            assert(stage_models(r@) =~= stage_models(before).push(self@[i as int]));
            assert(self@.take(i + 1) =~= self@.take(i as int).push(self@[i as int]));
        }
        assert(self@.take(self@.len() as int) =~= self@);
        r
    }
}

/// Marking a stage again changes nothing, whenever that happens.
pub proof fn stage_is_recorded_once(
    v: Seq<(Seq<char>, u64)>,
    name: Seq<char>,
    elapsed_micros: u64,
    later_micros: u64,
)
    ensures
        marked(marked(v, name, elapsed_micros), name, later_micros) == marked(
            v,
            name,
            elapsed_micros,
        ),
{
    let once = marked(v, name, elapsed_micros);
    if !reached(v, name) {
        assert(once[v.len() as int].0 == name);
    }
}

/// Stages that were reached keep their order.
pub proof fn stages_keep_their_order(
    v: Seq<(Seq<char>, u64)>,
    name: Seq<char>,
    elapsed_micros: u64,
)
    ensures
        v.is_prefix_of(marked(v, name, elapsed_micros)),
{
    assert(v =~= marked(v, name, elapsed_micros).take(v.len() as int));
}

} // verus!
