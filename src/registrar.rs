//! Running a plan against a catalog, one call at a time: the registrar says
//! which call to make, the caller makes it and hands back what the catalog
//! answered. The first refusal ends the run; the record is registered only
//! after every step before it succeeded.
use vstd::prelude::*;

use crate::descriptor::{decimal, TypeDescriptor};
use crate::plan::{all_items, dedup, is_plan_for, record_realized, step_realizes, FieldDecl, Step, StepKind};

verus! {

/// A field of a registration call, referring to a catalog identifier.
pub struct FieldId {
    pub name: String,
    pub id: u64,
}

/// One call to make on the catalog.
pub enum Request {
    Leaf { name: String },
    Array { name: String, element: u64, count: u32 },
    Struct { name: String, fields: Vec<FieldId> },
}

/// Every reference of step `i` is to an earlier step.
pub open spec fn refs_earlier(steps: Seq<Step>, i: int) -> bool {
    match steps[i].kind {
        StepKind::Leaf => true,
        StepKind::Array { element, .. } => element < i,
        StepKind::Struct { fields } => forall|j: int|
            0 <= j < fields@.len() ==> #[trigger] fields@[j].target < i,
    }
}

/// A plan that can be run: at least one step, each referring to earlier
/// steps only.
pub open spec fn runnable(steps: Seq<Step>) -> bool {
    &&& steps.len() > 0
    &&& forall|i: int| 0 <= i < steps.len() ==> #[trigger] refs_earlier(steps, i)
}

/// Step `i` made into a call, with each reference replaced by the
/// identifier the catalog gave the referenced step.
pub open spec fn request_for(steps: Seq<Step>, ids: Seq<u64>, i: int, r: Request) -> bool {
    match (steps[i].kind, r) {
        (StepKind::Leaf, Request::Leaf { name }) => name@ == steps[i].name@,
        (StepKind::Array { element, count }, Request::Array { name, element: e, count: n }) => {
            &&& name@ == steps[i].name@
            &&& e == ids[element as int]
            &&& n == count
        },
        (StepKind::Struct { fields }, Request::Struct { name, fields: fs }) => {
            &&& name@ == steps[i].name@
            &&& fs@.len() == fields@.len()
            &&& forall|j: int|
                0 <= j < fs@.len() ==> #[trigger] fs@[j].name@ == fields@[j].name@ && fs@[j].id
                    == ids[fields@[j].target as int]
        },
        _ => false,
    }
}

/// The state of a run over a plan of `n` steps after one more answer of the
/// catalog: the identifiers of the steps done so far, and the refusal that
/// ended the run, if one did. Once ended, a run stays as it is.
pub open spec fn advance<E>(n: nat, st: (Seq<u64>, Option<E>), answer: Result<u64, E>) -> (Seq<u64>, Option<E>) {
    if st.1.is_some() || st.0.len() >= n {
        st
    } else {
        match answer {
            Ok(id) => (st.0.push(id), None),
            Err(e) => (st.0, Some(e)),
        }
    }
}

/// The state of a run over a plan of `n` steps after the given answers.
pub open spec fn replay<E>(n: nat, answers: Seq<Result<u64, E>>) -> (Seq<u64>, Option<E>)
    decreases answers.len(),
{
    if answers.len() == 0 {
        (Seq::empty(), None)
    } else {
        advance(n, replay(n, answers.drop_last()), answers.last())
    }
}

/// A run has ended when a step was refused or every step is done.
pub open spec fn run_finished<E>(n: nat, st: (Seq<u64>, Option<E>)) -> bool {
    st.1.is_some() || st.0.len() >= n
}

/// Failure propagation: when the catalog refuses step `k` of a plan, and
/// that step comes before the record's own step (the last), the run ends
/// with that refusal, holding identifiers for the steps before `k` only:
/// the record is never registered, whatever the catalog answers afterwards.
pub proof fn lemma_refusal_ends_run<E>(n: nat, answers: Seq<Result<u64, E>>, k: int)
    requires
        0 <= k < n - 1,
        k < answers.len(),
        answers[k] is Err,
        forall|j: int| 0 <= j < k ==> #[trigger] answers[j] is Ok,
    ensures
        replay(n, answers).1 == Some(answers[k]->Err_0),
        replay(n, answers).0.len() == k,
        replay(n, answers).0.len() < n - 1,
    decreases answers.len(),
{
    if answers.len() == k + 1 {
        lemma_replay_ok_prefix(n, answers.drop_last());
    } else {
        let p = answers.drop_last();
        assert forall|j: int| 0 <= j < k implies #[trigger] p[j] is Ok by {
            assert(p[j] == answers[j]);
        }
        lemma_refusal_ends_run(n, p, k);
    }
}

proof fn lemma_replay_ok_prefix<E>(n: nat, answers: Seq<Result<u64, E>>)
    requires
        answers.len() < n,
        forall|j: int| 0 <= j < answers.len() ==> #[trigger] answers[j] is Ok,
    ensures
        replay(n, answers).1.is_none(),
        replay(n, answers).0.len() == answers.len(),
    decreases answers.len(),
{
    if answers.len() > 0 {
        let p = answers.drop_last();
        assert forall|j: int| 0 <= j < p.len() implies #[trigger] p[j] is Ok by {
            assert(p[j] == answers[j]);
        }
        lemma_replay_ok_prefix(n, p);
    }
}

/// Ordering of a synthesized plan: in the plan owed for a record, every step
/// refers only to steps before it, so that running it front to back
/// registers each dependency before anything that refers to it.
pub proof fn lemma_plan_runnable(steps: Seq<Step>, record: Seq<char>, fields: Seq<FieldDecl>)
    requires
        is_plan_for(steps, record, fields),
    ensures
        runnable(steps),
{
    let d = dedup(all_items(record, fields));
    assert forall|i: int| 0 <= i < steps.len() implies #[trigger] refs_earlier(steps, i) by {
        if i < d.len() {
            assert(step_realizes(steps, i, d[i]));
            match d[i].1 {
                TypeDescriptor::Tuple { elements } => {
                    if let StepKind::Struct { fields: refs } = steps[i].kind {
                        assert forall|j: int| 0 <= j < refs@.len() implies #[trigger] refs@[j].target < i by {
                            assert(refs@[j].name@ == decimal(j as nat));
                        }
                    }
                },
                _ => {},
            }
        } else {
            assert(record_realized(steps, record, fields));
            if let StepKind::Struct { fields: refs } = steps[i].kind {
                assert forall|j: int| 0 <= j < refs@.len() implies #[trigger] refs@[j].target < i by {
                    assert(refs@[j].name@ == fields[j].name@);
                }
            }
        }
    }
}

/// A run of a plan against a catalog.
pub struct Registrar<E> {
    steps: Vec<Step>,
    ids: Vec<u64>,
    failure: Option<E>,
}

impl<E> Registrar<E> {
    /// The steps of the plan being run.
    pub closed spec fn plan(&self) -> Seq<Step> {
        self.steps@
    }

    /// Where the run stands: the identifiers so far and the refusal, if any.
    pub closed spec fn state(&self) -> (Seq<u64>, Option<E>) {
        (self.ids@, self.failure)
    }

    pub closed spec fn wf(&self) -> bool {
        &&& runnable(self.steps@)
        &&& self.ids@.len() <= self.steps@.len()
    }

    /// Starts a run of `steps`; `None` where the plan is empty or a step
    /// refers to itself or to a later step.
    pub fn new(steps: Vec<Step>) -> (r: Option<Self>)
        ensures
            match r {
                Some(reg) => runnable(steps@) && reg.wf() && reg.plan() == steps@ && reg.state() == (
                Seq::<u64>::empty(), None::<E>),
                None => !runnable(steps@),
            },
    {
        if steps.len() == 0 {
            return None;
        }
        let mut i: usize = 0;
        while i < steps.len()
            invariant
                0 <= i <= steps@.len(),
                forall|k: int| 0 <= k < i ==> #[trigger] refs_earlier(steps@, k),
            decreases steps@.len() - i,
        {
            match &steps[i].kind {
                StepKind::Leaf => {},
                StepKind::Array { element, .. } => {
                    if *element >= i {
                        assert(!refs_earlier(steps@, i as int));
                        return None;
                    }
                },
                StepKind::Struct { fields } => {
                    let mut j: usize = 0;
                    while j < fields.len()
                        invariant
                            0 <= j <= fields@.len(),
                            forall|m: int| 0 <= m < j ==> #[trigger] fields@[m].target < i,
                            i < steps@.len(),
                            steps@[i as int].kind == (StepKind::Struct { fields: *fields }),
                        decreases fields@.len() - j,
                    {
                        if fields[j].target >= i {
                            assert(steps@[i as int].kind->Struct_fields@[j as int].target >= i);
                            assert(!refs_earlier(steps@, i as int));
                            return None;
                        }
                        j = j + 1;
                    }
                    assert(refs_earlier(steps@, i as int));
                },
            }
            i = i + 1;
        }
        Some(Registrar { steps, ids: Vec::new(), failure: None })
    }

    /// Whether the run has ended, by a refusal or with every step done.
    pub fn is_finished(&self) -> (r: bool)
        requires
            self.wf(),
        ensures
            r == run_finished(self.plan().len(), self.state()),
    {
        self.failure.is_some() || self.ids.len() >= self.steps.len()
    }

    /// The call to make next: the first step not yet done, its references
    /// resolved to the identifiers the catalog gave.
    pub fn pending(&self) -> (r: Request)
        requires
            self.wf(),
            !run_finished(self.plan().len(), self.state()),
        ensures
            request_for(self.plan(), self.state().0, self.state().0.len() as int, r),
    {
        let i = self.ids.len();
        let step = &self.steps[i];
        assert(refs_earlier(self.steps@, i as int));
        match &step.kind {
            StepKind::Leaf => Request::Leaf { name: step.name.clone() },
            StepKind::Array { element, count } => Request::Array {
                name: step.name.clone(),
                element: self.ids[*element],
                count: *count,
            },
            StepKind::Struct { fields } => {
                let mut fs: Vec<FieldId> = Vec::new();
                let mut j: usize = 0;
                while j < fields.len()
                    invariant
                        0 <= j <= fields@.len(),
                        fs@.len() == j,
                        i == self.ids@.len(),
                        i < self.steps@.len(),
                        self.wf(),
                        step.kind == (StepKind::Struct { fields: *fields }),
                        refs_earlier(self.steps@, i as int),
                        *step == self.steps@[i as int],
                        forall|m: int|
                            0 <= m < j ==> #[trigger] fs@[m].name@ == fields@[m].name@ && fs@[m].id
                                == self.ids@[fields@[m].target as int],
                    decreases fields@.len() - j,
                {
                    assert(self.steps@[i as int].kind->Struct_fields@[j as int].target < i);
                    fs.push(FieldId { name: fields[j].name.clone(), id: self.ids[fields[j].target] });
                    j = j + 1;
                }
                Request::Struct { name: step.name.clone(), fields: fs }
            },
        }
    }

    /// Hands the registrar the catalog's answer to the pending call.
    pub fn complete(&mut self, answer: Result<u64, E>)
        requires
            old(self).wf(),
            !run_finished(old(self).plan().len(), old(self).state()),
        ensures
            final(self).wf(),
            final(self).plan() == old(self).plan(),
            final(self).state() == advance(old(self).plan().len(), old(self).state(), answer),
    {
        match answer {
            Ok(id) => self.ids.push(id),
            Err(e) => self.failure = Some(e),
        }
    }

    /// The outcome of a finished run: the record's identifier, or the
    /// catalog's refusal that ended the run.
    pub fn finish(self) -> (r: Result<u64, E>)
        requires
            self.wf(),
            run_finished(self.plan().len(), self.state()),
        ensures
            match self.state().1 {
                Some(e) => r == Err::<u64, E>(e),
                None => r == Ok::<u64, E>(self.state().0.last()),
            },
    {
        match self.failure {
            Some(e) => Err(e),
            None => Ok(self.ids[self.ids.len() - 1]),
        }
    }
}

} // verus!
