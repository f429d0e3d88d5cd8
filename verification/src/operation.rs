//! Operations in normalized form, and the records of how far they have come.
//!
//! An operation first generates the compare-and-sets that make it up, then has
//! them carried out, then wraps up: it completes with an output, or starts over.
//! Each stage is a new record; records are never changed. A box keeps the
//! records of one operation in the order in which they were installed, so a
//! record is found again by its index there, and the current one is the last.
use vstd::prelude::*;

use crate::calls::Calls;
use crate::cas::{commit, CasExecutionFailure, CasList};
use crate::contention::{Contention, ContentionMeasure};
use crate::run::RETRY_THRESHOLD;

verus! {

/// A lock-free algorithm in normalized form.
pub trait NormalizedLockFree {
    /// The compare-and-sets that make up an operation.
    type CommitDescriptor: Clone + CasList;

    /// What an operation results in.
    type Output: Clone;

    /// What an operation is given.
    type Input: Clone;

    /// Finds out which compare-and-sets would perform the operation.
    fn generator(
        &self,
        op: &Self::Input,
        contention: &mut ContentionMeasure,
    ) -> Result<Self::CommitDescriptor, Contention>;

    /// Draws the conclusion from how the compare-and-sets went: the operation's
    /// output, or that it has to start over.
    fn wrap_up(
        &self,
        executed: Result<(), usize>,
        performed: &Self::CommitDescriptor,
        contention: &mut ContentionMeasure,
    ) -> Result<Option<Self::Output>, Contention>;

    /// Tries to perform the operation without help.
    fn fast_path(
        &self,
        op: &Self::Input,
        contention: &mut ContentionMeasure,
    ) -> Result<Self::Output, Contention>;
}

/// Whether `algorithm` can have answered `answer` when asked to generate.
pub open spec fn generated<LF: NormalizedLockFree>(
    algorithm: LF,
    op: LF::Input,
    answer: Result<LF::CommitDescriptor, Contention>,
) -> bool {
    exists|c: &mut ContentionMeasure|
        (*c)@ == 0 && #[trigger] call_ensures(LF::generator, (&algorithm, &op, c), answer)
}

/// Whether `algorithm` can have answered `answer` when asked to wrap up.
pub open spec fn wrapped_up<LF: NormalizedLockFree>(
    algorithm: LF,
    executed: Result<(), usize>,
    performed: LF::CommitDescriptor,
    answer: Result<Option<LF::Output>, Contention>,
) -> bool {
    exists|c: &mut ContentionMeasure|
        (*c)@ == 0 && #[trigger] call_ensures(
            LF::wrap_up,
            (&algorithm, executed, &performed, c),
            answer,
        )
}

/// Whether `algorithm` can have answered `answer` on the fast path.
pub open spec fn went_fast<LF: NormalizedLockFree>(
    algorithm: LF,
    op: LF::Input,
    answer: Result<LF::Output, Contention>,
) -> bool {
    exists|c: &mut ContentionMeasure|
        (*c)@ == 0 && #[trigger] call_ensures(LF::fast_path, (&algorithm, &op, c), answer)
}

/// Whether `algorithm` can have answered `answer` on the fast path, when `t` calls
/// had been made.
pub open spec fn went_fast_at<LF: NormalizedLockFree>(
    algorithm: LF,
    op: LF::Input,
    answer: Result<LF::Output, Contention>,
    t: nat,
) -> bool {
    exists|n: &mut Calls|
        (*n)@ == t && #[trigger] call_ensures(Calls::fast_path::<LF>, (n, &algorithm, &op), answer)
}

/// Whether `record` can have been found to call for `step`, when `t` calls had
/// been made.
pub open spec fn planned_at<LF: NormalizedLockFree>(
    record: OperationRecord<LF>,
    algorithm: LF,
    step: HelpStep<LF>,
    t: nat,
) -> bool {
    exists|n: &mut Calls|
        (*n)@ == t && #[trigger] call_ensures(Calls::plan::<LF>, (n, &record, &algorithm), step)
}

/// Whether `tries` can be the answers of `algorithm` on the fast path, tried
/// with a fresh measure each time, one after the other from the time that `t` calls
/// had been made, until it succeeds or has met contention too often.
pub open spec fn tried_fast<LF: NormalizedLockFree>(
    algorithm: LF,
    op: LF::Input,
    tries: Seq<Result<LF::Output, Contention>>,
    t: nat,
) -> bool {
    &&& 0 < tries.len() <= RETRY_THRESHOLD + 2
    &&& forall|k: int| 0 <= k < tries.len() ==> went_fast(algorithm, op, #[trigger] tries[k])
    &&& forall|k: int|
        0 <= k < tries.len() ==> went_fast_at(algorithm, op, #[trigger] tries[k], (t + k) as nat)
    &&& forall|k: int| 0 <= k < tries.len() - 1 ==> (#[trigger] tries[k]) is Err
    &&& tries.last() is Ok || tries.len() == RETRY_THRESHOLD + 2
}

/// Whether carrying out `descriptors` with a fresh measure can have ended with
/// `result`.
pub open spec fn carried<D: CasList>(
    descriptors: D,
    result: Result<(), CasExecutionFailure>,
) -> bool {
    exists|after: usize, ends: spec_fn(&mut ContentionMeasure) -> usize| #[trigger]
        crate::cas::committed(descriptors, 0, after, ends, result)
}

/// How far an operation has come.
pub enum OperationState<LF: NormalizedLockFree> {
    /// Its compare-and-sets have to be generated.
    PreCas,
    /// They have to be carried out.
    ExecuteCas(LF::CommitDescriptor),
    /// They have been carried out, with this outcome; a failure tells which one
    /// failed.
    PostCas(LF::CommitDescriptor, Result<(), usize>),
    /// It has an output.
    Completed(LF::Output),
}

/// The call that the record of an operation asks for.
pub enum RecordCall<'a, LF: NormalizedLockFree> {
    /// The operation is removed from the queue.
    Remove,
    /// The algorithm generates the compare-and-sets for this input.
    Generate(&'a LF::Input),
    /// These compare-and-sets are carried out.
    Execute(&'a LF::CommitDescriptor),
    /// The algorithm wraps up after these compare-and-sets went like this.
    WrapUp(&'a LF::CommitDescriptor, Result<(), usize>),
}

/// What the record of an operation calls for.
pub enum HelpStep<LF: NormalizedLockFree> {
    /// The operation has completed and is to be removed from the queue.
    Remove,
    /// There was contention; the record is to be read again.
    Retry,
    /// The operation has come further, to this record.
    Advance(OperationRecord<LF>),
}

/// What one step of helping an operation has come to.
#[derive(Clone, Copy)]
pub enum HelpEnd {
    /// The operation has completed and is not in the queue.
    Left,
    /// There was contention, and nothing has changed.
    Refused,
    /// The operation has come one stage further.
    Gained,
}

/// One stage of an operation.
pub struct OperationRecord<LF: NormalizedLockFree> {
    /// The number of the thread that asked for help with the operation.
    pub owner: u64,
    /// How far it has come.
    pub state: OperationState<LF>,
    /// What it was given.
    pub input: LF::Input,
}

impl<LF: NormalizedLockFree> OperationRecord<LF> {
    /// The first stage of an operation of thread `owner`.
    pub open spec fn initial(owner: u64, input: LF::Input) -> Self {
        OperationRecord { owner, state: OperationState::PreCas, input }
    }

    /// Whether `other` belongs to the same thread and was given a clone of the
    /// same input.
    pub open spec fn same_operation(self, other: Self) -> bool {
        &&& other.owner == self.owner
        &&& vstd::pervasive::strictly_cloned(self.input, other.input)
    }

    /// Whether `next` is the stage that follows this one, by what `algorithm`
    /// and the compare-and-sets answered.
    pub open spec fn leads_to(self, algorithm: LF, next: Self) -> bool {
        &&& self.same_operation(next)
        &&& match (self.state, next.state) {
            (OperationState::PreCas, OperationState::ExecuteCas(list)) => generated(
                algorithm,
                self.input,
                Ok(list),
            ),
            (OperationState::ExecuteCas(list), OperationState::PostCas(copy, outcome)) => {
                &&& vstd::pervasive::strictly_cloned(list, copy)
                &&& carried(
                    list,
                    match outcome {
                        Ok(_) => Ok(()),
                        Err(i) => Err(CasExecutionFailure::CasFailed(i)),
                    },
                )
            },
            (OperationState::PostCas(list, outcome), OperationState::Completed(output)) =>
                wrapped_up(algorithm, outcome, list, Ok(Some(output))),
            (OperationState::PostCas(list, outcome), OperationState::PreCas) => wrapped_up(
                algorithm,
                outcome,
                list,
                Ok(None),
            ),
            _ => false,
        }
    }

    /// Whether `algorithm` or the compare-and-sets refused this stage because
    /// of contention.
    pub open spec fn refused(self, algorithm: LF) -> bool {
        match self.state {
            OperationState::PreCas => generated(algorithm, self.input, Err(Contention)),
            OperationState::ExecuteCas(list) => carried(
                list,
                Err(CasExecutionFailure::Contention),
            ),
            OperationState::PostCas(list, outcome) => wrapped_up(
                algorithm,
                outcome,
                list,
                Err(Contention),
            ),
            OperationState::Completed(_) => false,
        }
    }

    /// Whether the operation has an output.
    pub open spec fn completed(self) -> bool {
        self.state is Completed
    }

    /// The call that this record asks for, and no other.
    pub fn call(&self) -> (call: RecordCall<'_, LF>)
        ensures
            match (self.state, call) {
                (OperationState::Completed(_), RecordCall::Remove) => true,
                (OperationState::PreCas, RecordCall::Generate(op)) => *op == self.input,
                (OperationState::ExecuteCas(list), RecordCall::Execute(descriptors)) => list
                    == *descriptors,
                (
                    OperationState::PostCas(list, outcome),
                    RecordCall::WrapUp(performed, executed),
                ) => list == *performed && outcome == executed,
                _ => false,
            },
    {
        match &self.state {
            OperationState::Completed(_) => RecordCall::Remove,
            OperationState::PreCas => RecordCall::Generate(&self.input),
            OperationState::ExecuteCas(list) => RecordCall::Execute(list),
            OperationState::PostCas(list, outcome) => RecordCall::WrapUp(list, *outcome),
        }
    }

    /// Finds out what this record calls for, by making the call that it asks
    /// for, with a fresh measure.
    pub fn plan(&self, algorithm: &LF) -> (step: HelpStep<LF>)
        ensures
            step is Remove <==> self.completed(),
            step is Retry ==> self.refused(*algorithm),
            step matches HelpStep::Advance(next) ==> self.leads_to(*algorithm, next),
    {
        let mut contention = ContentionMeasure::new();
        let next: Option<OperationRecord<LF>> = match self.call() {
            RecordCall::Remove => {
                return HelpStep::Remove;
            },
            RecordCall::Generate(op) => {
                let answer = algorithm.generator(op, &mut contention);
                assert(generated(*algorithm, self.input, answer));
                assert(answer is Err ==> answer->Err_0 == Contention);
                self.after_generator(answer)
            },
            RecordCall::Execute(list) => {
                let answer = commit(list, &mut contention);
                assert(answer is Ok ==> answer->Ok_0 == ());
                assert(carried(*list, answer));
                let next = self.after_executor(list, answer);
                assert(next matches Some(r) ==> self.leads_to(*algorithm, r)) by {
                    if next is Some {
                        assert(carried(
                            *list,
                            match next->Some_0.state->PostCas_1 {
                                Ok(_) => Ok(()),
                                Err(i) => Err(CasExecutionFailure::CasFailed(i)),
                            },
                        ));
                    }
                }
                next
            },
            RecordCall::WrapUp(list, outcome) => {
                let answer = algorithm.wrap_up(outcome, list, &mut contention);
                assert(wrapped_up(*algorithm, outcome, *list, answer));
                assert(answer is Err ==> answer->Err_0 == Contention);
                self.after_wrap_up(answer)
            },
        };
        match next {
            Some(next) => HelpStep::Advance(next),
            None => HelpStep::Retry,
        }
    }

    /// The same operation at another stage.
    fn at(&self, state: OperationState<LF>) -> (next: Self)
        ensures
            self.same_operation(next),
            next.state == state,
    {
        OperationRecord { owner: self.owner, state, input: self.input.clone() }
    }

    /// The stage after the compare-and-sets have been asked for, unless there
    /// was contention.
    pub fn after_generator(
        &self,
        answer: Result<LF::CommitDescriptor, Contention>,
    ) -> (next: Option<Self>)
        ensures
            match answer {
                Ok(list) => next matches Some(r) && self.same_operation(r) && r.state
                    == OperationState::<LF>::ExecuteCas(list),
                Err(_) => next is None,
            },
    {
        match answer {
            Ok(list) => Some(self.at(OperationState::ExecuteCas(list))),
            Err(_) => None,
        }
    }

    /// The stage after the compare-and-sets `list` have been carried out, unless
    /// there was contention.
    pub fn after_executor(
        &self,
        list: &LF::CommitDescriptor,
        answer: Result<(), CasExecutionFailure>,
    ) -> (next: Option<Self>)
        ensures
            match answer {
                Err(CasExecutionFailure::Contention) => next is None,
                _ => next matches Some(r) && self.same_operation(r) && (
                r.state matches OperationState::PostCas(copy, outcome)
                    && vstd::pervasive::strictly_cloned(*list, copy) && outcome == match answer {
                    Err(CasExecutionFailure::CasFailed(i)) => Err::<(), usize>(i),
                    _ => Ok(()),
                }),
            },
    {
        let outcome: Result<(), usize> = match answer {
            Ok(()) => Ok(()),
            Err(CasExecutionFailure::CasFailed(i)) => Err(i),
            Err(CasExecutionFailure::Contention) => {
                return None;
            },
        };
        Some(self.at(OperationState::PostCas(list.clone(), outcome)))
    }

    /// The stage after wrapping up, unless there was contention.
    pub fn after_wrap_up(
        &self,
        answer: Result<Option<LF::Output>, Contention>,
    ) -> (next: Option<Self>)
        ensures
            match answer {
                Ok(done) => next matches Some(r) && self.same_operation(r) && r.state
                    == match done {
                    Some(output) => OperationState::<LF>::Completed(output),
                    None => OperationState::PreCas,
                },
                Err(_) => next is None,
            },
    {
        match answer {
            Ok(Some(output)) => Some(self.at(OperationState::Completed(output))),
            Ok(None) => Some(self.at(OperationState::PreCas)),
            Err(_) => None,
        }
    }
}

/// The records of one operation.
pub struct OperationRecordBox<LF: NormalizedLockFree> {
    records: Vec<OperationRecord<LF>>,
}

impl<LF: NormalizedLockFree> View for OperationRecordBox<LF> {
    type V = Seq<OperationRecord<LF>>;

    /// All records, in the order in which they were installed.
    closed spec fn view(&self) -> Seq<OperationRecord<LF>> {
        self.records@
    }
}

impl<LF: NormalizedLockFree> OperationRecordBox<LF> {
    /// A box for an operation of thread `owner` that has yet to start.
    pub fn new(owner: u64, input: LF::Input) -> (orb: Self)
        ensures
            orb@ == seq![OperationRecord::<LF>::initial(owner, input)],
    {
        let mut records: Vec<OperationRecord<LF>> = Vec::new();
        records.push(OperationRecord { owner, state: OperationState::PreCas, input });
        let orb = OperationRecordBox { records };
        assert(orb@ =~= seq![OperationRecord::<LF>::initial(owner, input)]);
        orb
    }

    /// Which record is current, as its place in the order of installation.
    pub fn load(&self) -> (seen: usize)
        requires
            self@.len() > 0,
        ensures
            seen == self@.len() - 1,
    {
        self.records.len() - 1
    }

    /// The record at `seen`.
    pub fn record(&self, seen: usize) -> (record: &OperationRecord<LF>)
        requires
            seen < self@.len(),
        ensures
            *record == self@[seen as int],
    {
        &self.records[seen]
    }

    /// Installs `updated` if the record at `seen` is still current; says whether
    /// it did.
    pub fn compare_exchange(&mut self, seen: usize, updated: OperationRecord<LF>) -> (done: bool)
        requires
            seen < old(self)@.len(),
        ensures
            done == (seen == old(self)@.len() - 1),
            final(self)@ == if done {
                old(self)@.push(updated)
            } else {
                old(self)@
            },
    {
        if seen != self.load() {
            return false;
        }
        self.records.push(updated);
        true
    }
}

} // verus!
