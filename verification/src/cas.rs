//! Lists of compare-and-set operations that several handles carry out together.
use vstd::prelude::*;
use vstd::std_specs::convert::FromSpecImpl;

use crate::calls::Calls;
use crate::contention::{Contention, ContentionMeasure};

verus! {

/// How far one compare-and-set has come.
#[derive(Clone, Copy, Eq, PartialEq, Structural)]
pub enum CasState {
    /// It has taken effect.
    Success,
    /// It can no longer take effect.
    Failure,
    /// It has not been decided yet.
    Pending,
}

/// One compare-and-set that any handle can carry out for any other. All of its
/// methods may change what the others answer, and so may other handles.
pub trait VersionedCas {
    /// Tries to take effect.
    fn execute(&self, contention: &mut ContentionMeasure) -> Result<bool, Contention>;

    /// Whether it has left its mark on the value.
    fn has_modified_bit(&self) -> bool;

    /// Takes its mark off the value.
    fn clear_bit(&self) -> bool;

    /// How far it has come.
    fn state(&self) -> CasState;

    /// Records how far it has come.
    fn set_state(&self, new: CasState);
}

/// What is in a box does what it does without the box, so a list can hold
/// compare-and-sets of several kinds.
impl<C: VersionedCas + ?Sized> VersionedCas for Box<C> {
    fn execute(&self, contention: &mut ContentionMeasure) -> (answer: Result<bool, Contention>)
        ensures
            exists|c: &mut ContentionMeasure|
                *c == *old(contention) && *final(c) == *final(contention)
                    && #[trigger] call_ensures(C::execute, (&**self, c), answer),
    {
        (**self).execute(contention)
    }

    fn has_modified_bit(&self) -> (modified: bool)
        ensures
            call_ensures(C::has_modified_bit, (&**self,), modified),
    {
        (**self).has_modified_bit()
    }

    fn clear_bit(&self) -> (was: bool)
        ensures
            call_ensures(C::clear_bit, (&**self,), was),
    {
        (**self).clear_bit()
    }

    fn state(&self) -> (state: CasState)
        ensures
            call_ensures(C::state, (&**self,), state),
    {
        (**self).state()
    }

    fn set_state(&self, new: CasState)
        ensures
            call_ensures(C::set_state, (&**self, new), ()),
    {
        (**self).set_state(new)
    }
}

/// A commit descriptor: the list of compare-and-sets that make up an operation.
pub trait CasList {
    /// One compare-and-set of the list.
    type Cas: VersionedCas;

    /// The compare-and-sets, in the order in which they are to take effect.
    fn as_slice(&self) -> &[Self::Cas];
}

impl<C: VersionedCas> CasList for Vec<C> {
    type Cas = C;

    fn as_slice(&self) -> (list: &[C])
        ensures
            list@ == self@,
    {
        Vec::as_slice(self)
    }
}

/// Why a list of compare-and-sets was not carried out.
pub enum CasExecutionFailure {
    /// The one at this place in the list failed.
    CasFailed(usize),
    /// There was contention.
    Contention,
}

impl From<Contention> for CasExecutionFailure {
    fn from(_value: Contention) -> (failure: Self) {
        CasExecutionFailure::Contention
    }
}

impl FromSpecImpl<Contention> for CasExecutionFailure {
    open spec fn obeys_from_spec() -> bool {
        true
    }

    open spec fn from_spec(_value: Contention) -> Self {
        CasExecutionFailure::Contention
    }
}

/// Whether `cas` can have answered `answer` when it was tried with a measure
/// that had counted `before` and has counted `after` now. What a measure that is
/// handed over has counted in the end is what `ends` says.
pub open spec fn executed<C: VersionedCas>(
    cas: C,
    before: usize,
    after: usize,
    ends: spec_fn(&mut ContentionMeasure) -> usize,
    answer: Result<bool, Contention>,
) -> bool {
    exists|c: &mut ContentionMeasure|
        (*c)@ == before && ends(c) == after && #[trigger] call_ensures(
            C::execute,
            (&cas, c),
            answer,
        )
}

/// What a handle found when it came to one compare-and-set of a list.
#[derive(Clone, Copy)]
pub enum CasVisit {
    /// It had taken effect already.
    Done,
    /// It had failed already.
    Failed,
    /// It was undecided, and trying it met contention.
    Contended,
    /// It was undecided and has been tried.
    Tried {
        /// Whether it had left its mark then.
        modified: bool,
        /// How far it had come after that.
        reached: CasState,
    },
}

/// What is called next on a compare-and-set during a visit.
#[derive(Clone, Copy)]
pub enum CasCall {
    /// How far it has come is asked for.
    State,
    /// It is tried.
    Execute,
    /// Whether it has left its mark is asked for.
    HasModifiedBit,
    /// It is told that it has succeeded.
    SetSuccess,
    /// Its mark is taken off; `tried` tells whether it was tried before.
    Clear {
        /// Whether it was tried during the visit.
        tried: bool,
    },
    /// How far it has come is asked for again, after it was tried.
    StateAgain {
        /// Whether it had left its mark.
        modified: bool,
    },
    /// It is told that it has failed.
    SetFailure {
        /// Whether it had left its mark.
        modified: bool,
        /// How far it had come.
        reached: CasState,
    },
    /// The visit is over.
    End(CasVisit),
}

/// What a compare-and-set answers to a call.
pub enum CasAnswer {
    /// How far it has come.
    State(CasState),
    /// How the try went.
    Executed(Result<bool, Contention>),
    /// Whether it has left its mark.
    Modified(bool),
    /// Whether there was a mark to take off.
    Cleared(bool),
    /// It has been told.
    Told,
}

impl CasCall {
    /// Whether `answer` is an answer to this call.
    pub open spec fn takes(self, answer: CasAnswer) -> bool {
        match self {
            CasCall::State | CasCall::StateAgain { .. } => answer is State,
            CasCall::Execute => answer is Executed,
            CasCall::HasModifiedBit => answer is Modified,
            CasCall::Clear { .. } => answer is Cleared,
            CasCall::SetSuccess | CasCall::SetFailure { .. } => answer is Told,
            CasCall::End(_) => false,
        }
    }

    /// What is called after this call has been answered.
    ///
    /// A decided compare-and-set is left alone, but for the mark of one that has
    /// taken effect. An undecided one is tried; contention ends the visit. If it
    /// has left its mark then, it is told that it has succeeded and the mark is
    /// taken off. Only then is it asked how far it has come, and told that it
    /// has failed unless it has succeeded.
    pub open spec fn after(self, answer: CasAnswer) -> CasCall {
        match (self, answer) {
            (CasCall::State, CasAnswer::State(CasState::Success)) => CasCall::Clear {
                tried: false,
            },
            (CasCall::State, CasAnswer::State(CasState::Failure)) => CasCall::End(CasVisit::Failed),
            (CasCall::State, CasAnswer::State(CasState::Pending)) => CasCall::Execute,
            (CasCall::Clear { tried: false }, _) => CasCall::End(CasVisit::Done),
            (CasCall::Execute, CasAnswer::Executed(Err(_))) => CasCall::End(CasVisit::Contended),
            (CasCall::Execute, CasAnswer::Executed(Ok(_))) => CasCall::HasModifiedBit,
            (CasCall::HasModifiedBit, CasAnswer::Modified(true)) => CasCall::SetSuccess,
            (CasCall::HasModifiedBit, CasAnswer::Modified(false)) => CasCall::StateAgain {
                modified: false,
            },
            (CasCall::SetSuccess, _) => CasCall::Clear { tried: true },
            (CasCall::Clear { tried: true }, _) => CasCall::StateAgain { modified: true },
            (CasCall::StateAgain { modified }, CasAnswer::State(reached)) => if reached
                == CasState::Success {
                CasCall::End(CasVisit::Tried { modified, reached })
            } else {
                CasCall::SetFailure { modified, reached }
            },
            (CasCall::SetFailure { modified, reached }, _) => CasCall::End(
                CasVisit::Tried { modified, reached },
            ),
            _ => self,
        }
    }

    /// How many calls are left at most.
    pub open spec fn calls_left(self) -> nat {
        match self {
            CasCall::State => 8,
            CasCall::Execute => 7,
            CasCall::HasModifiedBit => 6,
            CasCall::SetSuccess => 5,
            CasCall::Clear { .. } => 4,
            CasCall::StateAgain { .. } => 3,
            CasCall::SetFailure { .. } => 2,
            CasCall::End(_) => 0,
        }
    }

    /// Whether `cas` can have answered `answer` to this call, made with a
    /// measure that had counted `before` and has counted `after` now. Only a try
    /// can change the measure.
    pub open spec fn answered<C: VersionedCas>(
        self,
        cas: C,
        answer: CasAnswer,
        before: usize,
        after: usize,
        ends: spec_fn(&mut ContentionMeasure) -> usize,
    ) -> bool {
        &&& self.takes(answer)
        &&& self is Execute || before == after
        &&& match (self, answer) {
            (CasCall::State, CasAnswer::State(s)) => call_ensures(C::state, (&cas,), s),
            (CasCall::StateAgain { .. }, CasAnswer::State(s)) => call_ensures(
                C::state,
                (&cas,),
                s,
            ),
            (CasCall::Execute, CasAnswer::Executed(r)) => executed(
                cas,
                before,
                after,
                ends,
                r,
            ),
            (CasCall::HasModifiedBit, CasAnswer::Modified(m)) => call_ensures(
                C::has_modified_bit,
                (&cas,),
                m,
            ),
            (CasCall::Clear { .. }, CasAnswer::Cleared(was)) => call_ensures(
                C::clear_bit,
                (&cas,),
                was,
            ),
            (CasCall::SetSuccess, _) => call_ensures(
                C::set_state,
                (&cas, CasState::Success),
                (),
            ),
            (CasCall::SetFailure { .. }, _) => call_ensures(
                C::set_state,
                (&cas, CasState::Failure),
                (),
            ),
            _ => false,
        }
    }

    /// Whether this call, made on `cas` when `t` calls had been made, can have
    /// been answered like this.
    pub open spec fn made_at<C: VersionedCas>(
        self,
        cas: C,
        answer: CasAnswer,
        before: usize,
        after: usize,
        ends: spec_fn(&mut ContentionMeasure) -> usize,
        t: nat,
    ) -> bool {
        match (self, answer) {
            (CasCall::State, CasAnswer::State(s)) => exists|n: &mut Calls|
                (*n)@ == t && #[trigger] call_ensures(Calls::state::<C>, (n, &cas), s),
            (CasCall::StateAgain { .. }, CasAnswer::State(s)) => exists|n: &mut Calls|
                (*n)@ == t && #[trigger] call_ensures(Calls::state::<C>, (n, &cas), s),
            (CasCall::Execute, CasAnswer::Executed(r)) => exists|
                n: &mut Calls,
                c: &mut ContentionMeasure,
            |
                (*n)@ == t && (*c)@ == before && ends(c) == after && #[trigger] call_ensures(
                    Calls::execute::<C>,
                    (n, &cas, c),
                    r,
                ),
            (CasCall::HasModifiedBit, CasAnswer::Modified(m)) => exists|n: &mut Calls|
                (*n)@ == t && #[trigger] call_ensures(Calls::has_modified_bit::<C>, (n, &cas), m),
            (CasCall::Clear { .. }, CasAnswer::Cleared(was)) => exists|n: &mut Calls|
                (*n)@ == t && #[trigger] call_ensures(Calls::clear_bit::<C>, (n, &cas), was),
            (CasCall::SetSuccess, _) => exists|n: &mut Calls|
                (*n)@ == t && #[trigger] call_ensures(
                    Calls::set_state::<C>,
                    (n, &cas, CasState::Success),
                    (),
                ),
            (CasCall::SetFailure { .. }, _) => exists|n: &mut Calls|
                (*n)@ == t && #[trigger] call_ensures(
                    Calls::set_state::<C>,
                    (n, &cas, CasState::Failure),
                    (),
                ),
            _ => false,
        }
    }

    /// Makes this call on `cas`, as the next one in the order of `calls`.
    pub fn make<C: VersionedCas>(
        self,
        cas: &C,
        contention: &mut ContentionMeasure,
        calls: &mut Calls,
    ) -> (answer: CasAnswer)
        requires
            !(self is End),
        ensures
            self.answered(
                *cas,
                answer,
                old(contention)@,
                final(contention)@,
                |c: &mut ContentionMeasure| (*final(c))@,
            ),
            self.made_at(
                *cas,
                answer,
                old(contention)@,
                final(contention)@,
                |c: &mut ContentionMeasure| (*final(c))@,
                old(calls)@,
            ),
            final(calls)@ == old(calls)@ + 1,
    {
        match self {
            CasCall::State | CasCall::StateAgain { .. } => CasAnswer::State(calls.state(cas)),
            CasCall::Execute => CasAnswer::Executed(calls.execute(cas, contention)),
            CasCall::HasModifiedBit => CasAnswer::Modified(calls.has_modified_bit(cas)),
            CasCall::Clear { .. } => CasAnswer::Cleared(calls.clear_bit(cas)),
            CasCall::SetSuccess => {
                calls.set_state(cas, CasState::Success);
                CasAnswer::Told
            },
            CasCall::SetFailure { .. } => {
                calls.set_state(cas, CasState::Failure);
                CasAnswer::Told
            },
            CasCall::End(_) => CasAnswer::Told,
        }
    }

    /// Makes this call on `cas`.
    pub fn perform<C: VersionedCas>(self, cas: &C, contention: &mut ContentionMeasure) -> (answer:
        CasAnswer)
        requires
            !(self is End),
        ensures
            self.answered(
                *cas,
                answer,
                old(contention)@,
                final(contention)@,
                |c: &mut ContentionMeasure| (*final(c))@,
            ),
    {
        let mut calls = Calls::new();
        self.make(cas, contention, &mut calls)
    }
}

/// Decides what is called on a compare-and-set after `last` has been answered.
pub fn next_call(last: CasCall, answer: CasAnswer) -> (next: CasCall)
    requires
        last.takes(answer),
    ensures
        next == last.after(answer),
        next.calls_left() < last.calls_left(),
{
    match (last, answer) {
        (CasCall::State, CasAnswer::State(state)) => match state {
            CasState::Success => CasCall::Clear { tried: false },
            CasState::Failure => CasCall::End(CasVisit::Failed),
            CasState::Pending => CasCall::Execute,
        },
        (CasCall::Execute, CasAnswer::Executed(executed)) => match executed {
            Ok(_) => CasCall::HasModifiedBit,
            Err(_) => CasCall::End(CasVisit::Contended),
        },
        (CasCall::HasModifiedBit, CasAnswer::Modified(modified)) => if modified {
            CasCall::SetSuccess
        } else {
            CasCall::StateAgain { modified: false }
        },
        (CasCall::SetSuccess, _) => CasCall::Clear { tried: true },
        (CasCall::Clear { tried }, _) => if tried {
            CasCall::StateAgain { modified: true }
        } else {
            CasCall::End(CasVisit::Done)
        },
        (CasCall::StateAgain { modified }, CasAnswer::State(reached)) => if reached
            != CasState::Success {
            CasCall::SetFailure { modified, reached }
        } else {
            CasCall::End(CasVisit::Tried { modified, reached })
        },
        (CasCall::SetFailure { modified, reached }, _) => CasCall::End(
            CasVisit::Tried { modified, reached },
        ),
        (last, _) => last,
    }
}

/// One call on a compare-and-set, its answer, and what the measure had counted
/// before and after it.
pub struct CasStep {
    /// The call.
    pub call: CasCall,
    /// The answer.
    pub answer: CasAnswer,
    /// What the measure had counted before the call.
    pub before: usize,
    /// What it had counted after the call.
    pub after: usize,
}

impl CasStep {
    /// Whether step `k` of `trace` is the one that the step before it calls for.
    pub open spec fn in_order(trace: Seq<CasStep>, k: int) -> bool {
        &&& trace[k].call == trace[k - 1].call.after(trace[k - 1].answer)
        &&& trace[k].before == trace[k - 1].after
    }
}

impl CasVisit {
    /// Whether `trace` lists the calls on `cas` during a visit that ended like
    /// this: each is the one that the answers so far call for.
    pub open spec fn traced<C: VersionedCas>(
        self,
        cas: C,
        trace: Seq<CasStep>,
        before: usize,
        after: usize,
        ends: spec_fn(&mut ContentionMeasure) -> usize,
    ) -> bool {
        &&& trace.len() > 0
        &&& trace[0].call is State
        &&& trace[0].before == before
        &&& trace.last().after == after
        &&& forall|k: int|
            0 <= k < trace.len() ==> {
                let step = #[trigger] trace[k];
                step.call.answered(cas, step.answer, step.before, step.after, ends)
            }
        &&& forall|k: int| 0 < k < trace.len() ==> #[trigger] CasStep::in_order(trace, k)
        &&& trace.last().call.after(trace.last().answer) == CasCall::End(self)
    }

    /// Whether the calls of `trace` were made one after the other, the first one
    /// when `t` calls had been made.
    pub open spec fn timed<C: VersionedCas>(
        cas: C,
        trace: Seq<CasStep>,
        ends: spec_fn(&mut ContentionMeasure) -> usize,
        t: nat,
    ) -> bool {
        forall|k: int|
            0 <= k < trace.len() ==> {
                let step = #[trigger] trace[k];
                step.call.made_at(cas, step.answer, step.before, step.after, ends, (t + k) as nat)
            }
    }

    /// Whether a visit to `cas` can have ended like this, as
    /// [`CasVisit::happened`] says, with calls that were made one after the other
    /// from the time that `t` calls had been made until `until` had.
    pub open spec fn happened_in<C: VersionedCas>(
        self,
        cas: C,
        before: usize,
        after: usize,
        ends: spec_fn(&mut ContentionMeasure) -> usize,
        t: nat,
        until: nat,
    ) -> bool {
        exists|trace: Seq<CasStep>| #[trigger]
            self.traced(cas, trace, before, after, ends) && Self::timed(cas, trace, ends, t)
                && until == t + trace.len()
    }

    /// Whether a visit to `cas` can have ended like this, as
    /// [`CasVisit::happened_in`] says.
    pub open spec fn happened_from<C: VersionedCas>(
        self,
        cas: C,
        before: usize,
        after: usize,
        ends: spec_fn(&mut ContentionMeasure) -> usize,
        t: nat,
    ) -> bool {
        exists|until: nat| #[trigger] self.happened_in(cas, before, after, ends, t, until)
    }

    /// How far the compare-and-set has come when it is left: one that was told
    /// so has failed.
    pub open spec fn left(self) -> CasState {
        match self {
            CasVisit::Done => CasState::Success,
            CasVisit::Failed => CasState::Failure,
            CasVisit::Contended => CasState::Pending,
            CasVisit::Tried { reached, .. } => if reached == CasState::Success {
                CasState::Success
            } else {
                CasState::Failure
            },
        }
    }

    /// Whether this visit has left the compare-and-set decided, and `next` found
    /// it so.
    pub open spec fn settles(self, next: CasVisit) -> bool {
        ||| self.left() is Success && next is Done
        ||| self.left() is Failure && next is Failed
    }

    /// Whether a visit to `cas` can have ended like this, with a measure that
    /// had counted `before` and has counted `after` now.
    pub open spec fn happened<C: VersionedCas>(
        self,
        cas: C,
        before: usize,
        after: usize,
        ends: spec_fn(&mut ContentionMeasure) -> usize,
    ) -> bool {
        exists|trace: Seq<CasStep>| #[trigger] self.traced(cas, trace, before, after, ends)
    }

    /// How the list fares that has this visit at place `i`: it goes on, or it
    /// fails.
    pub open spec fn verdict_spec(self, i: usize) -> Result<(), CasExecutionFailure> {
        match self {
            CasVisit::Done => Ok(()),
            CasVisit::Failed => Err(CasExecutionFailure::CasFailed(i)),
            CasVisit::Contended => Err(CasExecutionFailure::Contention),
            CasVisit::Tried { reached, .. } => if reached == CasState::Success {
                Ok(())
            } else {
                Err(CasExecutionFailure::CasFailed(i))
            },
        }
    }

    /// How the list fares that has this visit at place `i`: it goes on, or it
    /// fails.
    pub fn verdict(&self, i: usize) -> (verdict: Result<(), CasExecutionFailure>)
        ensures
            verdict == self.verdict_spec(i),
    {
        match self {
            CasVisit::Done => Ok(()),
            CasVisit::Failed => Err(CasExecutionFailure::CasFailed(i)),
            CasVisit::Contended => Err(CasExecutionFailure::from(Contention)),
            CasVisit::Tried { reached, .. } => {
                if *reached != CasState::Success {
                    Err(CasExecutionFailure::CasFailed(i))
                } else {
                    Ok(())
                }
            },
        }
    }

    /// Carries out one compare-and-set as far as it can be: makes the calls that
    /// [`next_call`] says, until the visit is over. If the compare-and-set was
    /// tried, the measure is what that try has made of it.
    pub fn visit<C: VersionedCas>(cas: &C, contention: &mut ContentionMeasure) -> (visit: Self)
        ensures
            visit.happened(
                *cas,
                old(contention)@,
                final(contention)@,
                |c: &mut ContentionMeasure| (*final(c))@,
            ),
            visit.happened_from(
                *cas,
                old(contention)@,
                final(contention)@,
                |c: &mut ContentionMeasure| (*final(c))@,
                0,
            ),
    {
        let mut calls = Calls::new();
        Self::visit_in(cas, contention, &mut calls)
    }

    /// Carries out one compare-and-set as [`CasVisit::visit`] does; its calls are
    /// the next ones in the order of `calls`.
    pub fn visit_in<C: VersionedCas>(
        cas: &C,
        contention: &mut ContentionMeasure,
        calls: &mut Calls,
    ) -> (visit: Self)
        ensures
            visit.happened(
                *cas,
                old(contention)@,
                final(contention)@,
                |c: &mut ContentionMeasure| (*final(c))@,
            ),
            visit.happened_in(
                *cas,
                old(contention)@,
                final(contention)@,
                |c: &mut ContentionMeasure| (*final(c))@,
                old(calls)@,
                final(calls)@,
            ),
    {
        let mut call = CasCall::State;
        let ghost mut trace: Seq<CasStep> = Seq::empty();
        loop
            invariant
                trace.len() == 0 ==> call is State && contention@ == old(contention)@,
                trace.len() > 0 ==> {
                    &&& trace[0].call is State
                    &&& trace[0].before == old(contention)@
                    &&& trace.last().after == contention@
                    &&& trace.last().call.after(trace.last().answer) == call
                },
                forall|k: int|
                    0 <= k < trace.len() ==> {
                        let step = #[trigger] trace[k];
                        step.call.answered(
                            *cas,
                            step.answer,
                            step.before,
                            step.after,
                            |c: &mut ContentionMeasure| (*final(c))@,
                        )
                    },
                forall|k: int| 0 < k < trace.len() ==> #[trigger] CasStep::in_order(trace, k),
                CasVisit::timed(
                    *cas,
                    trace,
                    |c: &mut ContentionMeasure| (*final(c))@,
                    old(calls)@,
                ),
                calls@ == old(calls)@ + trace.len(),
                call is End ==> trace.len() > 0,
            decreases call.calls_left(),
        {
            if let CasCall::End(visit) = call {
                assert(visit.traced(
                    *cas,
                    trace,
                    old(contention)@,
                    contention@,
                    |c: &mut ContentionMeasure| (*final(c))@,
                ));
                return visit;
            }
            let ghost before = contention@;
            let answer = call.make(cas, contention, calls);
            proof {
                let done = trace;
                trace = trace.push(CasStep { call, answer, before, after: contention@ });
                assert forall|k: int| 0 < k < trace.len() implies #[trigger] CasStep::in_order(
                    trace,
                    k,
                ) by {
                    if k < done.len() {
                        assert(CasStep::in_order(done, k));
                    }
                }
            }
            call = next_call(call, answer);
        }
    }
}

/// Whether carrying out `list` can have ended with `result`, with a measure that
/// had counted `before` and has counted `after` now: the list is visited from
/// the front up to the first visit that does not let it go on.
pub open spec fn carried_out<C: VersionedCas>(
    list: Seq<C>,
    before: usize,
    after: usize,
    ends: spec_fn(&mut ContentionMeasure) -> usize,
    result: Result<(), CasExecutionFailure>,
) -> bool {
    exists|visits: Seq<CasVisit>, counts: Seq<usize>, times: Seq<nat>|
        #[trigger] visited(list, visits, counts, ends, result) && #[trigger] visited_in(
            list,
            visits,
            counts,
            times,
            ends,
        ) && counts[0] == before && counts.last() == after && times[0] == 0
}

/// Whether `visits` are visits to `list` that end with `result`; `counts` is
/// what the measure had counted between them.
pub open spec fn visited<C: VersionedCas>(
    list: Seq<C>,
    visits: Seq<CasVisit>,
    counts: Seq<usize>,
    ends: spec_fn(&mut ContentionMeasure) -> usize,
    result: Result<(), CasExecutionFailure>,
) -> bool {
    &&& counts.len() == visits.len() + 1
    &&& forall|k: int|
        0 <= k < visits.len() ==> (#[trigger] visits[k]).happened(
            list[k],
            counts[k],
            counts[k + 1],
            ends,
        )
    &&& ended(visits, list.len(), result)
}

/// Whether `visits` to `list` were made one after the other; `times` is how many
/// calls had been made between them.
pub open spec fn visited_in<C: VersionedCas>(
    list: Seq<C>,
    visits: Seq<CasVisit>,
    counts: Seq<usize>,
    times: Seq<nat>,
    ends: spec_fn(&mut ContentionMeasure) -> usize,
) -> bool {
    &&& times.len() == visits.len() + 1
    &&& forall|k: int|
        0 <= k < visits.len() ==> (#[trigger] visits[k]).happened_in(
            list[k],
            counts[k],
            counts[k + 1],
            ends,
            times[k],
            times[k + 1],
        )
}

/// Whether `visits` to a list of `len` compare-and-sets end with `result`: they
/// go up to the first that does not let the list go on.
pub open spec fn ended(
    visits: Seq<CasVisit>,
    len: nat,
    result: Result<(), CasExecutionFailure>,
) -> bool {
    &&& visits.len() <= len
    &&& match result {
        Ok(_) => {
            &&& visits.len() == len
            &&& forall|k: int|
                0 <= k < visits.len() ==> (#[trigger] visits[k]).verdict_spec(k as usize) is Ok
        },
        Err(_) => {
            &&& visits.len() > 0
            &&& forall|k: int|
                0 <= k < visits.len() - 1 ==> (#[trigger] visits[k]).verdict_spec(k as usize) is Ok
            &&& visits.last().verdict_spec((visits.len() - 1) as usize) == result
        },
    }
}

/// Carries out a list of compare-and-sets, one after the other, up to the first
/// that fails or meets contention. Only tries change the measure, and each leaves
/// it as the compare-and-set has made it.
pub fn carry_out<C: VersionedCas>(list: &[C], contention: &mut ContentionMeasure) -> (result:
    Result<(), CasExecutionFailure>)
    ensures
        carried_out(
            list@,
            old(contention)@,
            final(contention)@,
            |c: &mut ContentionMeasure| (*final(c))@,
            result,
        ),
{
    let ghost mut visits: Seq<CasVisit> = Seq::empty();
    let ghost mut counts: Seq<usize> = Seq::empty().push(contention@);
    let mut calls = Calls::new();
    let ghost mut times: Seq<nat> = Seq::empty().push(0nat);
    for i in 0..list.len()
        invariant
            visits.len() == i,
            counts.len() == i + 1,
            counts[0] == old(contention)@,
            counts.last() == contention@,
            forall|k: int|
                0 <= k < visits.len() ==> {
                    &&& (#[trigger] visits[k]).happened(
                        list@[k],
                        counts[k],
                        counts[k + 1],
                        |c: &mut ContentionMeasure| (*final(c))@,
                    )
                    &&& visits[k].verdict_spec(k as usize) is Ok
                },
            times.len() == i + 1,
            times[0] == 0,
            times.last() == calls@,
            visited_in(
                list@,
                visits,
                counts,
                times,
                |c: &mut ContentionMeasure| (*final(c))@,
            ),
    {
        let visit = CasVisit::visit_in(&list[i], contention, &mut calls);
        proof {
            visits = visits.push(visit);
            counts = counts.push(contention@);
            times = times.push(calls@);
            assert(visited_in(
                list@,
                visits,
                counts,
                times,
                |c: &mut ContentionMeasure| (*final(c))@,
            ));
        }
        match visit.verdict(i) {
            Ok(()) => {},
            Err(failure) => {
                proof {
                    assert(visited(
                        list@,
                        visits,
                        counts,
                        |c: &mut ContentionMeasure| (*final(c))@,
                        Err(failure),
                    ));
                }
                return Err(failure);
            },
        }
    }
    proof {
        assert(visited(
            list@,
            visits,
            counts,
            |c: &mut ContentionMeasure| (*final(c))@,
            Ok(()),
        ));
    }
    Ok(())
}

/// Whether carrying out `descriptors` can have ended with `result`, with a
/// measure that had counted `before` and has counted `after` now.
pub open spec fn committed<D: CasList>(
    descriptors: D,
    before: usize,
    after: usize,
    ends: spec_fn(&mut ContentionMeasure) -> usize,
    result: Result<(), CasExecutionFailure>,
) -> bool {
    exists|list: &[D::Cas]|
        #[trigger] call_ensures(D::as_slice, (&descriptors,), list) && carried_out(
            list@,
            before,
            after,
            ends,
            result,
        )
}

/// Carries out the compare-and-sets of a commit descriptor, as [`carry_out`]
/// does.
pub fn commit<D: CasList>(descriptors: &D, contention: &mut ContentionMeasure) -> (result: Result<
    (),
    CasExecutionFailure,
>)
    ensures
        committed(
            *descriptors,
            old(contention)@,
            final(contention)@,
            |c: &mut ContentionMeasure| (*final(c))@,
            result,
        ),
{
    let list = descriptors.as_slice();
    carry_out(list, contention)
}

} // verus!
