//! What the operations promise to those who call them, said in terms of what they
//! are given and what comes back.
//!
//! `call_ensures(f, given, result)` says that `result` can come back from calling
//! `f` with `given`. Each law here is about everything that can come back.
use vstd::prelude::*;
use vstd::std_specs::cmp::PartialEqSpec;

use crate::atomic::{Atomic, CasByRcu, CasPlan};
use crate::calls::Calls;
use crate::cas::{
    carry_out, CasAnswer, CasCall, CasExecutionFailure, CasList, CasState, CasStep, CasVisit,
    VersionedCas,
};
use crate::contention::{Contention, ContentionMeasure};
use crate::operation::{
    HelpEnd, HelpStep, NormalizedLockFree, OperationRecord, OperationRecordBox, OperationState,
    RecordCall,
};
use crate::run::{RunAnswer, RunCall, RunEnd};
use crate::simulation::{RunOutcome, Simulation};
use crate::simulator::{Handle, WaitFreeSimulator};

verus! {

/// Contention is an error the first two times that it is detected, and never
/// after that; the slow path is called for from the third time on.
pub proof fn law_contention_is_refused_twice()
    ensures
        forall|m: ContentionMeasure| #[trigger]
            call_ensures(ContentionMeasure::new, (), m) ==> m@ == 0,
        forall|m: &mut ContentionMeasure, met: Result<(), Contention>| #[trigger]
            call_ensures(ContentionMeasure::detected, (m,), met) ==> {
                &&& (*final(m))@ == (*m)@ + 1
                &&& met is Err <==> (*m)@ < 2
            },
        forall|m: &ContentionMeasure, slow: bool| #[trigger]
            call_ensures(ContentionMeasure::use_slow_path, (m,), slow) ==> slow == (m@ >= 3),
{
}

/// A value can be read back in the version in which it was installed last.
pub proof fn law_reads_agree<T: Eq>(a: &Atomic<T>)
    ensures
        forall|current: (&T, u64)| #[trigger]
            call_ensures(Atomic::<T>::get2, (a,), current) ==> *current.0 == a@.last().value
                && current.1 == a@.last().version,
        forall|value: &T| #[trigger]
            call_ensures(Atomic::<T>::value, (a,), value) ==> *value == a@.last().value,
        forall|seen: usize| #[trigger]
            call_ensures(Atomic::<T>::get, (a,), seen) ==> seen == a@.len() - 1,
{
}

/// What [`Atomic::with`] returns is what the function that it is given returns
/// for the current value and version.
pub proof fn law_with_hands_over_current<T: Eq, F: FnOnce(&T, u64) -> R, R>(
    a: &Atomic<T>,
    f: F,
    r: R,
)
    requires
        call_ensures(Atomic::<T>::with::<F, R>, (a, f), r),
    ensures
        call_ensures(f, (&a@.last().value, a@.last().version), r),
{
}

/// A new value is in version 0.
pub proof fn law_new_value<T: Eq>(initial: T, a: Atomic<T>)
    requires
        call_ensures(Atomic::<T>::new, (initial,), a),
    ensures
        a@.len() == 1,
        a@[0].value == initial,
        a@[0].version == 0,
{
}

/// After setting, the current value is the one that was set, or equals it. The
/// version has gone up by one exactly if the value was another one before, and
/// everything installed before is still there.
pub proof fn law_set_installs<T: Eq>()
    ensures
        forall|a: &mut Atomic<T>, value: T| #[trigger]
            call_ensures(Atomic::<T>::_set, (a, value), ()) && (*a).wf() ==> {
                let before = (*a)@;
                let after = (*final(a))@;
                &&& before.is_prefix_of(after)
                &&& before.last().value.eq_spec(&value) ==> after == before
                &&& !before.last().value.eq_spec(&value) ==> {
                    &&& after.len() == before.len() + 1
                    &&& after.last().value == value
                    &&& after.last().version == before.last().version + 1
                }
            },
{
    assert forall|a: &mut Atomic<T>, value: T| #[trigger]
        call_ensures(Atomic::<T>::_set, (a, value), ()) && (*a).wf() implies {
        let before = (*a)@;
        let after = (*final(a))@;
        &&& before.is_prefix_of(after)
        &&& before.last().value.eq_spec(&value) ==> after == before
        &&& !before.last().value.eq_spec(&value) ==> {
            &&& after.len() == before.len() + 1
            &&& after.last().value == value
            &&& after.last().version == before.last().version + 1
        }
    } by {
        let after = (*final(a))@;
        assert((*final(a)).wf());
        assert(after.last().version == after.len() - 1);
    }
}

/// Comparing and setting, given the current value and version.
///
/// If the value is not the expected one, nothing happens. If it is, but a version
/// is given that is not the current one, nothing is installed and the contention
/// is counted. If the new value equals the expected one, it is already there.
/// Otherwise, and only then, the new value is installed in the next version.
pub proof fn law_compare_and_set<T: Eq>()
    ensures
        forall|
            a: &mut Atomic<T>,
            expected: &T,
            value: T,
            c: &mut ContentionMeasure,
            version: Option<u64>,
            done: Result<bool, Contention>,
        | #[trigger]
            call_ensures(
                Atomic::<T>::compare_and_set,
                (a, expected, value, c, version),
                done,
            ) && (*a).wf() ==> {
                let current = (*a)@.last();
                let fits = current.value.eq_spec(expected);
                let stale = version matches Some(v) && v != current.version;
                let installed = (*final(a))@.len() != (*a)@.len();
                &&& !fits ==> done == Ok::<bool, Contention>(false) && (*final(c))@ == (*c)@
                &&& fits && stale ==> {
                    &&& (*final(c))@ == (*c)@ + 1
                    &&& done is Err <==> (*c)@ < 2
                    &&& done is Ok ==> done == Ok::<bool, Contention>(false)
                }
                &&& fits && !stale ==> done == Ok::<bool, Contention>(true) && (*final(c))@
                    == (*c)@
                &&& installed <==> fits && !stale && !expected.eq_spec(&value)
                &&& installed ==> {
                    &&& (*a)@.is_prefix_of((*final(a))@)
                    &&& (*final(a))@.len() == (*a)@.len() + 1
                    &&& (*final(a))@.last().value == value
                    &&& (*final(a))@.last().version == current.version + 1
                }
                &&& !installed ==> (*final(a))@ == (*a)@
            },
{
    assert forall|
        a: &mut Atomic<T>,
        expected: &T,
        value: T,
        c: &mut ContentionMeasure,
        version: Option<u64>,
        done: Result<bool, Contention>,
    | #[trigger]
        call_ensures(Atomic::<T>::compare_and_set, (a, expected, value, c, version), done)
            && (*a).wf() implies {
        let current = (*a)@.last();
        let fits = current.value.eq_spec(expected);
        let stale = version matches Some(v) && v != current.version;
        let installed = (*final(a))@.len() != (*a)@.len();
        &&& !fits ==> done == Ok::<bool, Contention>(false) && (*final(c))@ == (*c)@
        &&& fits && stale ==> {
            &&& (*final(c))@ == (*c)@ + 1
            &&& done is Err <==> (*c)@ < 2
            &&& done is Ok ==> done == Ok::<bool, Contention>(false)
        }
        &&& fits && !stale ==> done == Ok::<bool, Contention>(true) && (*final(c))@ == (*c)@
        &&& installed <==> fits && !stale && !expected.eq_spec(&value)
        &&& installed ==> {
            &&& (*a)@.is_prefix_of((*final(a))@)
            &&& (*final(a))@.len() == (*a)@.len() + 1
            &&& (*final(a))@.last().value == value
            &&& (*final(a))@.last().version == current.version + 1
        }
        &&& !installed ==> (*final(a))@ == (*a)@
    } by {
        let after = (*final(a))@;
        assert((*final(a)).wf());
        assert(after.last().version == after.len() - 1);
    }
}

/// A version guards against a value that was changed and put back: once anything
/// has been installed after `v` was the current version, no comparison with
/// version `v` installs anything or says that it has.
pub proof fn law_passed_version_never_installs<T: Eq>(v: u64)
    ensures
        forall|
            a: &mut Atomic<T>,
            expected: &T,
            value: T,
            c: &mut ContentionMeasure,
            done: Result<bool, Contention>,
        | #[trigger]
            call_ensures(
                Atomic::<T>::compare_and_set,
                (a, expected, value, c, Some(v)),
                done,
            ) && (*a).wf() && v + 1 < (*a)@.len() ==> {
                &&& (*final(a))@ == (*a)@
                &&& done != Ok::<bool, Contention>(true)
            },
{
    law_compare_and_set::<T>();
}

/// Comparing and setting after record `seen` was read: if anything has been
/// installed since, nothing is, and if something would have been, the contention
/// is counted. If nothing has, it is as if it had just been read.
pub proof fn law_late_compare_and_set<T: Eq>()
    ensures
        forall|
            a: &mut Atomic<T>,
            seen: usize,
            expected: &T,
            value: T,
            c: &mut ContentionMeasure,
            version: Option<u64>,
            done: Result<bool, Contention>,
        | #[trigger]
            call_ensures(
                Atomic::<T>::compare_and_set_from,
                (a, seen, expected, value, c, version),
                done,
            ) && (*a).wf() && seen < (*a)@.len() ==> {
                let read = (*a)@[seen as int];
                let fits = read.value.eq_spec(expected);
                let stale = version matches Some(v) && v != read.version;
                let late = seen + 1 < (*a)@.len();
                let equal = expected.eq_spec(&value);
                let contended = fits && (stale || (late && !equal));
                &&& (*final(c))@ == (*c)@ + if contended {
                    1int
                } else {
                    0int
                }
                &&& done is Err <==> contended && (*c)@ < 2
                &&& done is Ok ==> done == Ok::<bool, Contention>(fits && !contended)
                &&& (*final(a))@ == if fits && !stale && !late && !equal {
                    (*a)@.push(CasByRcu { version: (read.version + 1) as u64, value })
                } else {
                    (*a)@
                }
            },
{
    assert forall|
        a: &mut Atomic<T>,
        seen: usize,
        expected: &T,
        value: T,
        c: &mut ContentionMeasure,
        version: Option<u64>,
        done: Result<bool, Contention>,
    | #[trigger]
        call_ensures(
            Atomic::<T>::compare_and_set_from,
            (a, seen, expected, value, c, version),
            done,
        ) && (*a).wf() && seen < (*a)@.len() implies {
        let read = (*a)@[seen as int];
        let fits = read.value.eq_spec(expected);
        let stale = version matches Some(v) && v != read.version;
        let late = seen + 1 < (*a)@.len();
        let equal = expected.eq_spec(&value);
        let contended = fits && (stale || (late && !equal));
        &&& (*final(c))@ == (*c)@ + if contended {
            1int
        } else {
            0int
        }
        &&& done is Err <==> contended && (*c)@ < 2
        &&& done is Ok ==> done == Ok::<bool, Contention>(fits && !contended)
        &&& (*final(a))@ == if fits && !stale && !late && !equal {
            (*a)@.push(CasByRcu { version: (read.version + 1) as u64, value })
        } else {
            (*a)@
        }
    } by {
        assert((*a)@[seen as int].version == seen);
    }
}

/// A record is installed only behind the one that was read, and in its next
/// version.
pub proof fn law_install_needs_the_current_record<T: Eq>()
    ensures
        forall|a: &mut Atomic<T>, seen: usize, value: T, done: bool| #[trigger]
            call_ensures(Atomic::<T>::try_install, (a, seen, value), done) && (*a).wf() && seen
                < (*a)@.len() ==> {
                &&& done <==> seen + 1 == (*a)@.len()
                &&& done ==> (*final(a))@ == (*a)@.push(
                    CasByRcu { version: (seen + 1) as u64, value },
                )
                &&& !done ==> (*final(a))@ == (*a)@
            },
{
}

/// What a comparison with the record that was read calls for: nothing if the
/// value is not the expected one, or not in the expected version; and otherwise
/// to install the new value exactly if it is another one.
pub proof fn law_comparison<T: Eq>(
    a: &Atomic<T>,
    seen: usize,
    expected: &T,
    value: &T,
    version: Option<u64>,
    plan: CasPlan,
)
    requires
        call_ensures(Atomic::<T>::plan, (a, seen, expected, value, version), plan),
    ensures
        plan is Mismatch <==> !a@[seen as int].value.eq_spec(expected),
        plan is Stale ==> version is Some && version.unwrap() != a@[seen as int].version,
        plan is Unchanged || plan is Install ==> version is None || version.unwrap()
            == a@[seen as int].version,
        plan is Unchanged ==> expected.eq_spec(value),
        plan is Install ==> !expected.eq_spec(value),
{
}

/// A list of compare-and-sets is handed over whole and in order, and contention
/// stays contention.
pub proof fn law_lists_and_failures<C: VersionedCas>(list: &Vec<C>)
    ensures
        forall|slice: &[C]| #[trigger]
            call_ensures(<Vec<C> as CasList>::as_slice, (list,), slice) ==> slice@ == list@,
        forall|met: Contention, failure: CasExecutionFailure| #[trigger]
            call_ensures(<CasExecutionFailure as From<Contention>>::from, (met,), failure)
                ==> failure is Contention,
{
}

/// What is in a box answers as it does without the box.
pub proof fn law_boxed_answers_alike<C: VersionedCas>(boxed: &Box<C>)
    ensures
        forall|c: &mut ContentionMeasure, answer: Result<bool, Contention>| #[trigger]
            call_ensures(<Box<C> as VersionedCas>::execute, (boxed, c), answer) ==> exists|
                inner: &mut ContentionMeasure,
            |
                *inner == *c && *final(inner) == *final(c) && #[trigger] call_ensures(
                    C::execute,
                    (&**boxed, inner),
                    answer,
                ),
        forall|modified: bool| #[trigger]
            call_ensures(<Box<C> as VersionedCas>::has_modified_bit, (boxed,), modified)
                ==> call_ensures(C::has_modified_bit, (&**boxed,), modified),
        forall|was: bool| #[trigger]
            call_ensures(<Box<C> as VersionedCas>::clear_bit, (boxed,), was) ==> call_ensures(
                C::clear_bit,
                (&**boxed,),
                was,
            ),
        forall|state: CasState| #[trigger]
            call_ensures(<Box<C> as VersionedCas>::state, (boxed,), state) ==> call_ensures(
                C::state,
                (&**boxed,),
                state,
            ),
        forall|new: CasState| #[trigger]
            call_ensures(<Box<C> as VersionedCas>::set_state, (boxed, new), ()) ==> call_ensures(
                C::set_state,
                (&**boxed, new),
                (),
            ),
{
}

/// Whether `cas`, asked as call number `t` how far it has come, can have answered
/// `state`.
pub open spec fn said_state<C: VersionedCas>(cas: &C, state: CasState, t: nat) -> bool {
    exists|n: &mut Calls|
        (*n)@ == t && #[trigger] call_ensures(Calls::state::<C>, (n, cas), state)
}

/// Whether `cas`, tried as call number `t` with a measure that had counted
/// `before`, can have answered `answer` and left the measure at `after`.
pub open spec fn said_tried<C: VersionedCas>(
    cas: &C,
    before: usize,
    after: usize,
    ends: spec_fn(&mut ContentionMeasure) -> usize,
    answer: Result<bool, Contention>,
    t: nat,
) -> bool {
    exists|n: &mut Calls, c: &mut ContentionMeasure|
        (*n)@ == t && (*c)@ == before && ends(c) == after && #[trigger] call_ensures(
            Calls::execute::<C>,
            (n, cas, c),
            answer,
        )
}

/// Whether `cas`, asked as call number `t` whether it has left its mark, can have
/// answered `modified`.
pub open spec fn said_modified<C: VersionedCas>(cas: &C, modified: bool, t: nat) -> bool {
    exists|n: &mut Calls|
        (*n)@ == t && #[trigger] call_ensures(Calls::has_modified_bit::<C>, (n, cas), modified)
}

/// Whether call number `t` took the mark off `cas`.
pub open spec fn was_cleared<C: VersionedCas>(cas: &C, t: nat) -> bool {
    exists|n: &mut Calls, was: bool|
        (*n)@ == t && #[trigger] call_ensures(Calls::clear_bit::<C>, (n, cas), was)
}

/// Whether call number `t` told `cas` that it has come as far as `state`.
pub open spec fn was_told<C: VersionedCas>(cas: &C, state: CasState, t: nat) -> bool {
    exists|n: &mut Calls|
        (*n)@ == t && #[trigger] call_ensures(Calls::set_state::<C>, (n, cas, state), ())
}

/// A call that is counted is the call: what comes back from it is what can come
/// back from what the user has implemented, and it moves the count on by one.
pub proof fn law_counted_calls<C: VersionedCas, LF: NormalizedLockFree>(cas: &C)
    ensures
        forall|n: &mut Calls, s: CasState| #[trigger]
            call_ensures(Calls::state::<C>, (n, cas), s) ==> call_ensures(C::state, (cas,), s)
                && (*final(n))@ == (*n)@ + 1,
        forall|n: &mut Calls, c: &mut ContentionMeasure, answer: Result<bool, Contention>|
            #[trigger] call_ensures(Calls::execute::<C>, (n, cas, c), answer) ==> {
                &&& (*final(n))@ == (*n)@ + 1
                &&& exists|inner: &mut ContentionMeasure|
                    *inner == *c && *final(inner) == *final(c) && #[trigger] call_ensures(
                        C::execute,
                        (cas, inner),
                        answer,
                    )
            },
        forall|n: &mut Calls, modified: bool| #[trigger]
            call_ensures(Calls::has_modified_bit::<C>, (n, cas), modified) ==> call_ensures(
                C::has_modified_bit,
                (cas,),
                modified,
            ) && (*final(n))@ == (*n)@ + 1,
        forall|n: &mut Calls, was: bool| #[trigger]
            call_ensures(Calls::clear_bit::<C>, (n, cas), was) ==> call_ensures(
                C::clear_bit,
                (cas,),
                was,
            ) && (*final(n))@ == (*n)@ + 1,
        forall|n: &mut Calls, new: CasState| #[trigger]
            call_ensures(Calls::set_state::<C>, (n, cas, new), ()) ==> call_ensures(
                C::set_state,
                (cas, new),
                (),
            ) && (*final(n))@ == (*n)@ + 1,
        forall|n: &mut Calls, record: &OperationRecord<LF>, algorithm: &LF, step: HelpStep<LF>|
            #[trigger] call_ensures(Calls::plan::<LF>, (n, record, algorithm), step)
                ==> call_ensures(OperationRecord::<LF>::plan, (record, algorithm), step)
                && (*final(n))@ == (*n)@ + 1,
        forall|
            n: &mut Calls,
            algorithm: &LF,
            op: &LF::Input,
            answer: Result<LF::Output, Contention>,
        |
            #[trigger] call_ensures(Calls::fast_path::<LF>, (n, algorithm, op), answer)
                ==> fast_path_says(algorithm, op, answer) && (*final(n))@ == (*n)@ + 1,
        forall|n: Calls| #[trigger] call_ensures(Calls::new, (), n) ==> n@ == 0,
{
}

/// What a visit to `cas` shows of it, with a measure that had counted `before`
/// and has counted `after` now, and whose end is what `ends` says: which answers
/// it has given, and what it has been told, call by call, from call number `t`
/// until call number `until`.
pub open spec fn shown<C: VersionedCas>(
    cas: &C,
    before: usize,
    after: usize,
    ends: spec_fn(&mut ContentionMeasure) -> usize,
    visit: CasVisit,
    t: nat,
    until: nat,
) -> bool {
    match visit {
        CasVisit::Done => {
            &&& said_state(cas, CasState::Success, t)
            &&& was_cleared(cas, t + 1)
            &&& until == t + 2
            &&& after == before
        },
        CasVisit::Failed => {
            &&& said_state(cas, CasState::Failure, t)
            &&& until == t + 1
            &&& after == before
        },
        CasVisit::Contended => {
            &&& said_state(cas, CasState::Pending, t)
            &&& said_tried(cas, before, after, ends, Err(Contention), t + 1)
            &&& until == t + 2
        },
        CasVisit::Tried { modified, reached } => {
            let asked: nat = if modified {
                t + 5
            } else {
                t + 3
            };
            &&& said_state(cas, CasState::Pending, t)
            &&& exists|answer: Result<bool, Contention>|
                answer is Ok && #[trigger] said_tried(cas, before, after, ends, answer, t + 1)
            &&& said_modified(cas, modified, t + 2)
            &&& modified ==> was_told(cas, CasState::Success, t + 3) && was_cleared(cas, t + 4)
            &&& said_state(cas, reached, asked)
            &&& reached == CasState::Success ==> until == asked + 1
            &&& reached != CasState::Success ==> was_told(cas, CasState::Failure, asked + 1)
                && until == asked + 2
        },
    }
}

/// A visit that happened shows what it says.
proof fn lemma_shown<C: VersionedCas>(
    visit: CasVisit,
    cas: &C,
    before: usize,
    after: usize,
    ends: spec_fn(&mut ContentionMeasure) -> usize,
    t: nat,
    until: nat,
)
    requires
        visit.happened_in(*cas, before, after, ends, t, until),
    ensures
        shown(cas, before, after, ends, visit, t, until),
{
    let trace = choose|trace: Seq<CasStep>| #[trigger]
        visit.traced(*cas, trace, before, after, ends) && CasVisit::timed(*cas, trace, ends, t)
            && until == t + trace.len();
    lemma_call(cas, trace, ends, t, 0);
    crate::laws::lemma_trace_ends(visit, *cas, trace, before, after, ends, 0);
    crate::laws::law_decided_is_not_tried(visit, *cas, trace, before, after, ends);
    match trace[0].answer {
        CasAnswer::State(CasState::Success) => {
            crate::laws::lemma_trace_ends(visit, *cas, trace, before, after, ends, 1);
            lemma_call(cas, trace, ends, t, 1);
        },
        CasAnswer::State(CasState::Pending) => {
            crate::laws::law_contended_is_left_alone(visit, *cas, trace, before, after, ends);
            crate::laws::lemma_trace_ends(visit, *cas, trace, before, after, ends, 1);
            lemma_call(cas, trace, ends, t, 1);
            let tried = trace[1].answer->Executed_0;
            if tried is Err {
                assert(tried->Err_0 == Contention);
            } else {
                crate::laws::lemma_trace_ends(visit, *cas, trace, before, after, ends, 2);
                lemma_call(cas, trace, ends, t, 2);
                assert(said_tried(cas, before, trace[1].after, ends, tried, t + 1));
                let mut k: int = 3;
                if trace[2].answer == CasAnswer::Modified(true) {
                    crate::laws::law_marked_is_settled(visit, *cas, trace, before, after, ends, 0);
                    crate::laws::lemma_trace_ends(visit, *cas, trace, before, after, ends, 3);
                    lemma_call(cas, trace, ends, t, 3);
                    crate::laws::lemma_trace_ends(visit, *cas, trace, before, after, ends, 4);
                    lemma_call(cas, trace, ends, t, 4);
                    k = 5;
                } else {
                    crate::laws::law_unmarked_is_asked_again(
                        visit,
                        *cas,
                        trace,
                        before,
                        after,
                        ends,
                        0,
                    );
                }
                crate::laws::lemma_trace_ends(visit, *cas, trace, before, after, ends, k);
                lemma_call(cas, trace, ends, t, k);
                if k + 1 < trace.len() {
                    crate::laws::lemma_trace_ends(visit, *cas, trace, before, after, ends, k + 1);
                    lemma_call(cas, trace, ends, t, k + 1);
                }
            }
        },
        _ => {},
    }
}

/// What one call of a trace shows.
proof fn lemma_call<C: VersionedCas>(
    cas: &C,
    trace: Seq<CasStep>,
    ends: spec_fn(&mut ContentionMeasure) -> usize,
    t: nat,
    k: int,
)
    requires
        CasVisit::timed(*cas, trace, ends, t),
        0 <= k < trace.len(),
    ensures
        ({
            let step = trace[k];
            let at = (t + k) as nat;
            match (step.call, step.answer) {
                (CasCall::State, CasAnswer::State(s)) => said_state(cas, s, at),
                (CasCall::StateAgain { .. }, CasAnswer::State(s)) => said_state(cas, s, at),
                (CasCall::Execute, CasAnswer::Executed(r)) => said_tried(
                    cas,
                    step.before,
                    step.after,
                    ends,
                    r,
                    at,
                ),
                (CasCall::HasModifiedBit, CasAnswer::Modified(m)) => said_modified(cas, m, at),
                (CasCall::Clear { .. }, CasAnswer::Cleared(_)) => was_cleared(cas, at),
                (CasCall::SetSuccess, _) => was_told(cas, CasState::Success, at),
                (CasCall::SetFailure { .. }, _) => was_told(cas, CasState::Failure, at),
                _ => true,
            }
        }),
{
    let step = trace[k];
    assert(step.call.made_at(
        *cas,
        step.answer,
        step.before,
        step.after,
        ends,
        (t + k) as nat,
    ));
}

/// Whether a visit to `cas`, from call number 0 on, can have shown what it says.
pub open spec fn shown_from_start<C: VersionedCas>(
    cas: &C,
    before: usize,
    after: usize,
    ends: spec_fn(&mut ContentionMeasure) -> usize,
    visit: CasVisit,
) -> bool {
    exists|until: nat| #[trigger] shown(cas, before, after, ends, visit, 0, until)
}

/// A visit calls what it has to, in the order in which it has to, and says what
/// came of it. One that had been decided is not tried; one that has left its mark
/// is told that it has succeeded and only then loses the mark; one that has not
/// succeeded after that is told that it has failed; contention ends the visit.
pub proof fn law_visit_shows<C: VersionedCas>(cas: &C)
    ensures
        forall|c: &mut ContentionMeasure, visit: CasVisit| #[trigger]
            call_ensures(CasVisit::visit::<C>, (cas, c), visit) ==> shown_from_start(
                cas,
                (*c)@,
                (*final(c))@,
                |m: &mut ContentionMeasure| (*final(m))@,
                visit,
            ),
{
    assert forall|c: &mut ContentionMeasure, visit: CasVisit| #[trigger]
        call_ensures(CasVisit::visit::<C>, (cas, c), visit) implies shown_from_start(
        cas,
        (*c)@,
        (*final(c))@,
        |m: &mut ContentionMeasure| (*final(m))@,
        visit,
    ) by {
        lemma_shown_from_start(
            visit,
            cas,
            (*c)@,
            (*final(c))@,
            |m: &mut ContentionMeasure| (*final(m))@,
        );
    }
}

/// A visit that happened from the start shows what it says.
proof fn lemma_shown_from_start<C: VersionedCas>(
    visit: CasVisit,
    cas: &C,
    before: usize,
    after: usize,
    ends: spec_fn(&mut ContentionMeasure) -> usize,
)
    requires
        visit.happened_from(*cas, before, after, ends, 0),
    ensures
        shown_from_start(cas, before, after, ends, visit),
{
    let until = choose|until: nat| #[trigger]
        visit.happened_in(*cas, before, after, ends, 0, until);
    lemma_shown(visit, cas, before, after, ends, 0, until);
}

/// Whether `cas` can have said that it has succeeded.
pub open spec fn succeeded<C: VersionedCas>(cas: &C) -> bool {
    exists|t: nat| #[trigger] said_state(cas, CasState::Success, t)
}

/// Whether `cas` can have said that it has failed, or has said that it has not
/// succeeded and has been told that it has failed.
pub open spec fn failed<C: VersionedCas>(cas: &C) -> bool {
    ||| exists|t: nat| #[trigger] said_state(cas, CasState::Failure, t)
    ||| exists|t: nat|
        #[trigger] said_state(cas, CasState::Pending, t) && was_told(cas, CasState::Failure, t + 1)
}

/// Whether `cas` can have said that it is undecided, and trying it right after
/// that, with a measure that had counted `before`, can have met contention and
/// left the measure at `after`.
pub open spec fn contended<C: VersionedCas>(
    cas: &C,
    before: usize,
    after: usize,
    ends: spec_fn(&mut ContentionMeasure) -> usize,
) -> bool {
    exists|t: nat|
        #[trigger] said_state(cas, CasState::Pending, t) && said_tried(
            cas,
            before,
            after,
            ends,
            Err(Contention),
            t + 1,
        )
}

/// How a list of compare-and-sets can have fared.
///
/// It succeeds only if every one of them has said that it has succeeded. It fails
/// at a place only if that one has failed, and all before it have succeeded. It
/// meets contention only if trying one of them did, and all before that one have
/// succeeded; the measure is then as that try has left it, and was handed over as
/// it was given if it was the first. A list in which none is undecided leaves the
/// measure alone.
pub open spec fn fared<C: VersionedCas>(
    list: Seq<C>,
    before: usize,
    after: usize,
    ends: spec_fn(&mut ContentionMeasure) -> usize,
    result: Result<(), CasExecutionFailure>,
) -> bool {
    &&& match result {
        Ok(_) => forall|k: int| 0 <= k < list.len() ==> succeeded(&#[trigger] list[k]),
        Err(CasExecutionFailure::CasFailed(i)) => {
            &&& i < list.len()
            &&& failed(&list[i as int])
            &&& forall|k: int| 0 <= k < i ==> succeeded(&#[trigger] list[k])
        },
        Err(CasExecutionFailure::Contention) => exists|i: int, b: usize|
            0 <= i < list.len() && #[trigger] contended(&list[i], b, after, ends) && (i == 0 ==> b
                == before) && forall|k: int| 0 <= k < i ==> succeeded(&#[trigger] list[k]),
    }
    &&& (forall|k: int|
        0 <= k < list.len() ==> !call_ensures(
            C::state,
            (&#[trigger] list[k],),
            CasState::Pending,
        )) ==> after == before
}

/// Whether a visit lets the list go on: the compare-and-set has succeeded.
pub open spec fn goes_on(visit: CasVisit) -> bool {
    match visit {
        CasVisit::Done => true,
        CasVisit::Tried { reached, .. } => reached == CasState::Success,
        _ => false,
    }
}

/// How the calls on a list of compare-and-sets can have been made, one after the
/// other, from the first one on: it is visited from the front, each visit begins
/// where the one before it ended, with the measure as that one left it, and the
/// first that does not let the list go on is the last. `counts` is what the
/// measure had counted between the visits, `times` how many calls had been made.
pub open spec fn timeline<C: VersionedCas>(
    list: Seq<C>,
    before: usize,
    after: usize,
    ends: spec_fn(&mut ContentionMeasure) -> usize,
    result: Result<(), CasExecutionFailure>,
) -> bool {
    exists|visits: Seq<CasVisit>, counts: Seq<usize>, times: Seq<nat>| #[trigger]
        laid_out(list, visits, counts, times, ends, result) && counts[0] == before
            && counts.last() == after && times[0] == 0
}

/// Whether `visits` are such visits to `list`.
pub open spec fn laid_out<C: VersionedCas>(
    list: Seq<C>,
    visits: Seq<CasVisit>,
    counts: Seq<usize>,
    times: Seq<nat>,
    ends: spec_fn(&mut ContentionMeasure) -> usize,
    result: Result<(), CasExecutionFailure>,
) -> bool {
    let last = visits.len() - 1;
    &&& visits.len() <= list.len()
    &&& counts.len() == visits.len() + 1
    &&& times.len() == visits.len() + 1
    &&& forall|k: int|
        0 <= k < visits.len() ==> shown(
            &list[k],
            counts[k],
            counts[k + 1],
            ends,
            #[trigger] visits[k],
            times[k],
            times[k + 1],
        )
    &&& forall|k: int| 0 <= k < last ==> goes_on(#[trigger] visits[k])
    &&& match result {
        Ok(_) => visits.len() == list.len() && (last >= 0 ==> goes_on(visits[last])),
        Err(CasExecutionFailure::CasFailed(i)) => {
            &&& i == last
            &&& !goes_on(visits[last])
            &&& !(visits[last] is Contended)
        },
        Err(CasExecutionFailure::Contention) => last >= 0 && visits[last] is Contended,
    }
}

/// The measure is the same after visits that tried nothing.
proof fn lemma_untried<C: VersionedCas>(
    list: Seq<C>,
    visits: Seq<CasVisit>,
    counts: Seq<usize>,
    times: Seq<nat>,
    ends: spec_fn(&mut ContentionMeasure) -> usize,
    k: int,
)
    requires
        visits.len() <= list.len(),
        counts.len() == visits.len() + 1,
        times.len() == visits.len() + 1,
        0 <= k < counts.len(),
        forall|j: int|
            0 <= j < visits.len() ==> shown(
                &list[j],
                counts[j],
                counts[j + 1],
                ends,
                #[trigger] visits[j],
                times[j],
                times[j + 1],
            ),
        forall|j: int|
            0 <= j < list.len() ==> !call_ensures(
                C::state,
                (&#[trigger] list[j],),
                CasState::Pending,
            ),
    ensures
        counts[k] == counts[0],
    decreases k,
{
    if k > 0 {
        lemma_untried(list, visits, counts, times, ends, k - 1);
        let j = k - 1;
        assert(shown(&list[j], counts[j], counts[j + 1], ends, visits[j], times[j], times[j + 1]));
        assert(!call_ensures(C::state, (&list[k - 1],), CasState::Pending));
    }
}

/// A list that was carried out has fared as it says.
proof fn lemma_fared<C: VersionedCas>(
    list: Seq<C>,
    before: usize,
    after: usize,
    ends: spec_fn(&mut ContentionMeasure) -> usize,
    result: Result<(), CasExecutionFailure>,
)
    requires
        list.len() <= usize::MAX,
        crate::cas::carried_out(list, before, after, ends, result),
    ensures
        fared(list, before, after, ends, result),
        timeline(list, before, after, ends, result),
{
    let (visits, counts, times) = choose|
        visits: Seq<CasVisit>,
        counts: Seq<usize>,
        times: Seq<nat>,
    |
        #[trigger] crate::cas::visited(list, visits, counts, ends, result)
            && #[trigger] crate::cas::visited_in(list, visits, counts, times, ends) && counts[0]
            == before && counts.last() == after && times[0] == 0;
    assert forall|j: int| 0 <= j < visits.len() implies shown(
        &list[j],
        counts[j],
        counts[j + 1],
        ends,
        #[trigger] visits[j],
        times[j],
        times[j + 1],
    ) by {
        assert(visits[j].happened_in(
            list[j],
            counts[j],
            counts[j + 1],
            ends,
            times[j],
            times[j + 1],
        ));
        lemma_shown(
            visits[j],
            &list[j],
            counts[j],
            counts[j + 1],
            ends,
            times[j],
            times[j + 1],
        );
    }
    assert forall|j: int|
        0 <= j < visits.len() && (#[trigger] visits[j]).verdict_spec(
            j as usize,
        ) is Ok implies succeeded(&list[j]) by {
        assert(shown(&list[j], counts[j], counts[j + 1], ends, visits[j], times[j], times[j + 1]));
    }
    if forall|k: int|
        0 <= k < list.len() ==> !call_ensures(
            C::state,
            (&#[trigger] list[k],),
            CasState::Pending,
        ) {
        lemma_untried(list, visits, counts, times, ends, visits.len() as int);
    }
    let last = visits.len() - 1;
    assert forall|k: int| 0 <= k < visits.len() implies (goes_on(#[trigger] visits[k])
        <==> visits[k].verdict_spec(k as usize) is Ok) by {}
    assert(laid_out(list, visits, counts, times, ends, result));
    match result {
        Ok(_) => {
            assert forall|k: int| 0 <= k < list.len() implies succeeded(&#[trigger] list[k]) by {
                assert(visits[k].verdict_spec(k as usize) is Ok);
            }
        },
        Err(failure) => {
            assert(shown(
                &list[last],
                counts[last],
                counts[last + 1],
                ends,
                visits[last],
                times[last],
                times[last + 1],
            ));
            assert forall|k: int| 0 <= k < last implies succeeded(&#[trigger] list[k]) by {
                assert(visits[k].verdict_spec(k as usize) is Ok);
            }
            if failure is Contention {
                assert(contended(&list[last], counts[last], after, ends));
            }
        },
    }
}

/// Carrying out a list makes the calls that it has to, in the order in which it has
/// to, and says how the list has fared.
pub proof fn law_carry_out<C: VersionedCas>(list: &[C])
    ensures
        forall|c: &mut ContentionMeasure, result: Result<(), CasExecutionFailure>| #[trigger]
            call_ensures(carry_out::<C>, (list, c), result) ==> fared(
                list@,
                (*c)@,
                (*final(c))@,
                |m: &mut ContentionMeasure| (*final(m))@,
                result,
            ) && timeline(
                list@,
                (*c)@,
                (*final(c))@,
                |m: &mut ContentionMeasure| (*final(m))@,
                result,
            ),
{
    broadcast use vstd::slice::group_slice_axioms;

    assert forall|c: &mut ContentionMeasure, result: Result<(), CasExecutionFailure>| #[trigger]
        call_ensures(carry_out::<C>, (list, c), result) implies fared(
        list@,
        (*c)@,
        (*final(c))@,
        |m: &mut ContentionMeasure| (*final(m))@,
        result,
    ) && timeline(
        list@,
        (*c)@,
        (*final(c))@,
        |m: &mut ContentionMeasure| (*final(m))@,
        result,
    ) by {
        assert(list.len() <= usize::MAX);
        lemma_fared(list@, (*c)@, (*final(c))@, |m: &mut ContentionMeasure| (*final(m))@, result);
    }
}

/// Carrying out a commit descriptor says how the list that it stands for has
/// fared.
pub proof fn law_cas_executor<LF: NormalizedLockFree, const N: usize>(
    sim: &WaitFreeSimulator<LF, N>,
    descriptors: &LF::CommitDescriptor,
)
    ensures
        forall|c: &mut ContentionMeasure, result: Result<(), CasExecutionFailure>| #[trigger]
            call_ensures(
                WaitFreeSimulator::<LF, N>::cas_executor,
                (sim, descriptors, c),
                result,
            ) ==> list_fared(
                descriptors,
                (*c)@,
                (*final(c))@,
                |m: &mut ContentionMeasure| (*final(m))@,
                result,
            ),
{
    assert forall|c: &mut ContentionMeasure, result: Result<(), CasExecutionFailure>| #[trigger]
        call_ensures(
            WaitFreeSimulator::<LF, N>::cas_executor,
            (sim, descriptors, c),
            result,
        ) implies list_fared(
        descriptors,
        (*c)@,
        (*final(c))@,
        |m: &mut ContentionMeasure| (*final(m))@,
        result,
    ) by {
        lemma_list_fared(
            descriptors,
            (*c)@,
            (*final(c))@,
            |m: &mut ContentionMeasure| (*final(m))@,
            result,
        );
    }
}

/// How the list that `descriptors` stands for can have fared.
pub open spec fn list_fared<D: CasList>(
    descriptors: &D,
    before: usize,
    after: usize,
    ends: spec_fn(&mut ContentionMeasure) -> usize,
    result: Result<(), CasExecutionFailure>,
) -> bool {
    exists|list: &[D::Cas]|
        #[trigger] call_ensures(D::as_slice, (descriptors,), list) && fared(
            list@,
            before,
            after,
            ends,
            result,
        ) && timeline(list@, before, after, ends, result)
}

/// What was carried out has fared as it says.
proof fn lemma_list_fared<D: CasList>(
    descriptors: &D,
    before: usize,
    after: usize,
    ends: spec_fn(&mut ContentionMeasure) -> usize,
    result: Result<(), CasExecutionFailure>,
)
    requires
        crate::cas::committed(*descriptors, before, after, ends, result),
    ensures
        list_fared(descriptors, before, after, ends, result),
{
    broadcast use vstd::slice::group_slice_axioms;

    let list = choose|list: &[D::Cas]|
        #[trigger] call_ensures(D::as_slice, (descriptors,), list) && crate::cas::carried_out(
            list@,
            before,
            after,
            ends,
            result,
        );
    assert(list.len() <= usize::MAX);
    lemma_fared(list@, before, after, ends, result);
}

/// Whether the generator can have answered `answer` for input `op`, with a measure
/// that had counted nothing.
pub open spec fn generator_says<LF: NormalizedLockFree>(
    algorithm: &LF,
    op: &LF::Input,
    answer: Result<LF::CommitDescriptor, Contention>,
) -> bool {
    exists|c: &mut ContentionMeasure|
        (*c)@ == 0 && #[trigger] call_ensures(LF::generator, (algorithm, op, c), answer)
}

/// Whether the wrap-up can have answered `answer` after `performed` went like
/// `executed`, with a measure that had counted nothing.
pub open spec fn wrap_up_says<LF: NormalizedLockFree>(
    algorithm: &LF,
    executed: Result<(), usize>,
    performed: &LF::CommitDescriptor,
    answer: Result<Option<LF::Output>, Contention>,
) -> bool {
    exists|c: &mut ContentionMeasure|
        (*c)@ == 0 && #[trigger] call_ensures(
            LF::wrap_up,
            (algorithm, executed, performed, c),
            answer,
        )
}

/// Whether the fast path can have answered `answer` for input `op`, with a measure
/// that had counted nothing.
pub open spec fn fast_path_says<LF: NormalizedLockFree>(
    algorithm: &LF,
    op: &LF::Input,
    answer: Result<LF::Output, Contention>,
) -> bool {
    exists|c: &mut ContentionMeasure|
        (*c)@ == 0 && #[trigger] call_ensures(LF::fast_path, (algorithm, op, c), answer)
}

/// Whether the list that `list` stands for can have fared like `result`, with a
/// measure that had counted nothing.
pub open spec fn list_says<D: CasList>(
    list: &D,
    result: Result<(), CasExecutionFailure>,
) -> bool {
    exists|after: usize, ends: spec_fn(&mut ContentionMeasure) -> usize| #[trigger]
        list_fared(list, 0, after, ends, result)
}

/// Whether `next` is the record of the same operation one stage further.
///
/// An operation whose compare-and-sets have not been generated gets those that the
/// generator answered with. Those are carried out, and the record says how they
/// fared: that they succeeded, or which one failed. After that the operation has
/// the output that the wrap-up answered with, or starts over if it answered
/// without one.
pub open spec fn one_stage_further<LF: NormalizedLockFree>(
    record: OperationRecord<LF>,
    algorithm: &LF,
    next: OperationRecord<LF>,
) -> bool {
    &&& next.owner == record.owner
    &&& vstd::pervasive::strictly_cloned(record.input, next.input)
    &&& match record.state {
        OperationState::PreCas => {
            &&& next.state matches OperationState::ExecuteCas(list)
            &&& generator_says(algorithm, &record.input, Ok(next.state->ExecuteCas_0))
        },
        OperationState::ExecuteCas(list) => {
            &&& next.state is PostCas
            &&& vstd::pervasive::strictly_cloned(list, next.state->PostCas_0)
            &&& next.state->PostCas_1 is Ok ==> list_says(&list, Ok(()))
            &&& next.state->PostCas_1 matches Err(i) ==> list_says(
                &list,
                Err(CasExecutionFailure::CasFailed(i)),
            )
        },
        OperationState::PostCas(list, outcome) => {
            &&& next.state is Completed || next.state is PreCas
            &&& next.state matches OperationState::Completed(output) ==> wrap_up_says(
                algorithm,
                outcome,
                &list,
                Ok(Some(output)),
            )
            &&& next.state is PreCas ==> wrap_up_says(algorithm, outcome, &list, Ok(None))
        },
        OperationState::Completed(_) => false,
    }
}

/// Whether the call that `record` asks for can have met contention.
pub open spec fn stage_contended<LF: NormalizedLockFree>(
    record: OperationRecord<LF>,
    algorithm: &LF,
) -> bool {
    match record.state {
        OperationState::PreCas => generator_says(algorithm, &record.input, Err(Contention)),
        OperationState::ExecuteCas(list) => list_says(
            &list,
            Err(CasExecutionFailure::Contention),
        ),
        OperationState::PostCas(list, outcome) => wrap_up_says(
            algorithm,
            outcome,
            &list,
            Err(Contention),
        ),
        OperationState::Completed(_) => false,
    }
}

/// Any record that follows another is one stage further.
pub proof fn law_records_go_stage_by_stage<LF: NormalizedLockFree>(
    record: OperationRecord<LF>,
    algorithm: LF,
    next: OperationRecord<LF>,
)
    requires
        record.leads_to(algorithm, next),
    ensures
        one_stage_further(record, &algorithm, next),
{
    match record.state {
        OperationState::ExecuteCas(list) => {
            let outcome = next.state->PostCas_1;
            let result: Result<(), CasExecutionFailure> = match outcome {
                Ok(_) => Ok(()),
                Err(i) => Err(CasExecutionFailure::CasFailed(i)),
            };
            assert(crate::operation::carried(list, result));
            lemma_list_says(&list, result);
        },
        OperationState::PreCas => {
            assert(crate::operation::generated(
                algorithm,
                record.input,
                Ok(next.state->ExecuteCas_0),
            ));
        },
        OperationState::PostCas(list, outcome) => {
            assert(crate::operation::wrapped_up(
                algorithm,
                outcome,
                list,
                if next.state is Completed {
                    Ok(Some(next.state->Completed_0))
                } else {
                    Ok(None)
                },
            ));
        },
        _ => {},
    }
}

/// What was carried out with a fresh measure has fared as it says.
proof fn lemma_list_says<D: CasList>(list: &D, result: Result<(), CasExecutionFailure>)
    requires
        crate::operation::carried(*list, result),
    ensures
        list_says(list, result),
{
    let (after, ends) = choose|
        after: usize,
        ends: spec_fn(&mut ContentionMeasure) -> usize,
    | #[trigger]
        crate::cas::committed(*list, 0, after, ends, result);
    lemma_list_fared(list, 0, after, ends, result);
    assert(list_fared(list, 0, after, ends, result));
}

/// Any record that was refused has met contention.
pub proof fn law_refused_met_contention<LF: NormalizedLockFree>(
    record: OperationRecord<LF>,
    algorithm: LF,
)
    requires
        record.refused(algorithm),
    ensures
        stage_contended(record, &algorithm),
{
    match record.state {
        OperationState::PreCas => {
            assert(crate::operation::generated(algorithm, record.input, Err(Contention)));
        },
        OperationState::ExecuteCas(list) => {
            lemma_list_says(&list, Err(CasExecutionFailure::Contention));
        },
        OperationState::PostCas(list, outcome) => {
            assert(crate::operation::wrapped_up(algorithm, outcome, list, Err(Contention)));
        },
        _ => {},
    }
}

/// What a record calls for: a completed operation is to be removed, and no other
/// is; any other one comes one stage further, unless its call met contention.
pub proof fn law_plan<LF: NormalizedLockFree>(
    record: &OperationRecord<LF>,
    algorithm: &LF,
    step: HelpStep<LF>,
)
    requires
        call_ensures(OperationRecord::<LF>::plan, (record, algorithm), step),
    ensures
        match step {
            HelpStep::Remove => record.state is Completed,
            HelpStep::Retry => stage_contended(*record, algorithm),
            HelpStep::Advance(next) => one_stage_further(*record, algorithm, next),
        },
{
    match step {
        HelpStep::Remove => {},
        HelpStep::Retry => {
            law_refused_met_contention(*record, *algorithm);
        },
        HelpStep::Advance(next) => {
            law_records_go_stage_by_stage(*record, *algorithm, next);
        },
    }
}

/// A record asks for the call that its stage is about, with what it holds.
pub proof fn law_record_asks<LF: NormalizedLockFree>(
    record: &OperationRecord<LF>,
    call: RecordCall<'_, LF>,
)
    requires
        call_ensures(OperationRecord::<LF>::call, (record,), call),
    ensures
        call is Remove <==> record.state is Completed,
        call is Generate <==> record.state is PreCas,
        call matches RecordCall::Generate(op) ==> *op == record.input,
        call is Execute <==> record.state is ExecuteCas,
        call matches RecordCall::Execute(list) ==> record.state
            == OperationState::<LF>::ExecuteCas(*list),
        call is WrapUp <==> record.state is PostCas,
        call matches RecordCall::WrapUp(list, outcome) ==> record.state
            == OperationState::<LF>::PostCas(*list, outcome),
{
}

/// How an operation goes on after each answer: contention leaves it where it is,
/// every other answer is kept as it was given.
pub proof fn law_answers_are_kept<LF: NormalizedLockFree>(
    record: &OperationRecord<LF>,
    list: &LF::CommitDescriptor,
)
    ensures
        forall|
            answer: Result<LF::CommitDescriptor, Contention>,
            next: Option<OperationRecord<LF>>,
        | #[trigger]
            call_ensures(OperationRecord::<LF>::after_generator, (record, answer), next) ==> {
                &&& next is None <==> answer is Err
                &&& next matches Some(r) ==> r.state == OperationState::<LF>::ExecuteCas(
                    answer->Ok_0,
                ) && r.owner == record.owner && vstd::pervasive::strictly_cloned(
                    record.input,
                    r.input,
                )
            },
        forall|
            answer: Result<(), CasExecutionFailure>,
            next: Option<OperationRecord<LF>>,
        | #[trigger]
            call_ensures(OperationRecord::<LF>::after_executor, (record, list, answer), next) ==> {
                &&& next is None <==> answer == Err::<(), _>(CasExecutionFailure::Contention)
                &&& next matches Some(r) ==> r.state is PostCas && r.owner == record.owner
                    && vstd::pervasive::strictly_cloned(*list, r.state->PostCas_0)
                    && vstd::pervasive::strictly_cloned(record.input, r.input)
                &&& answer is Ok ==> next.unwrap().state->PostCas_1 is Ok
                &&& answer matches Err(CasExecutionFailure::CasFailed(i))
                    ==> next.unwrap().state->PostCas_1 == Err::<(), usize>(i)
            },
        forall|
            answer: Result<Option<LF::Output>, Contention>,
            next: Option<OperationRecord<LF>>,
        | #[trigger]
            call_ensures(OperationRecord::<LF>::after_wrap_up, (record, answer), next) ==> {
                &&& next is None <==> answer is Err
                &&& answer matches Ok(Some(output)) ==> next.unwrap().state
                    == OperationState::<LF>::Completed(output)
                &&& answer matches Ok(None) ==> next.unwrap().state is PreCas
                &&& next matches Some(r) ==> r.owner == record.owner
                    && vstd::pervasive::strictly_cloned(record.input, r.input)
            },
{
}

/// A record is installed behind the one that was read, or not at all.
pub proof fn law_record_is_installed_behind_the_current<LF: NormalizedLockFree>()
    ensures
        forall|
            orb: &mut OperationRecordBox<LF>,
            seen: usize,
            updated: OperationRecord<LF>,
            done: bool,
        | #[trigger]
            call_ensures(
                OperationRecordBox::<LF>::compare_exchange,
                (orb, seen, updated),
                done,
            ) && seen < (*orb)@.len() ==> {
                &&& done <==> seen + 1 == (*orb)@.len()
                &&& done ==> (*final(orb))@ == (*orb)@.push(updated)
                &&& !done ==> (*final(orb))@ == (*orb)@
            },
        forall|owner: u64, input: LF::Input, orb: OperationRecordBox<LF>| #[trigger]
            call_ensures(OperationRecordBox::<LF>::new, (owner, input), orb) ==> {
                &&& orb@.len() == 1
                &&& orb@[0].owner == owner
                &&& orb@[0].input == input
                &&& orb@[0].state is PreCas
            },
        forall|orb: &OperationRecordBox<LF>, seen: usize| #[trigger]
            call_ensures(OperationRecordBox::<LF>::load, (orb,), seen) ==> seen == orb@.len() - 1,
        forall|orb: &OperationRecordBox<LF>, seen: usize, record: &OperationRecord<LF>| #[trigger]
            call_ensures(OperationRecordBox::<LF>::record, (orb, seen), record) ==> *record
                == orb@[seen as int],
{
}

/// A try of the fast path that succeeds ends the run with what it returned,
/// whichever try it is. One that meets contention is followed by another, up to
/// the fourth; after that the run asks for help.
pub proof fn law_fast_path_is_tried_four_times<O>(retry: usize)
    ensures
        forall|output: O, next: RunCall<O>| #[trigger]
            call_ensures(RunCall::<O>::after_fast_path, (retry, Ok(output)), next) ==> next
                == RunCall::<O>::End(RunEnd::Done(output)),
        forall|next: RunCall<O>| #[trigger]
            call_ensures(RunCall::<O>::after_fast_path, (retry, Err(Contention)), next) ==> {
                &&& retry < 3 ==> next == RunCall::<O>::FastPath((retry + 1) as usize)
                &&& retry >= 3 ==> next is Request
            },
{
}

/// What a run does after each answer: its own operation is tried only if the one
/// at the front is done with; what was asked for is waited for, under the name
/// that it got; an output ends the run with that output.
pub proof fn law_run_decides<O>(call: RunCall<O>, answer: RunAnswer<O>, next: RunCall<O>)
    requires
        call_ensures(RunCall::<O>::next, (call, answer), next),
        call.takes(answer),
    ensures
        answer matches RunAnswer::Helped(done) ==> next == if done {
            RunCall::<O>::FastPath(0)
        } else {
            RunCall::End(RunEnd::Busy)
        },
        answer matches RunAnswer::Tried(Ok(output)) ==> next == RunCall::<O>::End(
            RunEnd::Done(output),
        ),
        answer matches RunAnswer::Tried(Err(_)) ==> {
            &&& next is Request <==> call->FastPath_0 >= 3
            &&& call->FastPath_0 < 3 ==> next == RunCall::<O>::FastPath(
                (call->FastPath_0 + 1) as usize,
            )
        },
        answer matches RunAnswer::Requested(ticket) ==> next == RunCall::<O>::Resume(ticket),
        answer matches RunAnswer::Resumed(Some(output)) ==> next == RunCall::<O>::End(
            RunEnd::Done(output),
        ),
        answer matches RunAnswer::Resumed(None) ==> next == RunCall::<O>::End(
            RunEnd::Waiting(call->Resume_0),
        ),
{
}

/// A run asks for help exactly if all its tries of the fast path met contention,
/// and then there were four of them. If one succeeded it was the last, and the run
/// ends with what it returned.
pub proof fn law_help_is_asked_for_after_contention<LF: NormalizedLockFree>(
    algorithm: LF,
    op: LF::Input,
    tries: Seq<Result<LF::Output, Contention>>,
    t: nat,
)
    requires
        crate::operation::tried_fast(algorithm, op, tries, t),
    ensures
        crate::simulation::after_tries(tries) is Request <==> forall|k: int|
            0 <= k < tries.len() ==> (#[trigger] tries[k]) is Err,
        tries.last() is Err ==> tries.len() == 4,
        tries.last() matches Ok(output) ==> crate::simulation::after_tries(tries)
            == RunCall::<LF::Output>::End(RunEnd::Done(output)),
        forall|k: int| 0 <= k < tries.len() - 1 ==> (#[trigger] tries[k]) is Err,
        forall|k: int|
            0 <= k < tries.len() ==> fast_path_says(&algorithm, &op, #[trigger] tries[k])
                && fast_path_says_at(&algorithm, &op, tries[k], (t + k) as nat),
{
    assert forall|k: int| 0 <= k < tries.len() implies fast_path_says(
        &algorithm,
        &op,
        #[trigger] tries[k],
    ) && fast_path_says_at(&algorithm, &op, tries[k], (t + k) as nat) by {
        assert(crate::operation::went_fast(algorithm, op, tries[k]));
        assert(crate::operation::went_fast_at(algorithm, op, tries[k], (t + k) as nat));
    }
    assert(tries[tries.len() - 1] == tries.last());
}

/// Whether four tries of the fast path can all have met contention.
pub open spec fn fast_path_exhausted<LF: NormalizedLockFree>(
    algorithm: &LF,
    op: &LF::Input,
) -> bool {
    exists|tries: Seq<Result<LF::Output, Contention>>, t: nat| #[trigger]
        all_contended(algorithm, op, tries, t) && tries.len() == 4
}

/// Whether `tries` of the fast path, made one after the other from call number `t`
/// on, can all have met contention.
pub open spec fn all_contended<LF: NormalizedLockFree>(
    algorithm: &LF,
    op: &LF::Input,
    tries: Seq<Result<LF::Output, Contention>>,
    t: nat,
) -> bool {
    forall|k: int|
        0 <= k < tries.len() ==> (#[trigger] tries[k]) is Err && fast_path_says(
            algorithm,
            op,
            tries[k],
        ) && fast_path_says_at(algorithm, op, tries[k], (t + k) as nat)
}

/// Whether the fast path, tried as call number `t`, can have answered `answer`.
pub open spec fn fast_path_says_at<LF: NormalizedLockFree>(
    algorithm: &LF,
    op: &LF::Input,
    answer: Result<LF::Output, Contention>,
    t: nat,
) -> bool {
    exists|n: &mut Calls|
        (*n)@ == t && #[trigger] call_ensures(Calls::fast_path::<LF>, (n, algorithm, op), answer)
}

/// Trying the fast path ends with what a try of it returned, or asks for help
/// after four that met contention.
pub proof fn law_try_fast<LF: NormalizedLockFree, const N: usize>(
    sim: &WaitFreeSimulator<LF, N>,
    op: &LF::Input,
    call: RunCall<LF::Output>,
)
    requires
        call_ensures(WaitFreeSimulator::<LF, N>::try_fast, (sim, op), call),
    ensures
        match call {
            RunCall::End(RunEnd::Done(output)) => fast_path_says(
                &sim@.algorithm,
                op,
                Ok(output),
            ),
            RunCall::Request => fast_path_exhausted(&sim@.algorithm, op),
            _ => false,
        },
{
    let tries = choose|tries: Seq<Result<LF::Output, Contention>>| #[trigger]
        crate::operation::tried_fast(sim@.algorithm, *op, tries, 0) && call
            == crate::simulation::after_tries(tries);
    law_help_is_asked_for_after_contention(sim@.algorithm, *op, tries, 0);
    let last = tries[tries.len() - 1];
    assert(fast_path_says(&sim@.algorithm, op, last));
    if call is Request {
        assert(all_contended(&sim@.algorithm, op, tries, 0));
    }
}

/// Whether helping operation `b`, since `old`, has used up `budget` steps in
/// `new`, one after the other: each has brought the operation one stage further,
/// or has met contention. `cur` is which record was current before each step, and
/// after the last.
pub open spec fn budget_spent<LF: NormalizedLockFree>(
    old: Simulation<LF>,
    new: Simulation<LF>,
    b: int,
    budget: nat,
) -> bool {
    exists|cur: Seq<int>, t: nat| #[trigger]
        spent_along(new, b, cur, t) && cur.len() == budget + 1 && cur[0] == old.boxes[b].len() - 1
            && cur.last() == new.boxes[b].len() - 1
}

/// Whether each step, from call number `t` on, has gone from one of the records
/// `cur` to the next.
pub open spec fn spent_along<LF: NormalizedLockFree>(
    new: Simulation<LF>,
    b: int,
    cur: Seq<int>,
    t: nat,
) -> bool {
    forall|j: int| 0 <= j < cur.len() - 1 ==> #[trigger] step_spent(new, b, cur, t, j)
}

/// Whether step `j`, as call number `t + j`, has met contention at the record that was
/// current, or has brought the operation one stage further from there.
pub open spec fn step_spent<LF: NormalizedLockFree>(
    new: Simulation<LF>,
    b: int,
    cur: Seq<int>,
    t: nat,
    j: int,
) -> bool {
    let at = cur[j];
    &&& 0 <= at < new.boxes[b].len()
    &&& {
        ||| {
            &&& cur[j + 1] == at
            &&& plan_says(&new.boxes[b][at], &new.algorithm, HelpStep::Retry, (t + j) as nat)
            &&& stage_contended(new.boxes[b][at], &new.algorithm)
        }
        ||| {
            &&& cur[j + 1] == at + 1 < new.boxes[b].len()
            &&& plan_says(
                &new.boxes[b][at],
                &new.algorithm,
                HelpStep::Advance(new.boxes[b][at + 1]),
                (t + j) as nat,
            )
            &&& one_stage_further(new.boxes[b][at], &new.algorithm, new.boxes[b][at + 1])
        }
    }
}

/// Whether a record, looked at as call number `t`, can have called for `step`.
pub open spec fn plan_says<LF: NormalizedLockFree>(
    record: &OperationRecord<LF>,
    algorithm: &LF,
    step: HelpStep<LF>,
    t: nat,
) -> bool {
    exists|n: &mut Calls|
        (*n)@ == t && #[trigger] call_ensures(Calls::plan::<LF>, (n, record, algorithm), step)
}

/// What was planned was said.
proof fn lemma_plan_says<LF: NormalizedLockFree>(
    record: OperationRecord<LF>,
    algorithm: LF,
    step: HelpStep<LF>,
    t: nat,
)
    requires
        crate::operation::planned_at(record, algorithm, step, t),
    ensures
        plan_says(&record, &algorithm, step, t),
        step is Retry ==> stage_contended(record, &algorithm),
        step matches HelpStep::Advance(next) ==> one_stage_further(record, &algorithm, next),
{
    law_plan(&record, &algorithm, step);
}

/// Whether operation `b` has kept its records and each new one is one stage
/// further.
pub open spec fn brought_further<LF: NormalizedLockFree>(
    old: Simulation<LF>,
    new: Simulation<LF>,
    b: int,
) -> bool {
    &&& 0 < old.boxes[b].len() <= new.boxes[b].len()
    &&& forall|k: int|
        0 <= k < old.boxes[b].len() ==> #[trigger] new.boxes[b][k] == old.boxes[b][k]
    &&& forall|k: int|
        0 <= k < new.boxes[b].len() - 1 ==> one_stage_further(
            #[trigger] new.boxes[b][k],
            &new.algorithm,
            new.boxes[b][k + 1],
        )
}

/// Steps that were used up were spent on records and contention.
proof fn lemma_budget_spent<LF: NormalizedLockFree>(
    old: Simulation<LF>,
    new: Simulation<LF>,
    b: int,
    budget: nat,
)
    requires
        new.used_up(b, old.boxes[b].len() - 1, budget),
    ensures
        budget_spent(old, new, b, budget),
{
    let from = old.boxes[b].len() - 1;
    let (cur, t) = choose|cur: Seq<int>, t: nat| #[trigger]
        new.stepped(b, cur, t) && cur.len() == budget + 1 && cur[0] == from && cur.last()
            == new.boxes[b].len() - 1;
    assert forall|j: int| 0 <= j < cur.len() - 1 implies #[trigger] step_spent(
        new,
        b,
        cur,
        t,
        j,
    ) by {
        assert(new.step_at(b, cur, t, j));
        let at = cur[j];
        if cur[j + 1] == at {
            lemma_plan_says(new.boxes[b][at], new.algorithm, HelpStep::Retry, (t + j) as nat);
        } else {
            lemma_plan_says(
                new.boxes[b][at],
                new.algorithm,
                HelpStep::Advance(new.boxes[b][at + 1]),
                (t + j) as nat,
            );
        }
    }
    assert(spent_along(new, b, cur, t));
}

/// An operation only ever comes further stage by stage, whoever helps it.
pub proof fn law_operations_come_further<LF: NormalizedLockFree>(
    old: Simulation<LF>,
    new: Simulation<LF>,
    n: nat,
    b: int,
)
    requires
        old.inv(n),
        new.inv(n),
        old.evolves(new, n),
        0 <= b < old.boxes.len(),
    ensures
        brought_further(old, new, b),
{
    old.lemma_extended(new, n, b);
    old.lemma_operation(n, b);
    new.lemma_operation(n, b);
    assert forall|k: int| 0 <= k < new.boxes[b].len() - 1 implies one_stage_further(
        #[trigger] new.boxes[b][k],
        &new.algorithm,
        new.boxes[b][k + 1],
    ) by {
        assert(new.advanced(b, k));
        law_records_go_stage_by_stage(new.boxes[b][k], new.algorithm, new.boxes[b][k + 1]);
    }
}

/// One step of helping: a completed operation leaves the queue; any other comes
/// one stage further, unless it met contention.
pub proof fn law_help_once<LF: NormalizedLockFree, const N: usize>(orb: usize)
    ensures
        forall|sim: &mut WaitFreeSimulator<LF, N>, calls: &mut Calls, end: HelpEnd| #[trigger]
            call_ensures(WaitFreeSimulator::<LF, N>::help_once, (sim, orb, calls), end)
                && (*sim).wf() && orb < (*sim)@.boxes.len() ==> {
                let old = (*sim)@;
                let new = (*final(sim))@;
                let b = orb as int;
                &&& end is Left <==> old.boxes[b].last().state is Completed
                &&& end is Left ==> !new.queue().contains(orb) && new.boxes == old.boxes
                &&& end is Refused ==> new == old && stage_contended(
                    old.boxes[b].last(),
                    &old.algorithm,
                )
                &&& end is Gained ==> {
                    &&& new.boxes[b].len() == old.boxes[b].len() + 1
                    &&& brought_further(old, new, b)
                    &&& new.queue() == old.queue()
                }
            },
{
    assert forall|sim: &mut WaitFreeSimulator<LF, N>, calls: &mut Calls, end: HelpEnd| #[trigger]
        call_ensures(WaitFreeSimulator::<LF, N>::help_once, (sim, orb, calls), end) && (*sim).wf()
            && orb < (*sim)@.boxes.len() implies {
        let old = (*sim)@;
        let new = (*final(sim))@;
        let b = orb as int;
        &&& end is Left <==> old.boxes[b].last().state is Completed
        &&& end is Left ==> !new.queue().contains(orb) && new.boxes == old.boxes
        &&& end is Refused ==> new == old && stage_contended(old.boxes[b].last(), &old.algorithm)
        &&& end is Gained ==> {
            &&& new.boxes[b].len() == old.boxes[b].len() + 1
            &&& brought_further(old, new, b)
            &&& new.queue() == old.queue()
        }
    } by {
        let old = (*sim)@;
        let new = (*final(sim))@;
        (*sim).lemma_wf();
        (*final(sim)).lemma_wf();
        law_operations_come_further(old, new, N as nat, orb as int);
        if end is Refused {
            law_refused_met_contention(old.record(orb as int), old.algorithm);
        }
    }
}

/// Helping an operation: if it is done, the operation has completed and is not in
/// the queue. If it is not, the whole budget was spent: each step has brought the
/// operation one stage further, or has met contention.
pub proof fn law_help_op<LF: NormalizedLockFree, const N: usize>(orb: usize, budget: usize)
    ensures
        forall|sim: &mut WaitFreeSimulator<LF, N>, done: bool| #[trigger]
            call_ensures(WaitFreeSimulator::<LF, N>::help_op, (sim, orb, budget), done)
                && (*sim).wf() && orb < (*sim)@.boxes.len() ==> helped_as_promised(
                (*sim)@,
                (*final(sim))@,
                orb,
                budget as nat,
                done,
            ),
{
    assert forall|sim: &mut WaitFreeSimulator<LF, N>, done: bool| #[trigger]
        call_ensures(WaitFreeSimulator::<LF, N>::help_op, (sim, orb, budget), done) && (*sim).wf()
            && orb < (*sim)@.boxes.len() implies helped_as_promised(
        (*sim)@,
        (*final(sim))@,
        orb,
        budget as nat,
        done,
    ) by {
        let old = (*sim)@;
        let new = (*final(sim))@;
        (*sim).lemma_wf();
        (*final(sim)).lemma_wf();
        law_operations_come_further(old, new, N as nat, orb as int);
        if !done {
            lemma_budget_spent(old, new, orb as int, budget as nat);
        }
        assert forall|b: int| 0 <= b < old.boxes.len() && b != orb implies #[trigger] new.boxes[b]
            == old.boxes[b] by {}
    }
}

/// What helping operation `orb` in at most `budget` steps does.
pub open spec fn helped_as_promised<LF: NormalizedLockFree>(
    old: Simulation<LF>,
    new: Simulation<LF>,
    orb: usize,
    budget: nat,
    done: bool,
) -> bool {
    let b = orb as int;
    &&& brought_further(old, new, b)
    &&& forall|k: int|
        0 <= k < old.boxes.len() && k != b ==> #[trigger] new.boxes[k] == old.boxes[k]
    &&& done ==> {
        &&& new.boxes[b].last().state is Completed
        &&& !new.queue().contains(orb)
    }
    &&& !done ==> {
        &&& budget_spent(old, new, b, budget)
        &&& new.queue() == old.queue()
    }
}

/// Helping the operation at the front of the queue, if there is one: it is what
/// is helped, and if that is done it has left.
pub proof fn law_help_first<LF: NormalizedLockFree, const N: usize>(budget: usize)
    ensures
        forall|sim: &mut WaitFreeSimulator<LF, N>, done: bool| #[trigger]
            call_ensures(WaitFreeSimulator::<LF, N>::help_first, (sim, budget), done)
                && (*sim).wf() ==> {
                let old = (*sim)@;
                let new = (*final(sim))@;
                &&& old.queue().len() == 0 ==> done && new == old
                &&& old.queue().len() > 0 ==> helped_as_promised(
                    old,
                    new,
                    old.queue()[0],
                    budget as nat,
                    done,
                )
            },
{
    assert forall|sim: &mut WaitFreeSimulator<LF, N>, done: bool| #[trigger]
        call_ensures(WaitFreeSimulator::<LF, N>::help_first, (sim, budget), done)
            && (*sim).wf() implies {
        let old = (*sim)@;
        let new = (*final(sim))@;
        &&& old.queue().len() == 0 ==> done && new == old
        &&& old.queue().len() > 0 ==> helped_as_promised(
            old,
            new,
            old.queue()[0],
            budget as nat,
            done,
        )
    } by {
        (*sim).lemma_wf();
        (*final(sim)).lemma_wf();
        lemma_first_helped((*sim)@, (*final(sim))@, N as nat, budget as nat, done);
    }
}

/// The operation at the front is helped as promised.
proof fn lemma_first_helped<LF: NormalizedLockFree>(
    old: Simulation<LF>,
    new: Simulation<LF>,
    n: nat,
    budget: nat,
    done: bool,
)
    requires
        old.inv(n),
        new.inv(n),
        old.evolves(new, n),
        old.first_helped(new, n, budget, done),
    ensures
        old.queue().len() > 0 ==> helped_as_promised(old, new, old.queue()[0], budget, done),
{
    if old.queue().len() > 0 {
        let first = old.queue()[0];
        old.lemma_parts(n);
        law_operations_come_further(old, new, n, first as int);
        if done {
            crate::laws::law_front_stays_or_has_left(old, new, n, first);
            if new.queue().contains(first) {
                assert(old.queue()[1] == new.queue()[0]);
            }
        } else {
            lemma_budget_spent(old, new, first as int, budget);
        }
    }
}

/// Resuming operation `ticket`: its output, if it has one, is a clone of what its
/// last record holds. Without one it is still in the queue, and all of `patience`
/// was spent on the operation that is at the front.
pub proof fn law_resume<LF: NormalizedLockFree, const N: usize>(ticket: usize, patience: usize)
    ensures
        forall|sim: &mut WaitFreeSimulator<LF, N>, output: Option<LF::Output>| #[trigger]
            call_ensures(WaitFreeSimulator::<LF, N>::resume, (sim, ticket, patience), output)
                && (*sim).wf() && ticket < (*sim)@.boxes.len() ==> resumed_as_promised(
                (*sim)@,
                (*final(sim))@,
                ticket,
                patience as nat,
                output,
            ),
{
    assert forall|sim: &mut WaitFreeSimulator<LF, N>, output: Option<LF::Output>| #[trigger]
        call_ensures(WaitFreeSimulator::<LF, N>::resume, (sim, ticket, patience), output)
            && (*sim).wf() && ticket < (*sim)@.boxes.len() implies resumed_as_promised(
        (*sim)@,
        (*final(sim))@,
        ticket,
        patience as nat,
        output,
    ) by {
        (*sim).lemma_wf();
        (*final(sim)).lemma_wf();
        lemma_resumed(
            (*sim)@,
            (*final(sim))@,
            N as nat,
            ticket,
            patience as nat,
            output,
        );
    }
}

/// What resuming operation `ticket` does.
pub open spec fn resumed_as_promised<LF: NormalizedLockFree>(
    old: Simulation<LF>,
    new: Simulation<LF>,
    ticket: usize,
    patience: nat,
    output: Option<LF::Output>,
) -> bool {
    &&& brought_further(old, new, ticket as int)
    &&& new.boxes.len() == old.boxes.len()
    &&& match output {
        Some(out) => {
            &&& new.boxes[ticket as int].last().state is Completed
            &&& vstd::pervasive::strictly_cloned(
                new.boxes[ticket as int].last().state->Completed_0,
                out,
            )
            &&& old.boxes[ticket as int].last().state is Completed ==> new == old
            &&& !(old.boxes[ticket as int].last().state is Completed) ==> only_up_to(
                old,
                new,
                ticket,
            )
        },
        None => {
            &&& new.queue().contains(ticket)
            &&& budget_spent(old, new, new.queue()[0] as int, patience)
            &&& forall|i: int|
                0 < i < new.queue().len() ==> new.boxes[#[trigger] new.queue()[i] as int]
                    == old.boxes[new.queue()[i] as int]
        },
    }
}

/// The operations in the queue up to `ticket` have left, and those behind it have
/// not been touched.
pub open spec fn only_up_to<LF: NormalizedLockFree>(
    old: Simulation<LF>,
    new: Simulation<LF>,
    ticket: usize,
) -> bool {
    exists|k: int|
        0 <= k < old.queue().len() && #[trigger] old.queue()[k] == ticket && {
            &&& new.queue().len() == old.queue().len() - k - 1
            &&& forall|i: int|
                0 <= i < new.queue().len() ==> {
                    &&& #[trigger] new.queue()[i] == old.queue()[k + 1 + i]
                    &&& new.boxes[new.queue()[i] as int] == old.boxes[new.queue()[i] as int]
                }
        }
}

/// An operation is resumed as promised.
proof fn lemma_resumed<LF: NormalizedLockFree>(
    old: Simulation<LF>,
    new: Simulation<LF>,
    n: nat,
    ticket: usize,
    patience: nat,
    output: Option<LF::Output>,
)
    requires
        old.inv(n),
        new.inv(n),
        old.evolves(new, n),
        ticket < old.boxes.len(),
        old.resumed(new, n, ticket, patience, output),
    ensures
        resumed_as_promised(old, new, ticket, patience, output),
{
    law_operations_come_further(old, new, n, ticket as int);
    new.lemma_parts(n);
    if output is Some && !old.record(ticket as int).completed() {
        let k = choose|k: int|
            0 <= k < old.queue().len() && old.queue()[k] == ticket && new.queue()
                == #[trigger] old.queue().skip(k + 1);
        assert(old.queue()[k] == ticket);
        assert forall|i: int| 0 <= i < new.queue().len() implies {
            &&& #[trigger] new.queue()[i] == old.queue()[k + 1 + i]
            &&& new.boxes[new.queue()[i] as int] == old.boxes[new.queue()[i] as int]
        } by {
            assert(new.queue().contains(new.queue()[i]));
        }
    }
    if output is None {
        lemma_budget_spent(old, new, new.queue()[0] as int, patience);
        assert forall|i: int| 0 < i < new.queue().len() implies new.boxes[
        #[trigger] new.queue()[i] as int] == old.boxes[new.queue()[i] as int] by {
            assert(new.queue().contains(new.queue()[i]));
        }
    }
}

/// What running operation `op` for thread `owner` does.
///
/// If the operation that was at the front of the queue could not be completed
/// with all of `patience`, the run hands `op` back and has done nothing else. If
/// not, that operation has completed and left. Then either a try of the fast path
/// gave the output, and no operation was recorded; or four tries met contention,
/// and the operation was recorded with what it was given. The output is then that
/// of this record, or the operation still waits.
pub open spec fn ran_as_promised<LF: NormalizedLockFree>(
    old: Simulation<LF>,
    new: Simulation<LF>,
    owner: u64,
    op: LF::Input,
    patience: nat,
    outcome: RunOutcome<LF>,
) -> bool {
    let ticket = old.boxes.len() as int;
    &&& new.algorithm == old.algorithm
    &&& !(outcome is Busy) && old.queue().len() > 0 ==> {
        &&& new.boxes[old.queue()[0] as int].last().state is Completed
        &&& !new.queue().contains(old.queue()[0])
    }
    &&& !(outcome is Busy) ==> exists|t: nat, answer: Result<LF::Output, Contention>|
        #[trigger] fast_path_says_at(&old.algorithm, &op, answer, t) && front_completed_before(
            old,
            new,
            t,
        )
    &&& match outcome {
        RunOutcome::Busy(handed) => {
            &&& handed == op
            &&& old.queue().len() > 0
            &&& new.boxes.len() == ticket
            &&& new.queue() == old.queue()
            &&& budget_spent(old, new, old.queue()[0] as int, patience)
        },
        RunOutcome::Done(output) => if new.boxes.len() == ticket {
            fast_path_says(&old.algorithm, &op, Ok(output))
        } else {
            &&& slow_path_taken(old, new, owner, op)
            &&& new.boxes[ticket].last().state is Completed
            &&& vstd::pervasive::strictly_cloned(
                new.boxes[ticket].last().state->Completed_0,
                output,
            )
            &&& !new.queue().contains(ticket as usize)
        },
        RunOutcome::Waiting(named) => {
            &&& slow_path_taken(old, new, owner, op)
            &&& named == ticket
            &&& new.queue().contains(named)
        },
    }
}

/// The call before call number `t` has found that the operation that was at the
/// front of the queue, if there was one, had completed.
pub open spec fn front_completed_before<LF: NormalizedLockFree>(
    old: Simulation<LF>,
    new: Simulation<LF>,
    t: nat,
) -> bool {
    old.queue().len() > 0 ==> {
        &&& t > 0
        &&& plan_says(
            &new.boxes[old.queue()[0] as int].last(),
            &old.algorithm,
            HelpStep::Remove,
            (t - 1) as nat,
        )
    }
}

/// The operation was recorded after four tries of the fast path met contention,
/// for thread `owner` and with input `op`, and has come further from there.
pub open spec fn slow_path_taken<LF: NormalizedLockFree>(
    old: Simulation<LF>,
    new: Simulation<LF>,
    owner: u64,
    op: LF::Input,
) -> bool {
    let ticket = old.boxes.len() as int;
    &&& fast_path_exhausted(&old.algorithm, &op)
    &&& new.boxes.len() == ticket + 1
    &&& new.boxes[ticket].len() > 0
    &&& new.boxes[ticket][0].owner == owner
    &&& new.boxes[ticket][0].input == op
    &&& new.boxes[ticket][0].state is PreCas
    &&& forall|k: int|
        0 <= k < new.boxes[ticket].len() - 1 ==> one_stage_further(
            #[trigger] new.boxes[ticket][k],
            &new.algorithm,
            new.boxes[ticket][k + 1],
        )
}

/// Running an operation keeps to the order: the front first, then the fast path,
/// then help.
pub proof fn law_run<LF: NormalizedLockFree, const N: usize>(
    handle: &Handle,
    owner: u64,
    op: LF::Input,
    patience: usize,
)
    ensures
        forall|sim: &mut WaitFreeSimulator<LF, N>, outcome: RunOutcome<LF>| #[trigger]
            call_ensures(
                WaitFreeSimulator::<LF, N>::run,
                (sim, handle, owner, op, patience),
                outcome,
            ) && (*sim).wf() ==> ran_as_promised(
                (*sim)@,
                (*final(sim))@,
                owner,
                op,
                patience as nat,
                outcome,
            ),
{
    assert forall|sim: &mut WaitFreeSimulator<LF, N>, outcome: RunOutcome<LF>| #[trigger]
        call_ensures(
            WaitFreeSimulator::<LF, N>::run,
            (sim, handle, owner, op, patience),
            outcome,
        ) && (*sim).wf() implies ran_as_promised(
        (*sim)@,
        (*final(sim))@,
        owner,
        op,
        patience as nat,
        outcome,
    ) by {
        (*sim).lemma_wf();
        (*final(sim)).lemma_wf();
        lemma_ran(
            (*sim)@,
            (*final(sim))@,
            N as nat,
            handle.id(),
            owner,
            op,
            patience as nat,
            outcome,
        );
    }
}

/// An operation is run as promised.
proof fn lemma_ran<LF: NormalizedLockFree>(
    old: Simulation<LF>,
    new: Simulation<LF>,
    n: nat,
    id: usize,
    owner: u64,
    op: LF::Input,
    patience: nat,
    outcome: RunOutcome<LF>,
)
    requires
        old.inv(n),
        new.inv(n),
        old.evolves(new, n),
        old.ran(new, n, id, owner, op, patience, outcome),
        !(outcome is Busy) && old.queue().len() > 0 ==> {
            &&& new.record(old.queue()[0] as int).completed()
            &&& !new.queue().contains(old.queue()[0])
        },
    ensures
        ran_as_promised(old, new, owner, op, patience, outcome),
{
    old.lemma_parts(n);
    old.lemma_memory(new, n);
    let (helped, done) = choose|helped: Simulation<LF>, done: bool| #[trigger]
        old.first_helped(helped, n, patience, done) && old.ran_from(
            helped,
            done,
            new,
            n,
            id,
            owner,
            op,
            patience,
            outcome,
        );
    if done {
        let (tries, t) = choose|tries: Seq<Result<LF::Output, Contention>>, t: nat| #[trigger]
            crate::operation::tried_fast(old.algorithm, op, tries, t) && old.front_found_done(
                helped,
                t,
            ) && match crate::simulation::after_tries(tries) {
                RunCall::End(RunEnd::Done(out)) => new == helped && outcome
                    == RunOutcome::<LF>::Done(out),
                RunCall::Request => helped.ran_slow(new, n, id, owner, op, patience, outcome),
                _ => false,
            };
        law_help_is_asked_for_after_contention(old.algorithm, op, tries, t);
        assert(fast_path_says(&old.algorithm, &op, tries[tries.len() - 1]));
        assert(fast_path_says_at(&old.algorithm, &op, tries[0], t));
        if old.queue().len() > 0 {
            let first = old.queue()[0] as int;
            lemma_plan_says(
                helped.record(first),
                old.algorithm,
                HelpStep::Remove,
                (t - 1) as nat,
            );
            old.lemma_extended(helped, n, first);
            crate::laws::law_completed_for_good(helped, new, n, first);
        }
        if crate::simulation::after_tries(tries) is Request {
            assert(all_contended(&old.algorithm, &op, tries, t));
            assert(fast_path_exhausted(&old.algorithm, &op));
            lemma_ran_slow(helped, new, n, id, owner, op, patience, outcome);
        }
    } else {
        lemma_budget_spent(old, new, old.queue()[0] as int, patience);
    }
}

/// The slow path is taken as promised.
proof fn lemma_ran_slow<LF: NormalizedLockFree>(
    helped: Simulation<LF>,
    new: Simulation<LF>,
    n: nat,
    id: usize,
    owner: u64,
    op: LF::Input,
    patience: nat,
    outcome: RunOutcome<LF>,
)
    requires
        new.inv(n),
        helped.boxes.len() <= usize::MAX,
        helped.ran_slow(new, n, id, owner, op, patience, outcome),
    ensures
        ({
            let ticket = helped.boxes.len() as int;
            &&& new.boxes.len() == ticket + 1
            &&& new.boxes[ticket].len() > 0
            &&& new.boxes[ticket][0] == OperationRecord::<LF>::initial(owner, op)
            &&& forall|k: int|
                0 <= k < new.boxes[ticket].len() - 1 ==> one_stage_further(
                    #[trigger] new.boxes[ticket][k],
                    &new.algorithm,
                    new.boxes[ticket][k + 1],
                )
            &&& match outcome {
                RunOutcome::Done(output) => {
                    &&& new.boxes[ticket].last().state is Completed
                    &&& vstd::pervasive::strictly_cloned(
                        new.boxes[ticket].last().state->Completed_0,
                        output,
                    )
                    &&& !new.queue().contains(ticket as usize)
                },
                RunOutcome::Waiting(named) => {
                    &&& named == ticket
                    &&& new.queue().contains(named)
                },
                RunOutcome::Busy(_) => false,
            }
        }),
{
    let ticket = helped.boxes.len() as int;
    let output = match outcome {
        RunOutcome::Done(out) => Some(out),
        _ => None,
    };
    let asked = choose|asked: Simulation<LF>| #[trigger]
        helped.requested(asked, n, id, owner, op) && asked.evolves(new, n) && asked.resumed(
            new,
            n,
            ticket as usize,
            patience,
            output,
        );
    assert(asked.boxes[ticket].last() == OperationRecord::<LF>::initial(owner, op));
    assert(!asked.record(ticket).completed());
    asked.lemma_extended(new, n, ticket);
    new.lemma_operation(n, ticket);
    assert forall|k: int| 0 <= k < new.boxes[ticket].len() - 1 implies one_stage_further(
        #[trigger] new.boxes[ticket][k],
        &new.algorithm,
        new.boxes[ticket][k + 1],
    ) by {
        assert(new.advanced(ticket, k));
        law_records_go_stage_by_stage(
            new.boxes[ticket][k],
            new.algorithm,
            new.boxes[ticket][k + 1],
        );
    }
}

} // verus!
