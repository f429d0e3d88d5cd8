use std::cell::Cell;
use std::rc::Rc;

use bystander::{
    CasState, Contention, ContentionMeasure, Handle, HelpStep, NormalizedLockFree, OperationRecord,
    OperationState, RecordCall, RunAnswer, RunCall, RunEnd, RunOutcome, VersionedCas,
    WaitFreeSimulator,
};

/// Adds one number to a shared total, once.
#[derive(Clone)]
struct AddCas {
    total: Rc<Cell<u64>>,
    expected: u64,
    amount: u64,
    state: Rc<Cell<u8>>,
    bit: Rc<Cell<bool>>,
}

impl VersionedCas for AddCas {
    fn execute(&self, _contention: &mut ContentionMeasure) -> Result<bool, Contention> {
        if self.total.get() == self.expected {
            self.total.set(self.expected + self.amount);
            self.bit.set(true);
            Ok(true)
        } else {
            Ok(false)
        }
    }

    fn has_modified_bit(&self) -> bool {
        self.bit.get()
    }

    fn clear_bit(&self) -> bool {
        self.bit.replace(false)
    }

    fn state(&self) -> CasState {
        match self.state.get() {
            0 => CasState::Success,
            1 => CasState::Failure,
            _ => CasState::Pending,
        }
    }

    fn set_state(&self, new: CasState) {
        self.state.set(match new {
            CasState::Success => 0,
            CasState::Failure => 1,
            CasState::Pending => 2,
        });
    }
}

/// A shared total. The counters say how many more times a stage meets
/// contention.
#[derive(Clone)]
struct Adder {
    total: Rc<Cell<u64>>,
    fast_refusals: Rc<Cell<u32>>,
    generator_refusals: Rc<Cell<u32>>,
    wrap_up_refusals: Rc<Cell<u32>>,
    fast_tries: Rc<Cell<u32>>,
    disturbances: Rc<Cell<u32>>,
}

fn adder(fast_refusals: u32) -> Adder {
    Adder {
        total: Rc::new(Cell::new(0)),
        fast_refusals: Rc::new(Cell::new(fast_refusals)),
        generator_refusals: Rc::new(Cell::new(0)),
        wrap_up_refusals: Rc::new(Cell::new(0)),
        fast_tries: Rc::new(Cell::new(0)),
        disturbances: Rc::new(Cell::new(0)),
    }
}

fn refuses(counter: &Cell<u32>) -> bool {
    let left = counter.get();
    counter.set(left.saturating_sub(1));
    left > 0
}

impl NormalizedLockFree for Adder {
    type CommitDescriptor = Vec<AddCas>;
    type Output = u64;
    type Input = u64;

    fn generator(
        &self,
        op: &u64,
        _contention: &mut ContentionMeasure,
    ) -> Result<Vec<AddCas>, Contention> {
        if refuses(&self.generator_refusals) {
            return Err(Contention);
        }
        let cas = AddCas {
            total: self.total.clone(),
            expected: self.total.get(),
            amount: *op,
            state: Rc::new(Cell::new(2)),
            bit: Rc::new(Cell::new(false)),
        };
        if refuses(&self.disturbances) {
            self.total.set(self.total.get() + 1000);
        }
        Ok(vec![cas])
    }

    fn wrap_up(
        &self,
        executed: Result<(), usize>,
        performed: &Vec<AddCas>,
        _contention: &mut ContentionMeasure,
    ) -> Result<Option<u64>, Contention> {
        if refuses(&self.wrap_up_refusals) {
            return Err(Contention);
        }
        match executed {
            Ok(()) => Ok(Some(performed[0].expected + performed[0].amount)),
            Err(_) => Ok(None),
        }
    }

    fn fast_path(&self, op: &u64, _contention: &mut ContentionMeasure) -> Result<u64, Contention> {
        self.fast_tries.set(self.fast_tries.get() + 1);
        if refuses(&self.fast_refusals) {
            return Err(Contention);
        }
        self.total.set(self.total.get() + op);
        Ok(self.total.get())
    }
}

fn simulator<const N: usize>(algorithm: &Adder) -> (WaitFreeSimulator<Adder, N>, Handle) {
    WaitFreeSimulator::new(algorithm.clone())
}

fn done(outcome: RunOutcome<Adder>) -> Option<u64> {
    match outcome {
        RunOutcome::Done(output) => Some(output),
        _ => None,
    }
}

#[test]
fn handles_are_given_out_until_none_is_left() {
    let (mut sim, first) = simulator::<3>(&adder(0));
    assert_eq!(first.id(), 0);
    let second = sim.fork().ok().unwrap();
    assert_eq!(second.id(), 2);
    let third = sim.fork().ok().unwrap();
    assert_eq!(third.id(), 1);
    assert!(sim.fork().is_err());
    sim.release(first);
    assert_eq!(sim.fork().ok().unwrap().id(), 0);
    assert!(sim.fork().is_err());
    sim.release(third);
    sim.release(second);
    assert_eq!(sim.fork().ok().unwrap().id(), 2);
    assert_eq!(sim.fork().ok().unwrap().id(), 1);
}

#[test]
fn a_single_handle_is_the_only_one() {
    let (mut sim, _first) = simulator::<1>(&adder(0));
    assert!(sim.fork().is_err());
}

#[test]
fn the_fast_path_needs_no_help() {
    let algorithm = adder(0);
    let (mut sim, handle) = simulator::<1>(&algorithm);
    assert_eq!(done(sim.run(&handle, 1, 5, 10)), Some(5));
    assert_eq!(done(sim.run(&handle, 1, 6, 10)), Some(11));
    assert_eq!(algorithm.fast_tries.get(), 2);
}

#[test]
fn the_fast_path_is_tried_four_times() {
    let algorithm = adder(3);
    let (mut sim, handle) = simulator::<1>(&algorithm);
    assert_eq!(done(sim.run(&handle, 1, 5, 10)), Some(5));
    assert_eq!(algorithm.fast_tries.get(), 4);
    algorithm.fast_refusals.set(100);
    assert!(matches!(sim.try_fast(&1), RunCall::Request));
    assert_eq!(algorithm.fast_tries.get(), 8);
    assert_eq!(algorithm.total.get(), 5);
}

#[test]
fn the_slow_path_completes_the_operation() {
    let algorithm = adder(100);
    let (mut sim, handle) = simulator::<2>(&algorithm);
    assert_eq!(done(sim.run(&handle, 1, 5, 10)), Some(5));
    assert_eq!(algorithm.fast_tries.get(), 4);
    assert_eq!(algorithm.total.get(), 5);
    // The operation has left the queue, and keeps its output.
    assert!(sim.help_first(0));
    assert_eq!(sim.resume(0, 0), Some(5));
    assert_eq!(done(sim.run(&handle, 1, 7, 10)), Some(12));
    assert_eq!(algorithm.total.get(), 12);
}

#[test]
fn a_failed_commit_starts_over() {
    let algorithm = adder(100);
    algorithm.disturbances.set(2);
    let (mut sim, handle) = simulator::<1>(&algorithm);
    assert_eq!(done(sim.run(&handle, 1, 5, 100)), Some(2005));
    assert_eq!(algorithm.total.get(), 2005);
}

#[test]
fn contention_in_a_stage_is_waited_out() {
    let algorithm = adder(100);
    algorithm.generator_refusals.set(3);
    algorithm.wrap_up_refusals.set(2);
    let (mut sim, handle) = simulator::<1>(&algorithm);
    assert_eq!(done(sim.run(&handle, 1, 5, 100)), Some(5));
}

#[test]
fn an_operation_that_takes_too_long_can_be_resumed() {
    let algorithm = adder(100);
    let (mut sim, handle) = simulator::<1>(&algorithm);
    assert!(matches!(sim.run(&handle, 1, 5, 1), RunOutcome::Waiting(0)));
    assert_eq!(algorithm.total.get(), 0);
    assert_eq!(sim.resume(0, 1), None);
    assert_eq!(algorithm.total.get(), 5);
    assert_eq!(sim.resume(0, 0), None);
    assert_eq!(sim.resume(0, 2), Some(5));
    assert_eq!(sim.resume(0, 0), Some(5));
    assert_eq!(algorithm.total.get(), 5);
}

#[test]
fn running_an_operation_helps_first() {
    let algorithm = adder(4);
    let (mut sim, slow) = simulator::<2>(&algorithm);
    let fast = sim.fork().ok().unwrap();
    assert!(matches!(sim.run(&slow, 1, 5, 0), RunOutcome::Waiting(0)));
    assert_eq!(done(sim.run(&fast, 1, 1, 10)), Some(6));
    assert_eq!(sim.resume(0, 0), Some(5));
    assert_eq!(algorithm.total.get(), 6);
}

#[test]
fn operations_are_helped_in_the_order_of_the_queue() {
    let algorithm = adder(100);
    let (mut sim, a) = simulator::<2>(&algorithm);
    let b = sim.fork().ok().unwrap();
    assert_eq!(sim.request(&a, 1, 1), 0);
    assert_eq!(sim.request(&b, 1, 10), 1);
    assert_eq!(sim.resume(1, 10), Some(11));
    assert_eq!(sim.resume(0, 10), Some(1));
    assert!(sim.help_first(0));
}

#[test]
fn an_announced_operation_is_queued_by_others() {
    let algorithm = adder(100);
    let (mut sim, a) = simulator::<2>(&algorithm);
    let b = sim.fork().ok().unwrap();
    let (ticket, phase) = sim.begin_request(&a, 1, 1);
    assert_eq!((ticket, phase), (0, 0));
    assert!(sim.help_first(0));
    assert_eq!(done(sim.run(&b, 1, 10, 10)), Some(11));
    sim.complete_request(phase);
    assert_eq!(sim.resume(ticket, 0), Some(1));
}

#[test]
fn helping_goes_stage_by_stage() {
    let algorithm = adder(100);
    let (mut sim, handle) = simulator::<1>(&algorithm);
    assert_eq!(sim.request(&handle, 1, 5), 0);
    assert!(!sim.help_op(0, 3));
    assert_eq!(algorithm.total.get(), 5);
    assert!(!sim.help_op(0, 0));
    assert!(sim.help_op(0, 1));
    assert!(sim.help_first(0));
    assert_eq!(sim.try_remove(0), Err(()));
}

#[test]
fn a_slower_helper_does_not_repeat_a_stage() {
    let algorithm = adder(100);
    let (mut sim, handle) = simulator::<1>(&algorithm);
    sim.request(&handle, 1, 5);
    let (one, other) = (sim.plan(0, 0), sim.plan(0, 0));
    match one {
        HelpStep::Advance(next) => assert!(sim.try_advance(0, 0, next)),
        _ => panic!("the operation has to be generated"),
    }
    match other {
        HelpStep::Advance(next) => assert!(!sim.try_advance(0, 0, next)),
        _ => panic!("the operation has to be generated"),
    }
    algorithm.generator_refusals.set(1);
    assert!(matches!(sim.plan(0, 0), HelpStep::Retry));
    assert!(sim.help_op(0, 3));
    assert!(matches!(sim.plan(0, 3), HelpStep::Remove));
    assert_eq!(algorithm.total.get(), 5);
}

#[test]
fn records_follow_from_answers() {
    let record: OperationRecord<Adder> =
        OperationRecord { owner: 3, state: OperationState::PreCas, input: 9 };
    assert!(record.after_generator(Err(Contention)).is_none());
    let next = record.after_generator(Ok(vec![])).unwrap();
    assert!(matches!(next.state, OperationState::ExecuteCas(_)));
    assert_eq!((next.owner, next.input), (3, 9));
    let done = record.after_executor(&vec![], Ok(())).unwrap();
    assert!(matches!(done.state, OperationState::PostCas(_, Ok(()))));
    let failed = record
        .after_executor(&vec![], Err(bystander::CasExecutionFailure::CasFailed(7)))
        .unwrap();
    assert!(matches!(failed.state, OperationState::PostCas(_, Err(7))));
    assert!(record
        .after_executor(&vec![], Err(bystander::CasExecutionFailure::Contention))
        .is_none());
    let completed = record.after_wrap_up(Ok(Some(4))).unwrap();
    assert!(matches!(completed.state, OperationState::Completed(4)));
    let again = record.after_wrap_up(Ok(None)).unwrap();
    assert!(matches!(again.state, OperationState::PreCas));
    assert!(record.after_wrap_up(Err(Contention)).is_none());
}

#[test]
fn a_run_is_handed_back_while_the_front_is_unfinished() {
    let algorithm = adder(4);
    let (mut sim, slow) = simulator::<2>(&algorithm);
    let other = sim.fork().ok().unwrap();
    assert!(matches!(sim.run(&slow, 1, 5, 0), RunOutcome::Waiting(0)));
    assert_eq!(algorithm.fast_tries.get(), 4);
    // One step is not enough for the operation at the front.
    assert!(matches!(sim.run(&other, 2, 7, 1), RunOutcome::Busy(7)));
    assert_eq!(algorithm.fast_tries.get(), 4);
    assert_eq!(sim.load(0).0, 1);
    // Three more are: the operation completes before the fast path is tried.
    assert_eq!(done(sim.run(&other, 2, 7, 3)), Some(12));
    assert_eq!(algorithm.fast_tries.get(), 5);
    assert_eq!(sim.resume(0, 0), Some(5));
}

#[test]
fn four_steps_complete_an_undisturbed_operation() {
    let algorithm = adder(100);
    let (mut sim, handle) = simulator::<1>(&algorithm);
    assert_eq!(done(sim.run(&handle, 1, 5, 4)), Some(5));
    assert_eq!(sim.first(), None);
    assert_eq!(done(sim.run(&handle, 1, 6, 4)), Some(11));
    assert_eq!(sim.load(0).0, 3);
    assert_eq!(sim.load(1).0, 3);
    assert!(matches!(sim.run(&handle, 1, 7, 3), RunOutcome::Waiting(2)));
    assert_eq!(sim.first(), Some(2));
}

#[test]
fn no_operation_gains_more_records_than_patience_allows() {
    let algorithm = adder(100);
    let (mut sim, handle) = simulator::<1>(&algorithm);
    assert_eq!(sim.request(&handle, 1, 5), 0);
    assert_eq!(sim.resume(0, 2), None);
    assert_eq!(sim.load(0).0, 2);
    algorithm.wrap_up_refusals.set(9);
    assert_eq!(sim.resume(0, 2), None);
    assert_eq!(sim.load(0).0, 2);
    assert!(!sim.help_op(0, 1));
    assert_eq!(algorithm.wrap_up_refusals.get(), 6);
}

#[test]
fn records_keep_the_thread_that_asked() {
    let algorithm = adder(100);
    let (mut sim, handle) = simulator::<1>(&algorithm);
    assert_eq!(sim.request(&handle, 42, 5), 0);
    assert_eq!(sim.load(0).1.owner, 42);
    assert!(sim.help_op(0, 4));
    assert_eq!(sim.load(0).1.owner, 42);
    assert_eq!(sim.load(0).1.input, 5);
}

#[test]
fn a_record_asks_for_one_call() {
    let record = |state| OperationRecord::<Adder> { owner: 3, state, input: 9 };
    assert!(matches!(record(OperationState::PreCas).call(), RecordCall::Generate(9)));
    let execute = record(OperationState::ExecuteCas(vec![]));
    assert!(matches!(execute.call(), RecordCall::Execute(list) if list.is_empty()));
    let wrap_up = record(OperationState::PostCas(vec![], Err(2)));
    assert!(matches!(wrap_up.call(), RecordCall::WrapUp(_, Err(2))));
    let completed = record(OperationState::Completed(4));
    assert!(matches!(completed.call(), RecordCall::Remove));
    // A completed record asks nothing of the algorithm.
    let algorithm = adder(0);
    algorithm.generator_refusals.set(1);
    assert!(matches!(completed.plan(&algorithm), HelpStep::Remove));
    assert_eq!(algorithm.generator_refusals.get(), 1);
}

#[test]
fn a_run_decides_by_what_comes_back() {
    let busy = RunCall::<u64>::HelpFirst.next(RunAnswer::Helped(false));
    assert!(matches!(busy, RunCall::End(RunEnd::Busy)));
    let mut call = RunCall::<u64>::HelpFirst.next(RunAnswer::Helped(true));
    for retry in 0..4 {
        assert!(matches!(call, RunCall::FastPath(r) if r == retry));
        call = call.next(RunAnswer::Tried(Err(Contention)));
    }
    assert!(matches!(call, RunCall::Request));
    call = call.next(RunAnswer::Requested(7));
    assert!(matches!(call, RunCall::Resume(7)));
    let waiting = RunCall::<u64>::Resume(7).next(RunAnswer::Resumed(None));
    assert!(matches!(waiting, RunCall::End(RunEnd::Waiting(7))));
    call = call.next(RunAnswer::Resumed(Some(12)));
    assert!(matches!(call, RunCall::End(RunEnd::Done(12))));
}

#[test]
fn the_fast_path_ends_retries_or_asks() {
    assert!(matches!(RunCall::after_fast_path(0, Ok(8)), RunCall::End(RunEnd::Done(8))));
    assert!(matches!(RunCall::after_fast_path(3, Ok(8)), RunCall::End(RunEnd::Done(8))));
    let after = |retry| RunCall::<u64>::after_fast_path(retry, Err(Contention));
    assert!(matches!(after(0), RunCall::FastPath(1)));
    assert!(matches!(after(2), RunCall::FastPath(3)));
    assert!(matches!(after(3), RunCall::Request));
}

#[test]
fn the_output_is_that_of_the_operation_that_was_run() {
    let algorithm = adder(100);
    let (mut sim, handle) = simulator::<1>(&algorithm);
    assert_eq!(done(sim.run(&handle, 3, 5, 4)), Some(5));
    assert_eq!(done(sim.run(&handle, 4, 20, 4)), Some(25));
    assert_eq!((sim.load(0).1.owner, sim.load(0).1.input), (3, 5));
    assert_eq!((sim.load(1).1.owner, sim.load(1).1.input), (4, 20));
    assert_eq!(sim.resume(0, 0), Some(5));
}

#[test]
fn an_operation_found_at_the_front_has_left_when_its_helper_returns() {
    let algorithm = adder(100);
    let (mut sim, handle) = simulator::<1>(&algorithm);
    assert_eq!(sim.request(&handle, 1, 5), 0);
    let found = sim.first().unwrap();
    // Another helper is faster, and the queue moves on.
    assert!(sim.help_op(found, 4));
    assert_eq!(sim.request(&handle, 1, 7), 1);
    assert_eq!(sim.first(), Some(1));
    // The slow helper finds the operation completed; it has left already.
    assert!(matches!(sim.plan(found, sim.load(found).0), HelpStep::Remove));
    assert_eq!(sim.try_remove(found), Err(()));
    assert_eq!(sim.first(), Some(1));
    assert!(sim.help_op(found, 1));
    assert_eq!(sim.first(), Some(1));
}

#[test]
fn requests_can_be_interrupted() {
    let algorithm = adder(100);
    let (mut sim, a) = simulator::<2>(&algorithm);
    let b = sim.fork().ok().unwrap();
    let mut slow = sim.start_request(&a, 1, 5);
    // Two phases are read, and the announcement is made.
    for _ in 0..3 {
        assert_eq!(slow.input, Some(5));
        sim.advance_request(&mut slow);
    }
    assert_eq!(slow.input, None);
    assert_eq!(slow.enqueue.value, 0);
    assert_eq!(sim.first(), None);
    // Another handle comes by and puts both operations into the queue.
    let mut fast = sim.start_request(&b, 2, 7);
    while !fast.enqueue.is_done() {
        sim.advance_request(&mut fast);
    }
    assert_eq!(sim.first(), Some(0));
    assert_eq!(sim.resume(fast.enqueue.value, 4), Some(12));
    // The operation has been completed before its own request ends.
    while !slow.enqueue.is_done() {
        sim.advance_request(&mut slow);
    }
    assert_eq!(sim.first(), None);
    assert_eq!(sim.resume(slow.enqueue.value, 0), Some(5));
    assert_eq!((sim.load(0).1.owner, sim.load(1).1.owner), (1, 2));
    // Both handles can go on, by whole requests or access by access.
    assert_eq!(sim.request(&a, 1, 1), 2);
    let mut next = sim.start_request(&b, 2, 1);
    while !next.enqueue.is_done() {
        sim.advance_request(&mut next);
    }
    assert_eq!(sim.resume(next.enqueue.value, 4), Some(14));
}
