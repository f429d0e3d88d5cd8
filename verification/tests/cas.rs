use std::cell::{Cell, RefCell};

use bystander::cas::{carry_out, next_call};
use bystander::{
    CasAnswer, CasCall, CasExecutionFailure, CasList, CasState, CasVisit, Contention,
    ContentionMeasure, VersionedCas,
};

/// A compare-and-set that does as it is told and writes down what it is asked.
struct Script {
    state: Cell<u8>,
    bit: Cell<bool>,
    contended: bool,
    sets_bit: bool,
    calls: RefCell<Vec<&'static str>>,
}

fn script(state: u8, contended: bool, sets_bit: bool) -> Script {
    Script {
        state: Cell::new(state),
        bit: Cell::new(false),
        contended,
        sets_bit,
        calls: RefCell::new(Vec::new()),
    }
}

impl VersionedCas for Script {
    fn execute(&self, contention: &mut ContentionMeasure) -> Result<bool, Contention> {
        self.calls.borrow_mut().push("execute");
        if self.contended {
            contention.detected()?;
        }
        self.bit.set(self.sets_bit);
        Ok(self.sets_bit)
    }

    fn has_modified_bit(&self) -> bool {
        self.calls.borrow_mut().push("has_modified_bit");
        self.bit.get()
    }

    fn clear_bit(&self) -> bool {
        self.calls.borrow_mut().push("clear_bit");
        self.bit.replace(false)
    }

    fn state(&self) -> CasState {
        self.calls.borrow_mut().push("state");
        match self.state.get() {
            0 => CasState::Success,
            1 => CasState::Failure,
            _ => CasState::Pending,
        }
    }

    fn set_state(&self, new: CasState) {
        match new {
            CasState::Success => {
                self.calls.borrow_mut().push("set success");
                self.state.set(0);
            }
            CasState::Failure => {
                self.calls.borrow_mut().push("set failure");
                self.state.set(1);
            }
            CasState::Pending => self.state.set(2),
        }
    }
}

#[test]
fn an_empty_list_succeeds() {
    let list: Vec<Script> = vec![];
    assert!(carry_out(CasList::as_slice(&list), &mut ContentionMeasure::new()).is_ok());
}

#[test]
fn done_ones_are_only_cleared() {
    let list = vec![script(0, false, false)];
    assert!(carry_out(&list, &mut ContentionMeasure::new()).is_ok());
    assert_eq!(*list[0].calls.borrow(), ["state", "clear_bit"]);
}

#[test]
fn pending_ones_are_tried_and_recorded() {
    let list = vec![script(2, false, true), script(2, false, true)];
    assert!(carry_out(&list, &mut ContentionMeasure::new()).is_ok());
    for cas in &list {
        assert_eq!(
            *cas.calls.borrow(),
            ["state", "execute", "has_modified_bit", "set success", "clear_bit", "state"]
        );
        assert!(cas.state() == CasState::Success);
        assert!(!cas.bit.get());
    }
}

#[test]
fn the_first_that_does_not_take_effect_fails_the_list() {
    let list = vec![script(0, false, false), script(2, false, false), script(2, false, true)];
    let result = carry_out(&list, &mut ContentionMeasure::new());
    assert!(matches!(result, Err(CasExecutionFailure::CasFailed(1))));
    assert_eq!(
        *list[1].calls.borrow(),
        ["state", "execute", "has_modified_bit", "state", "set failure"]
    );
    assert!(list[2].calls.borrow().is_empty());
    assert!(list[1].state() == CasState::Failure);
}

#[test]
fn one_that_failed_before_fails_the_list() {
    let list = vec![script(0, false, false), script(0, false, false), script(1, false, true)];
    let result = carry_out(&list, &mut ContentionMeasure::new());
    assert!(matches!(result, Err(CasExecutionFailure::CasFailed(2))));
    assert_eq!(*list[2].calls.borrow(), ["state"]);
}

#[test]
fn contention_stops_the_list() {
    let list = vec![script(2, true, true), script(2, false, true)];
    let result = carry_out(&list, &mut ContentionMeasure::new());
    assert!(matches!(result, Err(CasExecutionFailure::Contention)));
    assert_eq!(*list[0].calls.borrow(), ["state", "execute"]);
    assert!(list[1].calls.borrow().is_empty());
    assert!(list[0].state() == CasState::Pending);
}

#[test]
fn verdicts_follow_from_visits() {
    assert!(CasVisit::Done.verdict(4).is_ok());
    assert!(matches!(CasVisit::Failed.verdict(4), Err(CasExecutionFailure::CasFailed(4))));
    assert!(matches!(CasVisit::Contended.verdict(4), Err(CasExecutionFailure::Contention)));
    let done = CasVisit::Tried { modified: false, reached: CasState::Success };
    assert!(done.verdict(4).is_ok());
    let open = CasVisit::Tried { modified: true, reached: CasState::Pending };
    assert!(matches!(open.verdict(4), Err(CasExecutionFailure::CasFailed(4))));
    let failed = CasVisit::Tried { modified: true, reached: CasState::Failure };
    assert!(matches!(failed.verdict(0), Err(CasExecutionFailure::CasFailed(0))));
}

#[test]
fn contention_becomes_an_execution_failure() {
    assert!(matches!(CasExecutionFailure::from(Contention), CasExecutionFailure::Contention));
}

#[test]
fn each_answer_calls_for_one_call() {
    let state = |call, state| next_call(call, CasAnswer::State(state));
    assert!(matches!(
        state(CasCall::State, CasState::Success),
        CasCall::Clear { tried: false }
    ));
    assert!(matches!(
        state(CasCall::State, CasState::Failure),
        CasCall::End(CasVisit::Failed)
    ));
    assert!(matches!(state(CasCall::State, CasState::Pending), CasCall::Execute));
    let cleared = next_call(CasCall::Clear { tried: false }, CasAnswer::Cleared(true));
    assert!(matches!(cleared, CasCall::End(CasVisit::Done)));
    let contended = next_call(CasCall::Execute, CasAnswer::Executed(Err(Contention)));
    assert!(matches!(contended, CasCall::End(CasVisit::Contended)));
    for took in [true, false] {
        let tried = next_call(CasCall::Execute, CasAnswer::Executed(Ok(took)));
        assert!(matches!(tried, CasCall::HasModifiedBit));
    }
    let marked = next_call(CasCall::HasModifiedBit, CasAnswer::Modified(true));
    assert!(matches!(marked, CasCall::SetSuccess));
    let told = next_call(CasCall::SetSuccess, CasAnswer::Told);
    assert!(matches!(told, CasCall::Clear { tried: true }));
    let settled = next_call(told, CasAnswer::Cleared(true));
    assert!(matches!(settled, CasCall::StateAgain { modified: true }));
    let unmarked = next_call(CasCall::HasModifiedBit, CasAnswer::Modified(false));
    assert!(matches!(unmarked, CasCall::StateAgain { modified: false }));
    assert!(matches!(
        state(unmarked, CasState::Success),
        CasCall::End(CasVisit::Tried { modified: false, reached: CasState::Success })
    ));
    let failing = state(unmarked, CasState::Pending);
    assert!(matches!(failing, CasCall::SetFailure { modified: false, .. }));
    assert!(matches!(
        next_call(failing, CasAnswer::Told),
        CasCall::End(CasVisit::Tried { modified: false, reached: CasState::Pending })
    ));
}

#[test]
fn only_trying_changes_the_measure() {
    let mut measure = ContentionMeasure::new();
    let done = vec![script(0, true, true), script(0, true, true)];
    assert!(carry_out(&done, &mut measure).is_ok());
    // Nothing has been detected so far: two detections are still contention.
    assert!(measure.detected().is_err());
    assert!(measure.detected().is_err());
    assert!(!measure.use_slow_path());
    // A third detection is no longer refused.
    let list = vec![script(2, true, true)];
    assert!(carry_out(&list, &mut measure).is_ok());
    assert!(measure.use_slow_path());
}

#[test]
fn a_second_pass_gives_the_same_result_and_tries_nothing() {
    let list = vec![script(2, false, true), script(2, false, false), script(2, false, true)];
    let first = carry_out(&list, &mut ContentionMeasure::new());
    assert!(matches!(first, Err(CasExecutionFailure::CasFailed(1))));
    for cas in &list {
        cas.calls.borrow_mut().clear();
    }
    let second = carry_out(&list, &mut ContentionMeasure::new());
    assert!(matches!(second, Err(CasExecutionFailure::CasFailed(1))));
    assert_eq!(*list[0].calls.borrow(), ["state", "clear_bit"]);
    assert_eq!(*list[1].calls.borrow(), ["state"]);
    assert!(list[2].calls.borrow().is_empty());
}

#[test]
fn a_list_may_mix_kinds() {
    /// A compare-and-set that took effect long ago.
    struct Past(Cell<u32>);

    impl VersionedCas for Past {
        fn execute(&self, _contention: &mut ContentionMeasure) -> Result<bool, Contention> {
            panic!("it has been decided")
        }

        fn has_modified_bit(&self) -> bool {
            panic!("it has been decided")
        }

        fn clear_bit(&self) -> bool {
            self.0.set(self.0.get() + 1);
            false
        }

        fn state(&self) -> CasState {
            CasState::Success
        }

        fn set_state(&self, _new: CasState) {
            panic!("it has been decided")
        }
    }

    let list: Vec<Box<dyn VersionedCas>> =
        vec![Box::new(Past(Cell::new(0))), Box::new(script(2, false, true))];
    assert!(carry_out(CasList::as_slice(&list), &mut ContentionMeasure::new()).is_ok());
    assert!(list[1].state() == CasState::Success);
    assert!(!list[1].has_modified_bit());
    let failing: Vec<Box<dyn VersionedCas>> =
        vec![Box::new(Past(Cell::new(0))), Box::new(script(1, false, true))];
    let result = carry_out(&failing, &mut ContentionMeasure::new());
    assert!(matches!(result, Err(CasExecutionFailure::CasFailed(1))));
}
