//! Calls of what users have implemented, made one after the other and counted.
//!
//! Nothing but making a call moves the count on. So what can come back from a call
//! that is made when `t` calls have been made has come back from the call at that
//! place in the order, and from no other one.
use vstd::prelude::*;

use crate::cas::{CasState, VersionedCas};
use crate::contention::{Contention, ContentionMeasure};
use crate::operation::{HelpStep, NormalizedLockFree, OperationRecord};

verus! {

/// How many calls have been made.
pub struct Calls {
    made: Ghost<nat>,
}

impl View for Calls {
    type V = nat;

    closed spec fn view(&self) -> nat {
        self.made@
    }
}

impl Calls {
    /// No calls have been made.
    pub fn new() -> (calls: Self)
        ensures
            calls@ == 0,
    {
        Calls { made: Ghost(0nat) }
    }

    /// Asks a compare-and-set how far it has come.
    pub fn state<C: VersionedCas>(&mut self, cas: &C) -> (state: CasState)
        ensures
            final(self)@ == old(self)@ + 1,
            call_ensures(C::state, (cas,), state),
    {
        self.made = Ghost(self.made@ + 1);
        cas.state()
    }

    /// Tries a compare-and-set.
    pub fn execute<C: VersionedCas>(
        &mut self,
        cas: &C,
        contention: &mut ContentionMeasure,
    ) -> (answer: Result<bool, Contention>)
        ensures
            final(self)@ == old(self)@ + 1,
            exists|c: &mut ContentionMeasure|
                *c == *old(contention) && *final(c) == *final(contention)
                    && #[trigger] call_ensures(C::execute, (cas, c), answer),
    {
        self.made = Ghost(self.made@ + 1);
        cas.execute(contention)
    }

    /// Asks a compare-and-set whether it has left its mark.
    pub fn has_modified_bit<C: VersionedCas>(&mut self, cas: &C) -> (modified: bool)
        ensures
            final(self)@ == old(self)@ + 1,
            call_ensures(C::has_modified_bit, (cas,), modified),
    {
        self.made = Ghost(self.made@ + 1);
        cas.has_modified_bit()
    }

    /// Takes the mark off a compare-and-set.
    pub fn clear_bit<C: VersionedCas>(&mut self, cas: &C) -> (was: bool)
        ensures
            final(self)@ == old(self)@ + 1,
            call_ensures(C::clear_bit, (cas,), was),
    {
        self.made = Ghost(self.made@ + 1);
        cas.clear_bit()
    }

    /// Tells a compare-and-set how far it has come.
    pub fn set_state<C: VersionedCas>(&mut self, cas: &C, new: CasState)
        ensures
            final(self)@ == old(self)@ + 1,
            call_ensures(C::set_state, (cas, new), ()),
    {
        self.made = Ghost(self.made@ + 1);
        cas.set_state(new)
    }

    /// Finds out what a record calls for.
    pub fn plan<LF: NormalizedLockFree>(
        &mut self,
        record: &OperationRecord<LF>,
        algorithm: &LF,
    ) -> (step: HelpStep<LF>)
        ensures
            final(self)@ == old(self)@ + 1,
            call_ensures(OperationRecord::<LF>::plan, (record, algorithm), step),
    {
        self.made = Ghost(self.made@ + 1);
        record.plan(algorithm)
    }

    /// Tries the fast path, with a fresh measure.
    pub fn fast_path<LF: NormalizedLockFree>(&mut self, algorithm: &LF, op: &LF::Input) -> (answer:
        Result<LF::Output, Contention>)
        ensures
            final(self)@ == old(self)@ + 1,
            exists|c: &mut ContentionMeasure|
                (*c)@ == 0 && #[trigger] call_ensures(LF::fast_path, (algorithm, op, c), answer),
    {
        self.made = Ghost(self.made@ + 1);
        let mut contention = ContentionMeasure::new();
        algorithm.fast_path(op, &mut contention)
    }
}

} // verus!
