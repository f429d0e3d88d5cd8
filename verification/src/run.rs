//! The order in which running an operation goes about it.
//!
//! A run helps the operation at the front of the queue first. Only when that one
//! has completed does it try its own operation, on the fast path, a few times at
//! most. If that keeps meeting contention it asks for help, and then helps along
//! until its operation has completed. [`RunCall::next`] makes every decision in
//! this, so whoever carries out the calls has nothing left to decide.
use vstd::prelude::*;

use crate::contention::Contention;

verus! {

/// The last retry of the fast path that may be followed by another one.
pub const RETRY_THRESHOLD: usize = 2;

/// How a run ends.
pub enum RunEnd<O> {
    /// The operation has this output.
    Done(O),
    /// The operation at the front of the queue was not completed; the run's own
    /// operation has not been tried.
    Busy,
    /// The operation of this name waits in the queue.
    Waiting(usize),
}

/// What a run does next.
pub enum RunCall<O> {
    /// It helps the operation at the front of the queue.
    HelpFirst,
    /// It tries the fast path, as this retry; the first try is number 0.
    FastPath(usize),
    /// It asks for help.
    Request,
    /// It helps along until the operation of this name has completed.
    Resume(usize),
    /// It ends.
    End(RunEnd<O>),
}

/// What comes back from what a run does.
pub enum RunAnswer<O> {
    /// Whether the operation at the front is done with.
    Helped(bool),
    /// How the fast path went.
    Tried(Result<O, Contention>),
    /// The name of the operation that waits in the queue now.
    Requested(usize),
    /// The output, if the operation has completed.
    Resumed(Option<O>),
}

impl<O> RunCall<O> {
    /// Whether `answer` is an answer to this.
    pub open spec fn takes(self, answer: RunAnswer<O>) -> bool {
        match self {
            RunCall::HelpFirst => answer is Helped,
            RunCall::FastPath(_) => answer is Tried,
            RunCall::Request => answer is Requested,
            RunCall::Resume(_) => answer is Resumed,
            RunCall::End(_) => false,
        }
    }

    /// What a run does after this has been answered.
    pub open spec fn after(self, answer: RunAnswer<O>) -> RunCall<O> {
        match (self, answer) {
            (RunCall::HelpFirst, RunAnswer::Helped(done)) => if done {
                RunCall::FastPath(0)
            } else {
                RunCall::End(RunEnd::Busy)
            },
            (RunCall::FastPath(_), RunAnswer::Tried(Ok(output))) => RunCall::End(
                RunEnd::Done(output),
            ),
            (RunCall::FastPath(retry), RunAnswer::Tried(Err(_))) => if retry > RETRY_THRESHOLD {
                RunCall::Request
            } else {
                RunCall::FastPath((retry + 1) as usize)
            },
            (RunCall::Request, RunAnswer::Requested(ticket)) => RunCall::Resume(ticket),
            (RunCall::Resume(_), RunAnswer::Resumed(Some(output))) => RunCall::End(
                RunEnd::Done(output),
            ),
            (RunCall::Resume(ticket), RunAnswer::Resumed(None)) => RunCall::End(
                RunEnd::Waiting(ticket),
            ),
            _ => self,
        }
    }

    /// How many answers are still to come at most.
    pub open spec fn answers_left(self) -> nat {
        match self {
            RunCall::HelpFirst => (RETRY_THRESHOLD + 5) as nat,
            RunCall::FastPath(retry) => if retry > RETRY_THRESHOLD {
                3
            } else {
                (RETRY_THRESHOLD + 4 - retry) as nat
            },
            RunCall::Request => 2,
            RunCall::Resume(_) => 1,
            RunCall::End(_) => 0,
        }
    }

    /// Decides what a run does after `self` has been answered.
    pub fn next(self, answer: RunAnswer<O>) -> (next: RunCall<O>)
        requires
            self.takes(answer),
        ensures
            next == self.after(answer),
            next.answers_left() < self.answers_left(),
    {
        match (self, answer) {
            (RunCall::HelpFirst, RunAnswer::Helped(done)) => if done {
                RunCall::FastPath(0)
            } else {
                RunCall::End(RunEnd::Busy)
            },
            (RunCall::FastPath(retry), RunAnswer::Tried(answer)) => Self::after_fast_path(
                retry,
                answer,
            ),
            (RunCall::Request, RunAnswer::Requested(ticket)) => RunCall::Resume(ticket),
            (RunCall::Resume(ticket), RunAnswer::Resumed(output)) => match output {
                Some(output) => RunCall::End(RunEnd::Done(output)),
                None => RunCall::End(RunEnd::Waiting(ticket)),
            },
            (call, _) => call,
        }
    }

    /// Decides what a run does after a try of the fast path: it ends with the
    /// output, tries again, or asks for help.
    pub fn after_fast_path(retry: usize, answer: Result<O, Contention>) -> (next: RunCall<O>)
        ensures
            next == RunCall::<O>::FastPath(retry).after(RunAnswer::Tried(answer)),
            next.answers_left() < RunCall::<O>::FastPath(retry).answers_left(),
    {
        match answer {
            Ok(output) => RunCall::End(RunEnd::Done(output)),
            Err(_) => if retry > RETRY_THRESHOLD {
                RunCall::Request
            } else {
                RunCall::FastPath(retry + 1)
            },
        }
    }
}

} // verus!
