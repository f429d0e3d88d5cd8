//! Asking for help as a sequence of single accesses to what the handles of a
//! simulator share, between which other handles may do whatever they do.
use vstd::prelude::*;

use crate::enqueue::{EnqueueRun, EnqueueStep};
use crate::operation::{NormalizedLockFree, OperationRecord};
use crate::simulation::Simulation;

verus! {

/// A request for help that has begun. The operation is recorded, and gets its
/// name, together with the announcement.
pub struct RequestRun<LF: NormalizedLockFree> {
    /// The number of the thread that asks.
    pub owner: u64,
    /// What the operation was given, until it is recorded.
    pub input: Option<LF::Input>,
    /// The enqueue that puts the operation into the queue.
    pub enqueue: EnqueueRun<usize>,
    /// What the operation was given.
    pub op: Ghost<LF::Input>,
}

impl<LF: NormalizedLockFree> RequestRun<LF> {
    /// What holds of a request between any two accesses to simulation `s`, its
    /// own or others'.
    pub open spec fn ok(self, s: Simulation<LF>, n: nat) -> bool {
        &&& self.enqueue.ok(s.help, n)
        &&& s.in_use(self.enqueue.owner as int, n)
        &&& if self.enqueue.is_announced() {
            &&& self.input is None
            &&& self.enqueue.value < s.boxes.len()
            &&& s.boxes[self.enqueue.value as int].len() > 0
            &&& s.boxes[self.enqueue.value as int][0] == OperationRecord::<LF>::initial(
                self.owner,
                self.op@,
            )
        } else {
            self.input == Some(self.op@)
        }
    }

    /// The enqueue, with the name that the operation gets if it is announced
    /// next.
    pub open spec fn named(self, s: Simulation<LF>) -> EnqueueRun<usize> {
        EnqueueRun {
            value: if self.enqueue.step is Announce {
                s.boxes.len() as usize
            } else {
                self.enqueue.value
            },
            ..self.enqueue
        }
    }

    /// `next` is this request after its next access, which makes `new` of
    /// simulation `s`.
    pub open spec fn steps_to(
        self,
        next: Self,
        s: Simulation<LF>,
        new: Simulation<LF>,
        n: nat,
    ) -> bool {
        &&& next.owner == self.owner
        &&& next.op@ == self.op@
        &&& self.named(s).steps_to(next.enqueue, s.help, new.help, n)
        &&& if self.enqueue.step is Announce {
            &&& next.input is None
            &&& new == (Simulation {
                help: new.help,
                boxes: s.boxes.push(seq![OperationRecord::<LF>::initial(self.owner, self.op@)]),
                ..s
            })
        } else {
            &&& next.input == self.input
            &&& new == (Simulation { help: new.help, ..s })
        }
    }

    /// The request can go on whatever other handles do, as long as they announce
    /// nothing in this handle's name and it is not given back.
    pub proof fn lemma_kept(self, s: Simulation<LF>, new: Simulation<LF>, n: nat)
        requires
            self.ok(s, n),
            s.inv(n),
            new.inv(n),
            s.evolves(new, n),
            new.in_use(self.enqueue.owner as int, n),
            new.help.silent(self.enqueue.owner, s.help.nodes.len() as int),
        ensures
            self.ok(new, n),
    {
        s.lemma_parts(n);
        new.lemma_parts(n);
        s.lemma_memory(new, n);
        self.enqueue.lemma_kept(s.help, new.help, n);
        if self.enqueue.is_announced() {
            s.lemma_extended(new, n, self.enqueue.value as int);
        }
    }

    /// Every access keeps the simulation's invariant.
    pub proof fn lemma_step(self, next: Self, s: Simulation<LF>, new: Simulation<LF>, n: nat)
        requires
            self.ok(s, n),
            s.inv(n),
            self.enqueue.step is Announce ==> s.boxes.len() < usize::MAX,
            self.steps_to(next, s, new, n),
            new.help.inv(n),
            s.help.evolves(new.help, n),
            next.enqueue.ok(new.help, n),
        ensures
            new.inv(n),
            s.evolves(new, n),
            next.ok(new, n),
    {
        let m = s.help;
        s.lemma_parts(n);
        self.enqueue.lemma_ready(m, n);
        match self.enqueue.step {
            EnqueueStep::Announce { phase } => {
                s.lemma_announced(
                    new,
                    n,
                    self.enqueue.owner as int,
                    phase,
                    self.owner,
                    self.op@,
                );
            },
            EnqueueStep::Link(attempt) => {
                if attempt.last == m.log.last() {
                    crate::laws::law_link_keeps_simulation(s, n, attempt);
                } else {
                    assert(new =~= s);
                    s.lemma_evolves_refl(n);
                }
            },
            _ => {
                crate::laws::law_access_keeps_simulation(s, new, n);
            },
        }
        assert(next.enqueue.is_announced() <==> self.enqueue.is_announced()
            || self.enqueue.step is Announce);
        if self.enqueue.is_announced() {
            s.lemma_extended(new, n, self.enqueue.value as int);
        }
    }
}

} // verus!
