//! Runs the operations of a lock-free algorithm with the help of all handles: an
//! operation that meets too much contention asks for help, and whoever runs an
//! operation helps the one at the front of the queue first.
use vstd::prelude::*;

use crate::calls::Calls;
use crate::cas::{commit, CasExecutionFailure};
use crate::contention::{Contention, ContentionMeasure};
use crate::enqueue::{EnqueueRun, EnqueueStep};
use crate::help_memory::Memory;
use crate::help_queue::WaitFreeHelpQueue;
use crate::help_steps::RemoveAttempt;
use crate::operation::{
    HelpEnd, HelpStep, NormalizedLockFree, OperationRecord, OperationRecordBox, OperationState,
};
use crate::request::RequestRun;
use crate::run::{RunAnswer, RunCall, RunEnd, RETRY_THRESHOLD};
use crate::simulation::{RunOutcome, Simulation};

verus! {

/// The queue of operations that need help; an operation is named by the index
/// of its box.
pub type HelpQueue<const N: usize> = WaitFreeHelpQueue<usize, N>;

/// The error of asking for more handles than there are.
#[derive(Debug)]
pub struct TooManyHandles;

/// The right to run operations, one at a time.
pub struct Handle {
    id: usize,
}

impl Handle {
    /// Which handle this is.
    pub closed spec fn spec_id(&self) -> usize {
        self.id
    }

    /// Which handle this is.
    #[verifier::when_used_as_spec(spec_id)]
    pub fn id(&self) -> (id: usize)
        ensures
            id == self.spec_id(),
    {
        self.id
    }
}

/// Runs operations for up to `N` handles; what the handles share.
pub struct WaitFreeSimulator<LF: NormalizedLockFree, const N: usize> {
    algorithm: LF,
    help: HelpQueue<N>,
    free_ids: Vec<usize>,
    boxes: Vec<OperationRecordBox<LF>>,
}

impl<LF: NormalizedLockFree, const N: usize> View for WaitFreeSimulator<LF, N> {
    type V = Simulation<LF>;

    closed spec fn view(&self) -> Simulation<LF> {
        Simulation {
            algorithm: self.algorithm,
            help: self.help@,
            free_ids: self.free_ids@,
            boxes: self.boxes@.map_values(|b: OperationRecordBox<LF>| b@),
        }
    }
}

impl<LF: NormalizedLockFree, const N: usize> WaitFreeSimulator<LF, N> {
    /// The simulator's invariant.
    pub closed spec fn wf(&self) -> bool {
        &&& self.help.wf()
        &&& self@.inv(N as nat)
    }

    /// The invariant as a statement about the simulation.
    pub proof fn lemma_wf(&self)
        requires
            self.wf(),
        ensures
            self@.inv(N as nat),
    {
    }

    /// Whether `handle` may run its next operation: it has been given out, and
    /// its latest operation has been put into the queue.
    pub open spec fn ready(&self, handle: &Handle) -> bool {
        &&& self@.in_use(handle.id() as int, N as nat)
        &&& self@.help.idle(handle.id() as int)
    }

    /// A simulator for `algorithm`, and its first handle.
    pub fn new(algorithm: LF) -> (made: (Self, Handle))
        requires
            N != 0,
        ensures
            made.0.wf(),
            made.0@.algorithm == algorithm,
            made.0@.free_ids == Seq::new((N - 1) as nat, |i: int| (i + 1) as usize),
            made.0@.boxes == Seq::<Seq<OperationRecord<LF>>>::empty(),
            made.0@.help == Memory::<usize>::initial(N as nat),
            made.0@.queue() == Seq::<usize>::empty(),
            made.1.id() == 0,
            made.0.ready(&made.1),
    {
        let help: HelpQueue<N> = WaitFreeHelpQueue::new();
        let mut free_ids: Vec<usize> = Vec::new();
        for id in 1..N
            invariant
                free_ids@.len() == id - 1,
                forall|i: int| 0 <= i < free_ids@.len() ==> #[trigger] free_ids@[i] == i + 1,
        {
            free_ids.push(id);
        }
        let boxes: Vec<OperationRecordBox<LF>> = Vec::new();
        let sim = WaitFreeSimulator { algorithm, help, free_ids, boxes };
        proof {
            reveal(Simulation::inv);
            sim.help.lemma_wf();
            assert(sim@.free_ids =~= Seq::new((N - 1) as nat, |i: int| (i + 1) as usize));
            assert(sim@.boxes =~= Seq::<Seq<OperationRecord<LF>>>::empty());
            assert forall|id: int| 0 <= id < N implies #[trigger] sim@.help.announced(
                id,
            ) is None by {
                assert(sim.help@.idle(id));
            }
        }
        (sim, Handle { id: 0 })
    }

    /// Gives out another handle, the one that was given back last, or says that
    /// all are in use.
    pub fn fork(&mut self) -> (handle: Result<Handle, TooManyHandles>)
        requires
            old(self).wf(),
        ensures
            final(self).wf(),
            handle is Err <==> old(self)@.free_ids.len() == 0,
            handle is Err ==> final(self)@ == old(self)@,
            handle matches Ok(h) ==> {
                &&& h.id() == old(self)@.free_ids.last()
                &&& final(self)@ == (Simulation {
                    free_ids: old(self)@.free_ids.drop_last(),
                    ..old(self)@
                })
                &&& !old(self)@.in_use(h.id() as int, N as nat)
                &&& final(self).ready(&h)
            },
    {
        match self.free_ids.pop() {
            Some(id) => {
                let handle = Handle { id };
                proof {
                    old(self)@.lemma_parts(N as nat);
                    let free = old(self)@.free_ids;
                    assert(self@.free_ids =~= free.drop_last());
                    assert(free[free.len() - 1] == id);
                    assert(self@.handles_ok(N as nat));
                    old(self)@.lemma_only_handles_changed(self@, N as nat);
                }
                Ok(handle)
            },
            None => Err(TooManyHandles),
        }
    }

    /// Takes a handle back, to be given out again.
    pub fn release(&mut self, handle: Handle)
        requires
            old(self).wf(),
            old(self).ready(&handle),
        ensures
            final(self).wf(),
            final(self)@ == (Simulation {
                free_ids: old(self)@.free_ids.push(handle.id()),
                ..old(self)@
            }),
    {
        self.free_ids.push(handle.id);
        proof {
            old(self)@.lemma_parts(N as nat);
            assert(self@.free_ids =~= old(self)@.free_ids.push(handle.id()));
            assert(self@.handles_ok(N as nat));
            old(self)@.lemma_only_handles_changed(self@, N as nat);
        }
    }

    /// Carries out the compare-and-sets of a commit descriptor, one after the
    /// other, up to the first that fails or meets contention. Only tries change
    /// the measure, and each leaves it as the compare-and-set has made it.
    pub fn cas_executor(
        &self,
        descriptors: &LF::CommitDescriptor,
        contention: &mut ContentionMeasure,
    ) -> (result: Result<(), CasExecutionFailure>)
        ensures
            crate::cas::committed(
                *descriptors,
                old(contention)@,
                final(contention)@,
                |c: &mut ContentionMeasure| (*final(c))@,
                result,
            ),
    {
        commit(descriptors, contention)
    }

    /// Records a new operation for thread `owner` and announces it; returns its
    /// name and the phase of the announcement. From here on any handle can put
    /// it into the queue.
    pub fn begin_request(&mut self, handle: &Handle, owner: u64, op: LF::Input) -> (made: (
        usize,
        u64,
    ))
        requires
            old(self).wf(),
            old(self).ready(handle),
        ensures
            final(self).wf(),
            old(self)@.evolves(final(self)@, N as nat),
            made.0 == old(self)@.boxes.len(),
            old(self)@.help.is_next_phase(made.1),
            final(self)@ == (Simulation {
                help: old(self)@.help.after_announce(handle.id() as int, made.1, made.0),
                boxes: old(self)@.boxes.push(seq![OperationRecord::<LF>::initial(owner, op)]),
                ..old(self)@
            }),
    {
        let ticket: usize = self.boxes.len();
        self.boxes.push(OperationRecordBox::new(owner, op));
        let phase: u64 = self.help.begin_enqueue(handle.id, ticket);
        proof {
            self.help.lemma_wf();
            assert(self.boxes.len() <= usize::MAX);
            assert(self@.boxes =~= old(self)@.boxes.push(
                seq![OperationRecord::<LF>::initial(owner, op)],
            ));
            old(self)@.lemma_announced(self@, N as nat, handle.id() as int, phase, owner, op);
        }
        (ticket, phase)
    }

    /// Puts every operation into the queue that was announced no later than
    /// `phase`.
    pub fn complete_request(&mut self, phase: u64)
        requires
            old(self).wf(),
        ensures
            final(self).wf(),
            old(self)@.evolves(final(self)@, N as nat),
            final(self)@ == (Simulation { help: final(self)@.help, ..old(self)@ }),
            final(self)@.queue() == old(self)@.queue() + old(self)@.help.backlog(N as nat, phase),
            !final(self)@.help.lagging(),
            forall|id: int|
                0 <= id < N ==> {
                    &&& #[trigger] final(self)@.help.pending(id) ==> old(self)@.help.pending(id)
                        && !old(self)@.help.wants_help(id, phase)
                    &&& final(self)@.help.announced(id) == if old(self)@.help.wants_help(
                        id,
                        phase,
                    ) {
                        None
                    } else {
                        old(self)@.help.announced(id)
                    }
                    &&& final(self)@.help.desc(id).phase == old(self)@.help.desc(id).phase
                    &&& final(self)@.help.desc(id).node == old(self)@.help.desc(id).node
                },
            final(self)@.help.h == old(self)@.help.h,
            final(self)@.help.nodes.len() == old(self)@.help.nodes.len(),
    {
        self.help.complete_enqueue(phase);
        proof {
            self.help.lemma_wf();
            assert forall|id: int| 0 <= id < N implies {
                &&& #[trigger] self@.help.pending(id) ==> old(self)@.help.pending(id) && !old(
                    self,
                )@.help.wants_help(id, phase)
                &&& self@.help.announced(id) == if old(self)@.help.wants_help(id, phase) {
                    None
                } else {
                    old(self)@.help.announced(id)
                }
                &&& self@.help.desc(id).phase == old(self)@.help.desc(id).phase
                &&& self@.help.desc(id).node == old(self)@.help.desc(id).node
            } by {
                assert(self.help@.desc(id).phase == old(self).help@.desc(id).phase);
            }
            old(self)@.lemma_parts(N as nat);
            old(self)@.help.lemma_backlog_members(N as nat, phase);
            let added = old(self)@.help.backlog(N as nat, phase);
            assert forall|id: int| 0 <= id < N implies {
                ||| #[trigger] self@.help.announced(id) == old(self)@.help.announced(id)
                ||| self@.help.announced(id) is None && added.contains(
                    old(self)@.help.announced(id).unwrap(),
                )
            } by {
                assert(self@.help.pending(id) ==> old(self)@.help.pending(id));
            }
            assert forall|v: usize| #[trigger] added.contains(v) implies exists|id: int|
                0 <= id < N && #[trigger] old(self)@.taken_up(self@, id, v) by {
                let id = choose|id: int|
                    0 <= id < N && old(self)@.help.wants_help(id, phase) && #[trigger] old(
                        self,
                    )@.help.announced(id) == Some(v);
                assert(self@.help.pending(id) ==> old(self)@.help.pending(id));
                assert(old(self)@.taken_up(self@, id, v));
            }
            old(self)@.lemma_queued(self@, N as nat, added);
        }
    }

    /// Asks for help with a new operation: records it for thread `owner` and
    /// puts it into the queue, along with all others that have been announced.
    /// Returns its name.
    pub fn request(&mut self, handle: &Handle, owner: u64, op: LF::Input) -> (ticket: usize)
        requires
            old(self).wf(),
            old(self).ready(handle),
        ensures
            final(self).wf(),
            old(self)@.evolves(final(self)@, N as nat),
            ticket == old(self)@.boxes.len(),
            old(self)@.requested(final(self)@, N as nat, handle.id(), owner, op),
            final(self).ready(handle),
    {
        let (ticket, phase) = self.begin_request(handle, owner, op);
        let ghost begun = self@;
        self.complete_request(phase);
        proof {
            old(self)@.lemma_evolves_trans(begun, self@, N as nat);
            begun.lemma_memory(self@, N as nat);
            old(self)@.lemma_requested(begun, self@, N as nat, handle.id(), phase, owner, op);
        }
        ticket
    }

    /// Begins to ask for help with a new operation of thread `owner`. Nothing is
    /// accessed yet.
    pub fn start_request(&self, handle: &Handle, owner: u64, op: LF::Input) -> (run: RequestRun<
        LF,
    >)
        requires
            self.wf(),
            self.ready(handle),
            self@.help.orderly(N as nat),
            self@.help.caught_up(N as nat, handle.id()),
        ensures
            run.ok(self@, N as nat),
            run.owner == owner,
            run.input == Some(op),
            run.op@ == op,
            run.enqueue.owner == handle.id(),
            run.enqueue.step == (EnqueueStep::Scan { id: 0, max: None }),
            run.enqueue.past@.start == self@.help,
            run.enqueue.past@.steps == 0,
    {
        let enqueue = EnqueueRun::begin(&self.help, handle.id, 0);
        let ghost given = op;
        RequestRun { owner, input: Some(op), enqueue, op: Ghost(given) }
    }

    /// Makes the next access of a request. Between two accesses, other handles
    /// may do what they like.
    pub fn advance_request(&mut self, run: &mut RequestRun<LF>)
        requires
            old(self).wf(),
            old(self)@.help.orderly(N as nat),
            old(run).ok(old(self)@, N as nat),
            !(old(run).enqueue.step is End),
        ensures
            final(self).wf(),
            final(self)@.help.orderly(N as nat),
            old(self)@.evolves(final(self)@, N as nat),
            old(run).steps_to(*final(run), old(self)@, final(self)@, N as nat),
            final(run).ok(final(self)@, N as nat),
    {
        if let EnqueueStep::Announce { .. } = run.enqueue.step {
            if let Some(op) = run.input.take() {
                run.enqueue.value = self.boxes.len();
                self.boxes.push(OperationRecordBox::new(run.owner, op));
                proof {
                    assert(self.boxes.len() <= usize::MAX);
                    old(run).enqueue.lemma_renamed(run.enqueue, old(self)@.help, N as nat);
                    assert(self@.boxes =~= old(self)@.boxes.push(
                        seq![OperationRecord::<LF>::initial(run.owner, op)],
                    ));
                }
            }
        }
        let ghost named = run.enqueue;
        run.enqueue.advance(&mut self.help);
        proof {
            assert(named == old(run).named(old(self)@));
            self.help.lemma_wf();
            assert(old(run).steps_to(*run, old(self)@, self@, N as nat));
            old(run).lemma_step(*run, old(self)@, self@, N as nat);
        }
    }

    /// Finds out what record `seen` of operation `orb` calls for, by asking the
    /// algorithm or carrying out the compare-and-sets. The record need not be
    /// the current one any more.
    pub fn plan(&self, orb: usize, seen: usize) -> (step: HelpStep<LF>)
        requires
            self.wf(),
            orb < self@.boxes.len(),
            seen < self@.boxes[orb as int].len(),
        ensures
            ({
                let record = self@.boxes[orb as int][seen as int];
                &&& step is Remove <==> record.completed()
                &&& step is Retry ==> record.refused(self@.algorithm)
                &&& step matches HelpStep::Advance(next) ==> record.leads_to(self@.algorithm, next)
            }),
    {
        self.boxes[orb].record(seen).plan(&self.algorithm)
    }

    /// Installs the stage that follows record `seen` of operation `orb`, if that
    /// record is still the current one; says whether it did.
    pub fn try_advance(
        &mut self,
        orb: usize,
        seen: usize,
        updated: OperationRecord<LF>,
    ) -> (done: bool)
        requires
            old(self).wf(),
            orb < old(self)@.boxes.len(),
            seen < old(self)@.boxes[orb as int].len(),
            old(self)@.boxes[orb as int][seen as int].leads_to(old(self)@.algorithm, updated),
        ensures
            final(self).wf(),
            old(self)@.evolves(final(self)@, N as nat),
            done == (seen == old(self)@.boxes[orb as int].len() - 1),
            final(self)@ == if done {
                Simulation {
                    boxes: old(self)@.boxes.update(
                        orb as int,
                        old(self)@.boxes[orb as int].push(updated),
                    ),
                    ..old(self)@
                }
            } else {
                old(self)@
            },
    {
        let done = self.boxes[orb].compare_exchange(seen, updated);
        proof {
            if done {
                assert(self@.boxes =~= old(self)@.boxes.update(
                    orb as int,
                    old(self)@.boxes[orb as int].push(updated),
                ));
                old(self)@.lemma_advanced(self@, N as nat, orb as int, updated);
            } else {
                assert(self@.boxes =~= old(self)@.boxes);
                assert(self@ =~= old(self)@);
                old(self)@.lemma_evolves_refl(N as nat);
            }
        }
        done
    }

    /// Removes the completed operation `orb` from the queue, if it is at the
    /// front; an error tells that it is not.
    pub fn try_remove(&mut self, orb: usize) -> (removed: Result<(), ()>)
        requires
            old(self).wf(),
            orb < old(self)@.boxes.len(),
            old(self)@.record(orb as int).completed(),
        ensures
            final(self).wf(),
            old(self)@.evolves(final(self)@, N as nat),
            removed is Ok <==> old(self)@.queue().len() > 0 && old(self)@.queue()[0] == orb,
            old(self)@.removed(final(self)@, orb),
            removed is Ok ==> !final(self)@.queue().contains(orb),
            forall|id: int|
                0 <= id < N ==> #[trigger] final(self)@.help.announced(id) == old(
                    self,
                )@.help.announced(id),
            forall|id: int|
                0 <= id < N && old(self)@.help.idle(id) ==> #[trigger] final(self)@.help.idle(id),
            forall|id: int|
                0 <= id < N ==> (#[trigger] final(self)@.help.desc(id)).phase == old(
                    self,
                )@.help.desc(id).phase,
            old(self)@.help.orderly(N as nat) ==> final(self)@.help.orderly(N as nat),
    {
        let removed = self.help.try_remove_front(orb);
        proof {
            self.help.lemma_wf();
            if removed is Ok {
                let m = old(self)@.help;
                let attempt = RemoveAttempt { head: m.head(), next: m.log[m.h as int + 1] };
                old(self)@.lemma_parts(N as nat);
                m.lemma_pos(m.h as int);
                m.lemma_pos(m.h as int + 1);
                m.lemma_pos(0);
                crate::laws::law_head_keeps_simulation(old(self)@, N as nat, attempt);
                let moved = Simulation { help: m.after_head(), ..old(self)@ };
                moved.lemma_parts(N as nat);
                moved.help.lemma_finish_kept(N as nat);
                crate::laws::law_access_keeps_simulation(moved, self@, N as nat);
                old(self)@.lemma_evolves_trans(moved, self@, N as nat);
            } else {
                assert(self@ =~= old(self)@);
                old(self)@.lemma_evolves_refl(N as nat);
            }
        }
        removed
    }

    /// The operation at the front of the queue, if there is one.
    pub fn first(&self) -> (front: Option<usize>)
        requires
            self.wf(),
        ensures
            front == if self@.queue().len() == 0 {
                None
            } else {
                Some(self@.queue()[0])
            },
            front matches Some(orb) ==> orb < self@.boxes.len(),
    {
        proof {
            self@.lemma_parts(N as nat);
        }
        self.help.peek()
    }

    /// The current record of operation `orb`, and its place among all of them.
    pub fn load(&self, orb: usize) -> (current: (usize, &OperationRecord<LF>))
        requires
            self.wf(),
            orb < self@.boxes.len(),
        ensures
            current.0 == self@.boxes[orb as int].len() - 1,
            *current.1 == self@.record(orb as int),
    {
        proof {
            self@.lemma_operation(N as nat, orb as int);
        }
        let seen: usize = self.boxes[orb].load();
        (seen, self.boxes[orb].record(seen))
    }

    /// Helps operation `orb`, which was at the front of the queue, by one step:
    /// brings it one stage further, or removes it if it has completed. Finding out
    /// what its record calls for is the next one in the order of `calls`.
    pub fn help_once(&mut self, orb: usize, calls: &mut Calls) -> (end: HelpEnd)
        requires
            old(self).wf(),
            orb < old(self)@.boxes.len(),
            old(self)@.queue().contains(orb) ==> old(self)@.queue()[0] == orb,
        ensures
            final(self).wf(),
            old(self)@.evolves(final(self)@, N as nat),
            final(calls)@ == old(calls)@ + 1,
            end is Left <==> old(self)@.record(orb as int).completed(),
            match end {
                HelpEnd::Left => {
                    &&& !final(self)@.queue().contains(orb)
                    &&& old(self)@.removed(final(self)@, orb)
                    &&& crate::operation::planned_at(
                        old(self)@.record(orb as int),
                        old(self)@.algorithm,
                        HelpStep::Remove,
                        old(calls)@,
                    )
                },
                HelpEnd::Refused => {
                    &&& final(self)@ == old(self)@
                    &&& old(self)@.record(orb as int).refused(old(self)@.algorithm)
                    &&& crate::operation::planned_at(
                        old(self)@.record(orb as int),
                        old(self)@.algorithm,
                        HelpStep::Retry,
                        old(calls)@,
                    )
                },
                HelpEnd::Gained => {
                    let next = final(self)@.record(orb as int);
                    &&& old(self)@.record(orb as int).leads_to(old(self)@.algorithm, next)
                    &&& crate::operation::planned_at(
                        old(self)@.record(orb as int),
                        old(self)@.algorithm,
                        HelpStep::Advance(next),
                        old(calls)@,
                    )
                    &&& final(self)@ == (Simulation {
                        boxes: old(self)@.boxes.update(
                            orb as int,
                            old(self)@.boxes[orb as int].push(next),
                        ),
                        ..old(self)@
                    })
                },
            },
            forall|id: int|
                0 <= id < N ==> #[trigger] final(self)@.help.announced(id) == old(
                    self,
                )@.help.announced(id),
            forall|id: int|
                0 <= id < N && old(self)@.help.idle(id) ==> #[trigger] final(self)@.help.idle(id),
            forall|id: int|
                0 <= id < N ==> (#[trigger] final(self)@.help.desc(id)).phase == old(
                    self,
                )@.help.desc(id).phase,
            old(self)@.help.orderly(N as nat) ==> final(self)@.help.orderly(N as nat),
    {
        proof {
            old(self)@.lemma_operation(N as nat, orb as int);
            old(self)@.lemma_evolves_refl(N as nat);
        }
        let (seen, record) = self.load(orb);
        match calls.plan(record, &self.algorithm) {
            HelpStep::Remove => {
                let _ = self.try_remove(orb);
                HelpEnd::Left
            },
            HelpStep::Retry => HelpEnd::Refused,
            HelpStep::Advance(updated) => {
                let _ = self.try_advance(orb, seen, updated);
                HelpEnd::Gained
            },
        }
    }

    /// Helps operation `orb`, which was at the front of the queue, in at most
    /// `budget` steps. If it says that it is done, the operation has completed
    /// and is no longer in the queue. It gives up only when all steps have been
    /// used up, each on a new record or on contention.
    pub fn help_op(&mut self, orb: usize, budget: usize) -> (done: bool)
        requires
            old(self).wf(),
            orb < old(self)@.boxes.len(),
            old(self)@.queue().contains(orb) ==> old(self)@.queue()[0] == orb,
        ensures
            final(self).wf(),
            old(self)@.evolves(final(self)@, N as nat),
            old(self)@.op_helped(final(self)@, N as nat, orb, budget as nat, done),
    {
        let mut calls = Calls::new();
        self.help_op_in(orb, budget, &mut calls)
    }

    /// Helps operation `orb` as [`WaitFreeSimulator::help_op`] does; finding out
    /// what its records call for are the next ones in the order of `calls`.
    pub fn help_op_in(&mut self, orb: usize, budget: usize, calls: &mut Calls) -> (done: bool)
        requires
            old(self).wf(),
            orb < old(self)@.boxes.len(),
            old(self)@.queue().contains(orb) ==> old(self)@.queue()[0] == orb,
        ensures
            final(self).wf(),
            old(self)@.evolves(final(self)@, N as nat),
            old(self)@.op_helped(final(self)@, N as nat, orb, budget as nat, done),
            done ==> {
                &&& old(calls)@ < final(calls)@
                &&& crate::operation::planned_at(
                    final(self)@.record(orb as int),
                    old(self)@.algorithm,
                    HelpStep::Remove,
                    (final(calls)@ - 1) as nat,
                )
            },
    {
        let mut left: usize = budget;
        let ghost from = old(self)@.boxes[orb as int].len() - 1;
        let ghost mut cur: Seq<int> = Seq::empty().push(from);
        proof {
            old(self)@.lemma_evolves_refl(N as nat);
            assert(self@.boxes =~= old(self)@.boxes.update(
                orb as int,
                old(self)@.boxes[orb as int],
            ));
        }
        while left > 0
            invariant
                old(self).wf(),
                self.wf(),
                orb < old(self)@.boxes.len(),
                old(self)@.queue().contains(orb) ==> old(self)@.queue()[0] == orb,
                old(self)@.evolves(self@, N as nat),
                self@.boxes.len() == old(self)@.boxes.len(),
                self@ == (Simulation {
                    boxes: old(self)@.boxes.update(orb as int, self@.boxes[orb as int]),
                    ..old(self)@
                }),
                left <= budget,
                from == old(self)@.boxes[orb as int].len() - 1,
                calls@ == old(calls)@ + (budget - left),
                cur.len() == budget - left + 1,
                cur[0] == from,
                cur.last() == self@.boxes[orb as int].len() - 1,
                self@.stepped(orb as int, cur, old(calls)@),
                self@.boxes[orb as int].len() <= old(self)@.boxes[orb as int].len() + (budget
                    - left),
                self@.boxes[orb as int].len() < old(self)@.boxes[orb as int].len() + (budget - left)
                    ==> self@.met_contention(orb as int, from),
                left < budget ==> !old(self)@.record(orb as int).completed(),
            decreases left,
        {
            left = left - 1;
            let ghost before = self@;
            proof {
                before.lemma_operation(N as nat, orb as int);
                old(self)@.lemma_operation(N as nat, orb as int);
                old(self)@.lemma_extended(before, N as nat, orb as int);
                if old(self)@.record(orb as int).completed() {
                    crate::laws::law_completed_for_good(
                        old(self)@,
                        before,
                        N as nat,
                        orb as int,
                    );
                }
            }
            let end = self.help_once(orb, calls);
            proof {
                let b = orb as int;
                old(self)@.lemma_evolves_trans(before, self@, N as nat);
                assert(self@.boxes =~= old(self)@.boxes.update(b, self@.boxes[b]));
                if old(self)@.record(b).completed() {
                    assert(self@.boxes =~= old(self)@.boxes);
                }
                let so_far = cur;
                cur = cur.push(self@.boxes[b].len() - 1);
                if !(end is Left) {
                    assert forall|j: int| 0 <= j < cur.len() - 1 implies #[trigger] self@.step_at(
                        b,
                        cur,
                        old(calls)@,
                        j,
                    ) by {
                        if j < so_far.len() - 1 {
                            assert(before.step_at(b, so_far, old(calls)@, j));
                            assert(self@.boxes[b][cur[j]] == before.boxes[b][cur[j]]);
                        }
                    }
                }
                if end is Refused {
                    assert(self@.boxes[b][so_far.last()].refused(self@.algorithm));
                } else if end is Gained && before.met_contention(b, from) {
                    let k = choose|k: int|
                        from <= k < before.boxes[b].len() && (
                        #[trigger] before.boxes[b][k]).refused(before.algorithm);
                    assert(self@.boxes[b][k] == before.boxes[b][k]);
                }
            }
            match end {
                HelpEnd::Left => {
                    return true;
                },
                HelpEnd::Refused | HelpEnd::Gained => {},
            }
        }
        false
    }

    /// Helps the operation at the front of the queue, if there is one, in at
    /// most `budget` steps. If it says that it is done, that operation has
    /// completed and left the queue.
    pub fn help_first(&mut self, budget: usize) -> (done: bool)
        requires
            old(self).wf(),
        ensures
            final(self).wf(),
            old(self)@.evolves(final(self)@, N as nat),
            old(self)@.first_helped(final(self)@, N as nat, budget as nat, done),
    {
        let mut calls = Calls::new();
        self.help_first_in(budget, &mut calls)
    }

    /// Helps the operation at the front of the queue as
    /// [`WaitFreeSimulator::help_first`] does; finding out what its records call
    /// for are the next ones in the order of `calls`.
    pub fn help_first_in(&mut self, budget: usize, calls: &mut Calls) -> (done: bool)
        requires
            old(self).wf(),
        ensures
            final(self).wf(),
            old(self)@.evolves(final(self)@, N as nat),
            old(self)@.first_helped(final(self)@, N as nat, budget as nat, done),
            done ==> old(self)@.front_found_done(final(self)@, final(calls)@),
    {
        match self.first() {
            Some(help) => self.help_op_in(help, budget, calls),
            None => {
                proof {
                    self@.lemma_evolves_refl(N as nat);
                }
                true
            },
        }
    }

    /// Helps the operations at the front of the queue until operation `ticket`
    /// has completed, and returns its output; gives up if one of them takes
    /// more than `patience` steps.
    pub fn resume(&mut self, ticket: usize, patience: usize) -> (output: Option<LF::Output>)
        requires
            old(self).wf(),
            ticket < old(self)@.boxes.len(),
            old(self)@.queue().contains(ticket) || old(self)@.record(ticket as int).completed(),
        ensures
            final(self).wf(),
            old(self)@.evolves(final(self)@, N as nat),
            old(self)@.resumed(final(self)@, N as nat, ticket, patience as nat, output),
    {
        proof {
            self@.lemma_evolves_refl(N as nat);
            assert(self@.queue() =~= self@.queue().skip(0));
        }
        let ghost mut left: int = 0;
        loop
            invariant
                old(self).wf(),
                self.wf(),
                ticket < old(self)@.boxes.len(),
                old(self)@.evolves(self@, N as nat),
                self@.algorithm == old(self)@.algorithm,
                self@.free_ids == old(self)@.free_ids,
                self@.boxes.len() == old(self)@.boxes.len(),
                self@.queue().contains(ticket) || self@.record(ticket as int).completed(),
                0 <= left <= old(self)@.queue().len(),
                self@.queue() == old(self)@.queue().skip(left),
                self@ == old(self)@ || !old(self)@.record(ticket as int).completed(),
                left == 0 ==> self@ == old(self)@,
                self@.queue().contains(ticket) || left == 0 || old(self)@.queue()[left - 1]
                    == ticket,
                forall|b: int|
                    0 <= b < old(self)@.boxes.len() && !old(self)@.queue().contains(b as usize)
                        ==> #[trigger] self@.boxes[b] == old(self)@.boxes[b],
                self@.record(ticket as int).completed() && !old(self)@.record(
                    ticket as int,
                ).completed() ==> !self@.queue().contains(ticket),
                forall|b: int|
                    0 <= b < old(self)@.boxes.len() ==> (#[trigger] self@.boxes[b]).len() <= old(
                        self,
                    )@.boxes[b].len() + patience,
                forall|b: int|
                    0 <= b < old(self)@.boxes.len() && self@.queue().contains(b as usize)
                        ==> #[trigger] self@.boxes[b] == old(self)@.boxes[b],
                forall|id: int|
                    0 <= id < N && old(self)@.help.idle(id) ==> #[trigger] self@.help.idle(id),
                forall|id: int|
                    0 <= id < N ==> (#[trigger] self@.help.desc(id)).phase == old(
                        self,
                    )@.help.desc(id).phase,
                old(self)@.help.orderly(N as nat) ==> self@.help.orderly(N as nat),
            decreases self@.queue().len(),
        {
            let ghost before = self@;
            proof {
                before.lemma_operation(N as nat, ticket as int);
            }
            if let OperationState::Completed(t) = &self.load(ticket).1.state {
                proof {
                    if left > 0 {
                        assert(old(self)@.queue().skip(left - 1 + 1) == self@.queue());
                    }
                }
                return Some(t.clone());
            }
            assert(before.queue().contains(ticket));
            let done = self.help_first(patience);
            proof {
                old(self)@.lemma_evolves_trans(before, self@, N as nat);
                before.lemma_parts(N as nat);
                Simulation::<LF>::lemma_front_gone(old(self)@.queue(), left, ticket);
                assert(old(self)@.queue().contains(before.queue()[0])) by {
                    assert(old(self)@.queue()[left] == before.queue()[0]);
                }
                if done {
                    left = left + 1;
                }
            }
            if !done {
                return None;
            }
        }
    }

    /// Tries the fast path until it succeeds or has met contention too often;
    /// tells what a run does after that.
    pub fn try_fast(&self, op: &LF::Input) -> (call: RunCall<LF::Output>)
        ensures
            call is Request || call is End,
            exists|tries: Seq<Result<LF::Output, Contention>>| #[trigger]
                crate::operation::tried_fast(self@.algorithm, *op, tries, 0) && call
                    == crate::simulation::after_tries(tries),
    {
        let mut calls = Calls::new();
        self.try_fast_in(op, &mut calls)
    }

    /// Tries the fast path as [`WaitFreeSimulator::try_fast`] does; its tries are
    /// the next ones in the order of `calls`.
    pub fn try_fast_in(&self, op: &LF::Input, calls: &mut Calls) -> (call: RunCall<LF::Output>)
        ensures
            call is Request || call is End,
            exists|tries: Seq<Result<LF::Output, Contention>>| #[trigger]
                crate::operation::tried_fast(self@.algorithm, *op, tries, old(calls)@) && call
                    == crate::simulation::after_tries(tries),
    {
        let mut retry: usize = 0;
        let ghost mut tries: Seq<Result<LF::Output, Contention>> = Seq::empty();
        loop
            invariant
                retry <= RETRY_THRESHOLD + 1,
                tries.len() == retry,
                calls@ == old(calls)@ + retry,
                forall|k: int|
                    0 <= k < tries.len() ==> crate::operation::went_fast_at(
                        self@.algorithm,
                        *op,
                        #[trigger] tries[k],
                        (old(calls)@ + k) as nat,
                    ),
                forall|k: int|
                    0 <= k < tries.len() ==> crate::operation::went_fast(
                        self@.algorithm,
                        *op,
                        #[trigger] tries[k],
                    ),
                forall|k: int| 0 <= k < tries.len() ==> (#[trigger] tries[k]) is Err,
            decreases RETRY_THRESHOLD + 2 - retry,
        {
            let answer = calls.fast_path(&self.algorithm, op);
            proof {
                assert(crate::operation::went_fast(self@.algorithm, *op, answer));
                assert(crate::operation::went_fast_at(
                    self@.algorithm,
                    *op,
                    answer,
                    (old(calls)@ + retry) as nat,
                ));
                tries = tries.push(answer);
            }
            match RunCall::after_fast_path(retry, answer) {
                RunCall::FastPath(next) => {
                    retry = next;
                },
                call => {
                    assert(crate::operation::tried_fast(
                        self@.algorithm,
                        *op,
                        tries,
                        old(calls)@,
                    ));
                    return call;
                },
            }
        }
    }

    /// Runs an operation for thread `owner`, as [`RunCall::next`] says: helps
    /// first, then tries the fast path, and if that meets too much contention
    /// asks for help and helps along until the operation has completed. Gives up
    /// when an operation that it helps takes more than `patience` steps: the
    /// operation is handed back if it has not been tried, and can be resumed
    /// under its name if it waits in the queue.
    pub fn run(&mut self, handle: &Handle, owner: u64, op: LF::Input, patience: usize) -> (outcome:
        RunOutcome<LF>)
        requires
            old(self).wf(),
            old(self).ready(handle),
        ensures
            final(self).wf(),
            old(self)@.evolves(final(self)@, N as nat),
            final(self)@.free_ids == old(self)@.free_ids,
            forall|id: int|
                0 <= id < N && old(self)@.help.idle(id) ==> #[trigger] final(self)@.help.idle(id),
            final(self).ready(handle),
            old(self)@.ran(
                final(self)@,
                N as nat,
                handle.id(),
                owner,
                op,
                patience as nat,
                outcome,
            ),
            outcome matches RunOutcome::Waiting(ticket) ==> ticket == old(self)@.boxes.len()
                && final(self)@.queue().contains(ticket),
            !(outcome is Busy) && old(self)@.queue().len() > 0 ==> {
                &&& final(self)@.record(old(self)@.queue()[0] as int).completed()
                &&& !final(self)@.queue().contains(old(self)@.queue()[0])
            },
    {
        let mut calls = Calls::new();
        let done = self.help_first_in(patience, &mut calls);
        let ghost helped = self@;
        proof {
            helped.lemma_evolves_refl(N as nat);
            if done && old(self)@.queue().len() > 0 {
                crate::laws::law_front_is_gone(
                    old(self)@,
                    helped,
                    helped,
                    N as nat,
                    patience as nat,
                );
            }
        }
        let mut call: RunCall<LF::Output> = RunCall::HelpFirst.next(RunAnswer::Helped(done));
        if let RunCall::FastPath(_) = call {
            call = self.try_fast_in(&op, &mut calls);
        }
        match call {
            RunCall::Request => {
                let ticket: usize = self.request(handle, owner, op);
                let ghost asked = self@;
                let output = self.resume(ticket, patience);
                proof {
                    old(self)@.lemma_evolves_trans(helped, asked, N as nat);
                    old(self)@.lemma_evolves_trans(asked, self@, N as nat);
                    helped.lemma_evolves_trans(asked, self@, N as nat);
                    if old(self)@.queue().len() > 0 {
                        crate::laws::law_front_is_gone(
                            old(self)@,
                            helped,
                            self@,
                            N as nat,
                            patience as nat,
                        );
                    }
                }
                match RunCall::Resume(ticket).next(RunAnswer::Resumed(output)) {
                    RunCall::End(RunEnd::Done(output)) => RunOutcome::Done(output),
                    _ => RunOutcome::Waiting(ticket),
                }
            },
            RunCall::End(RunEnd::Done(output)) => RunOutcome::Done(output),
            _ => RunOutcome::Busy(op),
        }
    }
}

} // verus!
