//! What the handles of a simulator share, as a mathematical value.
use vstd::prelude::*;

use crate::contention::Contention;
use crate::help_memory::Memory;
use crate::operation::{HelpStep, NormalizedLockFree, OperationRecord, OperationState};
use crate::run::{RunAnswer, RunCall, RunEnd};

verus! {

/// What comes of running an operation.
pub enum RunOutcome<LF: NormalizedLockFree> {
    /// It has this output.
    Done(LF::Output),
    /// It waits in the queue under this name.
    Waiting(usize),
    /// It has not been tried, because the operation at the front of the queue
    /// was not completed. It is handed back.
    Busy(LF::Input),
}

/// What a run does after all tries of the fast path.
pub open spec fn after_tries<O>(tries: Seq<Result<O, Contention>>) -> RunCall<O> {
    RunCall::FastPath((tries.len() - 1) as usize).after(RunAnswer::Tried(tries.last()))
}

/// Everything that the handles of a simulator share.
#[verifier::ext_equal]
pub struct Simulation<LF: NormalizedLockFree> {
    /// The algorithm.
    pub algorithm: LF,
    /// The memory of the help queue.
    pub help: Memory<usize>,
    /// The handles that can be given out, the next one last.
    pub free_ids: Seq<usize>,
    /// The records of each operation that has asked for help.
    pub boxes: Seq<Seq<OperationRecord<LF>>>,
}

impl<LF: NormalizedLockFree> Simulation<LF> {
    /// The operations in the help queue, oldest first.
    pub open spec fn queue(self) -> Seq<usize> {
        self.help.values()
    }

    /// The current record of operation `b`.
    pub open spec fn record(self, b: int) -> OperationRecord<LF> {
        self.boxes[b].last()
    }

    /// Whether operation `b` has been asked for and has not left the queue.
    pub open spec fn in_flight(self, b: int, n: nat) -> bool {
        ||| self.queue().contains(b as usize)
        ||| exists|id: int| 0 <= id < n && #[trigger] self.help.announced(id) == Some(b as usize)
    }

    /// Whether handle `id` has been given out.
    pub open spec fn in_use(self, id: int, n: nat) -> bool {
        0 <= id < n && !self.free_ids.contains(id as usize)
    }

    /// The records of operation `b` lead from its start to where it is.
    pub open spec fn well_recorded(self, b: int) -> bool {
        &&& self.boxes[b].len() > 0
        &&& self.boxes[b][0].state is PreCas
        &&& forall|k: int| 0 <= k < self.boxes[b].len() - 1 ==> #[trigger] self.advanced(b, k)
    }

    /// Record `k + 1` of operation `b` is the stage that follows record `k`.
    pub open spec fn advanced(self, b: int, k: int) -> bool {
        self.boxes[b][k].leads_to(self.algorithm, self.boxes[b][k + 1])
    }

    /// Handles that can be given out are distinct and have nothing pending.
    pub open spec fn handles_ok(self, n: nat) -> bool {
        &&& self.free_ids.no_duplicates()
        &&& forall|i: int|
            0 <= i < self.free_ids.len() ==> (#[trigger] self.free_ids[i]) < n && self.help.idle(
                self.free_ids[i] as int,
            )
    }

    /// Each operation is in the queue at most once, and announced by at most
    /// one handle if it is not in the queue.
    pub open spec fn queue_ok(self, n: nat) -> bool {
        &&& self.queue().no_duplicates()
        &&& forall|i: int|
            0 <= i < self.queue().len() ==> (#[trigger] self.queue()[i]) < self.boxes.len()
        &&& self.help.announces_apart(n)
        &&& forall|id: int|
            0 <= id < n ==> ((#[trigger] self.help.announced(id)) matches Some(b) ==> b
                < self.boxes.len() && !self.queue().contains(b))
    }

    /// Operation `b` has not left the queue, or it has completed.
    pub open spec fn cared_for(self, b: int, n: nat) -> bool {
        self.in_flight(b, n) || self.record(b).completed()
    }

    /// Every operation has come to be by rule, and leaves only when completed.
    pub open spec fn boxes_ok(self, n: nat) -> bool {
        &&& forall|b: int| 0 <= b < self.boxes.len() ==> #[trigger] self.well_recorded(b)
        &&& forall|b: int| 0 <= b < self.boxes.len() ==> #[trigger] self.cared_for(b, n)
    }

    /// Every node of the help queue is about an operation, and no two are about
    /// the same.
    pub open spec fn announced_once(self) -> bool {
        &&& forall|k: int|
            0 < k < self.help.nodes.len() ==> ((#[trigger] self.help.nodes[k]).value matches Some(b)
                && b < self.boxes.len())
        &&& forall|i: int, j: int|
            0 < i < j < self.help.nodes.len() ==> (#[trigger] self.help.nodes[i]).value != (
            #[trigger] self.help.nodes[j]).value
    }

    /// What holds of a simulation with `n` handles at every moment.
    #[verifier::opaque]
    pub open spec fn inv(self, n: nat) -> bool {
        &&& self.help.inv(n)
        &&& self.boxes.len() <= usize::MAX
        &&& self.handles_ok(n)
        &&& self.queue_ok(n)
        &&& self.boxes_ok(n)
        &&& self.announced_once()
    }

    /// What every handle may rely on the others to keep: the algorithm stays,
    /// the queue's memory evolves, operations only gain records, and none is
    /// announced a second time.
    #[verifier::opaque]
    pub open spec fn evolves(self, new: Self, n: nat) -> bool {
        &&& new.algorithm == self.algorithm
        &&& self.help.evolves(new.help, n)
        &&& self.boxes.len() <= new.boxes.len()
        &&& forall|b: int| 0 <= b < self.boxes.len() ==> #[trigger] self.extended(new, b)
        &&& forall|k: int|
            self.help.nodes.len() <= k < new.help.nodes.len() ==> ((
            #[trigger] new.help.nodes[k]).value matches Some(b) && b >= self.boxes.len())
    }

    /// Operation `b` has kept its records and may have gained some.
    pub open spec fn extended(self, new: Self, b: int) -> bool {
        &&& self.boxes[b].len() <= new.boxes[b].len()
        &&& forall|k: int|
            0 <= k < self.boxes[b].len() ==> #[trigger] new.boxes[b][k] == self.boxes[b][k]
    }

    /// Operation `b` met contention at its record `from` or a later one.
    pub open spec fn met_contention(self, b: int, from: int) -> bool {
        exists|k: int|
            from <= k < self.boxes[b].len() && (#[trigger] self.boxes[b][k]).refused(self.algorithm)
    }

    /// A helper of operation `b` has used up `budget` steps, since `from` was the
    /// current record: each step has gained a record or met contention. `cur` is
    /// which record was current before each step, and after the last.
    pub open spec fn used_up(self, b: int, from: int, budget: nat) -> bool {
        exists|cur: Seq<int>, t: nat| #[trigger]
            self.stepped(b, cur, t) && cur.len() == budget + 1 && cur[0] == from && cur.last()
                == self.boxes[b].len() - 1
    }

    /// Operation `b` was helped step by step along the records `cur`, from the
    /// time that `t` calls had been made.
    pub open spec fn stepped(self, b: int, cur: Seq<int>, t: nat) -> bool {
        forall|j: int| 0 <= j < cur.len() - 1 ==> #[trigger] self.step_at(b, cur, t, j)
    }

    /// Step `j` found out, as call number `t + j`, what the record that was
    /// current called for: there was contention and it stayed current, or the next
    /// record was installed.
    pub open spec fn step_at(self, b: int, cur: Seq<int>, t: nat, j: int) -> bool {
        &&& 0 <= cur[j] < self.boxes[b].len()
        &&& {
            ||| {
                &&& cur[j + 1] == cur[j]
                &&& crate::operation::planned_at(
                    self.boxes[b][cur[j]],
                    self.algorithm,
                    HelpStep::Retry,
                    (t + j) as nat,
                )
            }
            ||| {
                &&& cur[j + 1] == cur[j] + 1
                &&& cur[j + 1] < self.boxes[b].len()
                &&& crate::operation::planned_at(
                    self.boxes[b][cur[j]],
                    self.algorithm,
                    HelpStep::Advance(self.boxes[b][cur[j] + 1]),
                    (t + j) as nat,
                )
            }
        }
    }

    /// If there was an operation at the front, it was found completed in `new` by
    /// the last call before `t` calls had been made.
    pub open spec fn front_found_done(self, new: Self, t: nat) -> bool {
        self.queue().len() > 0 ==> {
            &&& t > 0
            &&& crate::operation::planned_at(
                new.record(self.queue()[0] as int),
                self.algorithm,
                HelpStep::Remove,
                (t - 1) as nat,
            )
        }
    }

    /// What helping operation `orb`, which was at the front of the queue, in at
    /// most `budget` steps, makes of the simulation.
    pub open spec fn op_helped(
        self,
        new: Self,
        n: nat,
        orb: usize,
        budget: nat,
        done: bool,
    ) -> bool {
        &&& new == (Simulation {
            help: new.help,
            boxes: self.boxes.update(orb as int, new.boxes[orb as int]),
            ..self
        })
        &&& done ==> {
            &&& new.record(orb as int).completed()
            &&& !new.queue().contains(orb)
            &&& new.queue() == if self.queue().contains(orb) {
                self.queue().drop_first()
            } else {
                self.queue()
            }
            &&& new.help == if self.queue().contains(orb) {
                self.help.after_head().finished()
            } else {
                self.help
            }
        }
        &&& !done ==> new.help == self.help
        &&& self.record(orb as int).completed() && budget > 0 ==> done && new.boxes == self.boxes
        &&& !done && new.boxes[orb as int].len() < self.boxes[orb as int].len() + budget
            ==> new.met_contention(orb as int, self.boxes[orb as int].len() - 1)
        &&& !done ==> new.used_up(orb as int, self.boxes[orb as int].len() - 1, budget)
        &&& new.boxes[orb as int].len() <= self.boxes[orb as int].len() + budget
        &&& forall|id: int|
            0 <= id < n ==> #[trigger] new.help.announced(id) == self.help.announced(id)
        &&& forall|id: int| 0 <= id < n && self.help.idle(id) ==> #[trigger] new.help.idle(id)
        &&& forall|id: int|
            0 <= id < n ==> (#[trigger] new.help.desc(id)).phase == self.help.desc(id).phase
        &&& self.help.orderly(n) ==> new.help.orderly(n)
    }

    /// Operation `b` never met contention and never had to start over.
    pub open spec fn undisturbed(self, b: int) -> bool {
        &&& !self.met_contention(b, 0)
        &&& forall|k: int|
            0 < k < self.boxes[b].len() ==> !((#[trigger] self.boxes[b][k]).state is PreCas)
    }

    /// What helping the operation at the front of the queue, in at most `budget`
    /// steps, makes of the simulation. If it is done, that operation has
    /// completed and left the queue; if it is not, only that operation's
    /// records have changed, and all `budget` steps have been used up: each has
    /// gained a record or met contention.
    pub open spec fn first_helped(self, new: Self, n: nat, budget: nat, done: bool) -> bool {
        &&& new.algorithm == self.algorithm
        &&& new.free_ids == self.free_ids
        &&& new.boxes.len() == self.boxes.len()
        &&& self.queue().len() == 0 ==> done && new == self
        &&& self.queue().len() > 0 ==> {
            let first = self.queue()[0] as int;
            &&& forall|b: int|
                0 <= b < self.boxes.len() && b != first ==> #[trigger] new.boxes[b] == self.boxes[b]
            &&& new.boxes[first].len() <= self.boxes[first].len() + budget
            &&& done ==> {
                &&& new.record(first).completed()
                &&& new.queue() == self.queue().drop_first()
                &&& new.help == self.help.after_head().finished()
            }
            &&& !done ==> new.help == self.help
            &&& self.record(first).completed() && budget > 0 ==> done
            &&& !done && new.boxes[first].len() < self.boxes[first].len() + budget
                ==> new.met_contention(first, self.boxes[first].len() - 1)
            &&& !done ==> new.used_up(first, self.boxes[first].len() - 1, budget)
        }
        &&& forall|id: int|
            0 <= id < n ==> #[trigger] new.help.announced(id) == self.help.announced(id)
        &&& forall|id: int| 0 <= id < n && self.help.idle(id) ==> #[trigger] new.help.idle(id)
        &&& forall|id: int|
            0 <= id < n ==> (#[trigger] new.help.desc(id)).phase == self.help.desc(id).phase
        &&& self.help.orderly(n) ==> new.help.orderly(n)
    }

    /// What trying to remove operation `orb` makes of the simulation: it leaves
    /// the queue if it is at the front, and otherwise nothing changes.
    pub open spec fn removed(self, new: Self, orb: usize) -> bool {
        if self.queue().len() > 0 && self.queue()[0] == orb {
            &&& new == (Simulation { help: self.help.after_head().finished(), ..self })
            &&& new.queue() == self.queue().drop_first()
        } else {
            new == self
        }
    }

    /// What asking for help with operation `input` of handle `id` makes of the
    /// simulation: the operation is recorded for thread `owner` and queued,
    /// along with everything else that has been announced.
    pub open spec fn requested(
        self,
        new: Self,
        n: nat,
        id: usize,
        owner: u64,
        input: LF::Input,
    ) -> bool {
        let ticket = self.boxes.len() as usize;
        &&& new == (Simulation {
            help: new.help,
            boxes: self.boxes.push(seq![OperationRecord::<LF>::initial(owner, input)]),
            ..self
        })
        &&& new.queue() == self.queue() + self.help.requests(n, id as int, ticket)
        &&& new.queue().contains(ticket)
        &&& forall|i: int| 0 <= i < n ==> #[trigger] new.help.idle(i)
        &&& new.help.h == self.help.h
        &&& !new.help.lagging()
        &&& new.help.desc(id as int).phase matches Some(p) && self.help.is_next_phase(p)
        &&& forall|i: int|
            0 <= i < n && i != id ==> (#[trigger] new.help.desc(i)).phase == self.help.desc(i).phase
        &&& self.help.orderly(n) ==> new.help.orderly(n)
    }

    /// What helping along until operation `ticket` has completed, or until one
    /// operation has taken more than `patience` steps, makes of the simulation.
    /// Operations leave at the front of the queue, up to `ticket` and no further,
    /// no others change, and none gains more than `patience` records. Without an
    /// output, all `patience` steps have been used up on the operation that is at
    /// the front now: each has gained a record or met contention.
    pub open spec fn resumed(
        self,
        new: Self,
        n: nat,
        ticket: usize,
        patience: nat,
        output: Option<LF::Output>,
    ) -> bool {
        &&& new.algorithm == self.algorithm
        &&& new.free_ids == self.free_ids
        &&& new.boxes.len() == self.boxes.len()
        &&& exists|k: int|
            0 <= k <= self.queue().len() && new.queue() == #[trigger] self.queue().skip(k)
        &&& forall|b: int|
            0 <= b < self.boxes.len() && !self.queue().contains(b as usize)
                ==> #[trigger] new.boxes[b] == self.boxes[b]
        &&& output matches Some(out) ==> (new.record(
            ticket as int,
        ).state matches OperationState::Completed(result) && vstd::pervasive::strictly_cloned(
            result,
            out,
        ))
        &&& self.record(ticket as int).completed() ==> output is Some && new == self
        &&& output is Some && !self.record(ticket as int).completed() ==> !new.queue().contains(
            ticket,
        )
        &&& output is Some && !self.record(ticket as int).completed() ==> exists|k: int|
            0 <= k < self.queue().len() && self.queue()[k] == ticket && new.queue()
                == #[trigger] self.queue().skip(k + 1)
        &&& forall|b: int|
            0 <= b < self.boxes.len() && new.queue().contains(b as usize) && (output is Some || b
                != new.queue()[0]) ==> #[trigger] new.boxes[b] == self.boxes[b]
        &&& output is None ==> new.queue().contains(ticket)
        &&& forall|b: int|
            0 <= b < self.boxes.len() ==> (#[trigger] new.boxes[b]).len() <= self.boxes[b].len()
                + patience
        &&& output is None ==> {
            let first = new.queue()[0] as int;
            &&& new.boxes[first].len() < self.boxes[first].len() + patience ==> new.met_contention(
                first,
                self.boxes[first].len() - 1,
            )
            &&& new.used_up(first, self.boxes[first].len() - 1, patience)
        }
        &&& forall|id: int| 0 <= id < n && self.help.idle(id) ==> #[trigger] new.help.idle(id)
        &&& forall|id: int|
            0 <= id < n ==> (#[trigger] new.help.desc(id)).phase == self.help.desc(id).phase
        &&& self.help.orderly(n) ==> new.help.orderly(n)
    }

    /// What running operation `op` of handle `id` makes of the simulation: it
    /// first helps (`helped` is what that makes of it). Only if the operation at
    /// the front is done with, and right after that was found out, does it try the
    /// fast path, and if that keeps meeting contention it asks for help and helps
    /// along.
    pub open spec fn ran(
        self,
        new: Self,
        n: nat,
        id: usize,
        owner: u64,
        op: LF::Input,
        patience: nat,
        outcome: RunOutcome<LF>,
    ) -> bool {
        exists|helped: Self, done: bool| #[trigger]
            self.first_helped(helped, n, patience, done) && self.ran_from(
                helped,
                done,
                new,
                n,
                id,
                owner,
                op,
                patience,
                outcome,
            )
    }

    /// What running an operation makes of the simulation, once the operation at
    /// the front has been helped.
    pub open spec fn ran_from(
        self,
        helped: Self,
        done: bool,
        new: Self,
        n: nat,
        id: usize,
        owner: u64,
        op: LF::Input,
        patience: nat,
        outcome: RunOutcome<LF>,
    ) -> bool {
        &&& self.evolves(helped, n)
        &&& helped.inv(n)
        &&& helped.evolves(new, n)
        &&& done ==> exists|tries: Seq<Result<LF::Output, Contention>>, t: nat| #[trigger]
            crate::operation::tried_fast(self.algorithm, op, tries, t) && self.front_found_done(
                helped,
                t,
            ) && match after_tries(tries) {
                RunCall::End(RunEnd::Done(out)) => new == helped && outcome
                    == RunOutcome::<LF>::Done(out),
                RunCall::Request => helped.ran_slow(new, n, id, owner, op, patience, outcome),
                _ => false,
            }
        &&& !done ==> new == helped && outcome == RunOutcome::<LF>::Busy(op)
    }

    /// The operation asked for help, and what that made of the simulation was
    /// `asked`, from which it has gone on: the output is that of the operation
    /// that asked.
    pub open spec fn ran_slow(
        self,
        new: Self,
        n: nat,
        id: usize,
        owner: u64,
        op: LF::Input,
        patience: nat,
        outcome: RunOutcome<LF>,
    ) -> bool {
        let ticket = self.boxes.len() as usize;
        exists|asked: Self| #[trigger]
            self.requested(asked, n, id, owner, op) && match outcome {
                RunOutcome::Done(out) => asked.evolves(new, n) && asked.resumed(
                    new,
                    n,
                    ticket,
                    patience,
                    Some(out),
                ),
                RunOutcome::Waiting(named) => named == ticket && asked.evolves(new, n)
                    && asked.resumed(
                    new,
                    n,
                    ticket,
                    patience,
                    None,
                ),
                RunOutcome::Busy(_) => false,
            }
    }

    /// The invariant, part by part.
    pub proof fn lemma_parts(self, n: nat)
        requires
            self.inv(n),
        ensures
            self.help.inv(n),
            self.handles_ok(n),
            self.queue_ok(n),
            self.boxes_ok(n),
            self.announced_once(),
            self.boxes.len() <= usize::MAX,
    {
        reveal(Simulation::inv);
    }

    /// What the invariant says of one operation.
    pub proof fn lemma_operation(self, n: nat, b: int)
        requires
            self.inv(n),
            0 <= b < self.boxes.len(),
        ensures
            self.well_recorded(b),
            self.cared_for(b, n),
    {
        reveal(Simulation::inv);
    }

    /// What evolution says of one operation.
    pub proof fn lemma_extended(self, new: Self, n: nat, b: int)
        requires
            self.evolves(new, n),
            0 <= b < self.boxes.len(),
        ensures
            new.algorithm == self.algorithm,
            self.boxes.len() <= new.boxes.len(),
            self.extended(new, b),
    {
        reveal(Simulation::evolves);
    }

    /// What evolution says of the help queue's memory.
    pub proof fn lemma_memory(self, new: Self, n: nat)
        requires
            self.evolves(new, n),
        ensures
            self.help.evolves(new.help, n),
            new.algorithm == self.algorithm,
    {
        reveal(Simulation::evolves);
    }

    /// An operation is announced once: whatever node comes later is about another
    /// one.
    pub proof fn lemma_announced_once(self, new: Self, n: nat)
        requires
            self.evolves(new, n),
        ensures
            forall|k: int|
                self.help.nodes.len() <= k < new.help.nodes.len() ==> ((
                #[trigger] new.help.nodes[k]).value matches Some(b) && b >= self.boxes.len()),
    {
        reveal(Simulation::evolves);
    }

    /// Evolution is reflexive.
    pub proof fn lemma_evolves_refl(self, n: nat)
        ensures
            self.evolves(self, n),
    {
        reveal(Simulation::evolves);
        self.help.lemma_evolves_refl(n);
        assert forall|b: int| 0 <= b < self.boxes.len() implies #[trigger] self.extended(
            self,
            b,
        ) by {}
    }

    /// Evolution is transitive.
    pub proof fn lemma_evolves_trans(self, mid: Self, new: Self, n: nat)
        requires
            self.inv(n),
            mid.inv(n),
            new.inv(n),
            self.evolves(mid, n),
            mid.evolves(new, n),
        ensures
            self.evolves(new, n),
    {
        reveal(Simulation::inv);
        reveal(Simulation::evolves);
        self.help.lemma_evolves_trans(mid.help, new.help, n);
        assert forall|b: int| 0 <= b < self.boxes.len() implies #[trigger] self.extended(
            new,
            b,
        ) by {
            assert(self.extended(mid, b));
            assert(mid.extended(new, b));
            assert forall|k: int| 0 <= k < self.boxes[b].len() implies #[trigger] new.boxes[b][k]
                == self.boxes[b][k] by {
                assert(mid.boxes[b][k] == self.boxes[b][k]);
            }
        }
        assert forall|k: int| self.help.nodes.len() <= k < new.help.nodes.len() implies ((
        #[trigger] new.help.nodes[k]).value matches Some(b) && b >= self.boxes.len()) by {
            if k < mid.help.nodes.len() {
                assert(new.help.nodes[k].value == mid.help.nodes[k].value);
            }
        }
    }

    /// What is in a queue is still in it when another one has left at the front.
    pub proof fn lemma_front_gone(queue: Seq<usize>, k: int, ticket: usize)
        requires
            0 <= k < queue.len(),
            queue.skip(k).contains(ticket),
        ensures
            queue.skip(k).len() > 0,
            queue.skip(k).drop_first() == queue.skip(k + 1),
            queue.skip(k)[0] == ticket || queue.skip(k + 1).contains(ticket),
            queue.no_duplicates() && queue.skip(k)[0] == ticket ==> !queue.skip(k + 1).contains(
                ticket,
            ),
    {
        assert(queue.skip(k).drop_first() =~= queue.skip(k + 1));
        let i = queue.skip(k).index_of(ticket);
        assert(queue.skip(k)[i] == ticket);
        if i > 0 {
            assert(queue.skip(k + 1)[i - 1] == ticket);
        }
        if queue.no_duplicates() && queue.skip(k + 1).contains(ticket) {
            let j = queue.skip(k + 1).index_of(ticket);
            assert(queue[k + 1 + j] == ticket);
        }
    }

    /// As long as nothing is announced, each operation stays announced once.
    proof fn lemma_once_kept(self, new: Self, n: nat)
        requires
            self.announced_once(),
            self.help.evolves(new.help, n),
            new.help.nodes.len() == self.help.nodes.len(),
            new.boxes.len() == self.boxes.len(),
        ensures
            new.announced_once(),
    {
        assert forall|k: int| 0 <= k < new.help.nodes.len() implies (
        #[trigger] new.help.nodes[k]).value == self.help.nodes[k].value by {}
    }

    /// An operation that gains no record, or the one that follows, still leads
    /// from its start to where it is.
    pub proof fn lemma_recorded(self, new: Self, b: int)
        requires
            new.algorithm == self.algorithm,
            self.well_recorded(b),
            ({
                ||| new.boxes[b] == self.boxes[b]
                ||| {
                    &&& new.boxes[b] == self.boxes[b].push(new.record(b))
                    &&& self.record(b).leads_to(self.algorithm, new.record(b))
                }
            }),
        ensures
            new.well_recorded(b),
    {
        assert forall|k: int| 0 <= k < new.boxes[b].len() - 1 implies #[trigger] new.advanced(
            b,
            k,
        ) by {
            if k < self.boxes[b].len() - 1 {
                assert(self.advanced(b, k));
            }
        }
    }

    /// Giving out or taking back handles leaves the operations alone.
    pub proof fn lemma_only_handles_changed(self, new: Self, n: nat)
        requires
            self.inv(n),
            new == (Simulation { free_ids: new.free_ids, ..self }),
            new.handles_ok(n),
        ensures
            new.inv(n),
    {
        reveal(Simulation::inv);
        assert forall|b: int| 0 <= b < new.boxes.len() implies #[trigger] new.well_recorded(b) by {
            assert(self.well_recorded(b));
            self.lemma_recorded(new, b);
        }
        assert forall|b: int| 0 <= b < new.boxes.len() implies #[trigger] new.cared_for(b, n) by {
            assert(self.cared_for(b, n));
        }
    }

    /// Announcing a new operation keeps the invariant.
    pub proof fn lemma_announced(
        self,
        new: Self,
        n: nat,
        id: int,
        phase: u64,
        owner: u64,
        input: LF::Input,
    )
        requires
            self.inv(n),
            self.in_use(id, n),
            self.help.idle(id),
            self.boxes.len() < usize::MAX,
            new == (Simulation {
                help: self.help.after_announce(id, phase, self.boxes.len() as usize),
                boxes: self.boxes.push(seq![OperationRecord::<LF>::initial(owner, input)]),
                ..self
            }),
            new.help.inv(n),
            self.help.evolves(new.help, n),
        ensures
            new.inv(n),
            self.evolves(new, n),
            new.queue() == self.queue(),
            new.help.announced(id) == Some(self.boxes.len() as usize),
    {
        reveal(Simulation::inv);
        reveal(Simulation::evolves);
        let ticket = self.boxes.len() as usize;
        assert forall|k: int| 0 < k < self.help.nodes.len() implies (
        #[trigger] new.help.nodes[k]).value == self.help.nodes[k].value by {
            assert(new.help.nodes[k] == self.help.nodes[k]);
        }
        self.help.lemma_announced(n, id, phase, ticket);
        assert forall|i: int| 0 <= i < new.free_ids.len() implies (#[trigger] new.free_ids[i]) < n
            && new.help.idle(new.free_ids[i] as int) by {
            assert(self.free_ids[i] != id);
            assert(new.help.announced(new.free_ids[i] as int) == self.help.announced(
                self.free_ids[i] as int,
            ));
        }
        assert(!self.queue().contains(ticket)) by {
            if self.queue().contains(ticket) {
                assert(self.queue()[self.queue().index_of(ticket)] == ticket);
            }
        }
        assert forall|i: int| 0 <= i < n implies ((#[trigger] new.help.announced(i)) matches Some(b)
            ==> b < new.boxes.len() && !new.queue().contains(b)) by {
            if i != id {
                assert(new.help.announced(i) == self.help.announced(i));
            }
        }
        assert forall|i: int, j: int| 0 <= i < j < n implies (
        #[trigger] new.help.announced(i) is None || new.help.announced(i)
            != #[trigger] new.help.announced(j)) by {
            assert(i != id ==> new.help.announced(i) == self.help.announced(i));
            assert(j != id ==> new.help.announced(j) == self.help.announced(j));
        }
        assert forall|b: int| 0 <= b < new.boxes.len() implies #[trigger] new.well_recorded(b) by {
            if b < self.boxes.len() {
                assert(self.well_recorded(b));
                self.lemma_recorded(new, b);
            }
        }
        assert forall|b: int| 0 <= b < new.boxes.len() implies #[trigger] new.cared_for(b, n) by {
            if b < self.boxes.len() {
                assert(self.cared_for(b, n));
                if !self.record(b).completed() && !self.queue().contains(b as usize) {
                    let i = choose|i: int|
                        0 <= i < n && #[trigger] self.help.announced(i) == Some(b as usize);
                    assert(new.help.announced(i) == Some(b as usize));
                }
            } else {
                assert(new.help.announced(id) == Some(b as usize));
            }
        }
        assert forall|b: int| 0 <= b < self.boxes.len() implies #[trigger] self.extended(
            new,
            b,
        ) by {
            assert(new.boxes[b] == self.boxes[b]);
        }
    }

    /// Announcing an operation with the next phase, and then putting all into the
    /// queue that was announced no later, is asking for help with it. Here
    /// `begun` is what the announcement makes of the simulation.
    pub proof fn lemma_requested(
        self,
        begun: Self,
        new: Self,
        n: nat,
        id: usize,
        phase: u64,
        owner: u64,
        input: LF::Input,
    )
        requires
            self.inv(n),
            begun.inv(n),
            new.inv(n),
            id < n,
            self.help.idle(id as int),
            self.help.is_next_phase(phase),
            self.boxes.len() <= usize::MAX,
            begun == (Simulation {
                help: self.help.after_announce(id as int, phase, self.boxes.len() as usize),
                boxes: self.boxes.push(seq![OperationRecord::<LF>::initial(owner, input)]),
                ..self
            }),
            begun.help.evolves(new.help, n),
            new == (Simulation { help: new.help, ..begun }),
            new.queue() == begun.queue() + begun.help.backlog(n, phase),
            new.help.h == begun.help.h,
            new.help.nodes.len() == begun.help.nodes.len(),
            !new.help.lagging(),
            forall|i: int|
                0 <= i < n ==> {
                    &&& #[trigger] new.help.pending(i) ==> begun.help.pending(i)
                        && !begun.help.wants_help(i, phase)
                    &&& new.help.desc(i).phase == begun.help.desc(i).phase
                    &&& new.help.desc(i).node == begun.help.desc(i).node
                },
        ensures
            self.requested(new, n, id, owner, input),
    {
        let ticket = self.boxes.len() as usize;
        let i = id as int;
        self.lemma_parts(n);
        begun.lemma_parts(n);
        new.lemma_parts(n);
        begun.help.lemma_next_phase(self.help, n, i, phase, ticket);
        assert forall|k: int| 0 <= k < n implies !#[trigger] new.help.pending(k) by {
            if new.help.pending(k) {
                assert(begun.help.wants_help(k, phase));
            }
        }
        assert forall|k: int| 0 <= k < n implies #[trigger] new.help.idle(k) by {
            assert(!new.help.pending(k));
        }
        self.help.lemma_announced(n, i, phase, ticket);
        assert(begun.help.wants_help(i, phase));
        begun.help.lemma_backlog_members(n, phase);
        assert(begun.help.announced(i) == Some(ticket));
        let added = begun.help.backlog(n, phase);
        assert(added.contains(ticket));
        assert(new.queue()[begun.queue().len() + added.index_of(ticket)] == ticket);
        assert(!new.help.pending(i));
        assert(new.help.desc(i).phase == Some(phase));
        assert forall|k: int| 0 <= k < n && k != id implies (#[trigger] new.help.desc(k)).phase
            == self.help.desc(k).phase by {
            assert(!new.help.pending(k));
            assert(begun.help.desc(k) == self.help.desc(k));
        }
        if self.help.orderly(n) {
            assert forall|k: int| 0 <= k < n implies !(#[trigger] new.help.desc(k)).pending
                && new.help.desc(k).node == begun.help.desc(k).node by {
                assert(!new.help.pending(k));
            }
            self.help.lemma_orderly_enqueued(new.help, n, i, phase, ticket);
        }
    }

    /// Handle `id` had announced operation `v` here, and has nothing announced
    /// in `new`.
    pub open spec fn taken_up(self, new: Self, id: int, v: usize) -> bool {
        self.help.announced(id) == Some(v) && new.help.announced(id) is None
    }

    /// Putting what has been announced into the queue keeps the invariant.
    pub proof fn lemma_queued(self, new: Self, n: nat, added: Seq<usize>)
        requires
            self.inv(n),
            new == (Simulation { help: new.help, ..self }),
            new.help.inv(n),
            self.help.evolves(new.help, n),
            new.help.nodes.len() == self.help.nodes.len(),
            new.queue() == self.queue() + added,
            added.no_duplicates(),
            forall|v: usize| #[trigger]
                added.contains(v) ==> exists|id: int|
                    0 <= id < n && #[trigger] self.taken_up(new, id, v),
            forall|id: int|
                0 <= id < n ==> {
                    ||| #[trigger] new.help.announced(id) == self.help.announced(id)
                    ||| new.help.announced(id) is None && added.contains(
                        self.help.announced(id).unwrap(),
                    )
                },
            forall|id: int| 0 <= id < n && self.help.idle(id) ==> #[trigger] new.help.idle(id),
        ensures
            new.inv(n),
            self.evolves(new, n),
            forall|b: int|
                0 <= b < self.boxes.len() ==> (#[trigger] new.in_flight(b, n) <==> self.in_flight(
                    b,
                    n,
                )),
    {
        reveal(Simulation::inv);
        reveal(Simulation::evolves);
        self.lemma_once_kept(new, n);
        assert forall|i: int| 0 <= i < new.free_ids.len() implies (#[trigger] new.free_ids[i]) < n
            && new.help.idle(new.free_ids[i] as int) by {
            assert(self.help.idle(self.free_ids[i] as int));
        }
        assert forall|v: usize| added.contains(v) implies v < self.boxes.len()
            && !self.queue().contains(v) by {
            let i = choose|i: int| 0 <= i < n && #[trigger] self.taken_up(new, i, v);
            assert(self.help.announced(i) == Some(v));
        }
        let q = self.queue().len() as int;
        assert forall|i: int| 0 <= i < new.queue().len() implies (#[trigger] new.queue()[i])
            < new.boxes.len() by {
            if i < q {
                assert(new.queue()[i] == self.queue()[i]);
            } else {
                assert(new.queue()[i] == added[i - q]);
                assert(added.contains(added[i - q]));
            }
        }
        assert(new.queue().no_duplicates()) by {
            assert forall|i: int, j: int|
                0 <= i < new.queue().len() && 0 <= j < new.queue().len() && i
                    != j implies new.queue()[i] != new.queue()[j] by {
                let a = if i < q {
                    self.queue()[i]
                } else {
                    added[i - q]
                };
                let b = if j < q {
                    self.queue()[j]
                } else {
                    added[j - q]
                };
                assert(new.queue()[i] == a && new.queue()[j] == b);
                if i < q {
                    assert(self.queue().contains(a));
                } else {
                    assert(added.contains(a));
                }
                if j < q {
                    assert(self.queue().contains(b));
                } else {
                    assert(added.contains(b));
                }
            }
        }
        assert forall|v: usize| #[trigger] new.queue().contains(v) <==> self.queue().contains(v)
            || added.contains(v) by {
            if new.queue().contains(v) {
                let i = new.queue().index_of(v);
                if i < q {
                    assert(self.queue()[i] == v);
                } else {
                    assert(added[i - q] == v);
                }
            }
            if self.queue().contains(v) {
                assert(new.queue()[self.queue().index_of(v)] == v);
            }
            if added.contains(v) {
                assert(new.queue()[q + added.index_of(v)] == v);
            }
        }
        assert forall|i: int, j: int| 0 <= i < j < n implies (
        #[trigger] new.help.announced(i) is None || new.help.announced(i)
            != #[trigger] new.help.announced(j)) by {
            if new.help.announced(i) is Some {
                assert(self.help.announced(i) == new.help.announced(i));
                if new.help.announced(j) is Some {
                    assert(self.help.announced(j) == new.help.announced(j));
                }
            }
        }
        assert forall|i: int| 0 <= i < n implies ((#[trigger] new.help.announced(i)) matches Some(b)
            ==> b < new.boxes.len() && !new.queue().contains(b)) by {
            if new.help.announced(i) is Some {
                let b = new.help.announced(i).unwrap();
                assert(self.help.announced(i) == Some(b));
                if added.contains(b) {
                    let j = choose|j: int| 0 <= j < n && #[trigger] self.taken_up(new, j, b);
                    assert(self.help.announced(j) == Some(b));
                    assert(i != j);
                }
            }
        }
        assert forall|b: int| 0 <= b < self.boxes.len() implies (#[trigger] new.in_flight(b, n)
            <==> self.in_flight(b, n)) by {
            let v = b as usize;
            if self.in_flight(b, n) && !self.queue().contains(v) {
                let i = choose|i: int| 0 <= i < n && #[trigger] self.help.announced(i) == Some(v);
                assert(self.help.announced(i) == Some(v));
                if new.help.announced(i) is None {
                    assert(added.contains(v));
                }
            }
            if new.in_flight(b, n) {
                if new.queue().contains(v) {
                    if added.contains(v) {
                        let i = choose|i: int| 0 <= i < n && #[trigger] self.taken_up(new, i, v);
                        assert(self.help.announced(i) == Some(v));
                    }
                } else {
                    let i = choose|i: int|
                        0 <= i < n && #[trigger] new.help.announced(i) == Some(v);
                    assert(self.help.announced(i) == Some(v));
                }
            }
        }
        assert forall|b: int| 0 <= b < new.boxes.len() implies #[trigger] new.well_recorded(b) by {
            assert(self.well_recorded(b));
            self.lemma_recorded(new, b);
        }
        assert forall|b: int| 0 <= b < new.boxes.len() implies #[trigger] new.cared_for(b, n) by {
            assert(self.cared_for(b, n));
            assert(new.in_flight(b, n) <==> self.in_flight(b, n));
        }
        assert forall|b: int| 0 <= b < self.boxes.len() implies #[trigger] self.extended(
            new,
            b,
        ) by {}
    }

    /// Installing the stage that follows keeps the invariant.
    pub proof fn lemma_advanced(self, new: Self, n: nat, b: int, updated: OperationRecord<LF>)
        requires
            self.inv(n),
            0 <= b < self.boxes.len(),
            self.record(b).leads_to(self.algorithm, updated),
            new == (Simulation {
                boxes: self.boxes.update(b, self.boxes[b].push(updated)),
                ..self
            }),
        ensures
            new.inv(n),
            self.evolves(new, n),
    {
        reveal(Simulation::inv);
        reveal(Simulation::evolves);
        assert(self.well_recorded(b));
        assert forall|c: int| 0 <= c < new.boxes.len() implies #[trigger] new.well_recorded(c) by {
            assert(self.well_recorded(c));
            self.lemma_recorded(new, c);
        }
        assert forall|c: int| 0 <= c < new.boxes.len() implies #[trigger] new.cared_for(c, n) by {
            assert(self.cared_for(c, n));
            if c == b {
                assert(!self.record(b).completed());
                assert(self.in_flight(b, n));
            }
            if self.in_flight(c, n) {
                assert(new.in_flight(c, n));
            }
        }
        assert forall|c: int| 0 <= c < self.boxes.len() implies #[trigger] self.extended(
            new,
            c,
        ) by {}
        self.help.lemma_evolves_refl(n);
    }

    /// Removing a completed operation from the queue keeps the invariant.
    pub proof fn lemma_removed(self, new: Self, n: nat)
        requires
            self.inv(n),
            self.queue().len() > 0,
            self.record(self.queue()[0] as int).completed(),
            new == (Simulation { help: new.help, ..self }),
            new.help.inv(n),
            self.help.evolves(new.help, n),
            new.help.nodes.len() == self.help.nodes.len(),
            new.queue() == self.queue().drop_first(),
            forall|id: int|
                0 <= id < n ==> #[trigger] new.help.announced(id) == self.help.announced(id),
            forall|id: int|
                0 <= id < n && self.help.idle(id) ==> #[trigger] new.help.idle(id),
        ensures
            new.inv(n),
            self.evolves(new, n),
            !new.queue().contains(self.queue()[0]),
    {
        reveal(Simulation::inv);
        reveal(Simulation::evolves);
        self.lemma_once_kept(new, n);
        assert forall|i: int| 0 <= i < new.free_ids.len() implies (#[trigger] new.free_ids[i]) < n
            && new.help.idle(new.free_ids[i] as int) by {
            assert(self.help.idle(self.free_ids[i] as int));
            assert(new.help.announced(self.free_ids[i] as int) == self.help.announced(
                self.free_ids[i] as int,
            ));
        }
        assert forall|i: int| 0 <= i < new.queue().len() implies #[trigger] new.queue()[i]
            == self.queue()[i + 1] by {}
        assert(new.queue().no_duplicates());
        assert forall|v: usize| #[trigger] new.queue().contains(v) implies self.queue().contains(v)
            && v != self.queue()[0] by {
            let i = new.queue().index_of(v);
            assert(new.queue()[i] == v);
            assert(self.queue()[i + 1] == v);
        }
        assert forall|i: int| 0 <= i < n implies ((#[trigger] new.help.announced(i)) matches Some(b)
            ==> b < new.boxes.len() && !new.queue().contains(b)) by {
            assert(new.help.announced(i) == self.help.announced(i));
        }
        assert forall|i: int, j: int| 0 <= i < j < n implies (
        #[trigger] new.help.announced(i) is None || new.help.announced(i)
            != #[trigger] new.help.announced(j)) by {
            assert(new.help.announced(i) == self.help.announced(i));
            assert(new.help.announced(j) == self.help.announced(j));
        }
        assert forall|b: int| 0 <= b < new.boxes.len() implies #[trigger] new.well_recorded(b) by {
            assert(self.well_recorded(b));
            self.lemma_recorded(new, b);
        }
        assert forall|b: int| 0 <= b < new.boxes.len() implies #[trigger] new.cared_for(b, n) by {
            assert(self.cared_for(b, n));
            let v = b as usize;
            if !self.record(b).completed() {
                if self.queue().contains(v) {
                    let i = self.queue().index_of(v);
                    assert(i > 0);
                    assert(new.queue()[i - 1] == v);
                } else {
                    let i = choose|i: int|
                        0 <= i < n && #[trigger] self.help.announced(i) == Some(v);
                    assert(new.help.announced(i) == Some(v));
                }
            }
        }
        assert forall|b: int| 0 <= b < self.boxes.len() implies #[trigger] self.extended(
            new,
            b,
        ) by {}
    }
}

} // verus!
