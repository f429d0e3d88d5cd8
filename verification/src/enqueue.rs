//! An enqueue as a sequence of single accesses to the shared memory, between
//! which other handles may do whatever they do.
//!
//! A handle reads all phases, announces its operation with a higher one, and
//! then helps every handle in turn whose operation was announced no later. To
//! help is to go through rounds: a round finds the tail and tries to link the
//! node behind it. A round is lost only if another handle has announced
//! something, linked something or moved the tail meanwhile. While an operation
//! waits, each handle announces two more at most, so there is a limit to how
//! often rounds are lost.
use vstd::prelude::*;
use vstd::set_lib::*;

use crate::help_memory::Memory;
use crate::help_queue::WaitFreeHelpQueue;
use crate::help_steps::{FinishAttempt, LinkAttempt};

verus! {

/// Where an enqueue goes on after it has completed what the tail lagged behind.
#[derive(Clone, Copy)]
pub enum Back {
    /// To another round for this handle.
    Again(usize),
    /// To the handle after this one.
    Onward(usize),
    /// Nowhere: the enqueue ends.
    End,
}

/// The accesses that complete the operation that the tail lags behind.
#[derive(Clone, Copy)]
pub enum FinishStep {
    /// Reads the tail.
    Tail,
    /// Reads what was linked behind `last`.
    Next {
        /// What was read from the tail.
        last: usize,
    },
    /// Reads the descriptor of the handle that enqueued `next`.
    Desc {
        /// What was read from the tail.
        last: usize,
        /// What was read behind it.
        next: usize,
    },
    /// Reads the tail once more.
    Confirm(FinishAttempt),
    /// Replaces the descriptor.
    Mark(FinishAttempt),
    /// Moves the tail.
    Move(FinishAttempt),
}

/// The next access of an enqueue.
#[derive(Clone, Copy)]
pub enum EnqueueStep {
    /// Reads the phase of handle `id`; `max` is the highest so far.
    Scan {
        /// Whose phase is read.
        id: usize,
        /// The highest phase so far.
        max: Option<u64>,
    },
    /// Stores the operation's descriptor.
    Announce {
        /// The phase of the operation.
        phase: u64,
    },
    /// Reads whether handle `id` wants help.
    Visit {
        /// The handle.
        id: usize,
    },
    /// Reads whether handle `id` still wants help; each round starts here.
    Check {
        /// The handle.
        id: usize,
    },
    /// Reads the tail.
    Tail {
        /// The handle that is helped.
        id: usize,
    },
    /// Reads what was linked behind `last`.
    Next {
        /// The handle that is helped.
        id: usize,
        /// What was read from the tail.
        last: usize,
    },
    /// Reads the tail once more.
    Recheck {
        /// The handle that is helped.
        id: usize,
        /// What was read from the tail.
        last: usize,
        /// What was read behind it.
        next: Option<usize>,
    },
    /// Reads whether handle `id` still wants help, with nothing behind `last`.
    Still {
        /// The handle that is helped.
        id: usize,
        /// What was read from the tail.
        last: usize,
    },
    /// Reads the descriptor of handle `id`.
    Read {
        /// The handle that is helped.
        id: usize,
        /// What was read from the tail.
        last: usize,
    },
    /// Tries to link the node.
    Link(LinkAttempt),
    /// Completes the operation that the tail lags behind.
    Finish {
        /// The access.
        at: FinishStep,
        /// What comes after it.
        back: Back,
    },
    /// Nothing: the enqueue has ended.
    End,
}

impl Back {
    /// The access to go on with.
    pub open spec fn target(self, n: nat) -> EnqueueStep {
        match self {
            Back::Again(id) => EnqueueStep::Check { id },
            Back::Onward(id) => EnqueueStep::past(id, n),
            Back::End => EnqueueStep::End,
        }
    }
}

impl EnqueueStep {
    /// The first access for the handle after `id`, or, if there is none, for the
    /// end of the enqueue.
    pub open spec fn past(id: usize, n: nat) -> EnqueueStep {
        if id + 1 < n {
            EnqueueStep::Visit { id: (id + 1) as usize }
        } else {
            EnqueueStep::Finish { at: FinishStep::Tail, back: Back::End }
        }
    }

    /// The higher of two phases.
    pub open spec fn higher(max: Option<u64>, phase: Option<u64>) -> Option<u64> {
        match (max, phase) {
            (Some(q), Some(r)) => if q < r {
                phase
            } else {
                max
            },
            (None, _) => phase,
            (_, None) => max,
        }
    }

    /// What this access makes of memory `m`, for an operation of handle `owner`.
    pub open spec fn effect<T>(self, m: Memory<T>, owner: usize, value: T) -> Memory<T> {
        match self {
            EnqueueStep::Announce { phase } => m.after_announce(owner as int, phase, value),
            EnqueueStep::Link(attempt) => if attempt.last == m.log.last() {
                m.after_link(attempt.last, m.descs[attempt.desc as int].node.unwrap())
            } else {
                m
            },
            EnqueueStep::Finish { at: FinishStep::Mark(attempt), .. } => {
                if m.state[attempt.id as int] == attempt.desc {
                    m.after_mark(attempt.id as int, attempt.desc as int)
                } else {
                    m
                }
            },
            EnqueueStep::Finish { at: FinishStep::Move(attempt), .. } => if m.tail()
                == attempt.last {
                m.after_tail()
            } else {
                m
            },
            _ => m,
        }
    }

    /// Which access comes after this one, made on memory `m` for an operation of
    /// phase `phase`, with `n` handles.
    pub open spec fn after<T>(self, m: Memory<T>, phase: u64, n: nat) -> EnqueueStep {
        match self {
            EnqueueStep::Scan { id, max } => {
                let max = Self::higher(max, m.desc(id as int).phase);
                if id + 1 < n {
                    EnqueueStep::Scan { id: (id + 1) as usize, max }
                } else {
                    EnqueueStep::Announce {
                        phase: match max {
                            None => 0,
                            Some(p) => (p + 1) as u64,
                        },
                    }
                }
            },
            EnqueueStep::Announce { .. } => EnqueueStep::Visit { id: 0 },
            EnqueueStep::Visit { id } => if m.wants_help(id as int, phase) {
                EnqueueStep::Check { id }
            } else {
                Self::past(id, n)
            },
            EnqueueStep::Check { id } => if m.wants_help(id as int, phase) {
                EnqueueStep::Tail { id }
            } else {
                Self::past(id, n)
            },
            EnqueueStep::Tail { id } => EnqueueStep::Next { id, last: m.tail() },
            EnqueueStep::Next { id, last } => EnqueueStep::Recheck {
                id,
                last,
                next: m.succ(m.pos(last)),
            },
            EnqueueStep::Recheck { id, last, next } => if m.tail() != last {
                EnqueueStep::Check { id }
            } else if next is Some {
                EnqueueStep::Finish { at: FinishStep::Tail, back: Back::Again(id) }
            } else {
                EnqueueStep::Still { id, last }
            },
            EnqueueStep::Still { id, last } => if m.wants_help(id as int, phase) {
                EnqueueStep::Read { id, last }
            } else {
                EnqueueStep::Check { id }
            },
            EnqueueStep::Read { id, last } => if m.pending(id as int) {
                EnqueueStep::Link(LinkAttempt { last, id, desc: m.state[id as int] })
            } else {
                EnqueueStep::Check { id }
            },
            EnqueueStep::Link(attempt) => if attempt.last == m.log.last() {
                EnqueueStep::Finish { at: FinishStep::Tail, back: Back::Onward(attempt.id) }
            } else {
                EnqueueStep::Check { id: attempt.id }
            },
            EnqueueStep::Finish { at, back } => match at {
                FinishStep::Tail => EnqueueStep::Finish {
                    at: FinishStep::Next { last: m.tail() },
                    back,
                },
                FinishStep::Next { last } => match m.succ(m.pos(last)) {
                    None => back.target(n),
                    Some(next) => EnqueueStep::Finish { at: FinishStep::Desc { last, next }, back },
                },
                FinishStep::Desc { last, next } => {
                    let id = m.nodes[next as int].enq_id.unwrap();
                    let attempt = FinishAttempt { last, next, id, desc: m.state[id as int] };
                    EnqueueStep::Finish { at: FinishStep::Confirm(attempt), back }
                },
                FinishStep::Confirm(attempt) => if m.tail() == attempt.last {
                    EnqueueStep::Finish { at: FinishStep::Mark(attempt), back }
                } else {
                    back.target(n)
                },
                FinishStep::Mark(attempt) => EnqueueStep::Finish {
                    at: FinishStep::Move(attempt),
                    back,
                },
                FinishStep::Move(_) => back.target(n),
            },
            EnqueueStep::End => EnqueueStep::End,
        }
    }

    /// What this access needs of memory `m`.
    pub open spec fn ready<T>(self, m: Memory<T>, owner: usize, n: nat) -> bool {
        match self {
            EnqueueStep::Scan { id, max } => {
                &&& id < n
                &&& max matches Some(p) ==> p + 1 < m.nodes.len()
            },
            EnqueueStep::Announce { phase } => {
                &&& owner < n
                &&& m.idle(owner as int)
                &&& phase < m.nodes.len()
            },
            EnqueueStep::Visit { id } => id < n,
            EnqueueStep::Check { id } => id < n,
            EnqueueStep::Tail { .. } => true,
            EnqueueStep::Next { last, .. } => m.linked(last) && m.pos(last) <= m.t,
            EnqueueStep::Recheck { .. } => true,
            EnqueueStep::Still { id, .. } => id < n,
            EnqueueStep::Read { id, last } => id < n && m.linked(last) && m.pos(last) <= m.t,
            EnqueueStep::Link(attempt) => attempt.valid(m, n),
            EnqueueStep::Finish { at, back } => {
                &&& match at {
                    FinishStep::Tail => true,
                    FinishStep::Next { last } => m.linked(last) && m.pos(last) <= m.t,
                    FinishStep::Desc { last, next } => m.seen_behind(last, next),
                    FinishStep::Confirm(attempt) => attempt.valid(m, n),
                    FinishStep::Mark(attempt) => attempt.confirmed(m, n),
                    FinishStep::Move(attempt) => attempt.marked(m, n),
                }
                &&& match back {
                    Back::Again(id) => id < n,
                    Back::Onward(id) => id < n,
                    Back::End => true,
                }
            },
            EnqueueStep::End => true,
        }
    }

    /// What this access has found out for the access `next`, in memory `new`
    /// after it.
    pub open spec fn attempted<T>(self, next: EnqueueStep, new: Memory<T>, n: nat) -> bool {
        &&& match next {
            EnqueueStep::Recheck { last, next, .. } => next matches Some(x) ==> new.seen_behind(
                last,
                x,
            ),
            EnqueueStep::Link(attempt) => attempt.valid(new, n),
            EnqueueStep::Finish { at, .. } => match at {
                FinishStep::Desc { last, next } => new.seen_behind(last, next),
                FinishStep::Confirm(attempt) => attempt.valid(new, n),
                FinishStep::Mark(attempt) => attempt.confirmed(new, n),
                FinishStep::Move(attempt) => attempt.marked(new, n),
                _ => true,
            },
            _ => true,
        }
        &&& match self {
            EnqueueStep::Finish { at: FinishStep::Confirm(attempt), .. } => new.tail()
                == attempt.last || new.pos(attempt.last) < new.t,
            EnqueueStep::Finish { at: FinishStep::Move(attempt), .. } => new.pos(attempt.last)
                < new.t,
            _ => true,
        }
    }

    /// How many handles have been helped, or found not to want help, before this
    /// access.
    pub open spec fn past_handles(self, n: nat) -> nat {
        match self {
            EnqueueStep::Scan { .. } => 0,
            EnqueueStep::Announce { .. } => 0,
            EnqueueStep::Visit { id } => id as nat,
            EnqueueStep::Check { id } => id as nat,
            EnqueueStep::Tail { id } => id as nat,
            EnqueueStep::Next { id, .. } => id as nat,
            EnqueueStep::Recheck { id, .. } => id as nat,
            EnqueueStep::Still { id, .. } => id as nat,
            EnqueueStep::Read { id, .. } => id as nat,
            EnqueueStep::Link(attempt) => attempt.id as nat,
            EnqueueStep::Finish { back, .. } => match back {
                Back::Again(id) => id as nat,
                Back::Onward(id) => id as nat,
                Back::End => n,
            },
            EnqueueStep::End => n,
        }
    }

    /// How many accesses are left at most for the handle that is being helped,
    /// if no round is lost any more.
    pub open spec fn left(self) -> nat {
        match self {
            EnqueueStep::Check { .. } => 13,
            EnqueueStep::Tail { .. } => 12,
            EnqueueStep::Next { .. } => 11,
            EnqueueStep::Recheck { .. } => 10,
            EnqueueStep::Still { .. } => 9,
            EnqueueStep::Read { .. } => 8,
            EnqueueStep::Link(_) => 7,
            EnqueueStep::Finish { at, .. } => match at {
                FinishStep::Tail => 6,
                FinishStep::Next { .. } => 5,
                FinishStep::Desc { .. } => 4,
                FinishStep::Confirm(_) => 3,
                FinishStep::Mark(_) => 2,
                FinishStep::Move(_) => 1,
            },
            _ => 0,
        }
    }
}

/// What has happened to an enqueue so far.
pub struct EnqueueHistory<T> {
    /// The memory when it began.
    pub start: Memory<T>,
    /// The memory right after its announcement.
    pub base: Memory<T>,
    /// The memory when the first round for the operation that it helps began.
    pub entry: Memory<T>,
    /// The memory when the latest round began.
    pub round: Memory<T>,
    /// Whether the latest round was lost because the queue had changed.
    pub lost: bool,
    /// Whether the latest round was lost because no help was wanted any more.
    pub late: bool,
    /// Whether the handle that it helps has announced another operation since.
    pub swapped: bool,
    /// The node that the tail has reached once what it lags behind is completed.
    pub goal: usize,
    /// How many rounds were lost at most, up to the operation that it helps.
    pub gained: nat,
    /// How many accesses it has made.
    pub steps: nat,
}

/// An enqueue that has begun.
pub struct EnqueueRun<T> {
    /// The handle that enqueues.
    pub owner: usize,
    /// The value to be enqueued.
    pub value: T,
    /// The phase of its operation, once it is announced.
    pub phase: u64,
    /// The next access.
    pub step: EnqueueStep,
    /// What has happened so far.
    pub past: Ghost<EnqueueHistory<T>>,
}

/// How many accesses an enqueue makes at most with `n` handles.
pub open spec fn access_limit(n: nat) -> nat {
    208 * n * n + 67 * n + 7
}

/// How many rounds are lost at most for the operations of `k` of `n` handles.
#[verifier::opaque]
pub open spec fn share(k: nat, n: nat) -> nat {
    k * (16 * n + 4)
}

/// Each handle adds the same to the share.
proof fn lemma_share(k: nat, n: nat)
    ensures
        share(0, n) == 0,
        share(k + 1, n) == share(k, n) + 16 * n + 4,
{
    reveal(share);
    assert((k + 1) * (16 * n + 4) == k * (16 * n + 4) + 16 * n + 4) by (nonlinear_arith);
}

/// The limit is what all handles' shares come to.
pub proof fn lemma_share_limit(k: nat, n: nat)
    requires
        k <= n,
    ensures
        k < n ==> share(k, n) + 16 * n + 4 <= share(n, n),
        share(k, n) <= share(n, n),
        15 * n + 7 + 13 * share(n, n) == access_limit(n),
{
    reveal(share);
    assert(k < n ==> (k + 1) * (16 * n + 4) <= n * (16 * n + 4)) by (nonlinear_arith)
        requires
            k <= n,
    ;
    assert(k * (16 * n + 4) <= n * (16 * n + 4)) by (nonlinear_arith)
        requires
            k <= n,
    ;
    assert((k + 1) * (16 * n + 4) == k * (16 * n + 4) + 16 * n + 4) by (nonlinear_arith);
    assert(13 * (n * (16 * n + 4)) == 208 * n * n + 52 * n) by (nonlinear_arith);
}

impl<T> Memory<T> {
    /// No more nodes than there are handles have been announced and not linked.
    pub proof fn lemma_few_unlinked(self, n: nat)
        requires
            self.inv(n),
        ensures
            self.log.len() <= self.nodes.len() <= self.log.len() + n,
    {
        let all = set_int_range(0, self.nodes.len() as int);
        let places = set_int_range(0, self.log.len() as int);
        let handles = set_int_range(0, n as int);
        let at = |i: int| self.log[i] as int;
        let of = |id: int| self.desc(id).node.unwrap() as int;
        let linked = places.map(at);
        let awaited = handles.map(of);
        lemma_int_range(0, self.nodes.len() as int);
        lemma_int_range(0, self.log.len() as int);
        lemma_int_range(0, n as int);
        lemma_map_size_bound(places, linked, at);
        lemma_map_size_bound(handles, awaited, of);
        assert(linked.subset_of(all));
        lemma_map_size(places, linked, at);
        lemma_len_subset(linked, all);
        assert forall|k: int| #[trigger] all.contains(k) implies linked.union(awaited).contains(
            k,
        ) by {
            let x = k as usize;
            if self.linked(x) {
                let i = self.pos(x);
                assert(self.log[i] == x);
                assert(places.contains(i) && at(i) == k);
            } else {
                if k == 0 {
                    assert(self.log[0] == 0);
                }
                assert(self.awaited(k));
                let id = self.nodes[k].enq_id.unwrap() as int;
                assert(handles.contains(id) && of(id) == k);
            }
        }
        lemma_len_union(linked, awaited);
        lemma_len_subset(all, linked.union(awaited));
    }

    /// Progress is limited by what is announced meanwhile.
    pub proof fn lemma_progress(self, new: Self, n: nat)
        requires
            self.inv(n),
            new.inv(n),
            self.evolves(new, n),
        ensures
            self.progress() <= new.progress(),
            new.progress() - self.progress() <= 3 * (new.nodes.len() - self.nodes.len()) + 2 * n
                + 1,
    {
        self.lemma_few_unlinked(n);
        new.lemma_few_unlinked(n);
    }
}

impl FinishStep {
    /// Whether this access, made on memory `m`, is the last one of its kind.
    pub open spec fn leaves<T>(self, m: Memory<T>) -> bool {
        match self {
            FinishStep::Tail | FinishStep::Desc { .. } | FinishStep::Mark(_) => false,
            FinishStep::Next { last } => m.succ(m.pos(last)) is None,
            FinishStep::Confirm(attempt) => m.tail() != attempt.last,
            FinishStep::Move(_) => true,
        }
    }
}

impl<T> EnqueueRun<T> {
    /// Whether the operation has been announced.
    pub open spec fn is_announced(self) -> bool {
        !(self.step is Scan || self.step is Announce)
    }

    /// Whether a handle is being helped.
    pub open spec fn is_helping(self) -> bool {
        match self.step {
            EnqueueStep::Scan { .. } | EnqueueStep::Announce { .. } => false,
            EnqueueStep::Visit { .. } | EnqueueStep::End => false,
            EnqueueStep::Finish { back, .. } => !(back is End),
            _ => true,
        }
    }

    /// Whether a round has begun for the handle that is being helped.
    pub open spec fn has_tried(self) -> bool {
        self.is_helping() && (self.step is Check ==> self.past@.lost || self.past@.late)
    }

    /// The node that the operation is about, once it is announced.
    pub open spec fn node(self) -> usize {
        (self.past@.base.nodes.len() - 1) as usize
    }

    /// What the enqueue remembers are earlier states of memory `m`.
    pub open spec fn rooted(self, m: Memory<T>, n: nat) -> bool {
        let past = self.past@;
        &&& past.start.inv(n)
        &&& past.base.inv(n)
        &&& past.entry.inv(n)
        &&& past.round.inv(n)
        &&& past.start.evolves(m, n)
        &&& past.base.evolves(m, n)
        &&& past.entry.evolves(m, n)
        &&& past.round.evolves(m, n)
        &&& m.linked(past.goal)
    }

    /// The handle had helped enough before it began, and has announced nothing
    /// but this operation since.
    pub open spec fn orderly(self, m: Memory<T>, n: nat) -> bool {
        let past = self.past@;
        &&& past.start.orderly(n)
        &&& past.start.caught_up(n, self.owner)
        &&& if self.is_announced() {
            &&& m.silent(self.owner, past.base.nodes.len() as int)
            &&& forall|k: int|
                past.start.nodes.len() <= k < past.base.nodes.len() - 1 ==> (
                #[trigger] past.base.nodes[k]).enq_id != Some(self.owner)
        } else {
            m.silent(self.owner, past.start.nodes.len() as int)
        }
    }

    /// The phase that handle `k` had at the start is at most `max`.
    pub open spec fn covered(self, k: int, max: Option<u64>) -> bool {
        self.past@.start.desc(k).phase matches Some(p) ==> max matches Some(q) && p <= q
    }

    /// What the announcement has done: the operation is pending, and so is, with
    /// no higher phase, whatever had been pending at the start and has not been
    /// carried out since.
    pub open spec fn announcement(self, n: nat) -> bool {
        let start = self.past@.start;
        let base = self.past@.base;
        &&& start.nodes.len() < base.nodes.len()
        &&& base.wants_help(self.owner as int, self.phase)
        &&& base.desc(self.owner as int).node == Some(self.node())
        &&& base.phases[self.node() as int] == self.phase
        &&& base.nodes.last().value == Some(self.value)
        &&& start.evolves(base, n)
        &&& forall|k: int|
            0 <= k < n && start.pending(k) ==> start.settled(base, k) || (
            #[trigger] base.wants_help(k, self.phase) && base.desc(k).node == start.desc(k).node)
    }

    /// What handle `k` had pending after the announcement, with no higher phase,
    /// has been carried out.
    pub open spec fn helped(self, m: Memory<T>, k: int) -> bool {
        self.past@.base.wants_help(k, self.phase) ==> self.past@.base.settled(m, k)
    }

    /// The operation of handle `id` that is being helped was pending from the
    /// first round to the latest.
    pub open spec fn followed(self, n: nat, id: int) -> bool {
        let past = self.past@;
        &&& past.base.evolves(past.entry, n)
        &&& past.entry.evolves(past.round, n)
        &&& past.round.orderly(n)
        &&& past.entry.wants_help(id, self.phase)
        &&& past.round.wants_help(id, self.phase)
        &&& past.round.desc(id).node == past.entry.desc(id).node
        &&& past.swapped ==> self.node() < past.entry.desc(id).node.unwrap()
    }

    /// `last` was the tail during this round.
    pub open spec fn tail_seen(self, m: Memory<T>, last: usize) -> bool {
        &&& m.linked(last)
        &&& self.past@.round.t <= m.pos(last) <= m.t
    }

    /// What the next access rests on.
    pub open spec fn placed(self, m: Memory<T>, n: nat) -> bool {
        let past = self.past@;
        match self.step {
            EnqueueStep::Scan { id, max } => {
                &&& id < n
                &&& m.idle(self.owner as int)
                &&& max matches Some(p) ==> p + 1 < m.nodes.len()
                &&& forall|k: int| 0 <= k < id ==> #[trigger] self.covered(k, max)
            },
            EnqueueStep::Announce { phase } => {
                &&& m.idle(self.owner as int)
                &&& phase < m.nodes.len()
                &&& forall|k: int|
                    0 <= k < n ==> ((#[trigger] past.start.desc(k)).phase matches Some(p) ==> p
                        < phase)
            },
            EnqueueStep::Visit { id } => id < n,
            EnqueueStep::Check { id } => {
                &&& id < n
                &&& past.lost ==> past.round.progress() < m.progress() && !past.late
                &&& past.late && m.wants_help(id as int, self.phase) ==> past.round.nodes.len()
                    <= m.desc(id as int).node.unwrap()
            },
            EnqueueStep::Tail { id } => id < n,
            EnqueueStep::Next { id, last } => id < n && self.tail_seen(m, last),
            EnqueueStep::Recheck { id, last, next } => {
                &&& id < n
                &&& self.tail_seen(m, last)
                &&& match next {
                    Some(x) => m.seen_behind(last, x),
                    None => past.round.log.len() <= m.pos(last) + 1,
                }
            },
            EnqueueStep::Still { id, last } | EnqueueStep::Read { id, last } => {
                &&& id < n
                &&& self.tail_seen(m, last)
                &&& past.round.log.len() <= m.pos(last) + 1
            },
            EnqueueStep::Link(attempt) => {
                &&& attempt.valid(m, n)
                &&& past.round.log.len() <= m.pos(attempt.last) + 1
                &&& self.helped(m, attempt.id as int) || past.base.desc(attempt.id as int).node
                    == m.descs[attempt.desc as int].node
            },
            EnqueueStep::Finish { at, back } => {
                &&& match at {
                    FinishStep::Tail => true,
                    FinishStep::Next { last } => {
                        &&& m.linked(last)
                        &&& m.pos(last) <= m.t
                        &&& m.pos(past.goal) <= m.pos(last) + 1
                    },
                    FinishStep::Desc { last, next } => {
                        &&& m.seen_behind(last, next)
                        &&& m.pos(past.goal) <= m.pos(last) + 1
                    },
                    FinishStep::Confirm(attempt) => {
                        &&& attempt.valid(m, n)
                        &&& m.pos(past.goal) <= m.pos(attempt.last) + 1
                    },
                    FinishStep::Mark(attempt) => {
                        &&& attempt.confirmed(m, n)
                        &&& m.pos(past.goal) <= m.pos(attempt.last) + 1
                    },
                    FinishStep::Move(attempt) => {
                        &&& attempt.marked(m, n)
                        &&& m.pos(past.goal) <= m.pos(attempt.last) + 1
                    },
                }
                &&& match back {
                    Back::Again(id) => id < n && past.round.t < m.pos(past.goal),
                    Back::Onward(id) => id < n && (self.helped(m, id as int) || past.base.desc(
                        id as int,
                    ).node == Some(past.goal)),
                    Back::End => past.goal == self.node(),
                }
            },
            EnqueueStep::End => past.goal == self.node() && m.pos(past.goal) <= m.t,
        }
    }

    /// How many accesses are left at most, if no round is lost any more.
    pub open spec fn owed(self, n: nat) -> int {
        match self.step {
            EnqueueStep::Scan { id, .. } => n - id + 14 * n + 7,
            EnqueueStep::Announce { .. } => (14 * n + 7) as int,
            EnqueueStep::Visit { id } => 14 * (n - id) + 6,
            EnqueueStep::Check { id } if self.past@.late => 14 * (n - id - 1) + 7,
            EnqueueStep::Finish { at, back: Back::End } => self.step.left() as int,
            EnqueueStep::End => 0,
            _ => 14 * (n - self.step.past_handles(n) - 1) + 6 + self.step.left(),
        }
    }

    /// How many rounds were lost at most: between two of them for the same
    /// operation, the queue has come further.
    pub open spec fn credit(self) -> int {
        let past = self.past@;
        if !self.has_tried() {
            past.gained as int
        } else if self.step is Check && past.lost {
            past.gained + past.round.progress() - past.entry.progress() + 1
        } else {
            past.gained + past.round.progress() - past.entry.progress()
        }
    }

    /// The accesses made and owed stay within the limit.
    pub open spec fn on_budget(self, n: nat) -> bool {
        let past = self.past@;
        &&& past.steps + self.owed(n) <= 15 * n + 7 + 13 * self.credit()
        &&& !self.is_announced() ==> past.gained == 0
        &&& self.is_announced() ==> past.gained <= share(self.step.past_handles(n), n) + if (
        self.has_tried() && past.swapped) {
            8 * n + 2
        } else {
            0
        }
    }

    /// What holds of an enqueue between any two accesses to memory `m`, its own
    /// or others'.
    #[verifier::opaque]
    pub open spec fn ok(self, m: Memory<T>, n: nat) -> bool {
        &&& self.owner < n
        &&& self.rooted(m, n)
        &&& self.orderly(m, n)
        &&& self.placed(m, n)
        &&& self.is_announced() ==> self.announcement(n)
        &&& self.is_announced() ==> forall|k: int|
            0 <= k < self.step.past_handles(n) ==> #[trigger] self.helped(m, k)
        &&& self.has_tried() ==> self.followed(n, self.step.past_handles(n) as int)
        &&& self.on_budget(n)
    }

    /// The history after the next access, which makes `new` of memory `m`.
    pub open spec fn history(self, m: Memory<T>, new: Memory<T>, n: nat) -> EnqueueHistory<T> {
        let past = EnqueueHistory { steps: self.past@.steps + 1, ..self.past@ };
        let tried = (past.gained + past.round.progress() - past.entry.progress()) as nat;
        match self.step {
            EnqueueStep::Announce { .. } => EnqueueHistory {
                base: new,
                entry: new,
                round: new,
                ..past
            },
            EnqueueStep::Visit { id } => if m.wants_help(id as int, self.phase) {
                EnqueueHistory { lost: false, late: false, ..past }
            } else {
                EnqueueHistory { goal: self.goal_past(id, n), ..past }
            },
            EnqueueStep::Check { id } => if m.wants_help(id as int, self.phase) {
                if !past.lost && !past.late {
                    EnqueueHistory { entry: m, round: m, swapped: false, ..past }
                } else if m.desc(id as int).node == past.entry.desc(id as int).node {
                    EnqueueHistory { round: m, ..past }
                } else {
                    EnqueueHistory {
                        entry: m,
                        round: m,
                        swapped: true,
                        gained: tried + 1,
                        ..past
                    }
                }
            } else {
                EnqueueHistory {
                    gained: if past.lost {
                        tried + 1
                    } else if past.late {
                        tried
                    } else {
                        past.gained
                    },
                    goal: self.goal_past(id, n),
                    ..past
                }
            },
            EnqueueStep::Recheck { last, next, .. } => if m.tail() == last && next is Some {
                EnqueueHistory { goal: next.unwrap(), ..past }
            } else {
                EnqueueHistory { lost: true, late: false, ..past }
            },
            EnqueueStep::Still { .. } | EnqueueStep::Read { .. } => EnqueueHistory {
                lost: false,
                late: true,
                ..past
            },
            EnqueueStep::Link(attempt) => if attempt.last == m.log.last() {
                EnqueueHistory { goal: m.descs[attempt.desc as int].node.unwrap(), ..past }
            } else {
                EnqueueHistory { lost: true, late: false, ..past }
            },
            EnqueueStep::Finish { at, back } => if at.leaves(m) {
                match back {
                    Back::Again(_) => EnqueueHistory { lost: true, late: false, ..past },
                    Back::Onward(id) => EnqueueHistory {
                        gained: tried,
                        goal: self.goal_past(id, n),
                        ..past
                    },
                    Back::End => past,
                }
            } else {
                past
            },
            _ => past,
        }
    }

    /// The node that the tail has to reach when handle `id` is done with: at the
    /// end, the node of the operation itself.
    pub open spec fn goal_past(self, id: usize, n: nat) -> usize {
        if id + 1 < n {
            self.past@.goal
        } else {
            self.node()
        }
    }

    /// `next` is this enqueue after its next access, which makes `new` of memory
    /// `m`.
    pub open spec fn steps_to(self, next: Self, m: Memory<T>, new: Memory<T>, n: nat) -> bool {
        &&& next.owner == self.owner
        &&& next.value == self.value
        &&& next.phase == match self.step {
            EnqueueStep::Announce { phase } => phase,
            _ => self.phase,
        }
        &&& new == self.step.effect(m, self.owner, self.value)
        &&& next.step == self.step.after(m, self.phase, n)
        &&& next.past@ == self.history(m, new, n)
    }

    /// `next` is the same enqueue.
    spec fn same_run(self, next: Self) -> bool {
        &&& next.owner == self.owner
        &&& next.value == self.value
        &&& next.phase == self.phase
        &&& next.past@.start == self.past@.start
        &&& next.past@.base == self.past@.base
        &&& next.past@.steps == self.past@.steps + 1
    }
}

impl<T> EnqueueRun<T> {
    /// An enqueue announces nothing in another handle's name.
    pub proof fn lemma_silent(self, next: Self, m: Memory<T>, new: Memory<T>, n: nat, g: usize)
        requires
            m.inv(n),
            new.inv(n),
            m.evolves(new, n),
            self.steps_to(next, m, new, n),
            g != self.owner,
        ensures
            new.silent(g, m.nodes.len() as int),
    {
        assert forall|k: int| m.nodes.len() <= k < new.nodes.len() implies (
        #[trigger] new.nodes[k]).enq_id != Some(g) by {}
    }

    /// The value can be chosen up to the announcement.
    pub proof fn lemma_renamed(self, next: Self, m: Memory<T>, n: nat)
        requires
            self.ok(m, n),
            !self.is_announced(),
            next == (EnqueueRun { value: next.value, ..self }),
        ensures
            next.ok(m, n),
    {
        reveal(EnqueueRun::ok);
        if let EnqueueStep::Scan { id, max } = self.step {
            assert forall|k: int| 0 <= k < id implies #[trigger] next.covered(k, max) by {
                assert(self.covered(k, max));
            }
        }
    }

    /// The next access has what it needs.
    pub proof fn lemma_ready(self, m: Memory<T>, n: nat)
        requires
            self.ok(m, n),
        ensures
            self.step.ready(m, self.owner, n),
    {
        reveal(EnqueueRun::ok);
    }

    /// What the enqueue remembers stays behind whatever other handles do.
    proof fn lemma_rooted_kept(self, m: Memory<T>, new: Memory<T>, n: nat)
        requires
            self.rooted(m, n),
            m.inv(n),
            new.inv(n),
            m.evolves(new, n),
        ensures
            self.rooted(new, n),
            new.pos(self.past@.goal) == m.pos(self.past@.goal),
            self.past@.round.t <= new.t,
            self.past@.round.log.len() <= new.log.len(),
            self.past@.round.nodes.len() <= new.nodes.len(),
            m.progress() <= new.progress(),
    {
        let past = self.past@;
        past.start.lemma_evolves_trans(m, new, n);
        past.base.lemma_evolves_trans(m, new, n);
        past.entry.lemma_evolves_trans(m, new, n);
        past.round.lemma_evolves_trans(m, new, n);
        m.lemma_pos_kept(new, n, past.goal);
    }

    /// The handle announces nothing else as long as nobody does so in its name.
    proof fn lemma_orderly_kept(self, m: Memory<T>, new: Memory<T>, n: nat)
        requires
            self.orderly(m, n),
            m.evolves(new, n),
            new.silent(self.owner, m.nodes.len() as int),
        ensures
            self.orderly(new, n),
    {
        let from = if self.is_announced() {
            self.past@.base.nodes.len() as int
        } else {
            self.past@.start.nodes.len() as int
        };
        assert forall|k: int| from <= k < new.nodes.len() implies (#[trigger] new.nodes[k]).enq_id
            != Some(self.owner) by {
            if 0 <= k < m.nodes.len() {
                assert(new.nodes[k].enq_id == m.nodes[k].enq_id);
            }
        }
    }

    /// What has been carried out stays so.
    proof fn lemma_helped_kept(self, m: Memory<T>, new: Memory<T>, n: nat, k: int)
        requires
            self.rooted(m, n),
            m.inv(n),
            new.inv(n),
            m.evolves(new, n),
            0 <= k < n,
            self.helped(m, k),
        ensures
            self.helped(new, k),
    {
        if self.past@.base.wants_help(k, self.phase) {
            self.past@.base.lemma_settled_kept(m, new, n, k);
        }
    }

    /// What is found not to want help has been carried out.
    proof fn lemma_not_wanted(self, m: Memory<T>, n: nat, k: int)
        requires
            self.rooted(m, n),
            m.inv(n),
            0 <= k < n,
            !m.wants_help(k, self.phase),
        ensures
            self.helped(m, k),
    {
        let base = self.past@.base;
        if base.wants_help(k, self.phase) && !base.settled(m, k) {
            base.lemma_unsettled(m, n, k);
        }
    }

    /// Between the rounds for one operation the queue comes only so far.
    pub proof fn lemma_growth(self, n: nat, id: int)
        requires
            0 <= id < n,
            self.followed(n, id),
            self.past@.entry.inv(n),
            self.past@.round.inv(n),
        ensures
            0 <= self.past@.round.progress() - self.past@.entry.progress() <= 8 * n + 1,
    {
        let past = self.past@;
        past.entry.lemma_announced_meanwhile(past.round, n, id);
        past.entry.lemma_progress(past.round, n);
    }

    /// What the next access rests on stays true whatever other handles do, as
    /// long as they announce nothing in this handle's name.
    pub proof fn lemma_kept(self, m: Memory<T>, new: Memory<T>, n: nat)
        requires
            self.ok(m, n),
            m.inv(n),
            new.inv(n),
            m.evolves(new, n),
            new.silent(self.owner, m.nodes.len() as int),
        ensures
            self.ok(new, n),
    {
        reveal(EnqueueRun::ok);
        let past = self.past@;
        self.lemma_rooted_kept(m, new, n);
        self.lemma_orderly_kept(m, new, n);
        if self.is_announced() {
            assert forall|k: int|
                0 <= k < self.step.past_handles(n) implies #[trigger] self.helped(new, k) by {
                assert(self.helped(m, k));
                self.lemma_helped_kept(m, new, n, k);
            }
        } else {
            crate::laws::law_idle_stays(m, new, n, self.owner as int);
        }
        match self.step {
            EnqueueStep::Check { id } => {
                let i = id as int;
                if past.late && new.wants_help(i, self.phase) {
                    let x = new.desc(i).node.unwrap();
                    if x < m.nodes.len() {
                        assert(new.state[i] == m.state[i]);
                        assert(new.descs[m.state[i] as int] == m.descs[m.state[i] as int]);
                    }
                }
            },
            EnqueueStep::Next { last, .. } => {
                m.lemma_pos_kept(new, n, last);
            },
            EnqueueStep::Recheck { last, next, .. } => {
                m.lemma_pos_kept(new, n, last);
                if next is Some {
                    m.lemma_seen_behind_kept(new, n, last, next.unwrap());
                }
            },
            EnqueueStep::Still { last, .. } | EnqueueStep::Read { last, .. } => {
                m.lemma_pos_kept(new, n, last);
            },
            EnqueueStep::Link(attempt) => {
                m.lemma_pos_kept(new, n, attempt.last);
                attempt.lemma_valid_kept(m, new, n);
                if self.helped(m, attempt.id as int) {
                    self.lemma_helped_kept(m, new, n, attempt.id as int);
                }
            },
            EnqueueStep::Finish { at, back } => {
                match at {
                    FinishStep::Tail => {},
                    FinishStep::Next { last } => {
                        m.lemma_pos_kept(new, n, last);
                    },
                    FinishStep::Desc { last, next } => {
                        m.lemma_pos_kept(new, n, last);
                        m.lemma_seen_behind_kept(new, n, last, next);
                    },
                    FinishStep::Confirm(attempt) => {
                        m.lemma_pos_kept(new, n, attempt.last);
                        attempt.lemma_valid_kept(m, new, n);
                    },
                    FinishStep::Mark(attempt) => {
                        m.lemma_pos_kept(new, n, attempt.last);
                        attempt.lemma_valid_kept(m, new, n);
                    },
                    FinishStep::Move(attempt) => {
                        m.lemma_pos_kept(new, n, attempt.last);
                        attempt.lemma_valid_kept(m, new, n);
                    },
                }
                if let Back::Onward(id) = back {
                    if self.helped(m, id as int) {
                        self.lemma_helped_kept(m, new, n, id as int);
                    }
                }
            },
            _ => {},
        }
    }

    /// Reading a phase keeps the enqueue going.
    proof fn lemma_scan(self, next: Self, m: Memory<T>, n: nat)
        requires
            self.ok(m, n),
            m.inv(n),
            m.orderly(n),
            self.steps_to(next, m, m, n),
            self.step is Scan,
        ensures
            next.ok(m, n),
    {
        reveal(EnqueueRun::ok);
        let start = self.past@.start;
        let id = self.step->Scan_id;
        let max = self.step->Scan_max;
        let higher = EnqueueStep::higher(max, m.desc(id as int).phase);
        assert forall|k: int| 0 <= k <= id implies #[trigger] self.covered(k, higher) by {
            if k < id {
                assert(self.covered(k, max));
            } else if start.desc(k).phase is Some {
                start.lemma_phase_rises(m, n, k);
            }
        }
        assert(higher matches Some(p) ==> p + 1 < m.nodes.len());
        assert(m.nodes.len() > 0);
        if id + 1 < n {
            assert forall|k: int| 0 <= k < id + 1 implies #[trigger] next.covered(k, higher) by {
                assert(self.covered(k, higher));
            }
        } else {
            let phase = next.step->Announce_phase;
            assert forall|k: int| 0 <= k < n implies ((#[trigger] start.desc(k)).phase matches Some(
                p,
            ) ==> p < phase) by {
                assert(self.covered(k, higher));
            }
        }
    }

    /// Announcing the operation keeps the enqueue going and the memory in order.
    proof fn lemma_announce(self, next: Self, m: Memory<T>, new: Memory<T>, n: nat)
        requires
            self.ok(m, n),
            m.inv(n),
            new.inv(n),
            m.evolves(new, n),
            m.orderly(n),
            self.steps_to(next, m, new, n),
            self.step is Announce,
        ensures
            next.ok(new, n),
            new.orderly(n),
    {
        reveal(EnqueueRun::ok);
        let start = self.past@.start;
        let phase = self.step->Announce_phase;
        let owner = self.owner as int;
        self.lemma_rooted_kept(m, new, n);
        new.lemma_evolves_refl(n);
        assert(new.desc(owner).node == Some(m.nodes.len() as usize));
        start.lemma_caught_up_kept(m, n, self.owner);
        assert forall|k: int, a: int|
            #![trigger m.phases[k], m.nodes[a]]
            0 < k <= a < m.nodes.len() && m.nodes[a].enq_id == Some(self.owner) implies m.phases[k]
            < phase by {
            assert(a < start.nodes.len());
            start.lemma_phase_highest(n, k);
            assert(m.phases[k] == start.phases[k]);
            let h = start.nodes[k].enq_id.unwrap() as int;
            assert(start.desc(h).phase is Some);
        }
        m.lemma_orderly_announced(n, owner, phase, self.value);
        assert forall|k: int| start.nodes.len() <= k < new.nodes.len() - 1 implies (
        #[trigger] new.nodes[k]).enq_id != Some(self.owner) by {
            assert(new.nodes[k] == m.nodes[k]);
        }
        assert forall|k: int| 0 <= k < n && start.pending(k) implies start.settled(new, k) || (
        #[trigger] new.wants_help(k, phase) && new.desc(k).node == start.desc(k).node) by {
            if !start.settled(new, k) {
                start.lemma_unsettled(new, n, k);
                assert(start.desc(k).phase is Some);
            }
        }
        lemma_share(0, n);
    }

    /// Leaving a handle, because it does not want help or has been helped, keeps
    /// the enqueue going.
    proof fn lemma_past(self, next: Self, m: Memory<T>, new: Memory<T>, n: nat, id: usize)
        requires
            self.ok(m, n),
            m.inv(n),
            new.inv(n),
            m.evolves(new, n),
            new.nodes.len() == m.nodes.len(),
            self.same_run(next),
            self.is_announced(),
            self.step.past_handles(n) == id,
            id < n,
            next.step == EnqueueStep::past(id, n),
            self.helped(new, id as int),
            self.step is Visit || self.is_helping(),
            next.past@ == (EnqueueHistory {
                steps: self.past@.steps + 1,
                gained: self.credit() as nat,
                goal: self.goal_past(id, n),
                ..self.past@
            }),
        ensures
            next.ok(new, n),
    {
        reveal(EnqueueRun::ok);
        self.lemma_rooted_kept(m, new, n);
        self.lemma_orderly_kept(m, new, n);
        assert forall|k: int| 0 <= k <= id implies #[trigger] self.helped(new, k) by {
            if k < id {
                assert(self.helped(m, k));
                self.lemma_helped_kept(m, new, n, k);
            }
        }
        assert forall|k: int| 0 <= k < next.step.past_handles(n) implies #[trigger] next.helped(
            new,
            k,
        ) by {
            assert(self.helped(new, k));
        }
        if self.has_tried() {
            self.lemma_growth(n, id as int);
        }
        lemma_share(id as nat, n);
        if id + 1 == n {
            let owner = self.owner as int;
            assert(self.helped(new, owner));
            crate::laws::law_announced_is_linked(self.past@.base, new, n, owner);
        }
    }

    /// Going back to the start of a round keeps the enqueue going: there has been
    /// progress, or the handle no longer wants help.
    proof fn lemma_again(self, next: Self, m: Memory<T>, new: Memory<T>, n: nat, id: usize)
        requires
            self.ok(m, n),
            m.inv(n),
            new.inv(n),
            m.evolves(new, n),
            new.nodes.len() == m.nodes.len(),
            self.same_run(next),
            self.step.past_handles(n) == id,
            id < n,
            next.step == (EnqueueStep::Check { id }),
            self.is_helping() && !(self.step is Check),
            next.past@ == (EnqueueHistory {
                steps: self.past@.steps + 1,
                lost: next.past@.lost,
                late: next.past@.late,
                ..self.past@
            }),
            next.past@.lost ==> !next.past@.late && self.past@.round.progress() < new.progress(),
            !next.past@.lost ==> next.past@.late && self.step.left() > 1 && !new.wants_help(
                id as int,
                self.phase,
            ),
        ensures
            next.ok(new, n),
    {
        reveal(EnqueueRun::ok);
        self.lemma_rooted_kept(m, new, n);
        self.lemma_orderly_kept(m, new, n);
        assert forall|k: int| 0 <= k < id implies #[trigger] next.helped(new, k) by {
            assert(self.helped(m, k));
            self.lemma_helped_kept(m, new, n, k);
            assert(self.helped(new, k));
        }
    }

    /// Going on with a round keeps the enqueue going, if the next access has what
    /// it rests on.
    proof fn lemma_on(self, next: Self, m: Memory<T>, new: Memory<T>, n: nat)
        requires
            self.ok(m, n),
            m.inv(n),
            new.inv(n),
            m.evolves(new, n),
            new.nodes.len() == m.nodes.len(),
            self.same_run(next),
            self.is_announced(),
            !(next.step is Check || next.step is Visit),
            next.step.past_handles(n) == self.step.past_handles(n),
            next.step.left() < self.step.left(),
            next.is_helping() == self.is_helping(),
            !(self.step is Check),
            next.past@ == (EnqueueHistory {
                steps: self.past@.steps + 1,
                lost: next.past@.lost,
                late: next.past@.late,
                goal: next.past@.goal,
                ..self.past@
            }),
            new.linked(next.past@.goal),
            next.placed(new, n),
        ensures
            next.ok(new, n),
    {
        reveal(EnqueueRun::ok);
        self.lemma_rooted_kept(m, new, n);
        self.lemma_orderly_kept(m, new, n);
        assert forall|k: int| 0 <= k < next.step.past_handles(n) implies #[trigger] next.helped(
            new,
            k,
        ) by {
            assert(self.helped(m, k));
            self.lemma_helped_kept(m, new, n, k);
            assert(self.helped(new, k));
        }
    }

    /// Finding that a handle wants help keeps the enqueue going.
    proof fn lemma_enter(self, next: Self, m: Memory<T>, n: nat, id: usize)
        requires
            self.ok(m, n),
            m.inv(n),
            self.same_run(next),
            self.step == (EnqueueStep::Visit { id }),
            next.step == (EnqueueStep::Check { id }),
            next.past@ == (EnqueueHistory {
                lost: false,
                late: false,
                steps: self.past@.steps + 1,
                ..self.past@
            }),
        ensures
            next.ok(m, n),
    {
        reveal(EnqueueRun::ok);
        assert forall|k: int| 0 <= k < id implies #[trigger] next.helped(m, k) by {
            assert(self.helped(m, k));
        }
    }

    /// A handle that wants help with another operation than before announced it
    /// after this one, and does so at most once.
    proof fn lemma_swap(self, m: Memory<T>, n: nat, id: int)
        requires
            self.ok(m, n),
            m.inv(n),
            m.orderly(n),
            0 <= id < n,
            self.is_announced(),
            self.followed(n, id),
            m.wants_help(id, self.phase),
            m.desc(id).node != self.past@.entry.desc(id).node,
        ensures
            !self.past@.swapped,
            m.desc(id).node matches Some(y) && self.node() < y,
    {
        reveal(EnqueueRun::ok);
        reveal(Memory::orderly);
        let entry = self.past@.entry;
        let base = self.past@.base;
        let x = entry.desc(id).node.unwrap() as int;
        let y = m.desc(id).node.unwrap() as int;
        if y < entry.nodes.len() {
            assert(m.state[id] == entry.state[id]);
            assert(m.descs[entry.state[id] as int] == entry.descs[entry.state[id] as int]);
        }
        assert(base.nodes.len() <= entry.nodes.len());
        if self.past@.swapped {
            let r = self.node() as int;
            assert(entry.nodes[x].enq_id == Some(id as usize));
            assert(m.nodes[x].enq_id == Some(id as usize));
            assert(m.nodes[y].enq_id == Some(id as usize));
            assert(m.phases[r] == base.phases[r]);
            assert(m.phases[r] < m.phases[y]);
            assert(m.desc(id).phase == Some(m.phases[y]));
        }
    }

    /// Beginning a round keeps the enqueue going.
    proof fn lemma_round(self, next: Self, m: Memory<T>, n: nat, id: usize)
        requires
            self.ok(m, n),
            m.inv(n),
            m.orderly(n),
            self.same_run(next),
            self.step == (EnqueueStep::Check { id }),
            m.wants_help(id as int, self.phase),
            next.step == (EnqueueStep::Tail { id }),
            next.past@ == self.history(m, m, n),
        ensures
            next.ok(m, n),
    {
        reveal(EnqueueRun::ok);
        let past = self.past@;
        let i = id as int;
        m.lemma_evolves_refl(n);
        assert forall|k: int| 0 <= k < id implies #[trigger] next.helped(m, k) by {
            assert(self.helped(m, k));
        }
        if self.has_tried() {
            self.lemma_growth(n, i);
            assert(past.entry.desc(i).node.unwrap() < past.entry.nodes.len());
            assert(past.entry.nodes.len() <= past.round.nodes.len());
            if m.desc(i).node != past.entry.desc(i).node {
                self.lemma_swap(m, n, i);
            }
        }
    }

    /// Once the tail has reached the node of an operation, that operation has
    /// been carried out.
    proof fn lemma_reached(self, m: Memory<T>, n: nat, id: usize)
        requires
            self.rooted(m, n),
            m.inv(n),
            id < n,
            m.pos(self.past@.goal) <= m.t,
            self.past@.base.desc(id as int).node == Some(self.past@.goal),
        ensures
            self.helped(m, id as int),
    {
        let goal = self.past@.goal;
        let i = m.pos(goal);
        assert(m.log[i] == goal);
        if m.pending(id as int) && m.desc(id as int).node == Some(goal) {
            assert(m.desc(id as int).node == Some(m.log[i]));
        }
    }

    /// Reading the tail once more keeps the enqueue going.
    proof fn lemma_recheck(self, next: Self, m: Memory<T>, n: nat)
        requires
            self.ok(m, n),
            m.inv(n),
            m.evolves(m, n),
            self.steps_to(next, m, m, n),
            self.step is Recheck,
        ensures
            next.ok(m, n),
    {
        reveal(EnqueueRun::ok);
        let id = self.step->Recheck_id;
        let last = self.step->Recheck_last;
        let seen = self.step->Recheck_next;
        let k = m.pos(last);
        assert(m.log[k] == last);
        m.lemma_pos(m.t as int);
        if m.tail() != last {
            assert(k < m.t);
            self.lemma_again(next, m, m, n, id);
        } else {
            if seen is Some {
                m.lemma_pos(k + 1);
            }
            self.lemma_on(next, m, m, n);
        }
    }

    /// Trying to link keeps the enqueue going.
    proof fn lemma_link(self, next: Self, m: Memory<T>, new: Memory<T>, n: nat)
        requires
            self.ok(m, n),
            m.inv(n),
            new.inv(n),
            m.evolves(new, n),
            self.steps_to(next, m, new, n),
            self.step is Link,
        ensures
            next.ok(new, n),
    {
        reveal(EnqueueRun::ok);
        let attempt = self.step->Link_0;
        let k = m.pos(attempt.last);
        assert(m.log[k] == attempt.last);
        if attempt.last == m.log.last() {
            let x = m.descs[attempt.desc as int].node.unwrap();
            assert(new.log[m.log.len() as int] == x);
            if self.helped(m, attempt.id as int) {
                self.lemma_helped_kept(m, new, n, attempt.id as int);
                assert(self.helped(new, attempt.id as int));
            }
            self.lemma_on(next, m, new, n);
        } else {
            m.lemma_pos(m.log.len() - 1);
            self.lemma_again(next, m, m, n, attempt.id);
        }
    }

    /// The accesses of a round, up to the one that links, keep the enqueue going.
    proof fn lemma_round_step(self, next: Self, m: Memory<T>, new: Memory<T>, n: nat)
        requires
            self.ok(m, n),
            m.inv(n),
            new.inv(n),
            m.evolves(new, n),
            self.steps_to(next, m, new, n),
            self.step.attempted(next.step, new, n),
            self.is_helping(),
            !(self.step is Check || self.step is Finish),
        ensures
            next.ok(new, n),
    {
        reveal(EnqueueRun::ok);
        self.lemma_rooted_kept(m, m, n);
        match self.step {
            EnqueueStep::Tail { id } => {
                m.lemma_pos(m.t as int);
                self.lemma_on(next, m, m, n);
            },
            EnqueueStep::Next { id, last } => {
                self.lemma_on(next, m, m, n);
            },
            EnqueueStep::Recheck { .. } => {
                self.lemma_recheck(next, m, n);
            },
            EnqueueStep::Still { id, last } => {
                if m.wants_help(id as int, self.phase) {
                    self.lemma_on(next, m, m, n);
                } else {
                    self.lemma_again(next, m, m, n, id);
                }
            },
            EnqueueStep::Read { id, last } => {
                if m.pending(id as int) {
                    self.lemma_on(next, m, m, n);
                } else {
                    self.lemma_again(next, m, m, n, id);
                }
            },
            EnqueueStep::Link(_) => {
                self.lemma_link(next, m, new, n);
            },
            _ => {},
        }
    }

    /// When what the tail lagged behind is completed, the tail has reached the
    /// goal.
    proof fn lemma_goal_reached(self, next: Self, m: Memory<T>, new: Memory<T>, n: nat)
        requires
            self.rooted(m, n),
            self.placed(m, n),
            m.inv(n),
            new.inv(n),
            m.evolves(new, n),
            self.steps_to(next, m, new, n),
            self.step.attempted(next.step, new, n),
            self.step is Finish,
            self.step->Finish_at.leaves(m),
        ensures
            new.pos(self.past@.goal) <= new.t,
    {
        let goal = self.past@.goal;
        self.lemma_rooted_kept(m, new, n);
        assert(m.log[m.pos(goal)] == goal);
        match self.step->Finish_at {
            FinishStep::Next { last } => {
                m.lemma_pos_kept(new, n, last);
            },
            FinishStep::Confirm(attempt) => {
                m.lemma_pos_kept(new, n, attempt.last);
            },
            FinishStep::Move(attempt) => {
                m.lemma_pos_kept(new, n, attempt.last);
            },
            _ => {},
        }
    }

    /// Completing what the tail lagged behind keeps the enqueue going.
    proof fn lemma_finished(self, next: Self, m: Memory<T>, new: Memory<T>, n: nat)
        requires
            self.ok(m, n),
            m.inv(n),
            new.inv(n),
            m.evolves(new, n),
            self.steps_to(next, m, new, n),
            self.step.attempted(next.step, new, n),
            self.step is Finish,
            self.step->Finish_at.leaves(m),
        ensures
            next.ok(new, n),
    {
        reveal(EnqueueRun::ok);
        self.lemma_goal_reached(next, m, new, n);
        self.lemma_rooted_kept(m, new, n);
        match self.step->Finish_back {
            Back::Again(id) => {
                self.lemma_again(next, m, new, n, id);
            },
            Back::Onward(id) => {
                if self.helped(m, id as int) {
                    self.lemma_helped_kept(m, new, n, id as int);
                } else {
                    self.lemma_reached(new, n, id);
                }
                self.lemma_past(next, m, new, n, id);
            },
            Back::End => {
                self.lemma_on(next, m, new, n);
            },
        }
    }

    /// What the next access rests on, on the way to completing what the tail
    /// lags behind.
    proof fn lemma_finish_placed(self, next: Self, m: Memory<T>, new: Memory<T>, n: nat)
        requires
            self.rooted(m, n),
            self.placed(m, n),
            m.inv(n),
            new.inv(n),
            m.evolves(new, n),
            self.steps_to(next, m, new, n),
            self.step.attempted(next.step, new, n),
            self.step is Finish,
            !self.step->Finish_at.leaves(m),
        ensures
            next.placed(new, n),
    {
        let goal = self.past@.goal;
        self.lemma_rooted_kept(m, new, n);
        assert(m.log[m.pos(goal)] == goal);
        if let Back::Onward(id) = self.step->Finish_back {
            if self.helped(m, id as int) {
                self.lemma_helped_kept(m, new, n, id as int);
                assert(self.helped(new, id as int));
                assert(next.helped(new, id as int));
            }
        }
        match self.step->Finish_at {
            FinishStep::Tail => {
                m.lemma_pos(m.t as int);
            },
            FinishStep::Next { last } => {
                m.lemma_pos_kept(new, n, last);
            },
            FinishStep::Desc { last, .. } => {
                m.lemma_pos_kept(new, n, last);
            },
            FinishStep::Confirm(attempt) => {
                m.lemma_pos_kept(new, n, attempt.last);
            },
            FinishStep::Mark(attempt) => {
                m.lemma_pos_kept(new, n, attempt.last);
            },
            FinishStep::Move(_) => {},
        }
    }

    /// The accesses that complete what the tail lags behind keep the enqueue
    /// going.
    proof fn lemma_finish_step(self, next: Self, m: Memory<T>, new: Memory<T>, n: nat)
        requires
            self.ok(m, n),
            m.inv(n),
            new.inv(n),
            m.evolves(new, n),
            self.steps_to(next, m, new, n),
            self.step.attempted(next.step, new, n),
            self.step is Finish,
        ensures
            next.ok(new, n),
    {
        if self.step->Finish_at.leaves(m) {
            self.lemma_finished(next, m, new, n);
        } else {
            reveal(EnqueueRun::ok);
            self.lemma_finish_placed(next, m, new, n);
            self.lemma_rooted_kept(m, new, n);
            self.lemma_on(next, m, new, n);
        }
    }

    /// Every access but the announcement leaves the memory in order.
    proof fn lemma_in_order(self, m: Memory<T>, new: Memory<T>, n: nat)
        requires
            self.ok(m, n),
            m.inv(n),
            new.inv(n),
            m.evolves(new, n),
            m.orderly(n),
            new == self.step.effect(m, self.owner, self.value),
            !(self.step is Announce),
        ensures
            new.orderly(n),
    {
        reveal(EnqueueRun::ok);
        assert forall|id: int| 0 <= id < n implies (#[trigger] new.desc(id)).node == m.desc(id).node
            && (new.pending(id) ==> m.pending(id)) by {
            match self.step {
                EnqueueStep::Finish { at: FinishStep::Mark(attempt), .. } => {
                    if id != attempt.id {
                        assert(new.desc(id) == m.desc(id));
                    }
                },
                _ => {
                    assert(new.desc(id) == m.desc(id));
                },
            }
        }
        m.lemma_orderly_kept(new, n);
    }

    /// Every access keeps the enqueue going and the memory in order.
    proof fn lemma_step(self, next: Self, m: Memory<T>, new: Memory<T>, n: nat)
        requires
            self.ok(m, n),
            m.inv(n),
            new.inv(n),
            m.evolves(new, n),
            m.orderly(n),
            self.steps_to(next, m, new, n),
            self.step.attempted(next.step, new, n),
            !(self.step is End),
        ensures
            next.ok(new, n),
            new.orderly(n),
    {
        reveal(EnqueueRun::ok);
        if !(self.step is Announce) {
            self.lemma_in_order(m, new, n);
        }
        match self.step {
            EnqueueStep::Scan { .. } => {
                self.lemma_scan(next, m, n);
            },
            EnqueueStep::Announce { .. } => {
                self.lemma_announce(next, m, new, n);
            },
            EnqueueStep::Visit { id } => {
                if m.wants_help(id as int, self.phase) {
                    self.lemma_enter(next, m, n, id);
                } else {
                    self.lemma_not_wanted(m, n, id as int);
                    self.lemma_past(next, m, m, n, id);
                }
            },
            EnqueueStep::Check { id } => {
                if m.wants_help(id as int, self.phase) {
                    self.lemma_round(next, m, n, id);
                } else {
                    self.lemma_not_wanted(m, n, id as int);
                    if self.has_tried() {
                        self.lemma_growth(n, id as int);
                    }
                    self.lemma_past(next, m, m, n, id);
                }
            },
            EnqueueStep::Finish { .. } => {
                self.lemma_finish_step(next, m, new, n);
            },
            _ => {
                self.lemma_round_step(next, m, new, n);
            },
        }
    }
}

impl<T> EnqueueRun<T> where T: Copy + PartialEq + Eq {
    /// Begins to enqueue `value` for handle `owner`. Nothing is accessed yet.
    pub fn begin<const N: usize>(queue: &WaitFreeHelpQueue<T, N>, owner: usize, value: T) -> (run:
        Self)
        requires
            queue.wf(),
            owner < N,
            queue@.idle(owner as int),
            queue@.orderly(N as nat),
            queue@.caught_up(N as nat, owner),
        ensures
            run.ok(queue@, N as nat),
            run.owner == owner,
            run.value == value,
            run.step == (EnqueueStep::Scan { id: 0, max: None }),
            run.past@.start == queue@,
            run.past@.steps == 0,
    {
        let ghost m = queue@;
        proof {
            reveal(EnqueueRun::ok);
            queue.lemma_wf();
            m.lemma_evolves_refl(N as nat);
            m.lemma_pos(0);
        }
        EnqueueRun {
            owner,
            value,
            phase: 0,
            step: EnqueueStep::Scan { id: 0, max: None },
            past: Ghost(
                EnqueueHistory {
                    start: m,
                    base: m,
                    entry: m,
                    round: m,
                    lost: false,
                    late: false,
                    swapped: false,
                    goal: 0,
                    gained: 0,
                    steps: 0,
                },
            ),
        }
    }

    /// Whether the enqueue has ended.
    pub fn is_done(&self) -> (done: bool)
        ensures
            done == (self.step is End),
    {
        match self.step {
            EnqueueStep::End => true,
            _ => false,
        }
    }

    /// Makes the next access. Between two accesses, other handles may do what
    /// they like with the queue.
    pub fn advance<const N: usize>(&mut self, queue: &mut WaitFreeHelpQueue<T, N>)
        requires
            old(queue).wf(),
            old(queue)@.orderly(N as nat),
            old(self).ok(old(queue)@, N as nat),
            !(old(self).step is End),
        ensures
            final(queue).wf(),
            final(queue)@.orderly(N as nat),
            old(queue)@.evolves(final(queue)@, N as nat),
            old(self).steps_to(*final(self), old(queue)@, final(queue)@, N as nat),
            final(self).ok(final(queue)@, N as nat),
    {
        let ghost m = queue@;
        proof {
            queue.lemma_wf();
            self.lemma_ready(m, N as nat);
        }
        let next = self.access(queue);
        if let EnqueueStep::Announce { phase } = self.step {
            self.phase = phase;
        }
        self.step = next;
        self.past = Ghost(old(self).history(m, queue@, N as nat));
        proof {
            queue.lemma_wf();
            old(self).lemma_step(*self, m, queue@, N as nat);
        }
    }

    /// Makes all accesses that are left, without interruption.
    pub fn complete<const N: usize>(&mut self, queue: &mut WaitFreeHelpQueue<T, N>)
        requires
            old(queue).wf(),
            old(queue)@.orderly(N as nat),
            old(self).ok(old(queue)@, N as nat),
        ensures
            final(queue).wf(),
            final(queue)@.orderly(N as nat),
            old(queue)@.evolves(final(queue)@, N as nat),
            final(self).ok(final(queue)@, N as nat),
            final(self).step is End,
            final(self).owner == old(self).owner,
            final(self).value == old(self).value,
            final(self).past@.start == old(self).past@.start,
    {
        proof {
            queue@.lemma_evolves_refl(N as nat);
        }
        while !self.is_done()
            invariant
                old(queue).wf(),
                queue.wf(),
                queue@.orderly(N as nat),
                old(queue)@.evolves(queue@, N as nat),
                self.ok(queue@, N as nat),
                self.owner == old(self).owner,
                self.value == old(self).value,
                self.past@.start == old(self).past@.start,
            decreases access_limit(N as nat) - self.past@.steps,
        {
            let ghost before = queue@;
            proof {
                queue.lemma_wf();
            }
            self.advance(queue);
            proof {
                old(queue).lemma_wf();
                queue.lemma_wf();
                old(queue)@.lemma_evolves_trans(before, queue@, N as nat);
                crate::laws::law_enqueue_accesses(*self, queue@, N as nat);
            }
        }
    }

    /// Makes the next access and tells which one comes after it.
    fn access<const N: usize>(&self, queue: &mut WaitFreeHelpQueue<T, N>) -> (next: EnqueueStep)
        requires
            old(queue).wf(),
            self.step.ready(old(queue)@, self.owner, N as nat),
        ensures
            final(queue).wf(),
            old(queue)@.evolves(final(queue)@, N as nat),
            final(queue)@ == self.step.effect(old(queue)@, self.owner, self.value),
            next == self.step.after(old(queue)@, self.phase, N as nat),
            self.step.attempted(next, final(queue)@, N as nat),
    {
        proof {
            queue.lemma_wf();
            queue@.lemma_evolves_refl(N as nat);
        }
        match self.step {
            EnqueueStep::Scan { id, max } => {
                let max: Option<u64> = Self::later(max, queue.load_phase(id));
                assert(max matches Some(p) ==> p + 1 < queue@.nodes.len());
                if id + 1 < N {
                    EnqueueStep::Scan { id: id + 1, max }
                } else {
                    let phase: u64 = match max {
                        None => 0,
                        Some(p) => p + 1,
                    };
                    EnqueueStep::Announce { phase }
                }
            },
            EnqueueStep::Announce { phase } => {
                queue.announce(self.owner, phase, self.value);
                EnqueueStep::Visit { id: 0 }
            },
            EnqueueStep::Visit { id } => if queue.is_still_pending(id, self.phase) {
                EnqueueStep::Check { id }
            } else {
                Self::past(id, N)
            },
            EnqueueStep::Check { id } => if queue.is_still_pending(id, self.phase) {
                EnqueueStep::Tail { id }
            } else {
                Self::past(id, N)
            },
            EnqueueStep::Tail { id } => EnqueueStep::Next { id, last: queue.load_tail() },
            EnqueueStep::Next { id, last } => EnqueueStep::Recheck {
                id,
                last,
                next: queue.load_next(last),
            },
            EnqueueStep::Recheck { id, last, next } => if queue.load_tail() != last {
                EnqueueStep::Check { id }
            } else if next.is_some() {
                EnqueueStep::Finish { at: FinishStep::Tail, back: Back::Again(id) }
            } else {
                EnqueueStep::Still { id, last }
            },
            EnqueueStep::Still { id, last } => if queue.is_still_pending(id, self.phase) {
                EnqueueStep::Read { id, last }
            } else {
                EnqueueStep::Check { id }
            },
            EnqueueStep::Read { id, last } => match queue.begin_link(last, id) {
                Some(attempt) => EnqueueStep::Link(attempt),
                None => EnqueueStep::Check { id },
            },
            EnqueueStep::Link(attempt) => if queue.try_link(&attempt) {
                EnqueueStep::Finish { at: FinishStep::Tail, back: Back::Onward(attempt.id) }
            } else {
                EnqueueStep::Check { id: attempt.id }
            },
            EnqueueStep::Finish { at, back } => Self::finish(queue, at, back),
            EnqueueStep::End => EnqueueStep::End,
        }
    }

    /// The higher of two phases.
    fn later(max: Option<u64>, phase: Option<u64>) -> (higher: Option<u64>)
        ensures
            higher == EnqueueStep::higher(max, phase),
    {
        match (max, phase) {
            (_, None) => max,
            (None, Some(_)) => phase,
            (Some(q), Some(r)) => if q < r {
                phase
            } else {
                max
            },
        }
    }

    /// The first access for the handle after `id`, or for the end.
    fn past(id: usize, n: usize) -> (step: EnqueueStep)
        requires
            id < n,
        ensures
            step == EnqueueStep::past(id, n as nat),
    {
        if id + 1 < n {
            EnqueueStep::Visit { id: id + 1 }
        } else {
            EnqueueStep::Finish { at: FinishStep::Tail, back: Back::End }
        }
    }

    /// Makes the next access to complete what the tail lags behind.
    fn finish<const N: usize>(
        queue: &mut WaitFreeHelpQueue<T, N>,
        at: FinishStep,
        back: Back,
    ) -> (step: EnqueueStep)
        requires
            old(queue).wf(),
            (EnqueueStep::Finish { at, back }).ready(old(queue)@, 0, N as nat),
        ensures
            final(queue).wf(),
            old(queue)@.evolves(final(queue)@, N as nat),
            forall|owner: usize, value: T|
                final(queue)@ == #[trigger] (EnqueueStep::Finish { at, back }).effect(
                    old(queue)@,
                    owner,
                    value,
                ),
            forall|phase: u64|
                step == #[trigger] (EnqueueStep::Finish { at, back }).after(
                    old(queue)@,
                    phase,
                    N as nat,
                ),
            (EnqueueStep::Finish { at, back }).attempted(step, final(queue)@, N as nat),
    {
        proof {
            queue.lemma_wf();
            queue@.lemma_evolves_refl(N as nat);
        }
        match at {
            FinishStep::Tail => EnqueueStep::Finish {
                at: FinishStep::Next { last: queue.load_tail() },
                back,
            },
            FinishStep::Next { last } => match queue.load_next(last) {
                None => Self::resume(back, N),
                Some(next) => EnqueueStep::Finish { at: FinishStep::Desc { last, next }, back },
            },
            FinishStep::Desc { last, next } => {
                let attempt = queue.begin_finish(last, next);
                EnqueueStep::Finish { at: FinishStep::Confirm(attempt), back }
            },
            FinishStep::Confirm(attempt) => if queue.confirm(&attempt) {
                EnqueueStep::Finish { at: FinishStep::Mark(attempt), back }
            } else {
                Self::resume(back, N)
            },
            FinishStep::Mark(attempt) => {
                let _ = queue.try_mark(&attempt);
                EnqueueStep::Finish { at: FinishStep::Move(attempt), back }
            },
            FinishStep::Move(attempt) => {
                let _ = queue.try_tail(&attempt);
                Self::resume(back, N)
            },
        }
    }

    /// The access to go on with.
    fn resume(back: Back, n: usize) -> (step: EnqueueStep)
        requires
            match back {
                Back::Again(id) | Back::Onward(id) => id < n,
                Back::End => true,
            },
        ensures
            step == back.target(n as nat),
    {
        match back {
            Back::Again(id) => EnqueueStep::Check { id },
            Back::Onward(id) => Self::past(id, n),
            Back::End => EnqueueStep::End,
        }
    }
}

} // verus!
