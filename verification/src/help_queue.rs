//! A queue of requests for help that any handle can carry out for any other.
//!
//! To enqueue, a handle announces what it wants linked, then helps every
//! announced operation, its own among them, through the same steps: link the
//! node behind the last one, mark the operation as done, move the tail. Each
//! step is one access to the shared memory, and each may find that another
//! handle was faster.
//!
//! The methods named after single accesses ([`WaitFreeHelpQueue::try_link`],
//! [`WaitFreeHelpQueue::try_mark`] and so on) can be interleaved freely between
//! handles: what a handle has seen is kept in a [`LinkAttempt`], a
//! [`FinishAttempt`] or a [`RemoveAttempt`], and stays meaningful whatever the
//! others do meanwhile. The methods named after whole operations run them
//! without interruption; [`crate::enqueue::EnqueueRun`] is an enqueue that can be
//! interrupted.
use vstd::prelude::*;
use vstd::std_specs::cmp::PartialEqSpec;

use crate::help_memory::{Memory, Node, OpDesc};
use crate::help_steps::{FinishAttempt, LinkAttempt, RemoveAttempt};

verus! {

/// A queue for the handles `0..N`.
pub struct WaitFreeHelpQueue<T, const N: usize> {
    nodes: Vec<Node<T>>,
    descs: Vec<OpDesc>,
    state: Vec<usize>,
    head: usize,
    tail: usize,
    phases: Ghost<Seq<u64>>,
    log: Ghost<Seq<usize>>,
    h: Ghost<nat>,
    t: Ghost<nat>,
}

impl<T, const N: usize> View for WaitFreeHelpQueue<T, N> {
    type V = Memory<T>;

    closed spec fn view(&self) -> Memory<T> {
        Memory {
            nodes: self.nodes@,
            phases: self.phases@,
            descs: self.descs@,
            state: self.state@,
            log: self.log@,
            h: self.h@,
            t: self.t@,
        }
    }
}

impl<T, const N: usize> WaitFreeHelpQueue<T, N> {
    /// Head and tail refer to the nodes that the log says they do.
    closed spec fn anchored(&self) -> bool {
        &&& self.head == self@.head()
        &&& self.tail == self@.tail()
    }

    /// The queue's invariant, true after every access to its memory.
    pub closed spec fn wf(&self) -> bool {
        &&& self.anchored()
        &&& self@.inv(N as nat)
    }

    /// The invariant as a statement about the queue's memory.
    pub proof fn lemma_wf(&self)
        requires
            self.wf(),
        ensures
            self@.inv(N as nat),
    {
    }
}

impl<T, const N: usize> WaitFreeHelpQueue<T, N> where T: Copy + PartialEq + Eq {
    /// An empty queue: the list is the sentinel alone, and no handle has
    /// announced anything.
    pub fn new() -> (queue: Self)
        ensures
            queue.wf(),
            queue@ == Memory::<T>::initial(N as nat),
            queue@.values() == Seq::<T>::empty(),
            forall|id: int|
                0 <= id < N ==> #[trigger] queue@.idle(id) && queue@.announced(id) is None,
    {
        let mut nodes: Vec<Node<T>> = Vec::new();
        nodes.push(Node::sentinel());
        let mut descs: Vec<OpDesc> = Vec::new();
        let mut state: Vec<usize> = Vec::new();
        for i in 0..N
            invariant
                descs@.len() == i,
                state@.len() == i,
                forall|k: int| 0 <= k < i ==> #[trigger] state@[k] == k,
                forall|k: int|
                    0 <= k < i ==> #[trigger] descs@[k] == (OpDesc {
                        phase: None,
                        pending: false,
                        enqueue: true,
                        node: None,
                    }),
        {
            descs.push(OpDesc { phase: None, pending: false, enqueue: true, node: None });
            state.push(i);
        }
        let queue = WaitFreeHelpQueue {
            nodes,
            descs,
            state,
            head: 0,
            tail: 0,
            phases: Ghost(Seq::empty().push(0u64)),
            log: Ghost(Seq::empty().push(0usize)),
            h: Ghost(0nat),
            t: Ghost(0nat),
        };
        proof {
            assert(queue@ =~= Memory::<T>::initial(N as nat));
            assert(queue@.log[0] == 0);
            assert(queue@.linked(0));
        }
        queue
    }

    /// Reads the tail.
    pub fn load_tail(&self) -> (last: usize)
        requires
            self.wf(),
        ensures
            last == self@.tail(),
            self@.linked(last),
            self@.pos(last) == self@.t,
    {
        proof {
            self@.lemma_pos(self@.t as int);
        }
        self.tail
    }

    /// Reads the head.
    pub fn load_head(&self) -> (head: usize)
        requires
            self.wf(),
        ensures
            head == self@.head(),
            self@.linked(head),
            self@.pos(head) == self@.h,
    {
        proof {
            self@.lemma_pos(self@.h as int);
        }
        self.head
    }

    /// Reads which node was linked behind `node`, which was read from the tail
    /// or the head. It is never the sentinel.
    pub fn load_next(&self, node: usize) -> (next: Option<usize>)
        requires
            self.wf(),
            self@.linked(node),
        ensures
            next == self@.succ(self@.pos(node)),
            next matches Some(x) ==> {
                &&& 0 < x < self@.nodes.len()
                &&& self@.pos(node) <= self@.t ==> self@.seen_behind(node, x)
                &&& self@.pos(node) <= self@.h ==> (RemoveAttempt { head: node, next: x }).valid(
                    self@,
                    N as nat,
                )
            },
    {
        proof {
            let k = self@.pos(node);
            assert(self@.log[k] == node);
        }
        self.nodes[node].next
    }

    /// Stores a descriptor for a new node that holds `value`: from here on any
    /// handle can carry the enqueue out.
    pub fn announce(&mut self, id: usize, phase: u64, value: T)
        requires
            old(self).wf(),
            id < N,
            old(self)@.idle(id as int),
            phase < old(self)@.nodes.len(),
        ensures
            final(self).wf(),
            final(self)@ == old(self)@.after_announce(id as int, phase, value),
            old(self)@.evolves(final(self)@, N as nat),
    {
        let node: usize = self.nodes.len();
        self.nodes.push(Node::new(value, id));
        let desc: usize = self.descs.len();
        self.descs.push(
            OpDesc { phase: Some(phase), pending: true, enqueue: true, node: Some(node) },
        );
        self.state[id] = desc;
        proof {
            self.phases@ = self.phases@.push(phase);
            assert(self.nodes.len() <= usize::MAX && self.descs.len() <= usize::MAX);
            old(self)@.lemma_announce(N as nat, id as int, phase, value);
            assert(self@ =~= old(self)@.after_announce(id as int, phase, value));
        }
    }

    /// Reads handle `id`'s descriptor; if it is pending, its node is to be
    /// linked behind `last`, which was read from the tail.
    pub fn begin_link(&self, last: usize, id: usize) -> (attempt: Option<LinkAttempt>)
        requires
            self.wf(),
            id < N,
            self@.linked(last),
            self@.pos(last) <= self@.t,
        ensures
            attempt == if self@.pending(id as int) {
                Some(LinkAttempt { last, id, desc: self@.state[id as int] })
            } else {
                None
            },
            attempt matches Some(a) ==> a.valid(self@, N as nat),
    {
        let desc: usize = self.state[id];
        if !self.descs[desc].pending {
            return None;
        }
        proof {
            let x = self@.desc(id as int).node.unwrap();
            if self@.linked(x) {
                let i = self@.pos(x);
                assert(self@.pending(id as int));
                assert(self@.desc(id as int).node == Some(self@.log[i]));
            }
        }
        Some(LinkAttempt { last, id, desc })
    }

    /// Links the node, if no node has been linked behind `last` in the
    /// meantime; says whether it did.
    pub fn try_link(&mut self, attempt: &LinkAttempt) -> (done: bool)
        requires
            old(self).wf(),
            attempt.valid(old(self)@, N as nat),
        ensures
            final(self).wf(),
            done == (attempt.last == old(self)@.log.last()),
            final(self)@ == if done {
                old(self)@.after_link(
                    attempt.last,
                    old(self)@.descs[attempt.desc as int].node.unwrap(),
                )
            } else {
                old(self)@
            },
            old(self)@.evolves(final(self)@, N as nat),
    {
        proof {
            let k = self@.pos(attempt.last);
            assert(self@.log[k] == attempt.last);
            self@.lemma_pos(self@.log.len() - 1);
        }
        if self.nodes[attempt.last].next.is_some() {
            return false;
        }
        let node: Option<usize> = self.descs[attempt.desc].node;
        proof {
            attempt.lemma_link(self@, N as nat);
            self.log@ = self.log@.push(node.unwrap());
        }
        let last = &self.nodes[attempt.last];
        let linked = Node {
            value: last.value,
            next: node,
            enq_id: last.enq_id,
            deq_id: last.deq_id,
        };
        self.nodes[attempt.last] = linked;
        proof {
            assert(self@ =~= old(self)@.after_link(attempt.last, node.unwrap()));
        }
        true
    }

    /// Reads the descriptor of the handle whose node `next` was read behind the
    /// tail `last`.
    pub fn begin_finish(&self, last: usize, next: usize) -> (attempt: FinishAttempt)
        requires
            self.wf(),
            self@.seen_behind(last, next),
        ensures
            attempt.last == last,
            attempt.next == next,
            self@.nodes[next as int].enq_id == Some(attempt.id),
            attempt.desc == self@.state[attempt.id as int],
            attempt.valid(self@, N as nat),
    {
        let id: usize = self.nodes[next].enq_id.unwrap();
        FinishAttempt { last, next, id, desc: self.state[id] }
    }

    /// Reads the tail once more: only if it is still `last`, and the descriptor
    /// is the one for `next`, is there anything left to finish.
    pub fn confirm(&self, attempt: &FinishAttempt) -> (go_on: bool)
        requires
            self.wf(),
            attempt.valid(self@, N as nat),
        ensures
            go_on == (self@.tail() == attempt.last),
            go_on ==> attempt.confirmed(self@, N as nat),
            !go_on ==> self@.pos(attempt.last) < self@.t,
    {
        proof {
            self@.lemma_pos(self@.t as int);
            let k = self@.pos(attempt.last);
            assert(self@.log[k] == attempt.last);
        }
        if self.tail != attempt.last {
            return false;
        }
        match self.descs[attempt.desc].node {
            Some(node) => node == attempt.next,
            None => false,
        }
    }

    /// Replaces the descriptor by one that is not pending, unless it has been
    /// replaced in the meantime; says whether it did.
    pub fn try_mark(&mut self, attempt: &FinishAttempt) -> (done: bool)
        requires
            old(self).wf(),
            attempt.confirmed(old(self)@, N as nat),
        ensures
            final(self).wf(),
            done == (old(self)@.state[attempt.id as int] == attempt.desc),
            final(self)@ == if done {
                old(self)@.after_mark(attempt.id as int, attempt.desc as int)
            } else {
                old(self)@
            },
            attempt.marked(final(self)@, N as nat),
            old(self)@.evolves(final(self)@, N as nat),
    {
        if self.state[attempt.id] != attempt.desc {
            return false;
        }
        let seen: OpDesc = self.descs[attempt.desc];
        let desc: usize = self.descs.len();
        self.descs.push(
            OpDesc { phase: seen.phase, pending: false, enqueue: true, node: seen.node },
        );
        self.state[attempt.id] = desc;
        proof {
            assert(self.descs.len() <= usize::MAX);
            attempt.lemma_mark(old(self)@, N as nat);
            assert(self@ =~= old(self)@.after_mark(attempt.id as int, attempt.desc as int));
        }
        true
    }

    /// Moves the tail to `next`, unless it has been moved in the meantime; says
    /// whether it did.
    pub fn try_tail(&mut self, attempt: &FinishAttempt) -> (done: bool)
        requires
            old(self).wf(),
            attempt.marked(old(self)@, N as nat),
        ensures
            final(self).wf(),
            done == (old(self)@.tail() == attempt.last),
            final(self)@ == if done {
                old(self)@.after_tail()
            } else {
                old(self)@
            },
            final(self)@.pos(attempt.last) < final(self)@.t,
            old(self)@.evolves(final(self)@, N as nat),
    {
        proof {
            self@.lemma_pos(self@.t as int);
            let k = self@.pos(attempt.last);
            assert(self@.log[k] == attempt.last);
        }
        if self.tail != attempt.last {
            return false;
        }
        proof {
            attempt.lemma_tail(self@, N as nat);
            self.t@ = self.t@ + 1;
        }
        self.tail = attempt.next;
        proof {
            assert(self@ =~= old(self)@.after_tail());
        }
        true
    }

    /// Moves the head to `next`, unless it has been moved in the meantime; says
    /// whether it did.
    pub fn try_head(&mut self, attempt: &RemoveAttempt) -> (done: bool)
        requires
            old(self).wf(),
            attempt.valid(old(self)@, N as nat),
        ensures
            final(self).wf(),
            done == (old(self)@.head() == attempt.head),
            final(self)@ == if done {
                old(self)@.after_head()
            } else {
                old(self)@
            },
            final(self)@.pos(attempt.head) < final(self)@.h,
            attempt.valid(final(self)@, N as nat),
            old(self)@.evolves(final(self)@, N as nat),
    {
        proof {
            self@.lemma_pos(self@.h as int);
            let k = self@.pos(attempt.head);
            assert(self@.log[k] == attempt.head);
        }
        if self.head != attempt.head {
            return false;
        }
        proof {
            attempt.lemma_head(self@, N as nat);
            self.h@ = self.h@ + 1;
        }
        self.head = attempt.next;
        proof {
            assert(self@ =~= old(self)@.after_head());
            attempt.lemma_valid_kept(old(self)@, self@, N as nat);
        }
        true
    }

    /// Reads the phase of handle `id`'s latest operation.
    pub fn load_phase(&self, id: usize) -> (phase: Option<u64>)
        requires
            self.wf(),
            id < N,
        ensures
            phase == self@.desc(id as int).phase,
    {
        self.descs[self.state[id]].phase
    }

    /// The highest phase that any handle has announced, if any has.
    pub fn max_phase(&self) -> (max: Option<u64>)
        requires
            self.wf(),
        ensures
            self@.is_max_phase(max),
            max matches Some(p) ==> p + 1 < self@.nodes.len(),
    {
        let mut max: Option<u64> = None;
        for id in 0..N
            invariant
                self.wf(),
                match max {
                    None => forall|k: int|
                        0 <= k < id ==> (#[trigger] self@.desc(k)).phase is None,
                    Some(q) => {
                        &&& exists|k: int|
                            0 <= k < id && (#[trigger] self@.desc(k)).phase == Some(q)
                        &&& forall|k: int|
                            0 <= k < id ==> ((#[trigger] self@.desc(k)).phase matches Some(r)
                                ==> r <= q)
                    },
                },
        {
            let phase: Option<u64> = self.load_phase(id);
            match (max, phase) {
                (_, None) => {},
                (None, Some(_)) => {
                    max = phase;
                },
                (Some(q), Some(r)) => {
                    if q < r {
                        max = phase;
                    }
                },
            }
        }
        max
    }

    /// Whether handle `id` has an operation pending that was announced no later
    /// than `phase`.
    pub fn is_still_pending(&self, id: usize, phase: u64) -> (pending: bool)
        requires
            self.wf(),
            id < N,
        ensures
            pending == self@.wants_help(id as int, phase),
    {
        let desc: OpDesc = self.descs[self.state[id]];
        desc.pending && desc.phase.unwrap_or(0) <= phase
    }

    /// Completes the operation whose node the tail lags behind, if there is
    /// one: marks it as done and moves the tail to its node.
    pub fn help_finish_enq(&mut self)
        requires
            old(self).wf(),
        ensures
            final(self).wf(),
            final(self)@ == old(self)@.finished(),
            !final(self)@.lagging(),
            old(self)@.evolves(final(self)@, N as nat),
    {
        let last: usize = self.load_tail();
        let next: usize = match self.load_next(last) {
            None => {
                return;
            },
            Some(next) => next,
        };
        let attempt = self.begin_finish(last, next);
        if !self.confirm(&attempt) {
            return;
        }
        let _ = self.try_mark(&attempt);
        let ghost marked = self@;
        let _ = self.try_tail(&attempt);
        proof {
            old(self)@.lemma_evolves_trans(marked, self@, N as nat);
        }
    }

    /// Carries out handle `id`'s operation, if it is pending and was announced
    /// no later than `phase`.
    pub fn help_enq(&mut self, id: usize, phase: u64)
        requires
            old(self).wf(),
            id < N,
        ensures
            final(self).wf(),
            final(self)@ == if old(self)@.wants_help(id as int, phase) {
                old(self)@.after_help(id as int)
            } else {
                old(self)@
            },
            old(self)@.evolves(final(self)@, N as nat),
    {
        proof {
            old(self)@.lemma_finished(N as nat);
        }
        while self.is_still_pending(id, phase)
            invariant
                self.wf(),
                id < N,
                self@ == old(self)@ || (self@ == old(self)@.finished() && old(self)@.wants_help(
                    id as int,
                    phase,
                )),
                old(self).wf(),
                old(self)@.evolves(self@, N as nat),
            decreases (if self@.lagging() { 1int } else { 0int }),
        {
            let last: usize = self.load_tail();
            let next: Option<usize> = self.load_next(last);
            if last != self.load_tail() {
                continue;
            }
            if next.is_some() {
                let ghost before = self@;
                self.help_finish_enq();
                proof {
                    old(self)@.lemma_finished(N as nat);
                    old(self)@.lemma_evolves_trans(before, self@, N as nat);
                }
                continue;
            }
            if !self.is_still_pending(id, phase) {
                continue;
            }
            let attempt: LinkAttempt = match self.begin_link(last, id) {
                None => {
                    continue;
                },
                Some(attempt) => attempt,
            };
            let ghost ready = self@;
            if self.try_link(&attempt) {
                let ghost linked = self@;
                self.help_finish_enq();
                proof {
                    ready.lemma_evolves_trans(linked, self@, N as nat);
                    old(self)@.lemma_evolves_trans(ready, self@, N as nat);
                }
                return;
            }
        }
    }

    /// Carries out, handle by handle, every pending operation that was announced
    /// no later than `phase`.
    pub fn help(&mut self, phase: u64)
        requires
            old(self).wf(),
        ensures
            final(self).wf(),
            old(self)@.evolves(final(self)@, N as nat),
            final(self)@.h == old(self)@.h,
            final(self)@.nodes.len() == old(self)@.nodes.len(),
            final(self)@.values() == old(self)@.values() + old(self)@.backlog(N as nat, phase),
            forall|id: int|
                0 <= id < N ==> {
                    &&& (#[trigger] final(self)@.desc(id)).phase == old(self)@.desc(id).phase
                    &&& final(self)@.desc(id).node == old(self)@.desc(id).node
                    &&& final(self)@.pending(id) ==> old(self)@.pending(id)
                        && !old(self)@.wants_help(id, phase)
                    &&& final(self)@.announced(id) == if old(self)@.wants_help(id, phase) {
                        None
                    } else {
                        old(self)@.announced(id)
                    }
                },
            (exists|id: int| 0 <= id < N && #[trigger] old(self)@.wants_help(id, phase))
                ==> !final(self)@.lagging(),
            (forall|id: int| 0 <= id < N ==> !#[trigger] old(self)@.wants_help(id, phase))
                ==> final(self)@ == old(self)@,
    {
        for id in 0..N
            invariant
                old(self).wf(),
                self.wf(),
                old(self)@.evolves(self@, N as nat),
                self@.h == old(self)@.h,
                self@.nodes.len() == old(self)@.nodes.len(),
                self@.values() == old(self)@.values() + old(self)@.backlog(id as nat, phase),
                forall|k: int|
                    0 <= k < N ==> {
                        &&& (#[trigger] self@.desc(k)).phase == old(self)@.desc(k).phase
                        &&& self@.desc(k).node == old(self)@.desc(k).node
                        &&& self@.pending(k) ==> old(self)@.pending(k) && !(k < id && old(
                            self,
                        )@.wants_help(k, phase))
                        &&& self@.announced(k) == if k < id && old(self)@.wants_help(k, phase) {
                            None
                        } else {
                            old(self)@.announced(k)
                        }
                    },
                (exists|k: int| 0 <= k < id && #[trigger] old(self)@.wants_help(k, phase))
                    ==> !self@.lagging(),
                (forall|k: int| 0 <= k < id ==> !#[trigger] old(self)@.wants_help(k, phase))
                    ==> self@ == old(self)@,
        {
            let ghost before = self@;
            let desc: OpDesc = self.descs[self.state[id]];
            assert(before.desc(id as int) == desc);
            assert(before.desc(id as int).phase == old(self)@.desc(id as int).phase);
            if desc.pending && desc.phase.unwrap_or(0) <= phase {
                assert(before.wants_help(id as int, phase));
                assert(old(self)@.wants_help(id as int, phase));
                if desc.enqueue {
                    self.help_enq(id, phase);
                }
                proof {
                    before.lemma_helped(N as nat, id as int);
                    old(self)@.lemma_evolves_trans(before, self@, N as nat);
                    assert(before.announced(id as int) == old(self)@.announced(id as int));
                }
            } else {
                proof {
                    if old(self)@.wants_help(id as int, phase) {
                        assert(self@.announced(id as int) is None);
                    }
                }
            }
            proof {
                assert(self@.values() =~= old(self)@.values() + old(self)@.backlog(
                    id as nat + 1,
                    phase,
                ));
            }
        }
    }

    /// Announces that handle `id` wants `value` appended; returns the phase of
    /// the announcement, which is higher than all phases before it.
    pub fn begin_enqueue(&mut self, id: usize, value: T) -> (phase: u64)
        requires
            old(self).wf(),
            id < N,
            old(self)@.idle(id as int),
        ensures
            final(self).wf(),
            old(self)@.evolves(final(self)@, N as nat),
            old(self)@.is_next_phase(phase),
            final(self)@ == old(self)@.after_announce(id as int, phase, value),
    {
        let max: Option<u64> = self.max_phase();
        proof {
            self.lemma_wf();
        }
        let phase: u64 = match max {
            None => 0,
            Some(p) => p + 1,
        };
        assert(self@.is_max_phase(max));
        self.announce(id, phase, value);
        phase
    }

    /// Carries out every operation that was announced no later than `phase`.
    pub fn complete_enqueue(&mut self, phase: u64)
        requires
            old(self).wf(),
        ensures
            final(self).wf(),
            old(self)@.evolves(final(self)@, N as nat),
            final(self)@.h == old(self)@.h,
            final(self)@.nodes.len() == old(self)@.nodes.len(),
            final(self)@.values() == old(self)@.values() + old(self)@.backlog(N as nat, phase),
            !final(self)@.lagging(),
            forall|id: int|
                0 <= id < N ==> {
                    &&& (#[trigger] final(self)@.desc(id)).phase == old(self)@.desc(id).phase
                    &&& final(self)@.desc(id).node == old(self)@.desc(id).node
                    &&& final(self)@.pending(id) ==> old(self)@.pending(id)
                        && !old(self)@.wants_help(id, phase)
                    &&& final(self)@.announced(id) == if old(self)@.wants_help(id, phase) {
                        None
                    } else {
                        old(self)@.announced(id)
                    }
                },
    {
        self.help(phase);
        let ghost helped = self@;
        self.help_finish_enq();
        proof {
            helped.lemma_finished(N as nat);
            old(self)@.lemma_evolves_trans(helped, self@, N as nat);
            assert forall|id: int| 0 <= id < N implies {
                &&& (#[trigger] self@.desc(id)).phase == old(self)@.desc(id).phase
                &&& self@.desc(id).node == old(self)@.desc(id).node
                &&& self@.pending(id) ==> old(self)@.pending(id) && !old(self)@.wants_help(
                    id,
                    phase,
                )
                &&& self@.announced(id) == if old(self)@.wants_help(id, phase) {
                    None
                } else {
                    old(self)@.announced(id)
                }
            } by {
                assert(helped.desc(id).phase == old(self)@.desc(id).phase);
            }
        }
    }

    /// Appends `value` on behalf of handle `id`, after whatever the handles
    /// before it have announced and before whatever the handles behind it have
    /// announced. Every operation that was pending has been carried out when it
    /// returns, and announcements stay in order.
    pub fn enqueue(&mut self, id: usize, value: T)
        requires
            old(self).wf(),
            id < N,
            old(self)@.idle(id as int),
        ensures
            final(self).wf(),
            old(self)@.evolves(final(self)@, N as nat),
            final(self)@.h == old(self)@.h,
            final(self)@.values() == old(self)@.values() + old(self)@.requests(
                N as nat,
                id as int,
                value,
            ),
            !final(self)@.lagging(),
            forall|i: int| 0 <= i < N ==> !#[trigger] final(self)@.pending(i),
            forall|i: int|
                0 <= i < N && i != id ==> (#[trigger] final(self)@.desc(i)).phase == old(
                    self,
                )@.desc(i).phase,
            final(self)@.desc(id as int).phase matches Some(phase) && old(self)@.is_next_phase(
                phase,
            ),
            old(self)@.orderly(N as nat) ==> final(self)@.orderly(N as nat),
    {
        let phase: u64 = self.begin_enqueue(id, value);
        let ghost announced = self@;
        self.complete_enqueue(phase);
        proof {
            announced.lemma_next_phase(old(self)@, N as nat, id as int, phase, value);
            old(self)@.lemma_evolves_trans(announced, self@, N as nat);
            assert forall|i: int| 0 <= i < N implies !#[trigger] self@.pending(i) by {
                assert(self@.desc(i).phase == announced.desc(i).phase);
                if announced.pending(i) {
                    assert(announced.wants_help(i, phase));
                }
            }
            assert forall|i: int| 0 <= i < N && i != id implies (#[trigger] self@.desc(i)).phase
                == old(self)@.desc(i).phase by {
                assert(announced.desc(i) == old(self)@.desc(i));
            }
            assert(self@.desc(id as int).phase == announced.desc(id as int).phase);
            if old(self)@.orderly(N as nat) {
                assert forall|i: int| 0 <= i < N implies !(#[trigger] self@.desc(i)).pending
                    && self@.desc(i).node == announced.desc(i).node by {
                    assert(!self@.pending(i));
                }
                old(self)@.lemma_orderly_enqueued(self@, N as nat, id as int, phase, value);
            }
        }
    }

    /// The value at the front of the queue, if there is one.
    pub fn peek(&self) -> (front: Option<T>)
        requires
            self.wf(),
        ensures
            front == if self@.values().len() == 0 {
                None
            } else {
                Some(self@.values()[0])
            },
    {
        let head: usize = self.load_head();
        match self.load_next(head) {
            None => None,
            Some(next) => self.nodes[next].value,
        }
    }

    /// Removes the value at the front of the queue if it equals `front`; tells
    /// by an error that it does not, or that the queue is empty.
    ///
    /// The former head keeps its successor. A handle may have read that node
    /// from the tail, and would otherwise link behind a node that has left the
    /// queue.
    pub fn try_remove_front(&mut self, front: T) -> (removed: Result<(), ()>)
        requires
            old(self).wf(),
            T::obeys_eq_spec(),
        ensures
            final(self).wf(),
            old(self)@.evolves(final(self)@, N as nat),
            removed is Ok <==> old(self)@.values().len() > 0 && old(self)@.values()[0].eq_spec(
                &front,
            ),
            removed is Ok ==> {
                &&& final(self)@ == old(self)@.after_head().finished()
                &&& final(self)@.values() == old(self)@.values().drop_first()
                &&& !final(self)@.lagging()
                &&& forall|id: int|
                    0 <= id < N ==> #[trigger] final(self)@.announced(id) == old(
                        self,
                    )@.announced(id)
                &&& forall|id: int|
                    0 <= id < N && old(self)@.idle(id) ==> #[trigger] final(self)@.idle(id)
            },
            removed is Err ==> final(self)@ == old(self)@,
            final(self)@.nodes.len() == old(self)@.nodes.len(),
            forall|id: int|
                0 <= id < N ==> (#[trigger] final(self)@.desc(id)).phase == old(self)@.desc(
                    id,
                ).phase,
            old(self)@.orderly(N as nat) ==> final(self)@.orderly(N as nat),
    {
        let head: usize = self.load_head();
        let next: usize = match self.load_next(head) {
            None => {
                return Err(());
            },
            Some(next) => next,
        };
        let value: T = self.nodes[next].value.unwrap();
        assert(value == self@.values()[0]);
        if !(value == front) {
            return Err(());
        }
        let attempt = RemoveAttempt { head, next };
        proof {
            attempt.lemma_head(self@, N as nat);
        }
        if !self.try_head(&attempt) {
            return Err(());
        }
        let ghost moved = self@;
        self.help_finish_enq();
        proof {
            moved.lemma_finished(N as nat);
            old(self)@.lemma_evolves_trans(moved, self@, N as nat);
            old(self)@.lemma_orderly_removed(N as nat);
            assert forall|id: int| 0 <= id < N implies #[trigger] self@.announced(id) == old(
                self,
            )@.announced(id) by {
                assert(moved.desc(id) == old(self)@.desc(id));
                assert(moved.announced(id) == old(self)@.announced(id));
                assert(self@.desc(id).phase == moved.desc(id).phase);
            }
            assert forall|id: int| 0 <= id < N && old(self)@.idle(id) implies #[trigger] self@.idle(
                id,
            ) by {
                assert(moved.desc(id) == old(self)@.desc(id));
                assert(self@.desc(id).phase == moved.desc(id).phase);
            }
        }
        Ok(())
    }
}

} // verus!
