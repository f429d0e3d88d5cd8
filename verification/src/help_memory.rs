//! The shared memory of the help queue, as a mathematical value.
//!
//! Nodes and descriptors are allocated and never freed, so an index into the
//! sequence of all nodes (or all descriptors) plays the part of an address.
//! Besides what the memory holds, a [`Memory`] remembers the order in which
//! nodes were linked: `log[0]` is the sentinel, `log[h]` is the node that the
//! head refers to, `log[t]` is the node that the tail refers to.
//!
//! The memory is shared: between any two accesses of one thread, other threads
//! may take steps. [`Memory::inv`] holds after every single access of every
//! thread, and [`Memory::evolves`] is what each thread may rely on the others
//! to keep.
use vstd::prelude::*;

verus! {

/// A node of the help queue's list.
pub struct Node<T> {
    /// The queued value; `None` only in the sentinel.
    pub value: Option<T>,
    /// The node that was linked behind this one.
    pub next: Option<usize>,
    /// The handle that enqueued this node; `None` only in the sentinel.
    pub enq_id: Option<usize>,
    /// The handle that dequeued this node, or -1.
    pub deq_id: isize,
}

impl<T> Node<T> {
    /// A node that holds `value`, enqueued by handle `enq_id`, not yet linked.
    pub fn new(value: T, enq_id: usize) -> (node: Self)
        ensures
            node == Self::fresh(value, enq_id),
    {
        Node { value: Some(value), next: None, enq_id: Some(enq_id), deq_id: -1 }
    }

    /// The node that every list starts with.
    pub fn sentinel() -> (node: Self)
        ensures
            node == (Node { value: None::<T>, next: None, enq_id: None, deq_id: (-1) as isize }),
    {
        Node { value: None, next: None, enq_id: None, deq_id: -1 }
    }

    /// An unlinked node that holds `value`.
    pub open spec fn fresh(value: T, enq_id: usize) -> Self {
        Node { value: Some(value), next: None, enq_id: Some(enq_id), deq_id: (-1) as isize }
    }

    /// This node with another successor.
    pub open spec fn with_next(self, next: Option<usize>) -> Self {
        Node { value: self.value, next, enq_id: self.enq_id, deq_id: self.deq_id }
    }
}

/// What a handle has announced that it wants done to the queue.
#[derive(Clone, Copy)]
pub struct OpDesc {
    /// The announcement's place in the order of announcements.
    pub phase: Option<u64>,
    /// Whether the operation still has to be carried out.
    pub pending: bool,
    /// Whether the operation is an enqueue; it always is.
    pub enqueue: bool,
    /// The node to be linked.
    pub node: Option<usize>,
}

/// Everything that the queue's memory holds, with the order of linking.
#[verifier::ext_equal]
pub struct Memory<T> {
    /// All nodes ever allocated.
    pub nodes: Seq<Node<T>>,
    /// For each node, the phase in which it was announced.
    pub phases: Seq<u64>,
    /// All descriptors ever allocated.
    pub descs: Seq<OpDesc>,
    /// For each handle, the descriptor of its latest operation.
    pub state: Seq<usize>,
    /// All nodes ever linked, in the order of linking, behind the sentinel.
    pub log: Seq<usize>,
    /// Where in the log the head is.
    pub h: nat,
    /// Where in the log the tail is.
    pub t: nat,
}

impl<T> Memory<T> {
    /// The memory of an empty queue for `n` handles.
    pub open spec fn initial(n: nat) -> Self {
        Memory {
            nodes: seq![Node { value: None, next: None, enq_id: None, deq_id: (-1) as isize }],
            phases: seq![0],
            descs: Seq::new(
                n,
                |i: int| OpDesc { phase: None, pending: false, enqueue: true, node: None },
            ),
            state: Seq::new(n, |i: int| i as usize),
            log: seq![0],
            h: 0,
            t: 0,
        }
    }

    /// The node that the head refers to.
    pub open spec fn head(self) -> usize {
        self.log[self.h as int]
    }

    /// The node that the tail refers to.
    pub open spec fn tail(self) -> usize {
        self.log[self.t as int]
    }

    /// The descriptor of handle `id`'s latest operation.
    pub open spec fn desc(self, id: int) -> OpDesc {
        self.descs[self.state[id] as int]
    }

    /// Whether handle `id`'s latest operation still has to be carried out.
    pub open spec fn pending(self, id: int) -> bool {
        self.desc(id).pending
    }

    /// Whether node `x` has been linked into the list.
    pub open spec fn linked(self, x: usize) -> bool {
        self.log.contains(x)
    }

    /// Where in the log node `x` stands, if it is linked.
    pub open spec fn pos(self, x: usize) -> int {
        self.log.index_of(x)
    }

    /// The node that was linked behind the one at `i` in the log.
    pub open spec fn succ(self, i: int) -> Option<usize> {
        if i + 1 < self.log.len() {
            Some(self.log[i + 1])
        } else {
            None
        }
    }

    /// Whether a node has been linked that the tail does not refer to yet.
    pub open spec fn lagging(self) -> bool {
        self.t + 1 < self.log.len()
    }

    /// Whether handle `id` may announce its next operation: its latest one has
    /// been carried out, and the tail has moved past its node.
    pub open spec fn idle(self, id: int) -> bool {
        &&& !self.pending(id)
        &&& self.lagging() ==> self.nodes[self.log.last() as int].enq_id != Some(id as usize)
    }

    /// The values in the queue, oldest first.
    pub open spec fn values(self) -> Seq<T> {
        Seq::new(
            (self.log.len() - self.h - 1) as nat,
            |i: int| self.nodes[self.log[self.h + 1 + i] as int].value.unwrap(),
        )
    }

    /// The value that handle `id` has announced and that is not in the list yet.
    pub open spec fn announced(self, id: int) -> Option<T> {
        match self.desc(id).node {
            Some(x) => if self.pending(id) && !self.linked(x) {
                self.nodes[x as int].value
            } else {
                None
            },
            None => None,
        }
    }

    /// Whether handle `id` has an operation pending that was announced no later
    /// than `phase`.
    pub open spec fn wants_help(self, id: int, phase: u64) -> bool {
        self.pending(id) && (self.desc(id).phase matches Some(p) ==> p <= phase)
    }

    /// The values that the handles below `k` have announced no later than
    /// `phase` and that are not in the list yet, in the order of handles.
    pub open spec fn backlog(self, k: nat, phase: u64) -> Seq<T>
        decreases k,
    {
        if k == 0 {
            Seq::empty()
        } else {
            let rest = self.backlog((k - 1) as nat, phase);
            match self.announced(k - 1) {
                Some(v) => if self.wants_help(k - 1, phase) {
                    rest.push(v)
                } else {
                    rest
                },
                None => rest,
            }
        }
    }

    /// What the handles below `k` have announced and is not in the list yet, in
    /// the order of handles, if handle `id` has announced `value`.
    pub open spec fn requests(self, k: nat, id: int, value: T) -> Seq<T>
        decreases k,
    {
        if k == 0 {
            Seq::empty()
        } else {
            let rest = self.requests((k - 1) as nat, id, value);
            if k - 1 == id {
                rest.push(value)
            } else {
                match self.announced(k - 1) {
                    Some(v) => rest.push(v),
                    None => rest,
                }
            }
        }
    }

    /// Whether `p` is the highest phase that any handle has announced.
    pub open spec fn is_max_phase(self, p: Option<u64>) -> bool {
        match p {
            None => forall|id: int|
                0 <= id < self.state.len() ==> (#[trigger] self.desc(id)).phase is None,
            Some(q) => {
                &&& exists|id: int|
                    0 <= id < self.state.len() && (#[trigger] self.desc(id)).phase == Some(q)
                &&& forall|id: int|
                    0 <= id < self.state.len() ==> ((#[trigger] self.desc(id)).phase matches Some(r)
                        ==> r <= q)
            },
        }
    }

    /// Whether `phase` is the phase that the next announcement gets: one more
    /// than the highest, or 0 if there is none.
    pub open spec fn is_next_phase(self, phase: u64) -> bool {
        if phase == 0 {
            self.is_max_phase(None)
        } else {
            self.is_max_phase(Some((phase - 1) as u64))
        }
    }

    /// Indices are in range, only the sentinel is without a value, and there are
    /// no more phases than there have been announcements.
    pub open spec fn shaped(self, n: nat) -> bool {
        &&& self.state.len() == n
        &&& forall|id: int| 0 <= id < n ==> (#[trigger] self.state[id]) < self.descs.len()
        &&& self.nodes.len() > 0
        &&& self.nodes[0].value is None
        &&& self.nodes[0].enq_id is None
        &&& self.phases.len() == self.nodes.len()
        &&& forall|k: int|
            0 < k < self.nodes.len() ==> (#[trigger] self.nodes[k]).value is Some
                && (self.nodes[k].enq_id matches Some(e) && e < n)
        &&& forall|k: int|
            0 <= k < self.nodes.len() ==> ((#[trigger] self.nodes[k]).next matches Some(x) ==> 0 < x
                < self.nodes.len())
        &&& forall|d: int|
            0 <= d < self.descs.len() ==> {
                &&& (#[trigger] self.descs[d]).enqueue
                &&& self.descs[d].node matches Some(x) ==> 0 < x < self.nodes.len()
                    && self.descs[d].phase == Some(self.phases[x as int])
                &&& self.descs[d].node is None ==> self.descs[d].phase is None
                &&& self.descs[d].pending ==> self.descs[d].node is Some
                &&& self.descs[d].phase matches Some(p) ==> p + 1 < self.nodes.len()
            }
    }

    /// The log is the list: each node's successor is the node linked next, and
    /// stays so when the node has left the queue.
    pub open spec fn chained(self) -> bool {
        &&& self.log.len() > 0
        &&& self.log[0] == 0
        &&& self.log.no_duplicates()
        &&& forall|i: int| 0 <= i < self.log.len() ==> (#[trigger] self.log[i]) < self.nodes.len()
        &&& self.h < self.log.len()
        &&& self.t < self.log.len() <= self.t + 2
        &&& forall|i: int|
            0 <= i < self.log.len() ==> self.nodes[(#[trigger] self.log[i]) as int].next
                == self.succ(i)
        &&& forall|k: int|
            0 <= k < self.nodes.len() && !self.linked(k as usize) ==> (
            #[trigger] self.nodes[k]).next is None
    }

    /// Node `k` is the one that the pending operation of its handle is about.
    pub open spec fn awaited(self, k: int) -> bool {
        self.nodes[k].enq_id matches Some(id) && self.pending(id as int) && self.desc(
            id as int,
        ).node == Some(k as usize)
    }

    /// An operation that is still pending has not been linked, or is the one
    /// that the tail lags behind; any other operation has been linked. A node
    /// that has not been linked belongs to a pending operation.
    pub open spec fn accounted(self, n: nat) -> bool {
        &&& forall|id: int|
            0 <= id < n ==> ((#[trigger] self.desc(id)).node matches Some(x)
                ==> self.nodes[x as int].enq_id == Some(id as usize))
        &&& forall|id: int, i: int|
            0 <= id < n && 0 <= i < self.log.len() && #[trigger] self.pending(id) && self.desc(
                id,
            ).node == Some(#[trigger] self.log[i]) ==> self.lagging() && i == self.log.len() - 1
        &&& forall|id: int|
            0 <= id < n && !#[trigger] self.pending(id) ==> (self.desc(id).node matches Some(x)
                ==> self.linked(x))
        &&& self.lagging() ==> {
            let x = self.log.last();
            self.nodes[x as int].enq_id matches Some(id) && self.desc(id as int).node == Some(x)
        }
        &&& forall|k: int|
            0 < k < self.nodes.len() && !self.linked(k as usize) ==> #[trigger] self.awaited(k)
    }

    /// What holds of the memory of a queue for `n` handles at every moment.
    pub open spec fn inv(self, n: nat) -> bool {
        &&& n <= usize::MAX
        &&& self.nodes.len() <= usize::MAX
        &&& self.descs.len() <= usize::MAX
        &&& self.shaped(n)
        &&& self.chained()
        &&& self.accounted(n)
    }

    /// What every access leaves true of the memory before it (`self`) and after
    /// it (`new`): nothing is unlinked from the log or moved in it, head and
    /// tail only move forward, nodes keep their values and phases, descriptors are never
    /// rewritten, an operation is replaced only once its node has been linked,
    /// and no node that exists becomes pending again.
    pub open spec fn evolves(self, new: Self, n: nat) -> bool {
        &&& self.log.len() <= new.log.len()
        &&& forall|i: int| 0 <= i < self.log.len() ==> #[trigger] new.log[i] == self.log[i]
        &&& self.h <= new.h
        &&& self.t <= new.t
        &&& self.nodes.len() <= new.nodes.len()
        &&& forall|k: int|
            0 <= k < self.nodes.len() ==> (#[trigger] new.nodes[k]).value == self.nodes[k].value
                && new.nodes[k].enq_id == self.nodes[k].enq_id
        &&& forall|k: int| 0 <= k < self.nodes.len() ==> #[trigger] new.phases[k] == self.phases[k]
        &&& self.descs.len() <= new.descs.len()
        &&& forall|d: int|
            0 <= d < self.descs.len() ==> #[trigger] new.descs[d] == self.descs[d]
        &&& forall|id: int|
            0 <= id < n && #[trigger] new.state[id] != self.state[id] && self.pending(id) ==> (
            self.desc(id).node matches Some(x) ==> new.linked(x))
        &&& forall|id: int|
            0 <= id < n && #[trigger] new.pending(id) ==> (new.desc(id).node matches Some(x) ==> (x
                < self.nodes.len() ==> new.state[id] == self.state[id]))
    }

    /// Whether the operation that handle `id` has pending here is no longer
    /// pending in `new`.
    pub open spec fn settled(self, new: Self, id: int) -> bool {
        !(new.pending(id) && new.desc(id).node == self.desc(id).node)
    }

    /// How far the queue has come: how many nodes have been announced and linked,
    /// and where the tail is.
    pub open spec fn progress(self) -> nat {
        self.nodes.len() + self.log.len() + self.t
    }

    /// An operation that is not settled is the one that it was.
    pub proof fn lemma_unsettled(self, new: Self, n: nat, id: int)
        requires
            self.inv(n),
            new.inv(n),
            self.evolves(new, n),
            0 <= id < n,
            self.pending(id),
            !self.settled(new, id),
        ensures
            new.state[id] == self.state[id],
            new.desc(id) == self.desc(id),
    {
        assert(self.desc(id).node is Some);
        assert(new.descs[self.state[id] as int] == self.descs[self.state[id] as int]);
    }

    /// What is settled stays settled.
    pub proof fn lemma_settled_kept(self, mid: Self, new: Self, n: nat, id: int)
        requires
            self.inv(n),
            mid.inv(n),
            new.inv(n),
            self.evolves(mid, n),
            mid.evolves(new, n),
            0 <= id < n,
            self.pending(id),
            self.settled(mid, id),
        ensures
            self.settled(new, id),
    {
        assert(self.desc(id).node is Some);
        if !self.settled(new, id) {
            assert(new.state[id] == mid.state[id]);
            assert(new.descs[mid.state[id] as int] == mid.descs[mid.state[id] as int]);
        }
    }

    /// The log position of the node at `i` in the log is `i`.
    pub proof fn lemma_pos(self, i: int)
        requires
            self.chained(),
            0 <= i < self.log.len(),
        ensures
            self.linked(self.log[i]),
            self.pos(self.log[i]) == i,
    {
        assert(self.log[i] == self.log[self.log.index_of(self.log[i])]);
    }

    /// A node keeps its log position for good.
    pub proof fn lemma_pos_kept(self, new: Self, n: nat, x: usize)
        requires
            self.evolves(new, n),
            self.chained(),
            new.chained(),
            self.linked(x),
        ensures
            new.linked(x),
            new.pos(x) == self.pos(x),
            0 <= self.pos(x) < self.log.len(),
            self.log[self.pos(x)] == x,
    {
        let i = self.pos(x);
        assert(self.log[i] == x);
        assert(new.log[i] == x);
        new.lemma_pos(i);
    }

    /// A node that `new` has linked and `self` has not stands behind all of
    /// `self`'s log.
    pub proof fn lemma_pos_new(self, new: Self, n: nat, x: usize)
        requires
            self.evolves(new, n),
            new.linked(x),
            !self.linked(x),
        ensures
            self.log.len() <= new.pos(x) < new.log.len(),
    {
        let i = new.pos(x);
        assert(0 <= i < new.log.len() && new.log[i] == x);
        if i < self.log.len() {
            assert(self.log[i] == x);
        }
    }

    /// Evolution is reflexive.
    pub proof fn lemma_evolves_refl(self, n: nat)
        ensures
            self.evolves(self, n),
    {
    }

    /// Evolution is transitive: what one access of another thread keeps, any
    /// number of them keeps.
    pub proof fn lemma_evolves_trans(self, mid: Self, new: Self, n: nat)
        requires
            self.shaped(n),
            mid.shaped(n),
            new.shaped(n),
            self.evolves(mid, n),
            mid.evolves(new, n),
        ensures
            self.evolves(new, n),
    {
        assert forall|i: int| 0 <= i < self.log.len() implies #[trigger] new.log[i]
            == self.log[i] by {
            assert(mid.log[i] == self.log[i]);
        }
        assert forall|k: int| 0 <= k < self.nodes.len() implies (#[trigger] new.nodes[k]).value
            == self.nodes[k].value && new.nodes[k].enq_id == self.nodes[k].enq_id by {
            assert(mid.nodes[k].value == self.nodes[k].value);
        }
        assert forall|k: int| 0 <= k < self.nodes.len() implies #[trigger] new.phases[k]
            == self.phases[k] by {
            assert(mid.phases[k] == self.phases[k]);
        }
        assert forall|d: int| 0 <= d < self.descs.len() implies #[trigger] new.descs[d]
            == self.descs[d] by {
            assert(mid.descs[d] == self.descs[d]);
        }
        assert forall|id: int|
            0 <= id < n && #[trigger] new.state[id] != self.state[id] && self.pending(id)
                && self.desc(id).node is Some implies new.linked(self.desc(id).node.unwrap()) by {
            let x = self.desc(id).node.unwrap();
            if mid.state[id] != self.state[id] {
                assert(mid.linked(x));
                let i = mid.pos(x);
                assert(mid.log[i] == x);
                assert(new.log[i] == x);
            } else {
                assert(mid.descs[self.state[id] as int] == self.descs[self.state[id] as int]);
                assert(mid.pending(id));
            }
        }
        assert forall|id: int|
            0 <= id < n && #[trigger] new.pending(id) && new.desc(id).node is Some
                && new.desc(id).node.unwrap() < self.nodes.len() implies new.state[id]
            == self.state[id] by {
            assert(new.state[id] == mid.state[id]);
            assert(new.descs[mid.state[id] as int] == mid.descs[mid.state[id] as int]);
            assert(mid.pending(id));
        }
    }

    /// The memory after handle `id` has stored a descriptor for a new node.
    pub open spec fn after_announce(self, id: int, phase: u64, value: T) -> Self {
        Memory {
            nodes: self.nodes.push(Node::fresh(value, id as usize)),
            phases: self.phases.push(phase),
            descs: self.descs.push(
                OpDesc {
                    phase: Some(phase),
                    pending: true,
                    enqueue: true,
                    node: Some(self.nodes.len() as usize),
                },
            ),
            state: self.state.update(id, self.descs.len() as usize),
            ..self
        }
    }

    /// The memory after `x` has been linked behind `last`, the last node of the
    /// log.
    pub open spec fn after_link(self, last: usize, x: usize) -> Self {
        Memory {
            nodes: self.nodes.update(last as int, self.nodes[last as int].with_next(Some(x))),
            log: self.log.push(x),
            ..self
        }
    }

    /// The memory after handle `id`'s descriptor has been replaced by one like
    /// `d` that is not pending.
    pub open spec fn after_mark(self, id: int, d: int) -> Self {
        Memory {
            descs: self.descs.push(
                OpDesc {
                    phase: self.descs[d].phase,
                    pending: false,
                    enqueue: true,
                    node: self.descs[d].node,
                },
            ),
            state: self.state.update(id, self.descs.len() as usize),
            ..self
        }
    }

    /// The memory after the tail has moved to the next node.
    pub open spec fn after_tail(self) -> Self {
        Memory { t: self.t + 1, ..self }
    }

    /// The memory after the head has moved to the next node.
    pub open spec fn after_head(self) -> Self {
        Memory { h: self.h + 1, ..self }
    }

    /// A node that is about to be allocated has not been linked.
    pub proof fn lemma_unallocated(self, n: nat)
        requires
            self.inv(n),
        ensures
            !self.linked(self.nodes.len() as usize),
    {
        let x = self.nodes.len() as usize;
        if self.linked(x) {
            assert(self.log[self.pos(x)] == x);
        }
    }

    /// Announcing keeps the invariant.
    pub proof fn lemma_announce(self, n: nat, id: int, phase: u64, value: T)
        requires
            self.inv(n),
            0 <= id < n,
            self.idle(id),
            phase < self.nodes.len(),
            self.nodes.len() < usize::MAX,
            self.descs.len() < usize::MAX,
        ensures
            self.after_announce(id, phase, value).inv(n),
            self.evolves(self.after_announce(id, phase, value), n),
    {
        let new = self.after_announce(id, phase, value);
        let x = self.nodes.len() as usize;
        self.lemma_unallocated(n);
        assert(forall|i: int| 0 <= i < n && i != id ==> new.desc(i) == self.desc(i));
        assert(new.desc(id).pending);
        assert forall|i: int, j: int|
            0 <= i < n && 0 <= j < new.log.len() && #[trigger] new.pending(i) && new.desc(i).node
                == Some(#[trigger] new.log[j]) implies new.lagging() && j == new.log.len()
            - 1 by {
            if i != id {
                assert(self.pending(i));
                assert(self.log[j] == new.log[j]);
            }
        }
        assert forall|i: int| 0 <= i < n && !#[trigger] new.pending(i) implies (new.desc(
            i,
        ).node matches Some(y) ==> new.linked(y)) by {
            assert(!self.pending(i));
        }
        assert forall|k: int| 0 <= k < new.nodes.len() && !new.linked(k as usize) implies (
        #[trigger] new.nodes[k]).next is None by {
            if k < self.nodes.len() {
                assert(!self.linked(k as usize));
                assert(new.nodes[k] == self.nodes[k]);
            }
        }
        assert forall|i: int| 0 <= i < new.log.len() implies new.nodes[(
        #[trigger] new.log[i]) as int].next == new.succ(i) by {
            assert(self.nodes[self.log[i] as int].next == self.succ(i));
        }
        assert forall|i: int| 0 <= i < n && #[trigger] new.pending(i) implies (new.desc(
            i,
        ).node matches Some(y) ==> (y < self.nodes.len() ==> new.state[i] == self.state[i])) by {
            if i != id {
                assert(self.pending(i));
            }
        }
        assert forall|k: int|
            0 < k < new.nodes.len() && !new.linked(k as usize) implies #[trigger] new.awaited(
            k,
        ) by {
            if k < self.nodes.len() {
                assert(self.awaited(k));
                assert(new.nodes[k] == self.nodes[k]);
            }
        }
    }

    /// `last` was the tail, and after that `next` was its successor.
    pub open spec fn seen_behind(self, last: usize, next: usize) -> bool {
        &&& self.linked(last)
        &&& self.pos(last) <= self.t
        &&& 0 < next < self.nodes.len()
        &&& self.succ(self.pos(last)) == Some(next)
    }

    /// What was seen behind the tail stays meaningful whatever other handles do.
    pub proof fn lemma_seen_behind_kept(self, new: Self, n: nat, last: usize, next: usize)
        requires
            self.inv(n),
            new.inv(n),
            self.evolves(new, n),
            self.seen_behind(last, next),
        ensures
            new.seen_behind(last, next),
    {
        self.lemma_pos_kept(new, n, last);
        let k = self.pos(last);
        if k + 1 < self.log.len() {
            assert(new.log[k + 1] == self.log[k + 1]);
        }
    }

    /// Announcing changes what is announced, and nothing in the queue.
    pub proof fn lemma_announced(self, n: nat, id: int, phase: u64, value: T)
        requires
            self.inv(n),
            self.after_announce(id, phase, value).inv(n),
            0 <= id < n,
            self.idle(id),
        ensures
            ({
                let new = self.after_announce(id, phase, value);
                &&& new.values() == self.values()
                &&& new.announced(id) == Some(value)
                &&& self.announced(id) is None
                &&& forall|i: int|
                    0 <= i < n && i != id ==> {
                        &&& #[trigger] new.announced(i) == self.announced(i)
                        &&& self.idle(i) ==> new.idle(i)
                    }
            }),
    {
        let new = self.after_announce(id, phase, value);
        let x = self.nodes.len() as usize;
        self.lemma_unallocated(n);
        assert(new.values() =~= self.values());
        assert(new.desc(id).node == Some(x));
        assert forall|i: int| 0 <= i < n && i != id implies {
            &&& #[trigger] new.announced(i) == self.announced(i)
            &&& self.idle(i) ==> new.idle(i)
        } by {
            assert(new.desc(i) == self.desc(i));
        }
    }

    /// What an announcement by handle `id` makes the others help with, when it
    /// comes last in the order of announcements.
    pub proof fn lemma_requests(self, n: nat, k: nat, id: int, phase: u64, value: T)
        requires
            self.inv(n),
            self.nodes.len() < usize::MAX,
            self.descs.len() < usize::MAX,
            0 <= id < n,
            self.idle(id),
            k <= n,
            forall|i: int|
                0 <= i < n ==> ((#[trigger] self.desc(i)).phase matches Some(p) ==> p <= phase),
        ensures
            self.after_announce(id, phase, value).backlog(k, phase) == self.requests(k, id, value),
            self.after_announce(id, phase, value).values() == self.values(),
            self.after_announce(id, phase, value).wants_help(id, phase),
            forall|i: int|
                0 <= i < n && self.after_announce(id, phase, value).pending(i)
                    ==> #[trigger] self.after_announce(id, phase, value).wants_help(i, phase),
        decreases k,
    {
        let new = self.after_announce(id, phase, value);
        assert forall|i: int| 0 <= i < n && new.pending(i) implies #[trigger] new.wants_help(
            i,
            phase,
        ) by {
            if i != id {
                assert(new.desc(i) == self.desc(i));
            }
        }
        let x = self.nodes.len() as usize;
        self.lemma_unallocated(n);
        assert(new.values() =~= self.values());
        if k > 0 {
            self.lemma_requests(n, (k - 1) as nat, id, phase, value);
            let i = k - 1;
            if i == id {
                assert(new.announced(i) == Some(value));
            } else {
                assert(new.desc(i) == self.desc(i));
                assert(new.announced(i) == self.announced(i));
            }
        }
    }

    /// The next phase comes last, so its announcement has all requests carried
    /// out. Here `self` is the memory `before` after the announcement.
    pub proof fn lemma_next_phase(self, before: Self, n: nat, id: int, phase: u64, value: T)
        requires
            before.inv(n),
            self.inv(n),
            self == before.after_announce(id, phase, value),
            0 <= id < n,
            before.idle(id),
            before.is_next_phase(phase),
        ensures
            self.backlog(n, phase) == before.requests(n, id, value),
            self.values() == before.values(),
            forall|i: int|
                0 <= i < n && self.pending(i) ==> #[trigger] self.wants_help(i, phase),
    {
        assert forall|i: int| 0 <= i < n implies ((#[trigger] before.desc(i)).phase matches Some(
            p,
        ) ==> p <= phase) by {
            if phase == 0 {
                assert(before.is_max_phase(None));
            } else {
                assert(before.is_max_phase(Some((phase - 1) as u64)));
            }
        }
        before.lemma_requests(n, n, id, phase, value);
    }

    /// No two handles have announced the same value.
    pub open spec fn announces_apart(self, k: nat) -> bool {
        forall|i: int, j: int|
            0 <= i < j < k ==> #[trigger] self.announced(i) is None || self.announced(i)
                != #[trigger] self.announced(j)
    }

    /// The backlog is exactly what has been announced no later than `phase`,
    /// each value once.
    pub proof fn lemma_backlog_members(self, k: nat, phase: u64)
        requires
            self.announces_apart(k),
        ensures
            forall|v: T| #[trigger]
                self.backlog(k, phase).contains(v) <==> exists|i: int|
                    0 <= i < k && self.wants_help(i, phase) && #[trigger] self.announced(i) == Some(
                        v,
                    ),
            self.backlog(k, phase).no_duplicates(),
        decreases k,
    {
        let s = self.backlog(k, phase);
        if k > 0 {
            let i = k - 1;
            let rest = self.backlog(i as nat, phase);
            self.lemma_backlog_members(i as nat, phase);
            if self.announced(i) is Some && self.wants_help(i, phase) {
                let a = self.announced(i).unwrap();
                assert(s == rest.push(a));
                assert(!rest.contains(a)) by {
                    if rest.contains(a) {
                        let j = choose|j: int|
                            0 <= j < i && self.wants_help(j, phase) && #[trigger] self.announced(j)
                                == Some(a);
                        assert(self.announced(j) == Some(a));
                        assert(self.announced(i) == Some(a));
                    }
                }
                assert(s.no_duplicates());
                assert forall|v: T| #[trigger] s.contains(v) <==> exists|j: int|
                    0 <= j < k && self.wants_help(j, phase) && #[trigger] self.announced(j) == Some(
                        v,
                    ) by {
                    if s.contains(v) {
                        let q = s.index_of(v);
                        if q < rest.len() {
                            assert(rest[q] == v);
                            assert(rest.contains(v));
                        } else {
                            assert(self.announced(i) == Some(v));
                        }
                    }
                    if rest.contains(v) {
                        assert(s[rest.index_of(v)] == v);
                    }
                    assert(s[rest.len() as int] == a);
                }
            } else {
                assert(s == rest);
            }
        }
    }

    /// The memory after the operation that the tail lags behind, if there is
    /// one, has been marked as done and the tail has caught up.
    pub open spec fn finished(self) -> Self {
        if self.lagging() {
            let id = self.nodes[self.log.last() as int].enq_id.unwrap() as int;
            self.after_mark(id, self.state[id] as int).after_tail()
        } else {
            self
        }
    }

    /// The memory after the pending operation of handle `id` has been carried
    /// out: first the tail catches up, then the node is linked if it is not
    /// linked yet, then the tail catches up again.
    pub open spec fn after_help(self, id: int) -> Self {
        let ready = self.finished();
        if ready.pending(id) {
            ready.after_link(ready.tail(), ready.desc(id).node.unwrap()).finished()
        } else {
            ready
        }
    }

    /// Catching up with the tail changes nothing but what is pending.
    pub proof fn lemma_finished(self, n: nat)
        requires
            self.inv(n),
        ensures
            ({
                let new = self.finished();
                &&& !new.lagging()
                &&& new.values() == self.values()
                &&& forall|i: int|
                    0 <= i < n ==> {
                        &&& (#[trigger] new.desc(i)).phase == self.desc(i).phase
                        &&& new.desc(i).node == self.desc(i).node
                        &&& new.announced(i) == self.announced(i)
                        &&& new.pending(i) == (self.pending(i) && !(self.lagging()
                            && self.nodes[self.log.last() as int].enq_id == Some(i as usize)))
                    }
            }),
    {
        let new = self.finished();
        if self.lagging() {
            let x = self.log.last();
            let id = self.nodes[x as int].enq_id.unwrap() as int;
            assert(self.linked(x)) by {
                assert(self.log[self.log.len() - 1] == x);
            }
            assert forall|i: int| 0 <= i < n implies {
                &&& (#[trigger] new.desc(i)).phase == self.desc(i).phase
                &&& new.desc(i).node == self.desc(i).node
                &&& new.announced(i) == self.announced(i)
                &&& new.pending(i) == (self.pending(i) && i != id)
            } by {
                if i != id {
                    assert(new.desc(i) == self.desc(i));
                }
            }
            assert(new.values() =~= self.values());
        }
    }
}

} // verus!
