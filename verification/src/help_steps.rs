//! What a handle has seen of the queue's memory before it tries to change it,
//! and why the change is sound whatever other handles have done since.
use vstd::prelude::*;

use crate::help_memory::Memory;

verus! {

/// The intention to link a handle's node behind `last`.
#[derive(Clone, Copy)]
pub struct LinkAttempt {
    /// The node that the tail referred to.
    pub last: usize,
    /// The handle that is helped.
    pub id: usize,
    /// The handle's descriptor, seen pending.
    pub desc: usize,
}

impl LinkAttempt {
    /// The attempt rests on what was once seen in memory `m`: `last` was the
    /// tail, and after that the descriptor was current and pending.
    pub open spec fn valid<T>(self, m: Memory<T>, n: nat) -> bool {
        &&& m.linked(self.last)
        &&& m.pos(self.last) <= m.t
        &&& self.id < n
        &&& self.desc < m.descs.len()
        &&& m.descs[self.desc as int].pending
        &&& m.descs[self.desc as int].node matches Some(x) && {
            &&& m.nodes[x as int].enq_id == Some(self.id)
            &&& m.linked(x) ==> m.pos(self.last) < m.pos(x)
            &&& !m.linked(x) ==> m.state[self.id as int] == self.desc
        }
    }

    /// The attempt stays valid whatever other handles do.
    pub proof fn lemma_valid_kept<T>(self, m: Memory<T>, new: Memory<T>, n: nat)
        requires
            m.inv(n),
            new.inv(n),
            m.evolves(new, n),
            self.valid(m, n),
        ensures
            self.valid(new, n),
    {
        m.lemma_pos_kept(new, n, self.last);
        let x = m.descs[self.desc as int].node.unwrap();
        assert(new.descs[self.desc as int] == m.descs[self.desc as int]);
        assert(new.nodes[x as int].enq_id == m.nodes[x as int].enq_id);
        if m.linked(x) {
            m.lemma_pos_kept(new, n, x);
        } else {
            assert(m.pending(self.id as int));
            if new.linked(x) {
                m.lemma_pos_new(new, n, x);
            } else {
                assert(new.state[self.id as int] == m.state[self.id as int]);
            }
        }
    }

    /// Storing the successor keeps the invariant.
    pub proof fn lemma_link<T>(self, m: Memory<T>, n: nat)
        requires
            m.inv(n),
            self.valid(m, n),
            m.nodes[self.last as int].next is None,
        ensures
            ({
                let new = m.after_link(self.last, m.descs[self.desc as int].node.unwrap());
                &&& new.inv(n)
                &&& m.evolves(new, n)
            }),
    {
        let x = m.descs[self.desc as int].node.unwrap();
        let new = m.after_link(self.last, x);
        let k = m.pos(self.last);
        let id = self.id as int;
        assert(m.log[k] == self.last);
        let len = m.log.len() as int;
        assert(m.log[len - 1] == m.log.last());
        m.lemma_pos(len - 1);
        assert(forall|i: int| #[trigger] new.desc(i) == m.desc(i));
        assert(forall|i: int| #[trigger] new.pending(i) == m.pending(i));
        assert forall|i: int| 0 <= i < m.log.len() implies #[trigger] new.log[i] == m.log[i] by {}
        assert(m.nodes[m.log[k] as int].next == m.succ(k));
        assert(k == len - 1);
        assert(!m.linked(x));
        assert(new.log[len] == x);
        assert(new.log.no_duplicates());
        assert forall|i: int|
            0 <= i < new.log.len() implies new.nodes[(
        #[trigger] new.log[i]) as int].next == new.succ(i) by {
            if i < len - 1 {
                assert(m.log[i] != self.last);
                assert(m.nodes[m.log[i] as int].next == m.succ(i));
            }
        }
        assert forall|q: int| 0 <= q < new.nodes.len() && !new.linked(q as usize) implies (
        #[trigger] new.nodes[q]).next is None by {
            if m.linked(q as usize) {
                assert(new.log[m.pos(q as usize)] == q as usize);
            }
            assert(q as usize != self.last);
        }
        assert(new.log.last() == x);
        assert forall|i: int| 0 <= i < n && !#[trigger] new.pending(i) implies (new.desc(
            i,
        ).node matches Some(y) ==> new.linked(y)) by {
            assert(!m.pending(i));
            if new.desc(i).node is Some {
                let y = new.desc(i).node.unwrap();
                assert(new.log[m.pos(y)] == y);
            }
        }
        assert forall|i: int, j: int|
            0 <= i < n && 0 <= j < new.log.len() && #[trigger] new.pending(i) && new.desc(
                i,
            ).node == Some(#[trigger] new.log[j]) implies new.lagging() && j == new.log.len()
            - 1 by {
            if j < len {
                assert(m.pending(i) && m.desc(i).node == Some(m.log[j]));
            }
        }
        assert forall|q: int|
            0 < q < new.nodes.len() && !new.linked(q as usize) implies #[trigger] new.awaited(
            q,
        ) by {
            if m.linked(q as usize) {
                assert(new.log[m.pos(q as usize)] == q as usize);
            }
            assert(m.awaited(q));
            assert(new.nodes[q].enq_id == m.nodes[q].enq_id);
        }
    }
}

/// The intention to complete the enqueue of `next`, found linked behind `last`.
#[derive(Clone, Copy)]
pub struct FinishAttempt {
    /// The node that the tail referred to.
    pub last: usize,
    /// Its successor.
    pub next: usize,
    /// The handle that enqueued `next`.
    pub id: usize,
    /// That handle's descriptor.
    pub desc: usize,
}

impl FinishAttempt {
    /// `last` was the tail, after that `next` was its successor, and after that
    /// the descriptor was current.
    pub open spec fn valid<T>(self, m: Memory<T>, n: nat) -> bool {
        &&& m.linked(self.last)
        &&& m.pos(self.last) <= m.t
        &&& 0 < self.next < m.nodes.len()
        &&& m.nodes[self.next as int].enq_id == Some(self.id)
        &&& self.id < n
        &&& self.desc < m.descs.len()
        &&& m.succ(m.pos(self.last)) == Some(self.next)
        &&& m.pos(self.last) == m.t ==> m.descs[self.desc as int].node == Some(self.next)
        &&& m.state[self.id as int] != self.desc ==> !(m.pending(self.id as int) && m.desc(
            self.id as int,
        ).node == Some(self.next))
    }

    /// Besides, `last` was still the tail after that, so the descriptor is the
    /// one that announced `next`.
    pub open spec fn confirmed<T>(self, m: Memory<T>, n: nat) -> bool {
        &&& self.valid(m, n)
        &&& m.descs[self.desc as int].node == Some(self.next)
    }

    /// Besides, the operation is no longer pending.
    pub open spec fn marked<T>(self, m: Memory<T>, n: nat) -> bool {
        &&& self.confirmed(m, n)
        &&& !(m.pending(self.id as int) && m.desc(self.id as int).node == Some(self.next))
    }

    /// The attempt stays as valid as it is whatever other handles do.
    pub proof fn lemma_valid_kept<T>(self, m: Memory<T>, new: Memory<T>, n: nat)
        requires
            m.inv(n),
            new.inv(n),
            m.evolves(new, n),
            self.valid(m, n),
        ensures
            self.valid(new, n),
            self.confirmed(m, n) ==> self.confirmed(new, n),
            self.marked(m, n) ==> self.marked(new, n),
    {
        m.lemma_pos_kept(new, n, self.last);
        let k = m.pos(self.last);
        assert(new.descs[self.desc as int] == m.descs[self.desc as int]);
        assert(new.nodes[self.next as int].enq_id == m.nodes[self.next as int].enq_id);
        if k + 1 < m.log.len() {
            assert(new.log[k + 1] == m.log[k + 1]);
        }
        let id = self.id as int;
        if new.pending(id) && new.desc(id).node == Some(self.next) {
            assert(new.state[id] == m.state[id]);
            assert(new.descs[m.state[id] as int] == m.descs[m.state[id] as int]);
        }
    }

    /// Marking the operation as done keeps the invariant.
    pub proof fn lemma_mark<T>(self, m: Memory<T>, n: nat)
        requires
            m.inv(n),
            self.confirmed(m, n),
            m.state[self.id as int] == self.desc,
            m.descs.len() < usize::MAX,
        ensures
            ({
                let new = m.after_mark(self.id as int, self.desc as int);
                &&& new.inv(n)
                &&& m.evolves(new, n)
                &&& self.marked(new, n)
            }),
    {
        let new = m.after_mark(self.id as int, self.desc as int);
        let id = self.id as int;
        let k = m.pos(self.last);
        m.lemma_pos(k + 1);
        assert(m.linked(self.next));
        assert(forall|i: int| 0 <= i < n && i != id ==> #[trigger] new.desc(i) == m.desc(i));
        assert(new.desc(id).node == m.desc(id).node);
        assert(!new.pending(id));
        assert forall|i: int, j: int|
            0 <= i < n && 0 <= j < new.log.len() && #[trigger] new.pending(i) && new.desc(i).node
                == Some(#[trigger] new.log[j]) implies new.lagging() && j == new.log.len()
            - 1 by {
            assert(m.pending(i) && m.desc(i).node == Some(m.log[j]));
        }
        assert forall|i: int| 0 <= i < n && !#[trigger] new.pending(i) implies (new.desc(
            i,
        ).node matches Some(y) ==> new.linked(y)) by {
            if i != id {
                assert(!m.pending(i));
            }
        }
        assert forall|i: int|
            0 <= i < new.log.len() implies new.nodes[(
        #[trigger] new.log[i]) as int].next == new.succ(i) by {
            assert(m.nodes[m.log[i] as int].next == m.succ(i));
        }
        assert forall|q: int|
            0 < q < new.nodes.len() && !new.linked(q as usize) implies #[trigger] new.awaited(
            q,
        ) by {
            assert(m.awaited(q));
        }
        assert(m.evolves(new, n));
        self.lemma_valid_kept(m, new, n);
    }

    /// Moving the tail from `last` to `next` keeps the invariant.
    pub proof fn lemma_tail<T>(self, m: Memory<T>, n: nat)
        requires
            m.inv(n),
            self.marked(m, n),
            m.tail() == self.last,
        ensures
            m.after_tail().inv(n),
            m.evolves(m.after_tail(), n),
            m.after_tail().tail() == self.next,
    {
        let new = m.after_tail();
        m.lemma_pos(m.t as int);
        let k = m.pos(self.last);
        assert(k == m.t);
        assert(new.tail() == self.next);
        assert(m.log.last() == self.next);
        assert(forall|i: int| #[trigger] new.desc(i) == m.desc(i));
        assert(forall|i: int| #[trigger] new.pending(i) == m.pending(i));
        assert forall|i: int, j: int|
            0 <= i < n && 0 <= j < new.log.len() && #[trigger] new.pending(i) && new.desc(i).node
                == Some(#[trigger] new.log[j]) implies new.lagging() && j == new.log.len()
            - 1 by {
            assert(m.pending(i) && m.desc(i).node == Some(m.log[j]));
            assert(j == m.log.len() - 1);
            assert(m.log[j] == self.next);
            assert(m.nodes[self.next as int].enq_id == Some(i as usize));
            assert(i == self.id);
        }
        assert forall|i: int|
            0 <= i < new.log.len() implies new.nodes[(
        #[trigger] new.log[i]) as int].next == new.succ(i) by {
            assert(m.nodes[m.log[i] as int].next == m.succ(i));
        }
        assert forall|i: int| 0 <= i < n && !#[trigger] new.pending(i) implies (new.desc(
            i,
        ).node matches Some(y) ==> new.linked(y)) by {
            assert(!m.pending(i));
        }
        assert forall|q: int|
            0 < q < new.nodes.len() && !new.linked(q as usize) implies #[trigger] new.awaited(
            q,
        ) by {
            assert(m.awaited(q));
        }
    }
}

/// The intention to move the head from `head` to its successor `next`.
#[derive(Clone, Copy)]
pub struct RemoveAttempt {
    /// The node that the head referred to.
    pub head: usize,
    /// Its successor.
    pub next: usize,
}

impl RemoveAttempt {
    /// `head` was the head, and after that `next` was its successor.
    pub open spec fn valid<T>(self, m: Memory<T>, n: nat) -> bool {
        &&& m.linked(self.head)
        &&& m.pos(self.head) <= m.h
        &&& 0 < self.next < m.nodes.len()
        &&& m.succ(m.pos(self.head)) == Some(self.next)
    }

    /// The attempt stays valid whatever other handles do.
    pub proof fn lemma_valid_kept<T>(self, m: Memory<T>, new: Memory<T>, n: nat)
        requires
            m.inv(n),
            new.inv(n),
            m.evolves(new, n),
            self.valid(m, n),
        ensures
            self.valid(new, n),
    {
        m.lemma_pos_kept(new, n, self.head);
        let k = m.pos(self.head);
        if k + 1 < m.log.len() {
            assert(new.log[k + 1] == m.log[k + 1]);
        }
    }

    /// Moving the head from `head` to `next` keeps the invariant.
    pub proof fn lemma_head<T>(self, m: Memory<T>, n: nat)
        requires
            m.inv(n),
            self.valid(m, n),
            m.head() == self.head,
        ensures
            m.after_head().inv(n),
            m.evolves(m.after_head(), n),
            m.after_head().head() == self.next,
            m.pos(self.head) == m.h,
            m.values().len() > 0,
            m.nodes[self.next as int].value == Some(m.values()[0]),
            m.after_head().values() == m.values().drop_first(),
    {
        let new = m.after_head();
        m.lemma_pos(m.h as int);
        assert(m.log[m.h as int + 1] == self.next);
        assert(forall|i: int| #[trigger] new.desc(i) == m.desc(i));
        assert(forall|i: int| #[trigger] new.pending(i) == m.pending(i));
        assert forall|i: int, j: int|
            0 <= i < n && 0 <= j < new.log.len() && #[trigger] new.pending(i) && new.desc(i).node
                == Some(#[trigger] new.log[j]) implies new.lagging() && j == new.log.len()
            - 1 by {
            assert(m.pending(i) && m.desc(i).node == Some(m.log[j]));
        }
        assert forall|i: int|
            0 <= i < new.log.len() implies new.nodes[(
        #[trigger] new.log[i]) as int].next == new.succ(i) by {
            assert(m.nodes[m.log[i] as int].next == m.succ(i));
        }
        assert forall|i: int| 0 <= i < n && !#[trigger] new.pending(i) implies (new.desc(
            i,
        ).node matches Some(y) ==> new.linked(y)) by {
            assert(!m.pending(i));
        }
        assert forall|q: int|
            0 < q < new.nodes.len() && !new.linked(q as usize) implies #[trigger] new.awaited(
            q,
        ) by {
            assert(m.awaited(q));
        }
        assert(new.values() =~= m.values().drop_first());
    }
}

impl<T> Memory<T> {
    /// Catching up with the tail keeps the invariant.
    pub proof fn lemma_finish_kept(self, n: nat)
        requires
            self.inv(n),
            self.finished().descs.len() <= usize::MAX,
        ensures
            self.finished().inv(n),
            self.evolves(self.finished(), n),
    {
        if self.lagging() {
            let x = self.log.last();
            let id = self.nodes[x as int].enq_id.unwrap();
            let attempt = FinishAttempt {
                last: self.tail(),
                next: x,
                id,
                desc: self.state[id as int],
            };
            self.lemma_pos(self.t as int);
            attempt.lemma_mark(self, n);
            let marked = self.after_mark(id as int, self.state[id as int] as int);
            attempt.lemma_tail(marked, n);
            self.lemma_evolves_trans(marked, self.finished(), n);
        }
    }

    /// Helping a pending operation appends what it announced.
    pub proof fn lemma_helped(self, n: nat, id: int)
        requires
            self.inv(n),
            0 <= id < n,
            self.pending(id),
            self.after_help(id).descs.len() <= usize::MAX,
        ensures
            ({
                let new = self.after_help(id);
                &&& new.inv(n)
                &&& self.evolves(new, n)
                &&& new.nodes.len() == self.nodes.len()
                &&& !new.lagging()
                &&& !new.pending(id)
                &&& new.values() == match self.announced(id) {
                    Some(v) => self.values().push(v),
                    None => self.values(),
                }
                &&& new.announced(id) is None
                &&& forall|i: int|
                    0 <= i < n ==> {
                        &&& (#[trigger] new.desc(i)).phase == self.desc(i).phase
                        &&& new.desc(i).node == self.desc(i).node
                        &&& i != id ==> new.announced(i) == self.announced(i)
                        &&& new.pending(i) ==> self.pending(i)
                        &&& i != id && self.announced(i) is Some ==> new.pending(i)
                    }
            }),
    {
        let ready = self.finished();
        self.lemma_finish_kept(n);
        self.lemma_finished(n);
        assert(ready.desc(id).node == self.desc(id).node);
        if ready.pending(id) {
            let x = ready.desc(id).node.unwrap();
            let last = ready.tail();
            let lk = ready.after_link(last, x);
            let len = ready.log.len() as int;
            assert(last == ready.log.last());
            assert(!ready.linked(x)) by {
                if ready.linked(x) {
                    let j = ready.pos(x);
                    assert(ready.desc(id).node == Some(ready.log[j]));
                }
            }
            assert(ready.announced(id) == ready.nodes[x as int].value);
            assert(lk.log[len] == x);
            assert(lk.nodes[x as int].enq_id == Some(id as usize));
            assert(forall|i: int| #[trigger] lk.desc(i) == ready.desc(i));
            let attempt = LinkAttempt { last, id: id as usize, desc: ready.state[id] };
            ready.lemma_pos(ready.t as int);
            attempt.lemma_link(ready, n);
            lk.lemma_finish_kept(n);
            lk.lemma_finished(n);
            let new = lk.finished();
            ready.lemma_evolves_trans(lk, new, n);
            self.lemma_evolves_trans(ready, new, n);
            assert(lk.lagging());
            assert(lk.values() =~= ready.values().push(ready.announced(id).unwrap())) by {
                assert forall|i: int| 0 <= i < lk.values().len() implies #[trigger] lk.values()[i]
                    == ready.values().push(ready.announced(id).unwrap())[i] by {
                    let j = ready.h as int + 1 + i;
                    if j < len {
                        assert(lk.log[j] == ready.log[j]);
                    }
                }
            }
            assert(lk.linked(x));
            assert forall|i: int| 0 <= i < n implies {
                &&& (#[trigger] new.desc(i)).phase == self.desc(i).phase
                &&& new.desc(i).node == self.desc(i).node
                &&& i != id ==> new.announced(i) == self.announced(i)
                &&& new.pending(i) ==> self.pending(i)
                &&& i != id && self.announced(i) is Some ==> new.pending(i)
            } by {
                assert(lk.desc(i) == ready.desc(i));
                assert(new.desc(i).phase == lk.desc(i).phase);
                assert(ready.desc(i).phase == self.desc(i).phase);
                assert(new.announced(i) == lk.announced(i));
                if i != id && ready.desc(i).node is Some {
                    let y = ready.desc(i).node.unwrap();
                    assert(ready.nodes[y as int].enq_id == Some(i as usize));
                    assert(y != x);
                    if lk.linked(y) {
                        assert(lk.log[lk.pos(y)] == y);
                        assert(ready.log[lk.pos(y)] == y);
                    }
                    if ready.linked(y) {
                        assert(lk.log[ready.pos(y)] == y);
                    }
                    assert(lk.nodes[y as int].value == ready.nodes[y as int].value);
                }
            }
            assert(new.announced(id) == lk.announced(id));
            assert(lk.announced(id) is None);
        } else {
            assert(ready.announced(id) is None);
            assert(self.announced(id) is None);
            assert forall|i: int| 0 <= i < n && i != id && self.announced(i) is Some implies
                ready.pending(i) by {
                assert(ready.desc(i).phase == self.desc(i).phase);
                assert(ready.announced(i) == self.announced(i));
            }
        }
    }
}

} // verus!
