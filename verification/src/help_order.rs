//! The order in which operations are announced to the help queue, when every
//! handle helps the others before it announces its next operation.
//!
//! A node's index is its place in the order of announcements. A handle that has
//! helped everything that was announced before it began cannot leave an
//! operation behind more than once; so while an operation waits, no handle
//! announces more than two of its own.
use vstd::prelude::*;
use vstd::set_lib::*;

use crate::help_memory::Memory;

verus! {

impl<T> Memory<T> {
    /// The descriptor of each handle is about the last node that it announced.
    pub open spec fn latest(self) -> bool {
        forall|k: int|
            0 < k < self.nodes.len() ==> ((#[trigger] self.nodes[k]).enq_id matches Some(h)
                && self.desc(h as int).node matches Some(y) && k <= y)
    }

    /// An operation has a higher phase than all that were announced no later
    /// than the previous operation of its handle.
    pub open spec fn phased(self) -> bool {
        forall|k: int, a: int, b: int|
            #![trigger self.phases[k], self.nodes[a], self.nodes[b]]
            0 < k <= a < b < self.nodes.len() && self.nodes[a].enq_id == self.nodes[b].enq_id
                ==> self.phases[k] < self.phases[b]
    }

    /// While an operation is pending, no handle has announced more than two of
    /// its own after it.
    pub open spec fn fair(self, n: nat) -> bool {
        forall|id: int, i: int, j: int, k: int|
            #![trigger self.pending(id), self.nodes[i], self.nodes[j], self.nodes[k]]
            0 <= id < n && self.pending(id) && self.after_pending(id, i) && i < j < k
                < self.nodes.len() && self.nodes[i].enq_id == self.nodes[j].enq_id
                ==> self.nodes[j].enq_id != self.nodes[k].enq_id
    }

    /// Node `i` was announced after the latest operation of handle `id`.
    pub open spec fn after_pending(self, id: int, i: int) -> bool {
        self.desc(id).node matches Some(x) && x < i
    }

    /// Handle `g` has announced at most one operation after any that is pending.
    pub open spec fn caught_up(self, n: nat, g: usize) -> bool {
        forall|id: int, i: int, j: int|
            #![trigger self.pending(id), self.nodes[i], self.nodes[j]]
            0 <= id < n && self.pending(id) && self.after_pending(id, i) && i < j
                < self.nodes.len() && self.nodes[i].enq_id == Some(g) ==> self.nodes[j].enq_id
                != Some(g)
    }

    /// What holds of the memory when every handle helps the others before it
    /// announces its next operation.
    #[verifier::opaque]
    pub open spec fn orderly(self, n: nat) -> bool {
        &&& self.latest()
        &&& self.phased()
        &&& self.fair(n)
    }

    /// No node from index `from` on was announced by handle `g`.
    pub open spec fn silent(self, g: usize, from: int) -> bool {
        forall|k: int|
            from <= k < self.nodes.len() ==> (#[trigger] self.nodes[k]).enq_id != Some(g)
    }

    /// An empty queue is in order.
    pub proof fn lemma_orderly_initial(n: nat)
        requires
            n <= usize::MAX,
        ensures
            Self::initial(n).orderly(n),
    {
        reveal(Memory::orderly);
    }

    /// An access that announces nothing keeps the order.
    pub proof fn lemma_orderly_kept(self, new: Self, n: nat)
        requires
            self.inv(n),
            new.inv(n),
            self.evolves(new, n),
            self.orderly(n),
            new.nodes.len() == self.nodes.len(),
            forall|id: int|
                0 <= id < n ==> (#[trigger] new.desc(id)).node == self.desc(id).node && (
                new.pending(id) ==> self.pending(id)),
        ensures
            new.orderly(n),
    {
        reveal(Memory::orderly);
        assert forall|k: int| 0 <= k < new.nodes.len() implies (#[trigger] new.nodes[k]).enq_id
            == self.nodes[k].enq_id by {}
        assert forall|k: int| 0 < k < new.nodes.len() implies ((
        #[trigger] new.nodes[k]).enq_id matches Some(h) && new.desc(h as int).node matches Some(y)
            && k <= y) by {
            assert(self.nodes[k].enq_id is Some);
            let h = self.nodes[k].enq_id.unwrap() as int;
            assert(new.desc(h).node == self.desc(h).node);
        }
        assert forall|k: int, a: int, b: int|
            #![trigger new.phases[k], new.nodes[a], new.nodes[b]]
            0 < k <= a < b < new.nodes.len() && new.nodes[a].enq_id
                == new.nodes[b].enq_id implies new.phases[k] < new.phases[b] by {
            assert(self.nodes[a].enq_id == self.nodes[b].enq_id);
            assert(self.phases[k] < self.phases[b]);
        }
        assert forall|id: int, i: int, j: int, k: int|
            #![trigger new.pending(id), new.nodes[i], new.nodes[j], new.nodes[k]]
            0 <= id < n && new.pending(id) && new.after_pending(id, i) && i < j < k
                < new.nodes.len() && new.nodes[i].enq_id
                == new.nodes[j].enq_id implies new.nodes[j].enq_id != new.nodes[k].enq_id by {
            assert(new.desc(id).node == self.desc(id).node);
            assert(self.pending(id));
            assert(self.nodes[i].enq_id == self.nodes[j].enq_id);
            assert(self.nodes[j].enq_id != self.nodes[k].enq_id);
        }
    }

    /// Announcing keeps the order, if the handle has caught up and the phase is
    /// higher than all that were announced no later than its previous operation.
    pub proof fn lemma_orderly_announced(self, n: nat, id: int, phase: u64, value: T)
        requires
            self.inv(n),
            self.after_announce(id, phase, value).inv(n),
            self.evolves(self.after_announce(id, phase, value), n),
            self.orderly(n),
            0 <= id < n,
            self.caught_up(n, id as usize),
            forall|k: int, a: int|
                #![trigger self.phases[k], self.nodes[a]]
                0 < k <= a < self.nodes.len() && self.nodes[a].enq_id == Some(id as usize)
                    ==> self.phases[k] < phase,
        ensures
            self.after_announce(id, phase, value).orderly(n),
    {
        reveal(Memory::orderly);
        let new = self.after_announce(id, phase, value);
        let x = self.nodes.len() as int;
        assert forall|k: int| 0 <= k < x implies #[trigger] new.nodes[k] == self.nodes[k] by {}
        assert(new.nodes[x].enq_id == Some(id as usize));
        assert(new.desc(id).node == Some(x as usize));
        assert forall|i: int| 0 <= i < n && i != id implies #[trigger] new.desc(i) == self.desc(
            i,
        ) by {}
        assert forall|k: int| 0 < k < new.nodes.len() implies ((
        #[trigger] new.nodes[k]).enq_id matches Some(h) && new.desc(h as int).node matches Some(y)
            && k <= y) by {
            if k < x {
                assert(self.nodes[k].enq_id is Some);
            }
        }
        assert forall|k: int, a: int, b: int|
            #![trigger new.phases[k], new.nodes[a], new.nodes[b]]
            0 < k <= a < b < new.nodes.len() && new.nodes[a].enq_id
                == new.nodes[b].enq_id implies new.phases[k] < new.phases[b] by {
            assert(new.nodes[a] == self.nodes[a]);
            assert(new.phases[k] == self.phases[k]);
            if b < x {
                assert(self.nodes[a].enq_id == self.nodes[b].enq_id);
            }
        }
        assert forall|q: int, i: int, j: int, k: int|
            #![trigger new.pending(q), new.nodes[i], new.nodes[j], new.nodes[k]]
            0 <= q < n && new.pending(q) && new.after_pending(q, i) && i < j < k
                < new.nodes.len() && new.nodes[i].enq_id
                == new.nodes[j].enq_id implies new.nodes[j].enq_id != new.nodes[k].enq_id by {
            assert(q != id);
            assert(new.desc(q) == self.desc(q));
            assert(self.pending(q));
            assert(new.nodes[i] == self.nodes[i] && new.nodes[j] == self.nodes[j]);
            if k < x {
                assert(self.nodes[j].enq_id != self.nodes[k].enq_id);
            }
        }
    }

    /// An enqueue that is not interrupted keeps the order: it announces with the
    /// highest phase, and nothing is pending afterwards. Here `new` is the memory
    /// after it.
    pub proof fn lemma_orderly_enqueued(self, new: Self, n: nat, id: int, phase: u64, value: T)
        requires
            self.inv(n),
            new.inv(n),
            self.orderly(n),
            0 <= id < n,
            self.is_next_phase(phase),
            self.after_announce(id, phase, value).evolves(new, n),
            new.nodes.len() == self.nodes.len() + 1,
            forall|i: int|
                0 <= i < n ==> !(#[trigger] new.desc(i)).pending && new.desc(i).node
                    == self.after_announce(id, phase, value).desc(i).node,
        ensures
            new.orderly(n),
    {
        reveal(Memory::orderly);
        let mid = self.after_announce(id, phase, value);
        let x = self.nodes.len() as int;
        assert(mid.nodes[x].enq_id == Some(id as usize));
        assert(mid.desc(id).node == Some(x as usize));
        assert(mid.phases[x] == phase);
        assert forall|k: int| 0 < k < x implies #[trigger] new.nodes[k].enq_id
            == self.nodes[k].enq_id && new.phases[k] == self.phases[k] && new.phases[k]
            < phase by {
            assert(mid.nodes[k] == self.nodes[k] && mid.phases[k] == self.phases[k]);
            assert(new.nodes[k].enq_id == mid.nodes[k].enq_id);
            assert(new.phases[k] == mid.phases[k]);
            self.lemma_phase_highest(n, k);
            let h = self.nodes[k].enq_id.unwrap() as int;
            assert(self.desc(h).phase is Some);
            if phase == 0 {
                assert(self.is_max_phase(None));
            } else {
                assert(self.is_max_phase(Some((phase - 1) as u64)));
            }
        }
        assert(new.nodes[x].enq_id == mid.nodes[x].enq_id);
        assert(new.phases[x] == mid.phases[x]);
        assert forall|k: int| 0 < k < new.nodes.len() implies ((
        #[trigger] new.nodes[k]).enq_id matches Some(h) && new.desc(h as int).node matches Some(y)
            && k <= y) by {
            if k < x {
                assert(new.nodes[k].enq_id == self.nodes[k].enq_id);
                let h = self.nodes[k].enq_id.unwrap() as int;
                if h != id {
                    assert(mid.desc(h) == self.desc(h));
                }
                assert(new.desc(h).node == mid.desc(h).node);
            } else {
                assert(new.desc(id).node == mid.desc(id).node);
            }
        }
        assert forall|k: int, a: int, b: int|
            #![trigger new.phases[k], new.nodes[a], new.nodes[b]]
            0 < k <= a < b < new.nodes.len() && new.nodes[a].enq_id
                == new.nodes[b].enq_id implies new.phases[k] < new.phases[b] by {
            assert(new.nodes[k].enq_id == self.nodes[k].enq_id);
            assert(new.nodes[a].enq_id == self.nodes[a].enq_id);
            if b < x {
                assert(new.nodes[b].enq_id == self.nodes[b].enq_id);
                assert(self.phases[k] < self.phases[b]);
            }
        }
        assert forall|q: int| 0 <= q < n implies !#[trigger] new.pending(q) by {
            assert(!new.desc(q).pending);
        }
    }

    /// Removing the value at the front keeps the order and all phases.
    pub proof fn lemma_orderly_removed(self, n: nat)
        requires
            self.inv(n),
            self.after_head().inv(n),
            self.evolves(self.after_head(), n),
            self.after_head().finished().descs.len() <= usize::MAX,
        ensures
            self.orderly(n) ==> self.after_head().finished().orderly(n),
            self.after_head().finished().nodes.len() == self.nodes.len(),
            forall|id: int|
                0 <= id < n ==> (#[trigger] self.after_head().finished().desc(id)).phase
                    == self.desc(id).phase,
    {
        let moved = self.after_head();
        let new = moved.finished();
        moved.lemma_finish_kept(n);
        moved.lemma_finished(n);
        assert forall|id: int| 0 <= id < n implies #[trigger] moved.desc(id) == self.desc(id) by {}
        assert forall|id: int| 0 <= id < n implies (#[trigger] new.desc(id)).phase == self.desc(
            id,
        ).phase by {
            assert(moved.desc(id) == self.desc(id));
        }
        if self.orderly(n) {
            self.lemma_orderly_kept(moved, n);
            moved.lemma_orderly_kept(new, n);
        }
    }

    /// A handle that has caught up stays so until it announces something.
    pub proof fn lemma_caught_up_kept(self, new: Self, n: nat, g: usize)
        requires
            self.inv(n),
            new.inv(n),
            self.evolves(new, n),
            self.caught_up(n, g),
            new.silent(g, self.nodes.len() as int),
        ensures
            new.caught_up(n, g),
    {
        assert forall|id: int, i: int, j: int|
            #![trigger new.pending(id), new.nodes[i], new.nodes[j]]
            0 <= id < n && new.pending(id) && new.after_pending(id, i) && i < j < new.nodes.len()
                && new.nodes[i].enq_id == Some(g) implies new.nodes[j].enq_id != Some(g) by {
            if new.nodes[j].enq_id == Some(g) {
                assert(i < self.nodes.len() && j < self.nodes.len());
                let x = new.desc(id).node.unwrap();
                assert(x < self.nodes.len());
                assert(new.state[id] == self.state[id]);
                assert(new.descs[self.state[id] as int] == self.descs[self.state[id] as int]);
                assert(self.pending(id) && self.after_pending(id, i));
                assert(self.nodes[i].enq_id == new.nodes[i].enq_id);
                assert(self.nodes[j].enq_id == new.nodes[j].enq_id);
            }
        }
    }

    /// The phase of a handle never falls.
    pub proof fn lemma_phase_rises(self, new: Self, n: nat, id: int)
        requires
            self.inv(n),
            new.inv(n),
            self.evolves(new, n),
            new.orderly(n),
            0 <= id < n,
            self.desc(id).phase is Some,
        ensures
            new.desc(id).phase matches Some(q) && self.desc(id).phase.unwrap() <= q,
    {
        reveal(Memory::orderly);
        assert(self.desc(id).node is Some);
        let y = self.desc(id).node.unwrap() as int;
        assert(self.nodes[y].enq_id == Some(id as usize));
        assert(new.nodes[y].enq_id == Some(id as usize));
        let z = new.desc(id).node.unwrap() as int;
        assert(y <= z);
        assert(new.nodes[z].enq_id == Some(id as usize));
        assert(new.phases[y] == self.phases[y]);
        if y < z {
            assert(new.phases[y] < new.phases[z]);
        }
    }

    /// All nodes of a handle have phases up to that of its latest operation.
    pub proof fn lemma_phase_highest(self, n: nat, k: int)
        requires
            self.inv(n),
            self.orderly(n),
            0 < k < self.nodes.len(),
        ensures
            ({
                let h = self.nodes[k].enq_id.unwrap() as int;
                &&& 0 <= h < n
                &&& self.desc(h).phase matches Some(q) && self.phases[k] <= q
            }),
    {
        reveal(Memory::orderly);
        let h = self.nodes[k].enq_id.unwrap() as int;
        let y = self.desc(h).node.unwrap() as int;
        assert(self.nodes[y].enq_id == Some(h as usize));
        if k < y {
            assert(self.phases[k] < self.phases[y]);
        }
    }

    /// While the operation of handle `id` is pending, at most two operations per
    /// handle are announced.
    pub proof fn lemma_announced_meanwhile(self, new: Self, n: nat, id: int)
        requires
            self.inv(n),
            new.inv(n),
            self.evolves(new, n),
            new.orderly(n),
            0 <= id < n,
            self.pending(id),
            !self.settled(new, id),
        ensures
            new.nodes.len() - self.nodes.len() <= 2 * n,
    {
        reveal(Memory::orderly);
        let from = self.nodes.len() as int;
        let to = new.nodes.len() as int;
        let x = self.desc(id).node.unwrap();
        assert(x < from);
        assert(new.pending(id) && new.desc(id).node == Some(x));
        let range = set_int_range(from, to);
        let limit = 2 * n as int;
        let second = |k: int|
            exists|i: int| from <= i < k && (#[trigger] new.nodes[i]).enq_id == new.nodes[k].enq_id;
        let f = |k: int|
            2 * (new.nodes[k].enq_id.unwrap() as int) + if second(k) {
                1int
            } else {
                0int
            };
        lemma_int_range(from, to);
        lemma_int_range(0, limit);
        assert forall|k: int| #[trigger] range.contains(k) implies 0 <= f(k) < 2 * n by {
            assert(new.nodes[k].enq_id is Some);
        }
        assert forall|i: int, j: int|
            #![trigger range.contains(i), range.contains(j)]
            range.contains(i) && range.contains(j) && f(i) == f(j) implies i == j by {
            assert(new.nodes[i].enq_id is Some && new.nodes[j].enq_id is Some);
            if i != j {
                let (a, b) = if i < j {
                    (i, j)
                } else {
                    (j, i)
                };
                assert(new.nodes[a].enq_id == new.nodes[b].enq_id);
                assert(second(b));
                assert(second(a));
                let c = choose|c: int|
                    from <= c < a && (#[trigger] new.nodes[c]).enq_id == new.nodes[a].enq_id;
                assert(new.after_pending(id, c));
                assert(new.nodes[c].enq_id == new.nodes[a].enq_id);
                assert(new.pending(id));
            }
        }
        let image = range.map(f);
        lemma_map_size(range, image, f);
        assert(image.subset_of(set_int_range(0, limit)));
        lemma_len_subset(image, set_int_range(0, limit));
    }
}

} // verus!
