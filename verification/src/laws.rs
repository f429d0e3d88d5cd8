//! What holds of the library as a whole.
//!
//! Evolution (`evolves`) is what any number of accesses by any handles can do
//! to the shared memory, so a law about a memory and a later one that it has
//! evolved into holds of every interleaving.
use vstd::prelude::*;
use vstd::std_specs::cmp::PartialEqSpec;

use crate::atomic::{Atomic, CasByRcu};
use crate::cas::{
    CasAnswer, CasCall, CasExecutionFailure, CasState, CasStep, CasVisit, VersionedCas,
};
use crate::contention::{Contention, ContentionMeasure};
use crate::enqueue::EnqueueRun;
use crate::help_memory::Memory;
use crate::help_steps::{LinkAttempt, RemoveAttempt};
use crate::operation::{NormalizedLockFree, OperationRecord, OperationState};
use crate::request::RequestRun;
use crate::run::{RunCall, RunEnd};
use crate::simulation::{RunOutcome, Simulation};

verus! {

/// A version names a value for good: what was read in a version is what that
/// version stands for ever after, and if a record has been installed between
/// `earlier` and `later`, the current version has changed.
pub proof fn law_version_names_value<T>(earlier: &Atomic<T>, later: &Atomic<T>, i: int)
    requires
        earlier.wf(),
        later.wf(),
        earlier@.is_prefix_of(later@),
        0 <= i < earlier@.len(),
    ensures
        later@[earlier@[i].version as int] == earlier@[i],
        earlier.current().version <= later.current().version,
        earlier.current().version == later.current().version ==> earlier@ == later@,
{
    assert(earlier@[i].version == i);
    assert(later@[i] == earlier@[i]);
    if earlier.current().version == later.current().version {
        assert(earlier@ =~= later@);
    }
}

/// Setting a value that equals the one just set changes nothing; the version
/// stays too. Equality has to be transitive, as `Eq` promises it is.
pub proof fn law_set_twice<T: Eq>(records: Seq<CasByRcu<T>>, value: T, again: T)
    requires
        records.len() > 0,
        value.eq_spec(&again),
        records.last().value.eq_spec(&value) ==> records.last().value.eq_spec(&again),
    ensures
        ({
            let once = Atomic::after_set(records, value);
            Atomic::after_set(once, again) == once
        }),
{
}

/// First in, first out: a later queue is the earlier one with values added at
/// the back and values removed at the front, and nothing else.
pub proof fn law_fifo<T>(earlier: Memory<T>, later: Memory<T>, n: nat)
    requires
        earlier.inv(n),
        later.inv(n),
        earlier.evolves(later, n),
    ensures
        exists|added: Seq<T>|
            #![trigger earlier.values() + added]
            later.values() == (earlier.values() + added).skip(later.h - earlier.h),
        later.h == earlier.h ==> earlier.values().is_prefix_of(later.values()),
{
    let added = Seq::new(
        (later.log.len() - earlier.log.len()) as nat,
        |i: int| later.nodes[later.log[earlier.log.len() + i] as int].value.unwrap(),
    );
    let all = earlier.values() + added;
    assert forall|i: int| 0 <= i < all.len() implies #[trigger] all[i]
        == later.nodes[later.log[earlier.h + 1 + i] as int].value.unwrap() by {
        if i < earlier.values().len() {
            let x = earlier.log[earlier.h + 1 + i];
            assert(later.log[earlier.h + 1 + i] == x);
            assert(later.nodes[x as int].value == earlier.nodes[x as int].value);
        }
    }
    assert(later.values() =~= all.skip(later.h - earlier.h));
    if later.h == earlier.h {
        assert(later.values() =~= all);
        assert(earlier.values() =~= later.values().subrange(0, earlier.values().len() as int));
    }
}

/// Nothing announced is lost: as long as handle `id`'s operation is pending it
/// stays announced, and when it is no longer pending its node has been linked.
pub proof fn law_announced_is_linked<T>(earlier: Memory<T>, later: Memory<T>, n: nat, id: int)
    requires
        earlier.inv(n),
        later.inv(n),
        earlier.evolves(later, n),
        0 <= id < n,
        earlier.pending(id),
    ensures
        ({
            let x = earlier.desc(id).node.unwrap();
            ||| later.pending(id) && later.desc(id).node == Some(x)
            ||| later.linked(x)
        }),
{
    if later.state[id] == earlier.state[id] {
        assert(later.descs[earlier.state[id] as int] == earlier.descs[earlier.state[id] as int]);
    }
}

/// Every value that was ever announced has been linked or is still announced.
pub proof fn law_linked_or_announced<T>(m: Memory<T>, n: nat, k: int)
    requires
        m.inv(n),
        0 < k < m.nodes.len(),
    ensures
        m.linked(k as usize) || (m.nodes[k].enq_id matches Some(id) && m.announced(id as int)
            == m.nodes[k].value),
{
    if !m.linked(k as usize) {
        assert(m.awaited(k));
    }
}

/// A handle that may announce its next operation may still do so later, as long
/// as nothing has been announced in its name.
pub proof fn law_idle_stays<T>(earlier: Memory<T>, later: Memory<T>, n: nat, id: int)
    requires
        earlier.inv(n),
        later.inv(n),
        earlier.evolves(later, n),
        0 <= id < n,
        earlier.idle(id),
        forall|k: int|
            earlier.nodes.len() <= k < later.nodes.len() ==> (#[trigger] later.nodes[k]).enq_id
                != Some(id as usize),
    ensures
        later.idle(id),
{
    if later.pending(id) {
        let x = later.desc(id).node.unwrap();
        assert(later.nodes[x as int].enq_id == Some(id as usize));
        assert(later.state[id] == earlier.state[id]);
        assert(later.descs[earlier.state[id] as int] == earlier.descs[earlier.state[id] as int]);
    }
    if later.lagging() {
        let y = later.log.last();
        if later.nodes[y as int].enq_id == Some(id as usize) {
            assert(earlier.nodes[y as int].enq_id == Some(id as usize));
            if earlier.linked(y) {
                let i = earlier.pos(y);
                assert(earlier.log[i] == y);
                assert(later.log[i] == y);
                assert(later.log[later.log.len() - 1] == y);
            } else {
                assert(earlier.awaited(y as int));
            }
        }
    }
}

/// Nothing is queued twice: each node has one place in the order of linking, for
/// good, and keeps its value there.
pub proof fn law_linked_once<T>(earlier: Memory<T>, later: Memory<T>, n: nat, i: int, j: int)
    requires
        earlier.inv(n),
        later.inv(n),
        earlier.evolves(later, n),
        0 <= i < earlier.log.len(),
        0 <= j < later.log.len(),
        later.log[j] == earlier.log[i],
    ensures
        i == j,
        later.nodes[later.log[j] as int].value == earlier.nodes[earlier.log[i] as int].value,
{
    assert(later.log[i] == earlier.log[i]);
    assert(later.nodes[earlier.log[i] as int].value == earlier.nodes[earlier.log[i] as int].value);
}

/// What is read behind a node is never the sentinel and always has a value and a
/// handle that enqueued it.
pub proof fn law_next_is_never_the_sentinel<T>(m: Memory<T>, n: nat, node: int)
    requires
        m.inv(n),
        0 <= node < m.nodes.len(),
        m.nodes[node].next is Some,
    ensures
        ({
            let next = m.nodes[node].next.unwrap() as int;
            &&& 0 < next < m.nodes.len()
            &&& m.nodes[next].value is Some
            &&& m.nodes[next].enq_id is Some
        }),
{
    let next = m.nodes[node].next.unwrap() as int;
    assert(m.nodes[next].value is Some);
}

/// A pending operation always has a node to link.
pub proof fn law_pending_has_a_node<T>(m: Memory<T>, n: nat, id: int)
    requires
        m.inv(n),
        0 <= id < n,
        m.pending(id),
    ensures
        m.desc(id).enqueue,
        m.desc(id).node matches Some(x) && m.nodes[x as int].enq_id == Some(id as usize)
            && m.nodes[x as int].value is Some,
{
    assert(m.desc(id).node is Some);
}

/// If nothing else has been announced, enqueueing appends the value and nothing
/// else.
pub proof fn law_enqueue_alone<T>(m: Memory<T>, k: nat, id: int, value: T)
    requires
        forall|i: int| 0 <= i < k && i != id ==> #[trigger] m.announced(i) is None,
    ensures
        m.requests(k, id, value) == if 0 <= id < k {
            seq![value]
        } else {
            Seq::empty()
        },
    decreases k,
{
    if k > 0 {
        law_enqueue_alone(m, (k - 1) as nat, id, value);
        assert(k - 1 != id ==> m.announced(k - 1) is None);
        assert(m.requests(k, id, value) =~= if 0 <= id < k {
            seq![value]
        } else {
            Seq::empty()
        });
    }
}

/// What is enqueued into an empty queue, with nothing else announced, is at the
/// front, and removing it leaves the queue empty.
pub proof fn law_enqueue_then_remove<T>(m: Memory<T>, n: nat, id: int, value: T)
    requires
        m.values().len() == 0,
        0 <= id < n,
        forall|i: int| 0 <= i < n && i != id ==> #[trigger] m.announced(i) is None,
    ensures
        ({
            let after = m.values() + m.requests(n, id, value);
            &&& after.len() == 1
            &&& after[0] == value
            &&& after.drop_first() == m.values()
        }),
{
    law_enqueue_alone(m, n, id, value);
    assert((m.values() + m.requests(n, id, value)).drop_first() =~= m.values());
}

/// When an enqueue has ended, its value has been linked, and so has everything
/// that had been announced when it began. This holds whatever other handles did
/// between its accesses, since [`EnqueueRun::ok`] does.
pub proof fn law_enqueue_carries_out<T>(run: EnqueueRun<T>, m: Memory<T>, n: nat)
    requires
        m.inv(n),
        run.ok(m, n),
        run.step is End,
    ensures
        ({
            let node = run.node();
            &&& node >= run.past@.start.nodes.len()
            &&& m.linked(node)
            &&& m.nodes[node as int].value == Some(run.value)
            &&& m.nodes[node as int].enq_id == Some(run.owner)
        }),
        forall|id: int|
            0 <= id < n && #[trigger] run.past@.start.pending(id) ==> {
                &&& run.past@.start.settled(m, id)
                &&& m.linked(run.past@.start.desc(id).node.unwrap())
            },
{
    reveal(EnqueueRun::ok);
    let start = run.past@.start;
    let base = run.past@.base;
    let owner = run.owner as int;
    assert(run.helped(m, owner));
    law_announced_is_linked(base, m, n, owner);
    let node = base.desc(owner).node.unwrap();
    assert(m.nodes[node as int].value == base.nodes[node as int].value);
    assert(m.nodes[node as int].enq_id == base.nodes[node as int].enq_id);
    assert(base.pending(owner));
    assert forall|id: int| 0 <= id < n && #[trigger] start.pending(id) implies {
        &&& start.settled(m, id)
        &&& m.linked(start.desc(id).node.unwrap())
    } by {
        assert(run.helped(m, id));
        if start.settled(base, id) {
            start.lemma_settled_kept(base, m, n, id);
        } else {
            assert(base.wants_help(id, run.phase));
        }
        law_announced_is_linked(start, m, n, id);
    }
}

/// An enqueue never makes more accesses than a number that only the number of
/// handles determines, whatever the others do between its accesses, provided
/// that they enqueue in the same way. So it ends, and no handle can keep another
/// from ending.
pub proof fn law_enqueue_accesses<T>(run: EnqueueRun<T>, m: Memory<T>, n: nat)
    requires
        m.inv(n),
        run.ok(m, n),
    ensures
        run.past@.steps <= crate::enqueue::access_limit(n),
{
    reveal(EnqueueRun::ok);
    let h = run.step.past_handles(n);
    crate::enqueue::lemma_share_limit(h, n);
    if run.has_tried() {
        run.lemma_growth(n, h as int);
    }
}

/// Enqueues of different handles can be interleaved access by access: whatever
/// access `other` makes, `run` can go on from there.
pub proof fn law_enqueues_interleave<T>(
    run: EnqueueRun<T>,
    other: EnqueueRun<T>,
    next: EnqueueRun<T>,
    m: Memory<T>,
    new: Memory<T>,
    n: nat,
)
    requires
        m.inv(n),
        new.inv(n),
        m.evolves(new, n),
        run.ok(m, n),
        run.owner != other.owner,
        other.steps_to(next, m, new, n),
    ensures
        run.ok(new, n),
{
    other.lemma_silent(next, m, new, n, run.owner);
    run.lemma_kept(m, new, n);
}

/// When an enqueue has ended, its handle may begin the next one, whatever other
/// handles do meanwhile.
pub proof fn law_enqueue_ends_ready<T>(run: EnqueueRun<T>, m: Memory<T>, n: nat)
    requires
        m.inv(n),
        m.orderly(n),
        run.ok(m, n),
        run.step is End,
    ensures
        m.idle(run.owner as int),
        m.caught_up(n, run.owner),
{
    reveal(EnqueueRun::ok);
    reveal(Memory::orderly);
    let start = run.past@.start;
    let base = run.past@.base;
    let owner = run.owner as int;
    let node = run.node();
    law_enqueue_carries_out(run, m, n);
    assert(run.helped(m, owner));
    assert forall|k: int|
        start.nodes.len() <= k < m.nodes.len() && (#[trigger] m.nodes[k]).enq_id == Some(
            run.owner,
        ) implies k == node by {
        if k < base.nodes.len() {
            assert(m.nodes[k].enq_id == base.nodes[k].enq_id);
        }
    }
    let y = m.desc(owner).node.unwrap();
    assert(m.nodes[node as int].enq_id == Some(run.owner));
    assert(node <= y);
    assert(m.nodes[y as int].enq_id == Some(run.owner));
    assert(y == node);
    if m.lagging() {
        let x = m.log.last();
        if m.nodes[x as int].enq_id == Some(run.owner) {
            m.lemma_pos(m.log.len() - 1);
        }
    }
    assert forall|id: int, i: int, j: int|
        #![trigger m.pending(id), m.nodes[i], m.nodes[j]]
        0 <= id < n && m.pending(id) && m.after_pending(id, i) && i < j < m.nodes.len()
            && m.nodes[i].enq_id == Some(run.owner) implies m.nodes[j].enq_id != Some(
        run.owner,
    ) by {
        let x = m.desc(id).node.unwrap();
        if x < start.nodes.len() {
            assert(m.state[id] == start.state[id]);
            assert(m.descs[start.state[id] as int] == start.descs[start.state[id] as int]);
            assert(start.pending(id));
        }
    }
}

/// While an operation waits to be carried out, no handle announces more than two
/// of its own, if all of them enqueue by helping first.
pub proof fn law_few_announced_meanwhile<T>(earlier: Memory<T>, later: Memory<T>, n: nat, id: int)
    requires
        earlier.inv(n),
        later.inv(n),
        earlier.evolves(later, n),
        later.orderly(n),
        0 <= id < n,
        earlier.pending(id),
        !earlier.settled(later, id),
    ensures
        later.nodes.len() - earlier.nodes.len() <= 2 * n,
{
    earlier.lemma_announced_meanwhile(later, n, id);
}

/// In a new queue everything is in order, and every handle may begin.
pub proof fn law_new_queue_is_in_order<T>(n: nat, id: usize)
    requires
        id < n <= usize::MAX,
    ensures
        Memory::<T>::initial(n).orderly(n),
        Memory::<T>::initial(n).idle(id as int),
        Memory::<T>::initial(n).caught_up(n, id),
{
    Memory::<T>::lemma_orderly_initial(n);
}

/// A handle that moves the head, or completes what the tail lags behind, without
/// announcing anything, leaves everything in order.
pub proof fn law_removing_keeps_order<T>(m: Memory<T>, n: nat)
    requires
        m.inv(n),
        m.orderly(n),
        m.finished().descs.len() <= usize::MAX,
    ensures
        m.finished().orderly(n),
        m.after_head().inv(n) && m.evolves(m.after_head(), n) ==> m.after_head().orderly(n),
{
    m.lemma_finish_kept(n);
    m.lemma_finished(n);
    m.lemma_orderly_kept(m.finished(), n);
    let moved = m.after_head();
    if moved.inv(n) && m.evolves(moved, n) {
        assert forall|id: int| 0 <= id < n implies (#[trigger] moved.desc(id)).node == m.desc(
            id,
        ).node && (moved.pending(id) ==> m.pending(id)) by {
            assert(moved.desc(id) == m.desc(id));
        }
        m.lemma_orderly_kept(moved, n);
    }
}

/// A handle that links a node, for itself or for another, keeps everything that
/// the handles of a simulator rely on.
pub proof fn law_link_keeps_simulation<LF: NormalizedLockFree>(
    s: Simulation<LF>,
    n: nat,
    attempt: LinkAttempt,
)
    requires
        s.inv(n),
        attempt.valid(s.help, n),
        attempt.last == s.help.log.last(),
    ensures
        ({
            let x = s.help.descs[attempt.desc as int].node.unwrap();
            let new = Simulation { help: s.help.after_link(attempt.last, x), ..s };
            &&& new.inv(n)
            &&& s.evolves(new, n)
            &&& new.queue() == s.queue().push(s.help.nodes[x as int].value.unwrap())
        }),
{
    s.lemma_parts(n);
    let m = s.help;
    let x = m.descs[attempt.desc as int].node.unwrap();
    let last = attempt.last;
    let new = Simulation { help: m.after_link(last, x), ..s };
    let k = m.pos(last);
    assert(m.log[k] == last);
    let len = m.log.len() as int;
    m.lemma_pos(len - 1);
    assert(m.nodes[m.log[len - 1] as int].next == m.succ(len - 1));
    attempt.lemma_link(m, n);
    let id = attempt.id as int;
    assert(forall|i: int| #[trigger] new.help.desc(i) == m.desc(i));
    let v = m.nodes[x as int].value.unwrap();
    assert(!m.linked(x));
    assert(m.announced(id) == Some(v));
    assert(new.help.log[len] == x);
    assert(new.help.linked(x));
    assert(new.help.announced(id) is None);
    let added = seq![v];
    assert forall|i: int| 0 <= i < new.queue().len() implies #[trigger] new.queue()[i] == (
    s.queue() + added)[i] by {
        let j = m.h as int + 1 + i;
        if j < len {
            assert(new.help.log[j] == m.log[j]);
        }
    }
    assert(new.queue() =~= s.queue() + added);
    assert(new.queue() =~= s.queue().push(v));
    assert forall|i: int| 0 <= i < n && i != id implies #[trigger] new.help.announced(i)
        == m.announced(i) by {
        if m.desc(i).node is Some {
            let y = m.desc(i).node.unwrap();
            assert(m.nodes[y as int].enq_id == Some(i as usize));
            assert(y != x);
            if new.help.linked(y) {
                assert(m.log[new.help.pos(y)] == y);
            }
            if m.linked(y) {
                assert(new.help.log[m.pos(y)] == y);
            }
        }
    }
    assert(added.contains(v)) by {
        assert(added[0] == v);
    }
    assert forall|w: usize| #[trigger] added.contains(w) implies exists|i: int|
        0 <= i < n && #[trigger] s.taken_up(new, i, w) by {
        assert(s.taken_up(new, id, v));
    }
    assert forall|i: int| 0 <= i < n && m.idle(i) implies #[trigger] new.help.idle(i) by {
        assert(m.pending(id));
        assert(new.help.nodes[x as int].enq_id == Some(attempt.id));
    }
    s.lemma_queued(new, n, added);
}

/// An access to the help queue that neither queues nor removes anything keeps
/// everything that the handles of a simulator rely on. Such are the accesses
/// that mark an operation as done and move the tail.
pub proof fn law_access_keeps_simulation<LF: NormalizedLockFree>(
    s: Simulation<LF>,
    new: Simulation<LF>,
    n: nat,
)
    requires
        s.inv(n),
        new == (Simulation { help: new.help, ..s }),
        new.help.inv(n),
        s.help.evolves(new.help, n),
        new.help.log == s.help.log,
        new.help.h == s.help.h,
        new.help.nodes.len() == s.help.nodes.len(),
    ensures
        new.inv(n),
        s.evolves(new, n),
        new.queue() == s.queue(),
{
    s.lemma_parts(n);
    let m = s.help;
    let added = Seq::<usize>::empty();
    assert forall|i: int| 0 <= i < new.queue().len() implies #[trigger] new.queue()[i]
        == s.queue()[i] by {
        let x = m.log[m.h as int + 1 + i];
        assert(new.help.nodes[x as int].value == m.nodes[x as int].value);
    }
    assert(new.queue() =~= s.queue());
    assert(new.queue() =~= s.queue() + added);
    assert forall|i: int| 0 <= i < n implies #[trigger] new.help.announced(i) == m.announced(
        i,
    ) by {
        if m.announced(i) is Some {
            assert(new.help.state[i] == m.state[i]);
        }
        if new.help.announced(i) is Some {
            assert(new.help.pending(i));
            assert(new.help.state[i] == m.state[i]);
        }
        if new.help.state[i] == m.state[i] {
            assert(new.help.descs[m.state[i] as int] == m.descs[m.state[i] as int]);
            if m.desc(i).node is Some {
                let y = m.desc(i).node.unwrap() as int;
                assert(new.help.nodes[y].value == m.nodes[y].value);
            }
        }
    }
    assert forall|i: int| 0 <= i < n && m.idle(i) implies #[trigger] new.help.idle(i) by {
        law_idle_stays(m, new.help, n, i);
    }
    s.lemma_queued(new, n, added);
}

/// A handle that moves the head past a completed operation keeps everything that
/// the handles of a simulator rely on, and takes that operation out of the queue.
pub proof fn law_head_keeps_simulation<LF: NormalizedLockFree>(
    s: Simulation<LF>,
    n: nat,
    attempt: RemoveAttempt,
)
    requires
        s.inv(n),
        attempt.valid(s.help, n),
        s.help.head() == attempt.head,
        s.help.nodes[attempt.next as int].value matches Some(b) && s.record(b as int).completed(),
    ensures
        ({
            let new = Simulation { help: s.help.after_head(), ..s };
            &&& new.inv(n)
            &&& s.evolves(new, n)
            &&& new.queue() == s.queue().drop_first()
            &&& !new.queue().contains(s.help.nodes[attempt.next as int].value.unwrap())
        }),
{
    s.lemma_parts(n);
    let m = s.help;
    let new = Simulation { help: m.after_head(), ..s };
    attempt.lemma_head(m, n);
    assert forall|i: int| 0 <= i < n implies #[trigger] new.help.announced(i) == m.announced(
        i,
    ) by {
        assert(new.help.desc(i) == m.desc(i));
    }
    assert forall|i: int| 0 <= i < n && m.idle(i) implies #[trigger] new.help.idle(i) by {
        assert(new.help.desc(i) == m.desc(i));
    }
    s.lemma_removed(new, n);
}

/// A list that fails does so at a place in it, and without compare-and-sets it
/// succeeds.
pub proof fn law_failure_is_in_the_list<C: VersionedCas>(
    list: Seq<C>,
    before: usize,
    after: usize,
    ends: spec_fn(&mut ContentionMeasure) -> usize,
    result: Result<(), CasExecutionFailure>,
)
    requires
        list.len() <= usize::MAX,
        crate::cas::carried_out(list, before, after, ends, result),
    ensures
        result matches Err(CasExecutionFailure::CasFailed(i)) ==> i < list.len(),
        list.len() == 0 ==> result is Ok && after == before,
{
}

/// During a visit, the call that ends it is the last one.
pub proof fn lemma_trace_ends<C: VersionedCas>(
    visit: CasVisit,
    cas: C,
    trace: Seq<CasStep>,
    before: usize,
    after: usize,
    ends: spec_fn(&mut ContentionMeasure) -> usize,
    k: int,
)
    requires
        visit.traced(cas, trace, before, after, ends),
        0 <= k < trace.len(),
    ensures
        trace[k].call.after(trace[k].answer) == CasCall::End(visit) <==> k == trace.len() - 1,
        trace[k].call.after(trace[k].answer) is End <==> k == trace.len() - 1,
        k < trace.len() - 1 ==> trace[k + 1].call == trace[k].call.after(trace[k].answer)
            && trace[k + 1].before == trace[k].after,
        trace[k].call.answered(cas, trace[k].answer, trace[k].before, trace[k].after, ends),
{
    if k < trace.len() - 1 {
        assert(CasStep::in_order(trace, k + 1));
        assert(trace[k + 1].call.answered(
            cas,
            trace[k + 1].answer,
            trace[k + 1].before,
            trace[k + 1].after,
            ends,
        ));
    }
}

/// A compare-and-set that has been decided is not tried, and the measure stays:
/// of one that has taken effect only the mark is taken off, and one that has
/// failed is left alone.
pub proof fn law_decided_is_not_tried<C: VersionedCas>(
    visit: CasVisit,
    cas: C,
    trace: Seq<CasStep>,
    before: usize,
    after: usize,
    ends: spec_fn(&mut ContentionMeasure) -> usize,
)
    requires
        visit.traced(cas, trace, before, after, ends),
    ensures
        trace[0].answer == CasAnswer::State(CasState::Success) ==> {
            &&& trace.len() == 2
            &&& trace[1].call == (CasCall::Clear { tried: false })
            &&& visit is Done
            &&& forall|i: usize| #[trigger] visit.verdict_spec(i) is Ok
            &&& after == before
        },
        trace[0].answer == CasAnswer::State(CasState::Failure) ==> {
            &&& trace.len() == 1
            &&& visit is Failed
            &&& forall|i: usize| #[trigger]
                visit.verdict_spec(i) == Err::<(), _>(CasExecutionFailure::CasFailed(i))
            &&& after == before
        },
{
    lemma_trace_ends(visit, cas, trace, before, after, ends, 0);
    if trace.len() > 1 {
        lemma_trace_ends(visit, cas, trace, before, after, ends, 1);
    }
}

/// A compare-and-set that meets contention is left alone: its mark and its state
/// are not touched.
pub proof fn law_contended_is_left_alone<C: VersionedCas>(
    visit: CasVisit,
    cas: C,
    trace: Seq<CasStep>,
    before: usize,
    after: usize,
    ends: spec_fn(&mut ContentionMeasure) -> usize,
)
    requires
        visit.traced(cas, trace, before, after, ends),
        trace[0].answer == CasAnswer::State(CasState::Pending),
    ensures
        trace.len() >= 2,
        trace[1].call is Execute,
        trace[1].before == before,
        trace[1].answer->Executed_0 is Err ==> {
            &&& trace.len() == 2
            &&& visit is Contended
            &&& forall|i: usize| #[trigger]
                visit.verdict_spec(i) == Err::<(), _>(CasExecutionFailure::Contention)
        },
{
    lemma_trace_ends(visit, cas, trace, before, after, ends, 0);
    lemma_trace_ends(visit, cas, trace, before, after, ends, 1);
}

/// A compare-and-set that has left its mark is told that it has succeeded, only
/// then loses the mark, and only then is asked how far it has come. What trying
/// it returned makes no difference.
pub proof fn law_marked_is_settled<C: VersionedCas>(
    visit: CasVisit,
    cas: C,
    trace: Seq<CasStep>,
    before: usize,
    after: usize,
    ends: spec_fn(&mut ContentionMeasure) -> usize,
    i: usize,
)
    requires
        visit.traced(cas, trace, before, after, ends),
        trace[0].answer == CasAnswer::State(CasState::Pending),
        trace[1].answer->Executed_0 is Ok,
        trace[2].answer == CasAnswer::Modified(true),
    ensures
        trace.len() >= 6,
        trace[2].call is HasModifiedBit,
        trace[3].call is SetSuccess,
        trace[4].call == (CasCall::Clear { tried: true }),
        trace[5].call == (CasCall::StateAgain { modified: true }),
        trace[5].answer == CasAnswer::State(CasState::Success) ==> trace.len() == 6
            && visit.verdict_spec(i) is Ok,
        trace[5].answer != CasAnswer::State(CasState::Success) ==> {
            &&& trace.len() == 7
            &&& trace[6].call is SetFailure
            &&& visit.verdict_spec(i) == Err::<(), _>(CasExecutionFailure::CasFailed(i))
        },
        after == trace[1].after,
{
    lemma_trace_ends(visit, cas, trace, before, after, ends, 0);
    lemma_trace_ends(visit, cas, trace, before, after, ends, 1);
    lemma_trace_ends(visit, cas, trace, before, after, ends, 2);
    lemma_trace_ends(visit, cas, trace, before, after, ends, 3);
    lemma_trace_ends(visit, cas, trace, before, after, ends, 4);
    lemma_trace_ends(visit, cas, trace, before, after, ends, 5);
    if trace.len() > 6 {
        lemma_trace_ends(visit, cas, trace, before, after, ends, 6);
    }
}

/// A compare-and-set that has left no mark is asked again how far it has come,
/// because another handle may have settled it. If it has succeeded it counts as
/// such and is left alone; if not, it is told that it has failed, and the list
/// fails there. What trying it returned makes no difference.
pub proof fn law_unmarked_is_asked_again<C: VersionedCas>(
    visit: CasVisit,
    cas: C,
    trace: Seq<CasStep>,
    before: usize,
    after: usize,
    ends: spec_fn(&mut ContentionMeasure) -> usize,
    i: usize,
)
    requires
        visit.traced(cas, trace, before, after, ends),
        trace[0].answer == CasAnswer::State(CasState::Pending),
        trace[1].answer->Executed_0 is Ok,
        trace[2].answer == CasAnswer::Modified(false),
    ensures
        trace.len() >= 4,
        trace[3].call == (CasCall::StateAgain { modified: false }),
        trace[3].answer == CasAnswer::State(CasState::Success) ==> trace.len() == 4
            && visit.verdict_spec(i) is Ok,
        trace[3].answer != CasAnswer::State(CasState::Success) ==> {
            &&& trace.len() == 5
            &&& trace[4].call is SetFailure
            &&& visit.verdict_spec(i) == Err::<(), _>(CasExecutionFailure::CasFailed(i))
        },
        after == trace[1].after,
{
    lemma_trace_ends(visit, cas, trace, before, after, ends, 0);
    lemma_trace_ends(visit, cas, trace, before, after, ends, 1);
    lemma_trace_ends(visit, cas, trace, before, after, ends, 2);
    lemma_trace_ends(visit, cas, trace, before, after, ends, 3);
    if trace.len() > 4 {
        lemma_trace_ends(visit, cas, trace, before, after, ends, 4);
    }
}

/// A measure that stays from each visit to the next is the same after all.
proof fn lemma_counts_stay(counts: Seq<usize>, k: int)
    requires
        0 <= k < counts.len(),
        forall|j: int| 0 < j < counts.len() ==> #[trigger] counts[j] == counts[j - 1],
    ensures
        counts[k] == counts[0],
    decreases k,
{
    if k > 0 {
        lemma_counts_stay(counts, k - 1);
    }
}

/// What is found as the visit `first` left it is neither tried nor told anything.
proof fn lemma_found<C: VersionedCas>(
    first: CasVisit,
    second: CasVisit,
    cas: C,
    trace: Seq<CasStep>,
    before: usize,
    after: usize,
    ends: spec_fn(&mut ContentionMeasure) -> usize,
)
    requires
        second.traced(cas, trace, before, after, ends),
        !(first is Contended),
        trace[0].answer == CasAnswer::State(first.left()),
    ensures
        first.settles(second),
        after == before,
        forall|j: int|
            0 <= j < trace.len() ==> (#[trigger] trace[j]).call is State || trace[j].call is Clear,
{
    law_decided_is_not_tried(second, cas, trace, before, after, ends);
}

/// Two passes end alike if each visit of the second finds what the first left.
proof fn lemma_same_end(
    first: Seq<CasVisit>,
    second: Seq<CasVisit>,
    len: nat,
    result: Result<(), CasExecutionFailure>,
    again: Result<(), CasExecutionFailure>,
)
    requires
        crate::cas::ended(first, len, result),
        crate::cas::ended(second, len, again),
        result != Err::<(), _>(CasExecutionFailure::Contention),
        forall|k: int|
            0 <= k < first.len() && k < second.len() ==> first[k].settles(#[trigger] second[k]),
    ensures
        again == result,
        second.len() == first.len(),
{
    let i = first.len() - 1;
    let j = second.len() - 1;
    if result is Err {
        assert(!(first[i].verdict_spec(i as usize) is Ok));
        if i <= j {
            assert(first[i].settles(second[i]));
        }
    } else {
        assert(result->Ok_0 == ());
    }
    if again is Err {
        if j <= i {
            assert(first[j].settles(second[j]));
            assert(result is Ok || j < i ==> first[j].verdict_spec(j as usize) is Ok);
        }
    } else {
        assert(again->Ok_0 == ());
    }
}

/// A second pass over a list that was decided gives the same result, tries
/// nothing and sets no state: if each compare-and-set is found as the first pass
/// left it, it is only asked how far it has come, and its mark taken off. The
/// measure stays.
pub proof fn law_second_pass<C: VersionedCas>(
    list: Seq<C>,
    first: Seq<CasVisit>,
    first_counts: Seq<usize>,
    result: Result<(), CasExecutionFailure>,
    second: Seq<CasVisit>,
    traces: Seq<Seq<CasStep>>,
    counts: Seq<usize>,
    ends: spec_fn(&mut ContentionMeasure) -> usize,
    again: Result<(), CasExecutionFailure>,
)
    requires
        list.len() <= usize::MAX,
        crate::cas::visited(list, first, first_counts, ends, result),
        result != Err::<(), _>(CasExecutionFailure::Contention),
        crate::cas::visited(list, second, counts, ends, again),
        traces.len() == second.len(),
        forall|k: int|
            0 <= k < second.len() ==> (#[trigger] second[k]).traced(
                list[k],
                traces[k],
                counts[k],
                counts[k + 1],
                ends,
            ),
        forall|k: int|
            0 <= k < first.len() && k < second.len() ==> (#[trigger] traces[k])[0].answer
                == CasAnswer::State(first[k].left()),
    ensures
        again == result,
        second.len() == first.len(),
        forall|k: int, j: int|
            0 <= k < traces.len() && 0 <= j < traces[k].len() ==> (#[trigger] traces[k][j]).call
                is State || traces[k][j].call is Clear,
        counts.last() == counts[0],
{
    assert forall|k: int| 0 <= k < first.len() && k < second.len() implies first[k].settles(
        #[trigger] second[k],
    ) by {
        lemma_found(first[k], second[k], list[k], traces[k], counts[k], counts[k + 1], ends);
    }
    lemma_same_end(first, second, list.len(), result, again);
    assert forall|k: int| 0 < k < counts.len() implies #[trigger] counts[k] == counts[k - 1] by {
        let j = k - 1;
        lemma_found(first[j], second[j], list[j], traces[j], counts[j], counts[j + 1], ends);
    }
    lemma_counts_stay(counts, counts.len() - 1);
    assert forall|k: int, j: int| 0 <= k < traces.len() && 0 <= j < traces[k].len() implies (
    #[trigger] traces[k][j]).call is State || traces[k][j].call is Clear by {
        lemma_found(first[k], second[k], list[k], traces[k], counts[k], counts[k + 1], ends);
    }
}

/// An operation leaves the queue only when it has completed.
pub proof fn law_leaves_when_completed<LF: NormalizedLockFree>(
    earlier: Simulation<LF>,
    later: Simulation<LF>,
    n: nat,
    b: int,
)
    requires
        later.inv(n),
        earlier.evolves(later, n),
        0 <= b < earlier.boxes.len(),
        !later.in_flight(b, n),
    ensures
        later.record(b).completed(),
{
    earlier.lemma_extended(later, n, b);
    later.lemma_operation(n, b);
}

/// What is queued later, and had been asked for already, was queued or announced
/// before. Here `i` is its place in the later order of linking.
proof fn lemma_queued_before<LF: NormalizedLockFree>(
    earlier: Simulation<LF>,
    later: Simulation<LF>,
    n: nat,
    i: int,
)
    requires
        earlier.inv(n),
        later.inv(n),
        earlier.evolves(later, n),
        later.help.h < i < later.help.log.len(),
        later.help.nodes[later.help.log[i] as int].value.unwrap() < earlier.boxes.len(),
    ensures
        ({
            let orb = later.help.nodes[later.help.log[i] as int].value.unwrap();
            ||| {
                &&& earlier.help.h < i < earlier.help.log.len()
                &&& earlier.queue()[i - earlier.help.h - 1] == orb
            }
            ||| exists|id: int|
                0 <= id < n && #[trigger] earlier.help.announced(id) == Some(orb)
        }),
{
    earlier.lemma_parts(n);
    later.lemma_parts(n);
    earlier.lemma_memory(later, n);
    earlier.lemma_announced_once(later, n);
    let x = later.help.log[i];
    let orb = later.help.nodes[x as int].value.unwrap();
    later.help.lemma_pos(i);
    later.help.lemma_pos(0);
    assert(later.help.nodes[x as int].value is Some);
    assert(x < earlier.help.nodes.len());
    assert(later.help.nodes[x as int].value == earlier.help.nodes[x as int].value);
    if earlier.help.linked(x) {
        earlier.help.lemma_pos_kept(later.help, n, x);
    } else {
        assert(earlier.help.awaited(x as int));
        let id = earlier.help.nodes[x as int].enq_id.unwrap() as int;
        assert(earlier.help.announced(id) == Some(orb));
    }
}

/// An operation that was at the front of the queue is still there, or has left
/// for good, whatever other handles have done meanwhile.
pub proof fn law_front_stays_or_has_left<LF: NormalizedLockFree>(
    earlier: Simulation<LF>,
    later: Simulation<LF>,
    n: nat,
    orb: usize,
)
    requires
        earlier.inv(n),
        later.inv(n),
        earlier.evolves(later, n),
        earlier.queue().len() > 0,
        earlier.queue()[0] == orb,
    ensures
        later.queue().contains(orb) ==> later.queue()[0] == orb,
        forall|id: int| 0 <= id < n ==> #[trigger] later.help.announced(id) != Some(orb),
{
    earlier.lemma_parts(n);
    later.lemma_parts(n);
    earlier.lemma_memory(later, n);
    assert(earlier.queue().contains(orb));
    if later.queue().contains(orb) {
        let q = later.queue().index_of(orb);
        let i = later.help.h as int + 1 + q;
        lemma_queued_before(earlier, later, n, i);
        assert(i - earlier.help.h - 1 == 0);
    }
    assert forall|id: int| 0 <= id < n implies #[trigger] later.help.announced(id) != Some(
        orb,
    ) by {
        if later.help.announced(id) == Some(orb) {
            lemma_announced_before(earlier, later, n, id);
        }
    }
}

/// What is announced later, and had been asked for already, was announced before.
proof fn lemma_announced_before<LF: NormalizedLockFree>(
    earlier: Simulation<LF>,
    later: Simulation<LF>,
    n: nat,
    id: int,
)
    requires
        earlier.inv(n),
        later.inv(n),
        earlier.evolves(later, n),
        0 <= id < n,
        later.help.announced(id) matches Some(orb) && orb < earlier.boxes.len(),
    ensures
        earlier.help.announced(id) == later.help.announced(id),
{
    earlier.lemma_parts(n);
    later.lemma_parts(n);
    earlier.lemma_memory(later, n);
    earlier.lemma_announced_once(later, n);
    let x = later.help.desc(id).node.unwrap();
    assert(later.help.nodes[x as int].value is Some);
    assert(x < earlier.help.nodes.len());
    assert(later.help.nodes[x as int].value == earlier.help.nodes[x as int].value);
    assert(later.help.nodes[x as int].enq_id == Some(id as usize));
    assert(later.help.nodes[x as int].enq_id == earlier.help.nodes[x as int].enq_id);
    if earlier.help.linked(x) {
        earlier.help.lemma_pos_kept(later.help, n, x);
    } else {
        assert(earlier.help.awaited(x as int));
    }
}

/// An operation that has left the queue never comes back.
pub proof fn law_left_for_good<LF: NormalizedLockFree>(
    earlier: Simulation<LF>,
    later: Simulation<LF>,
    n: nat,
    orb: usize,
)
    requires
        earlier.inv(n),
        later.inv(n),
        earlier.evolves(later, n),
        orb < earlier.boxes.len(),
        !earlier.in_flight(orb as int, n),
    ensures
        !later.in_flight(orb as int, n),
{
    later.lemma_parts(n);
    if later.queue().contains(orb) {
        let q = later.queue().index_of(orb);
        let i = later.help.h as int + 1 + q;
        lemma_queued_before(earlier, later, n, i);
        if earlier.help.h < i < earlier.help.log.len() && earlier.queue()[i - earlier.help.h - 1]
            == orb {
            assert(earlier.queue().contains(orb));
        }
    } else if later.in_flight(orb as int, n) {
        let id = choose|id: int|
            0 <= id < n && #[trigger] later.help.announced(id) == Some(orb);
        lemma_announced_before(earlier, later, n, id);
        assert(earlier.help.announced(id) == Some(orb));
    }
}

/// Whoever helps the operation that it found at the front of the queue, and tries
/// to remove it once it has completed, leaves it out of the queue for good,
/// whatever other handles did meanwhile, and whether or not it was the one to
/// remove it. Here `found` is the simulation in which the operation was at the
/// front, `before` and `after` are those around the removal, and `later` is any
/// that comes of it.
pub proof fn law_helped_has_left<LF: NormalizedLockFree>(
    found: Simulation<LF>,
    before: Simulation<LF>,
    after: Simulation<LF>,
    later: Simulation<LF>,
    n: nat,
    orb: usize,
)
    requires
        found.inv(n),
        before.inv(n),
        after.inv(n),
        later.inv(n),
        found.evolves(before, n),
        before.evolves(after, n),
        after.evolves(later, n),
        found.queue().len() > 0,
        found.queue()[0] == orb,
        before.removed(after, orb),
    ensures
        !later.queue().contains(orb),
        later.record(orb as int).completed(),
{
    found.lemma_parts(n);
    before.lemma_parts(n);
    found.lemma_extended(before, n, orb as int);
    law_front_stays_or_has_left(found, before, n, orb);
    found.lemma_evolves_trans(before, after, n);
    law_front_stays_or_has_left(found, after, n, orb);
    assert(!after.queue().contains(orb)) by {
        if after.queue().contains(orb) {
            let i = after.queue().index_of(orb);
            if before.queue().len() > 0 && before.queue()[0] == orb {
                assert(before.queue()[i + 1] == orb);
            }
        }
    }
    assert(!after.in_flight(orb as int, n));
    found.lemma_extended(after, n, orb as int);
    law_left_for_good(after, later, n, orb);
    law_leaves_when_completed(after, later, n, orb as int);
}

/// When a request has ended, its operation is in the queue or has completed, and
/// goes back to the input that was given; its handle may begin the next request.
/// This holds whatever other handles did between its accesses.
pub proof fn law_request_is_queued<LF: NormalizedLockFree>(
    run: RequestRun<LF>,
    s: Simulation<LF>,
    n: nat,
)
    requires
        s.inv(n),
        s.help.orderly(n),
        run.ok(s, n),
        run.enqueue.step is End,
    ensures
        ({
            let ticket = run.enqueue.value as int;
            &&& 0 <= ticket < s.boxes.len()
            &&& s.boxes[ticket][0] == OperationRecord::<LF>::initial(run.owner, run.op@)
            &&& s.queue().contains(ticket as usize) || s.record(ticket).completed()
        }),
        s.help.idle(run.enqueue.owner as int),
        s.help.caught_up(n, run.enqueue.owner),
{
    let ticket = run.enqueue.value;
    let node = run.enqueue.node();
    s.lemma_parts(n);
    law_enqueue_carries_out(run.enqueue, s.help, n);
    law_enqueue_ends_ready(run.enqueue, s.help, n);
    s.lemma_operation(n, ticket as int);
    if s.in_flight(ticket as int, n) && !s.queue().contains(ticket) {
        let id = choose|id: int| 0 <= id < n && #[trigger] s.help.announced(id) == Some(ticket);
        let x = s.help.desc(id).node.unwrap();
        assert(s.help.nodes[x as int].value == Some(ticket));
        assert(x != node);
        assert(s.help.log[s.help.pos(node)] == node);
        assert(node > 0);
    }
}

/// Requests of different handles can be interleaved access by access: whatever
/// access `other` makes, `run` can go on from there.
pub proof fn law_requests_interleave<LF: NormalizedLockFree>(
    run: RequestRun<LF>,
    other: RequestRun<LF>,
    next: RequestRun<LF>,
    s: Simulation<LF>,
    new: Simulation<LF>,
    n: nat,
)
    requires
        s.inv(n),
        new.inv(n),
        s.evolves(new, n),
        run.ok(s, n),
        run.enqueue.owner != other.enqueue.owner,
        other.steps_to(next, s, new, n),
    ensures
        run.ok(new, n),
{
    s.lemma_parts(n);
    new.lemma_parts(n);
    s.lemma_memory(new, n);
    other.named(s).lemma_silent(next.enqueue, s.help, new.help, n, run.enqueue.owner);
    run.lemma_kept(s, new, n);
}

/// Once the operation at the front has been helped until it was done with, it has
/// completed and stays out of the queue. Here `helped` is what helping has made of
/// the simulation, and `later` is any that comes of it.
pub proof fn law_front_is_gone<LF: NormalizedLockFree>(
    found: Simulation<LF>,
    helped: Simulation<LF>,
    later: Simulation<LF>,
    n: nat,
    budget: nat,
)
    requires
        found.inv(n),
        helped.inv(n),
        later.inv(n),
        found.evolves(helped, n),
        helped.evolves(later, n),
        found.queue().len() > 0,
        found.first_helped(helped, n, budget, true),
    ensures
        later.record(found.queue()[0] as int).completed(),
        !later.queue().contains(found.queue()[0]),
{
    let first = found.queue()[0];
    found.lemma_parts(n);
    found.lemma_extended(helped, n, first as int);
    law_front_stays_or_has_left(found, helped, n, first);
    assert(!helped.queue().contains(first)) by {
        if helped.queue().contains(first) {
            let i = helped.queue().index_of(first);
            assert(found.queue()[i + 1] == first);
        }
    }
    assert(!helped.in_flight(first as int, n));
    law_left_for_good(helped, later, n, first);
    law_completed_for_good(helped, later, n, first as int);
}

/// What one record of an operation calls for stays what it calls for, however
/// far others have brought the operation meanwhile.
pub proof fn law_plan_stays<LF: NormalizedLockFree>(
    earlier: Simulation<LF>,
    later: Simulation<LF>,
    n: nat,
    b: int,
    seen: int,
    updated: OperationRecord<LF>,
)
    requires
        earlier.evolves(later, n),
        0 <= b < earlier.boxes.len(),
        0 <= seen < earlier.boxes[b].len(),
        earlier.boxes[b][seen].leads_to(earlier.algorithm, updated),
    ensures
        seen < later.boxes[b].len(),
        later.boxes[b][seen].leads_to(later.algorithm, updated),
{
    earlier.lemma_extended(later, n, b);
    assert(later.boxes[b][seen] == earlier.boxes[b][seen]);
}

/// An operation that has completed keeps its output for good.
pub proof fn law_completed_for_good<LF: NormalizedLockFree>(
    earlier: Simulation<LF>,
    later: Simulation<LF>,
    n: nat,
    b: int,
)
    requires
        earlier.inv(n),
        later.inv(n),
        earlier.evolves(later, n),
        0 <= b < earlier.boxes.len(),
        earlier.record(b).completed(),
    ensures
        later.boxes[b] == earlier.boxes[b],
{
    earlier.lemma_extended(later, n, b);
    earlier.lemma_operation(n, b);
    later.lemma_operation(n, b);
    let last = earlier.boxes[b].len() - 1;
    assert(later.boxes[b][last] == earlier.boxes[b][last]);
    if later.boxes[b].len() > last + 1 {
        assert(later.advanced(b, last));
    }
    assert(later.boxes[b] =~= earlier.boxes[b]);
}

/// An operation that needed help to run has its output from its completed
/// record, which goes back to the input that was given, and is no longer in the
/// queue.
pub proof fn law_run_with_help<LF: NormalizedLockFree>(
    before: Simulation<LF>,
    after: Simulation<LF>,
    n: nat,
    id: usize,
    owner: u64,
    op: LF::Input,
    patience: nat,
    output: LF::Output,
)
    requires
        before.boxes.len() <= usize::MAX,
        before.ran(after, n, id, owner, op, patience, RunOutcome::Done(output)),
        after.boxes.len() > before.boxes.len(),
    ensures
        ({
            let ticket = before.boxes.len();
            &&& after.boxes.len() == ticket + 1
            &&& after.boxes[ticket as int][0] == OperationRecord::<LF>::initial(owner, op)
            &&& after.record(ticket as int).state matches OperationState::Completed(result)
                && vstd::pervasive::strictly_cloned(result, output)
            &&& !after.queue().contains(ticket as usize)
        }),
{
    let ticket = before.boxes.len() as usize;
    let helped = choose|helped: Simulation<LF>| #[trigger]
        before.first_helped(helped, n, patience, true) && helped.ran_slow(
            after,
            n,
            id,
            owner,
            op,
            patience,
            RunOutcome::Done(output),
        );
    let asked = choose|asked: Simulation<LF>| #[trigger]
        helped.requested(asked, n, id, owner, op) && asked.evolves(after, n) && asked.resumed(
            after,
            n,
            ticket,
            patience,
            Some(output),
        );
    assert(asked.boxes[ticket as int].last() == OperationRecord::<LF>::initial(owner, op));
    assert(!asked.record(ticket as int).completed());
    asked.lemma_extended(after, n, ticket as int);
}

/// A run tries its own operation only after the operation that was at the front
/// of the queue has completed and left. Otherwise the operation is handed back,
/// and nothing but the records of the one at the front has changed.
pub proof fn law_front_first<LF: NormalizedLockFree>(
    before: Simulation<LF>,
    after: Simulation<LF>,
    n: nat,
    id: usize,
    owner: u64,
    op: LF::Input,
    patience: nat,
    outcome: RunOutcome<LF>,
)
    requires
        before.ran(after, n, id, owner, op, patience, outcome),
        before.queue().len() > 0,
    ensures
        match outcome {
            RunOutcome::Busy(handed) => {
                &&& handed == op
                &&& after.help == before.help
                &&& after.boxes.len() == before.boxes.len()
                &&& forall|b: int|
                    0 <= b < before.boxes.len() && b != before.queue()[0]
                        ==> #[trigger] after.boxes[b] == before.boxes[b]
            },
            _ => exists|helped: Simulation<LF>| #[trigger]
                before.first_helped(helped, n, patience, true) && {
                    &&& helped.record(before.queue()[0] as int).completed()
                    &&& helped.queue() == before.queue().drop_first()
                    &&& after == helped || helped.ran_slow(
                        after,
                        n,
                        id,
                        owner,
                        op,
                        patience,
                        outcome,
                    )
                },
        },
{
}

/// An operation that is not disturbed has at most as many records as it has
/// stages.
proof fn lemma_undisturbed<LF: NormalizedLockFree>(s: Simulation<LF>, n: nat, b: int)
    requires
        s.inv(n),
        0 <= b < s.boxes.len(),
        s.undisturbed(b),
    ensures
        0 < s.boxes[b].len() <= 4,
{
    s.lemma_operation(n, b);
    if s.boxes[b].len() > 4 {
        assert(s.advanced(b, 0));
        assert(s.advanced(b, 1));
        assert(s.advanced(b, 2));
        assert(s.advanced(b, 3));
        assert(!(s.boxes[b][3].state is PreCas));
    }
}

/// An operation that is not disturbed completes and leaves the queue when it is
/// helped in four steps: generating, carrying out, wrapping up, and removing.
pub proof fn law_undisturbed_front_leaves<LF: NormalizedLockFree>(
    before: Simulation<LF>,
    after: Simulation<LF>,
    n: nat,
    budget: nat,
    done: bool,
)
    requires
        before.inv(n),
        after.inv(n),
        before.first_helped(after, n, budget, done),
        budget >= 4,
        before.queue().len() > 0 ==> after.undisturbed(before.queue()[0] as int),
    ensures
        done,
{
    if before.queue().len() > 0 {
        let first = before.queue()[0] as int;
        before.lemma_parts(n);
        before.lemma_operation(n, first);
        lemma_undisturbed(after, n, first);
        if !done && after.met_contention(first, before.boxes[first].len() - 1) {
            let k = choose|k: int|
                before.boxes[first].len() - 1 <= k < after.boxes[first].len() && (
                #[trigger] after.boxes[first][k]).refused(after.algorithm);
            assert(after.met_contention(first, 0));
        }
    }
}

/// An operation that is run while no other needs help returns its own output,
/// from compare-and-sets that were generated for what it was given, unless it is
/// disturbed even when it is helped. The queue is empty again
/// afterwards and nothing is announced, so the next run fares alike.
pub proof fn law_undisturbed_run<LF: NormalizedLockFree>(
    before: Simulation<LF>,
    after: Simulation<LF>,
    n: nat,
    id: usize,
    owner: u64,
    op: LF::Input,
    patience: nat,
    outcome: RunOutcome<LF>,
)
    requires
        before.inv(n),
        after.inv(n),
        before.boxes.len() < usize::MAX,
        id < n,
        before.queue().len() == 0,
        forall|i: int| 0 <= i < n ==> #[trigger] before.help.announced(i) is None,
        before.ran(after, n, id, owner, op, patience, outcome),
        patience >= 4,
        after.boxes.len() > before.boxes.len() ==> after.undisturbed(before.boxes.len() as int),
    ensures
        outcome matches RunOutcome::Done(output) && {
            ||| after == before && crate::operation::went_fast(before.algorithm, op, Ok(output))
            ||| {
                let ticket = before.boxes.len() as int;
                &&& after.boxes.len() == ticket + 1
                &&& after.boxes[ticket][0] == OperationRecord::<LF>::initial(owner, op)
                &&& after.boxes[ticket][1].state matches OperationState::ExecuteCas(list)
                    && crate::operation::generated(before.algorithm, op, Ok(list))
                &&& after.record(ticket).state matches OperationState::Completed(result)
                    && vstd::pervasive::strictly_cloned(result, output)
            }
        },
        after.queue().len() == 0,
        forall|i: int| 0 <= i < n ==> #[trigger] after.help.announced(i) is None,
{
    let ticket = before.boxes.len() as usize;
    if after != before || !(outcome is Done) {
        assert(before.ran_slow(after, n, id, owner, op, patience, outcome)) by {
            let (helped, done) = choose|helped: Simulation<LF>, done: bool| #[trigger]
                before.first_helped(helped, n, patience, done) && before.ran_from(
                    helped,
                    done,
                    after,
                    n,
                    id,
                    owner,
                    op,
                    patience,
                    outcome,
                );
            assert(done && helped == before);
        }
        let output = match outcome {
            RunOutcome::Done(out) => Some(out),
            _ => None,
        };
        let asked = choose|asked: Simulation<LF>| #[trigger]
            before.requested(asked, n, id, owner, op) && asked.evolves(after, n) && asked.resumed(
                after,
                n,
                ticket,
                patience,
                output,
            );
        asked.lemma_extended(after, n, ticket as int);
        after.lemma_operation(n, ticket as int);
        assert(after.boxes[ticket as int].len() > 1 ==> after.advanced(ticket as int, 0));
        law_enqueue_alone(before.help, n, id as int, ticket);
        assert(asked.queue() =~= seq![ticket]);
        assert(asked.boxes[ticket as int].last() == OperationRecord::<LF>::initial(owner, op));
        lemma_undisturbed(after, n, ticket as int);
        let k = choose|k: int|
            0 <= k <= asked.queue().len() && after.queue() == #[trigger] asked.queue().skip(k);
        if k == 0 {
            assert(after.queue()[0] == ticket);
            assert(after.queue().contains(ticket));
        }
        if outcome is Waiting {
            assert(after.queue().contains(ticket));
            assert(after.queue()[0] == ticket);
            assert(after.met_contention(ticket as int, 0));
        }
        assert forall|i: int| 0 <= i < n implies #[trigger] after.help.announced(i) is None by {
            assert(asked.help.idle(i));
            assert(after.help.idle(i));
        }
    }
}

/// The output of an operation is what the algorithm's wrap-up made of the
/// compare-and-sets that its generator asked for, after they were carried out.
pub proof fn law_completed_by_rule<LF: NormalizedLockFree>(s: Simulation<LF>, n: nat, b: int)
    requires
        s.inv(n),
        0 <= b < s.boxes.len(),
        s.record(b).completed(),
    ensures
        ({
            let last = s.boxes[b].len() - 1;
            &&& last >= 3
            &&& s.boxes[b][last - 3].state is PreCas
            &&& s.boxes[b][last - 2].state is ExecuteCas
            &&& s.boxes[b][last - 1].state is PostCas
            &&& s.advanced(b, last - 3)
            &&& s.advanced(b, last - 2)
            &&& s.advanced(b, last - 1)
        }),
{
    s.lemma_operation(n, b);
    let last = s.boxes[b].len() - 1;
    assert(s.boxes[b][last].completed());
    assert(last > 0);
    assert(s.advanced(b, last - 1));
    assert(last > 1);
    assert(s.advanced(b, last - 2));
    assert(last > 2);
    assert(s.advanced(b, last - 3));
}

/// All records of an operation belong to the thread that asked for it.
pub proof fn law_owner_stays<LF: NormalizedLockFree>(s: Simulation<LF>, n: nat, b: int, k: int)
    requires
        s.inv(n),
        0 <= b < s.boxes.len(),
        0 <= k < s.boxes[b].len(),
    ensures
        s.boxes[b][k].owner == s.boxes[b][0].owner,
    decreases k,
{
    if k > 0 {
        s.lemma_operation(n, b);
        law_owner_stays(s, n, b, k - 1);
        assert(s.advanced(b, k - 1));
    }
}

/// No handle can be given out exactly if all are in use.
pub proof fn law_all_in_use<LF: NormalizedLockFree>(s: Simulation<LF>, n: nat)
    requires
        s.inv(n),
    ensures
        s.free_ids.len() == 0 <==> forall|id: int|
            0 <= id < n ==> #[trigger] s.in_use(id, n),
{
    s.lemma_parts(n);
    if s.free_ids.len() > 0 {
        let id = s.free_ids[0];
        assert(s.free_ids.contains(id));
        assert(!s.in_use(id as int, n));
    }
}

/// A handle that is given back is the next one to be given out, and doing both
/// leaves everything as it was.
pub proof fn law_release_then_fork<LF: NormalizedLockFree>(s: Simulation<LF>, id: usize)
    ensures
        ({
            let released = Simulation { free_ids: s.free_ids.push(id), ..s };
            &&& released.free_ids.last() == id
            &&& (Simulation { free_ids: released.free_ids.drop_last(), ..released }) == s
        }),
{
    assert(s.free_ids.push(id).drop_last() =~= s.free_ids);
}

} // verus!
