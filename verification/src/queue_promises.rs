//! What the operations on the help queue, and on the handles of a simulator,
//! promise to those who call them, said in terms of what they are given and what
//! comes back.
use vstd::prelude::*;
use vstd::std_specs::cmp::PartialEqSpec;

use crate::help_memory::Memory;
use crate::help_queue::WaitFreeHelpQueue;
use crate::operation::{NormalizedLockFree, OperationRecord};
use crate::simulation::Simulation;
use crate::simulator::{Handle, TooManyHandles, WaitFreeSimulator};

verus! {

/// A new queue is empty, and nobody has announced anything.
pub proof fn law_new_queue_is_empty<T: Copy + Eq, const N: usize>(queue: WaitFreeHelpQueue<T, N>)
    requires
        call_ensures(WaitFreeHelpQueue::<T, N>::new, (), queue),
    ensures
        queue@.values().len() == 0,
        forall|id: int| 0 <= id < N ==> #[trigger] queue@.announced(id) is None,
        forall|id: int| 0 <= id < N ==> !#[trigger] queue@.pending(id),
{
    assert forall|id: int| 0 <= id < N implies #[trigger] queue@.announced(id) is None by {
        assert(queue@.idle(id));
    }
    assert forall|id: int| 0 <= id < N implies !#[trigger] queue@.pending(id) by {
        assert(queue@.idle(id));
    }
}

/// Looking at the front of the queue shows its oldest value, and removing a value
/// succeeds exactly if it equals what looking would have shown. Then only that one
/// value has gone; otherwise nothing has changed.
pub proof fn law_peek_and_remove<T: Copy + Eq, const N: usize>(front: T)
    ensures
        forall|queue: &WaitFreeHelpQueue<T, N>, seen: Option<T>| #[trigger]
            call_ensures(WaitFreeHelpQueue::<T, N>::peek, (queue,), seen) ==> {
                &&& seen is None <==> queue@.values().len() == 0
                &&& seen matches Some(v) ==> v == queue@.values()[0]
            },
        forall|queue: &mut WaitFreeHelpQueue<T, N>, removed: Result<(), ()>| #[trigger]
            call_ensures(WaitFreeHelpQueue::<T, N>::try_remove_front, (queue, front), removed) ==> {
                let before = (*queue)@.values();
                let after = (*final(queue))@.values();
                &&& removed is Ok <==> before.len() > 0 && before[0].eq_spec(&front)
                &&& removed is Ok ==> {
                    &&& after.len() == before.len() - 1
                    &&& forall|i: int| 0 <= i < after.len() ==> #[trigger] after[i] == before[i + 1]
                }
                &&& removed is Err ==> after == before
                &&& removed is Ok ==> forall|id: int|
                    0 <= id < N ==> #[trigger] (*final(queue))@.announced(id)
                        == (*queue)@.announced(id)
            },
{
}

/// Whether handle `i` has something to be queued, when handle `id` enqueues.
pub open spec fn contributes<T>(m: Memory<T>, id: int, i: int) -> bool {
    i == id || m.announced(i) is Some
}

/// What handle `i` has to be queued, when handle `id` enqueues `value`.
pub open spec fn contribution<T>(m: Memory<T>, id: int, value: T, i: int) -> T {
    if i == id {
        value
    } else {
        m.announced(i).unwrap()
    }
}

/// How many of the handles below `k` have something to be queued, when handle `id`
/// enqueues.
pub open spec fn contributors<T>(m: Memory<T>, id: int, k: nat) -> nat
    decreases k,
{
    if k == 0 {
        0
    } else {
        contributors(m, id, (k - 1) as nat) + if contributes(m, id, k - 1) {
            1nat
        } else {
            0nat
        }
    }
}

/// Everything that is to be queued comes in the order of the handles, each once.
pub proof fn law_requests_in_order<T>(m: Memory<T>, k: nat, id: int, value: T)
    ensures
        m.requests(k, id, value).len() == contributors(m, id, k),
        forall|i: int|
            0 <= i < k && #[trigger] contributes(m, id, i) ==> {
                &&& contributors(m, id, i as nat) < contributors(m, id, k)
                &&& m.requests(k, id, value)[contributors(m, id, i as nat) as int] == contribution(
                    m,
                    id,
                    value,
                    i,
                )
            },
    decreases k,
{
    if k > 0 {
        let j = (k - 1) as nat;
        law_requests_in_order(m, j, id, value);
        let rest = m.requests(j, id, value);
        assert forall|i: int| 0 <= i < k && #[trigger] contributes(m, id, i) implies {
            &&& contributors(m, id, i as nat) < contributors(m, id, k)
            &&& m.requests(k, id, value)[contributors(m, id, i as nat) as int] == contribution(
                m,
                id,
                value,
                i,
            )
        } by {
            if i < j {
                assert(m.requests(k, id, value)[contributors(m, id, i as nat) as int]
                    == rest[contributors(m, id, i as nat) as int]);
            }
        }
        if m.announced(j as int) is Some {
            assert(contributes(m, id, j as int));
        }
    }
}

/// Enqueueing appends the value and whatever others have announced, in the order
/// of the handles, each once, and nothing else. Nothing is pending after it, and
/// the phase of the operation is the next one.
pub proof fn law_enqueue<T: Copy + Eq, const N: usize>(id: usize, value: T)
    ensures
        forall|queue: &mut WaitFreeHelpQueue<T, N>| #[trigger]
            call_ensures(WaitFreeHelpQueue::<T, N>::enqueue, (queue, id, value), ()) ==> {
                let m = (*queue)@;
                let new = (*final(queue))@;
                let old = m.values().len() as int;
                &&& new.values().len() == old + contributors(m, id as int, N as nat)
                &&& forall|i: int| 0 <= i < old ==> #[trigger] new.values()[i] == m.values()[i]
                &&& forall|i: int|
                    0 <= i < N && #[trigger] contributes(m, id as int, i) ==> new.values()[old
                        + contributors(m, id as int, i as nat)] == contribution(
                        m,
                        id as int,
                        value,
                        i,
                    )
                &&& forall|i: int| 0 <= i < N ==> !#[trigger] new.pending(i)
                &&& forall|i: int|
                    0 <= i < N && i != id ==> (#[trigger] new.desc(i)).phase == m.desc(i).phase
            },
{
    assert forall|queue: &mut WaitFreeHelpQueue<T, N>| #[trigger]
        call_ensures(WaitFreeHelpQueue::<T, N>::enqueue, (queue, id, value), ()) implies {
        let m = (*queue)@;
        let new = (*final(queue))@;
        let old = m.values().len() as int;
        &&& new.values().len() == old + contributors(m, id as int, N as nat)
        &&& forall|i: int| 0 <= i < old ==> #[trigger] new.values()[i] == m.values()[i]
        &&& forall|i: int|
            0 <= i < N && #[trigger] contributes(m, id as int, i) ==> new.values()[old
                + contributors(m, id as int, i as nat)] == contribution(m, id as int, value, i)
        &&& forall|i: int| 0 <= i < N ==> !#[trigger] new.pending(i)
        &&& forall|i: int|
            0 <= i < N && i != id ==> (#[trigger] new.desc(i)).phase == m.desc(i).phase
    } by {
        let m = (*queue)@;
        law_requests_in_order(m, N as nat, id as int, value);
    }
}

/// The next phase is higher than every phase that was announced, by one more than
/// the highest; the first is 0.
pub proof fn law_begin_enqueue<T: Copy + Eq, const N: usize>(id: usize, value: T)
    ensures
        forall|queue: &mut WaitFreeHelpQueue<T, N>, phase: u64| #[trigger]
            call_ensures(WaitFreeHelpQueue::<T, N>::begin_enqueue, (queue, id, value), phase)
                && (*queue).wf() && id < N && (*queue)@.idle(id as int) ==> {
                let m = (*queue)@;
                let new = (*final(queue))@;
                &&& forall|i: int|
                    0 <= i < N ==> ((#[trigger] m.desc(i)).phase matches Some(p) ==> p < phase)
                &&& phase > 0 ==> exists|i: int|
                    0 <= i < N && (#[trigger] m.desc(i)).phase == Some((phase - 1) as u64)
                &&& new.desc(id as int).phase == Some(phase)
                &&& new.announced(id as int) == Some(value)
                &&& new.values() == m.values()
                &&& forall|i: int|
                    0 <= i < N && i != id ==> #[trigger] new.announced(i) == m.announced(i)
            },
{
    assert forall|queue: &mut WaitFreeHelpQueue<T, N>, phase: u64| #[trigger]
        call_ensures(WaitFreeHelpQueue::<T, N>::begin_enqueue, (queue, id, value), phase)
            && (*queue).wf() && id < N && (*queue)@.idle(id as int) implies {
        let m = (*queue)@;
        let new = (*final(queue))@;
        &&& forall|i: int|
            0 <= i < N ==> ((#[trigger] m.desc(i)).phase matches Some(p) ==> p < phase)
        &&& phase > 0 ==> exists|i: int|
            0 <= i < N && (#[trigger] m.desc(i)).phase == Some((phase - 1) as u64)
        &&& new.desc(id as int).phase == Some(phase)
        &&& new.announced(id as int) == Some(value)
        &&& new.values() == m.values()
        &&& forall|i: int| 0 <= i < N && i != id ==> #[trigger] new.announced(i) == m.announced(i)
    } by {
        let m = (*queue)@;
        (*queue).lemma_wf();
        (*final(queue)).lemma_wf();
        m.lemma_announced(N as nat, id as int, phase, value);
        if phase == 0 {
            assert(m.is_max_phase(None));
        } else {
            assert(m.is_max_phase(Some((phase - 1) as u64)));
        }
    }
}

/// The latest operation of handle `i` was announced in a later phase than `phase`.
pub open spec fn later<T>(m: Memory<T>, i: int, phase: u64) -> bool {
    m.desc(i).phase is Some && m.desc(i).phase.unwrap() > phase
}

/// A handle is still to be helped exactly if its operation is pending and was not
/// announced in a later phase than the one that is asked for.
pub proof fn law_still_pending<T: Copy + Eq, const N: usize>(
    queue: &WaitFreeHelpQueue<T, N>,
    id: usize,
    phase: u64,
    pending: bool,
)
    requires
        call_ensures(WaitFreeHelpQueue::<T, N>::is_still_pending, (queue, id, phase), pending),
    ensures
        pending <==> queue@.pending(id as int) && !later(queue@, id as int, phase),
{
}

/// Whether handle `i` has announced something, no later than `phase`, that is not
/// in the queue yet.
pub open spec fn due<T>(m: Memory<T>, phase: u64, i: int) -> bool {
    m.announced(i) is Some && !later(m, i, phase)
}

/// How many of the handles below `k` have announced something no later than
/// `phase` that is not in the queue yet.
pub open spec fn due_below<T>(m: Memory<T>, phase: u64, k: nat) -> nat
    decreases k,
{
    if k == 0 {
        0
    } else {
        due_below(m, phase, (k - 1) as nat) + if due(m, phase, k - 1) {
            1nat
        } else {
            0nat
        }
    }
}

/// What is due comes in the order of the handles, each once.
pub proof fn law_backlog_in_order<T>(m: Memory<T>, k: nat, phase: u64)
    ensures
        m.backlog(k, phase).len() == due_below(m, phase, k),
        forall|i: int|
            0 <= i < k && #[trigger] due(m, phase, i) ==> {
                &&& due_below(m, phase, i as nat) < due_below(m, phase, k)
                &&& m.backlog(k, phase)[due_below(m, phase, i as nat) as int] == m.announced(
                    i,
                ).unwrap()
            },
    decreases k,
{
    if k > 0 {
        let j = (k - 1) as nat;
        law_backlog_in_order(m, j, phase);
        let rest = m.backlog(j, phase);
        assert(due(m, phase, j as int) <==> m.announced(j as int) is Some && m.wants_help(
            j as int,
            phase,
        ));
        assert forall|i: int| 0 <= i < k && #[trigger] due(m, phase, i) implies {
            &&& due_below(m, phase, i as nat) < due_below(m, phase, k)
            &&& m.backlog(k, phase)[due_below(m, phase, i as nat) as int] == m.announced(i).unwrap()
        } by {
            if i < j {
                assert(m.backlog(k, phase)[due_below(m, phase, i as nat) as int]
                    == rest[due_below(m, phase, i as nat) as int]);
            }
        }
    }
}

/// What completing everything that was announced no later than `phase` does: it is
/// appended in the order of the handles, each value once; nothing of it is pending
/// any more, and no other operation changes.
pub open spec fn completed_up_to<T>(m: Memory<T>, new: Memory<T>, n: nat, phase: u64) -> bool {
    let old = m.values().len() as int;
    &&& new.values().len() == old + due_below(m, phase, n)
    &&& forall|i: int| 0 <= i < old ==> #[trigger] new.values()[i] == m.values()[i]
    &&& forall|i: int|
        0 <= i < n && #[trigger] due(m, phase, i) ==> new.values()[old + due_below(
            m,
            phase,
            i as nat,
        )] == m.announced(i).unwrap()
    &&& forall|i: int|
        0 <= i < n && #[trigger] new.pending(i) ==> m.pending(i) && later(m, i, phase)
    &&& forall|i: int|
        0 <= i < n && later(m, i, phase) ==> #[trigger] new.announced(i) == m.announced(i)
    &&& forall|i: int| 0 <= i < n ==> (#[trigger] new.desc(i)).phase == m.desc(i).phase
}

/// Completing an enqueue completes everything that was announced no later.
pub proof fn law_complete_enqueue<T: Copy + Eq, const N: usize>(phase: u64)
    ensures
        forall|queue: &mut WaitFreeHelpQueue<T, N>| #[trigger]
            call_ensures(WaitFreeHelpQueue::<T, N>::complete_enqueue, (queue, phase), ())
                ==> completed_up_to((*queue)@, (*final(queue))@, N as nat, phase),
        forall|queue: &mut WaitFreeHelpQueue<T, N>| #[trigger]
            call_ensures(WaitFreeHelpQueue::<T, N>::help, (queue, phase), ())
                ==> completed_up_to((*queue)@, (*final(queue))@, N as nat, phase),
{
    assert forall|queue: &mut WaitFreeHelpQueue<T, N>| #[trigger]
        call_ensures(
            WaitFreeHelpQueue::<T, N>::complete_enqueue,
            (queue, phase),
            (),
        ) implies completed_up_to((*queue)@, (*final(queue))@, N as nat, phase) by {
        lemma_completed_up_to((*queue)@, (*final(queue))@, N as nat, phase);
    }
    assert forall|queue: &mut WaitFreeHelpQueue<T, N>| #[trigger]
        call_ensures(
            WaitFreeHelpQueue::<T, N>::help,
            (queue, phase),
            (),
        ) implies completed_up_to((*queue)@, (*final(queue))@, N as nat, phase) by {
        lemma_completed_up_to((*queue)@, (*final(queue))@, N as nat, phase);
    }
}

/// What is appended in the order of the handles completes what is due.
proof fn lemma_completed_up_to<T>(m: Memory<T>, new: Memory<T>, n: nat, phase: u64)
    requires
        new.values() == m.values() + m.backlog(n, phase),
        forall|i: int|
            0 <= i < n ==> {
                &&& (#[trigger] new.desc(i)).phase == m.desc(i).phase
                &&& new.pending(i) ==> m.pending(i) && !m.wants_help(i, phase)
                &&& new.announced(i) == if m.wants_help(i, phase) {
                    None
                } else {
                    m.announced(i)
                }
            },
    ensures
        completed_up_to(m, new, n, phase),
{
    law_backlog_in_order(m, n, phase);
    assert forall|i: int| 0 <= i < n && #[trigger] new.pending(i) implies m.pending(i) && later(
        m,
        i,
        phase,
    ) by {
        assert(new.desc(i).phase == m.desc(i).phase);
    }
    assert forall|i: int| 0 <= i < n && later(m, i, phase) implies #[trigger] new.announced(i)
        == m.announced(i) by {
        assert(new.desc(i).phase == m.desc(i).phase);
    }
}

/// Announcing an operation records it, with what it was given, and leaves the
/// queue alone; completing the request then puts into the queue what was announced
/// no later.
pub proof fn law_request_in_two_parts<LF: NormalizedLockFree, const N: usize>(
    handle: &Handle,
    owner: u64,
    op: LF::Input,
    phase: u64,
)
    ensures
        forall|sim: &mut WaitFreeSimulator<LF, N>, made: (usize, u64)| #[trigger]
            call_ensures(
                WaitFreeSimulator::<LF, N>::begin_request,
                (sim, handle, owner, op),
                made,
            ) && (*sim).wf() && (*sim).ready(handle) ==> {
                let old = (*sim)@;
                let new = (*final(sim))@;
                &&& made.0 == old.boxes.len()
                &&& new.boxes.len() == old.boxes.len() + 1
                &&& forall|b: int|
                    0 <= b < old.boxes.len() ==> #[trigger] new.boxes[b] == old.boxes[b]
                &&& new.boxes[made.0 as int].len() == 1
                &&& new.boxes[made.0 as int][0].owner == owner
                &&& new.boxes[made.0 as int][0].input == op
                &&& new.boxes[made.0 as int][0].state is PreCas
                &&& new.queue() == old.queue()
                &&& new.help.announced(handle.id() as int) == Some(made.0)
                &&& new.help.desc(handle.id() as int).phase == Some(made.1)
                &&& forall|i: int|
                    0 <= i < N ==> ((#[trigger] old.help.desc(i)).phase matches Some(p) ==> p
                        < made.1)
            },
        forall|sim: &mut WaitFreeSimulator<LF, N>| #[trigger]
            call_ensures(WaitFreeSimulator::<LF, N>::complete_request, (sim, phase), ()) ==> {
                &&& completed_up_to((*sim)@.help, (*final(sim))@.help, N as nat, phase)
                &&& (*final(sim))@.boxes == (*sim)@.boxes
                &&& (*final(sim))@.free_ids == (*sim)@.free_ids
            },
{
    assert forall|sim: &mut WaitFreeSimulator<LF, N>, made: (usize, u64)| #[trigger]
        call_ensures(
            WaitFreeSimulator::<LF, N>::begin_request,
            (sim, handle, owner, op),
            made,
        ) && (*sim).wf() && (*sim).ready(handle) implies {
        let old = (*sim)@;
        let new = (*final(sim))@;
        &&& made.0 == old.boxes.len()
        &&& new.boxes.len() == old.boxes.len() + 1
        &&& forall|b: int| 0 <= b < old.boxes.len() ==> #[trigger] new.boxes[b] == old.boxes[b]
        &&& new.boxes[made.0 as int].len() == 1
        &&& new.boxes[made.0 as int][0].owner == owner
        &&& new.boxes[made.0 as int][0].input == op
        &&& new.boxes[made.0 as int][0].state is PreCas
        &&& new.queue() == old.queue()
        &&& new.help.announced(handle.id() as int) == Some(made.0)
        &&& new.help.desc(handle.id() as int).phase == Some(made.1)
        &&& forall|i: int|
            0 <= i < N ==> ((#[trigger] old.help.desc(i)).phase matches Some(p) ==> p < made.1)
    } by {
        let old = (*sim)@;
        let new = (*final(sim))@;
        (*sim).lemma_wf();
        (*final(sim)).lemma_wf();
        old.lemma_parts(N as nat);
        new.lemma_parts(N as nat);
        old.help.lemma_announced(N as nat, handle.id() as int, made.1, made.0);
        if made.1 == 0 {
            assert(old.help.is_max_phase(None));
        } else {
            assert(old.help.is_max_phase(Some((made.1 - 1) as u64)));
        }
    }
    assert forall|sim: &mut WaitFreeSimulator<LF, N>| #[trigger]
        call_ensures(WaitFreeSimulator::<LF, N>::complete_request, (sim, phase), ()) implies {
        &&& completed_up_to((*sim)@.help, (*final(sim))@.help, N as nat, phase)
        &&& (*final(sim))@.boxes == (*sim)@.boxes
        &&& (*final(sim))@.free_ids == (*sim)@.free_ids
    } by {
        let m = (*sim)@.help;
        let new = (*final(sim))@.help;
        assert forall|i: int| 0 <= i < N implies {
            &&& (#[trigger] new.desc(i)).phase == m.desc(i).phase
            &&& new.pending(i) ==> m.pending(i) && !m.wants_help(i, phase)
            &&& new.announced(i) == if m.wants_help(i, phase) {
                None
            } else {
                m.announced(i)
            }
        } by {
            assert(new.pending(i) ==> m.pending(i));
        }
        lemma_completed_up_to(m, new, N as nat, phase);
    }
}

/// A new simulator has `N` handles: the first has been given out, and each of the
/// others can be, once. It has no operations and its queue is empty.
pub proof fn law_new_simulator<LF: NormalizedLockFree, const N: usize>(
    algorithm: LF,
    made: (WaitFreeSimulator<LF, N>, Handle),
)
    requires
        call_ensures(WaitFreeSimulator::<LF, N>::new, (algorithm,), made),
        N > 0,
    ensures
        made.1.id() == 0,
        made.0@.free_ids.len() == N - 1,
        made.0@.free_ids.no_duplicates(),
        forall|id: usize| #[trigger] made.0@.free_ids.contains(id) <==> 0 < id < N,
        made.0@.algorithm == algorithm,
        made.0@.boxes.len() == 0,
        made.0@.queue().len() == 0,
{
    let free = made.0@.free_ids;
    assert forall|id: usize| #[trigger] free.contains(id) <==> 0 < id < N by {
        if 0 < id < N {
            assert(free[id - 1] == id);
        }
    }
}

/// Giving out a handle succeeds exactly if there is one that is not in use; it is
/// in use from then on, and no other handle is concerned. A handle that is given
/// back can be given out again, and is the next one to be.
pub proof fn law_handles<LF: NormalizedLockFree, const N: usize>(back: Handle)
    ensures
        forall|sim: &mut WaitFreeSimulator<LF, N>, handle: Result<Handle, TooManyHandles>|
            #[trigger] call_ensures(WaitFreeSimulator::<LF, N>::fork, (sim,), handle)
                && (*sim).wf() ==> {
                let old = (*sim)@;
                let new = (*final(sim))@;
                &&& handle is Err <==> forall|id: int|
                    0 <= id < N ==> #[trigger] old.in_use(id, N as nat)
                &&& handle is Err ==> new == old
                &&& handle matches Ok(h) ==> {
                    &&& h.id() < N
                    &&& !old.in_use(h.id() as int, N as nat)
                    &&& new.in_use(h.id() as int, N as nat)
                    &&& forall|id: int|
                        0 <= id < N && id != h.id() ==> (#[trigger] new.in_use(id, N as nat)
                            <==> old.in_use(id, N as nat))
                    &&& new.boxes == old.boxes && new.help == old.help
                }
            },
        forall|sim: &mut WaitFreeSimulator<LF, N>| #[trigger]
            call_ensures(WaitFreeSimulator::<LF, N>::release, (sim, back), ()) && (*sim).wf()
                && (*sim).ready(&back) ==> {
                let old = (*sim)@;
                let new = (*final(sim))@;
                &&& !new.in_use(back.id() as int, N as nat)
                &&& forall|id: int|
                    0 <= id < N && id != back.id() ==> (#[trigger] new.in_use(id, N as nat)
                        <==> old.in_use(id, N as nat))
                &&& new.free_ids.last() == back.id()
                &&& new.boxes == old.boxes && new.help == old.help
            },
        forall|sim: &mut WaitFreeSimulator<LF, N>, handle: Result<Handle, TooManyHandles>|
            #[trigger] call_ensures(WaitFreeSimulator::<LF, N>::fork, (sim,), handle)
                && (*sim)@.free_ids.len() > 0 ==> handle is Ok && handle->Ok_0.id()
                == (*sim)@.free_ids.last(),
{
    assert forall|sim: &mut WaitFreeSimulator<LF, N>, handle: Result<Handle, TooManyHandles>|
        #[trigger] call_ensures(WaitFreeSimulator::<LF, N>::fork, (sim,), handle)
            && (*sim).wf() implies {
        let old = (*sim)@;
        let new = (*final(sim))@;
        &&& handle is Err <==> forall|id: int|
            0 <= id < N ==> #[trigger] old.in_use(id, N as nat)
        &&& handle is Err ==> new == old
        &&& handle matches Ok(h) ==> {
            &&& h.id() < N
            &&& !old.in_use(h.id() as int, N as nat)
            &&& new.in_use(h.id() as int, N as nat)
            &&& forall|id: int|
                0 <= id < N && id != h.id() ==> (#[trigger] new.in_use(id, N as nat)
                    <==> old.in_use(id, N as nat))
            &&& new.boxes == old.boxes && new.help == old.help
        }
    } by {
        let old = (*sim)@;
        let new = (*final(sim))@;
        (*sim).lemma_wf();
        crate::laws::law_all_in_use(old, N as nat);
        old.lemma_parts(N as nat);
        if handle is Ok {
            let h = handle->Ok_0;
            let last = old.free_ids.len() - 1;
            assert(old.free_ids[last] == h.id());
            assert forall|id: int| 0 <= id < N && id != h.id() implies (#[trigger] new.in_use(
                id,
                N as nat,
            ) <==> old.in_use(id, N as nat)) by {
                if old.free_ids.contains(id as usize) {
                    let i = old.free_ids.index_of(id as usize);
                    assert(new.free_ids[i] == id as usize);
                }
                if new.free_ids.contains(id as usize) {
                    let i = new.free_ids.index_of(id as usize);
                    assert(old.free_ids[i] == id as usize);
                }
            }
        }
    }
    assert forall|sim: &mut WaitFreeSimulator<LF, N>| #[trigger]
        call_ensures(WaitFreeSimulator::<LF, N>::release, (sim, back), ()) && (*sim).wf()
            && (*sim).ready(&back) implies {
        let old = (*sim)@;
        let new = (*final(sim))@;
        &&& !new.in_use(back.id() as int, N as nat)
        &&& forall|id: int|
            0 <= id < N && id != back.id() ==> (#[trigger] new.in_use(id, N as nat) <==> old.in_use(
                id,
                N as nat,
            ))
        &&& new.free_ids.last() == back.id()
        &&& new.boxes == old.boxes && new.help == old.help
    } by {
        let old = (*sim)@;
        let new = (*final(sim))@;
        assert(new.free_ids[old.free_ids.len() as int] == back.id());
        assert forall|id: int| 0 <= id < N && id != back.id() implies (#[trigger] new.in_use(
            id,
            N as nat,
        ) <==> old.in_use(id, N as nat)) by {
            if old.free_ids.contains(id as usize) {
                let i = old.free_ids.index_of(id as usize);
                assert(new.free_ids[i] == id as usize);
            }
            if new.free_ids.contains(id as usize) {
                let i = new.free_ids.index_of(id as usize);
                assert(old.free_ids[i] == id as usize);
            }
        }
    }
}

/// Asking for help records one operation, with what it was given, under a name
/// that no other has. What was queued stays in front; behind it come this
/// operation and those that others have announced, in the order of the handles.
pub proof fn law_request<LF: NormalizedLockFree, const N: usize>(
    handle: &Handle,
    owner: u64,
    op: LF::Input,
)
    ensures
        forall|sim: &mut WaitFreeSimulator<LF, N>, ticket: usize| #[trigger]
            call_ensures(
                WaitFreeSimulator::<LF, N>::request,
                (sim, handle, owner, op),
                ticket,
            ) && (*sim).wf() ==> {
                let old = (*sim)@;
                let new = (*final(sim))@;
                let len = old.queue().len() as int;
                let id = handle.id() as int;
                &&& ticket == old.boxes.len()
                &&& new.boxes.len() == old.boxes.len() + 1
                &&& forall|b: int| 0 <= b < ticket ==> #[trigger] new.boxes[b] == old.boxes[b]
                &&& new.boxes[ticket as int].len() == 1
                &&& new.boxes[ticket as int][0].owner == owner
                &&& new.boxes[ticket as int][0].input == op
                &&& new.boxes[ticket as int][0].state is PreCas
                &&& new.queue().len() == len + contributors(old.help, id, N as nat)
                &&& forall|i: int| 0 <= i < len ==> #[trigger] new.queue()[i] == old.queue()[i]
                &&& forall|i: int|
                    0 <= i < N && #[trigger] contributes(old.help, id, i) ==> new.queue()[len
                        + contributors(old.help, id, i as nat)] == contribution(
                        old.help,
                        id,
                        ticket,
                        i,
                    )
                &&& new.free_ids == old.free_ids
            },
{
    assert forall|sim: &mut WaitFreeSimulator<LF, N>, ticket: usize| #[trigger]
        call_ensures(
            WaitFreeSimulator::<LF, N>::request,
            (sim, handle, owner, op),
            ticket,
        ) && (*sim).wf() implies {
        let old = (*sim)@;
        let new = (*final(sim))@;
        let len = old.queue().len() as int;
        let id = handle.id() as int;
        &&& ticket == old.boxes.len()
        &&& new.boxes.len() == old.boxes.len() + 1
        &&& forall|b: int| 0 <= b < ticket ==> #[trigger] new.boxes[b] == old.boxes[b]
        &&& new.boxes[ticket as int].len() == 1
        &&& new.boxes[ticket as int][0].owner == owner
        &&& new.boxes[ticket as int][0].input == op
        &&& new.boxes[ticket as int][0].state is PreCas
        &&& new.queue().len() == len + contributors(old.help, id, N as nat)
        &&& forall|i: int| 0 <= i < len ==> #[trigger] new.queue()[i] == old.queue()[i]
        &&& forall|i: int|
            0 <= i < N && #[trigger] contributes(old.help, id, i) ==> new.queue()[len
                + contributors(old.help, id, i as nat)] == contribution(old.help, id, ticket, i)
        &&& new.free_ids == old.free_ids
    } by {
        let old = (*sim)@;
        law_requests_in_order(old.help, N as nat, handle.id() as int, ticket);
    }
}

/// A record is installed behind the one that was read, or not at all; a completed
/// operation leaves the queue if it is at the front, and nothing changes if it is
/// not. What is first in the queue, and the current record of an operation, can be
/// read.
pub proof fn law_records_and_removal<LF: NormalizedLockFree, const N: usize>(orb: usize)
    ensures
        forall|
            sim: &mut WaitFreeSimulator<LF, N>,
            seen: usize,
            updated: OperationRecord<LF>,
            done: bool,
        | #[trigger]
            call_ensures(
                WaitFreeSimulator::<LF, N>::try_advance,
                (sim, orb, seen, updated),
                done,
            ) && orb < (*sim)@.boxes.len() && seen < (*sim)@.boxes[orb as int].len() ==> {
                let old = (*sim)@;
                let new = (*final(sim))@;
                &&& done <==> seen + 1 == old.boxes[orb as int].len()
                &&& !done ==> new == old
                &&& done ==> {
                    &&& new.boxes[orb as int] == old.boxes[orb as int].push(updated)
                    &&& new.boxes.len() == old.boxes.len()
                    &&& forall|b: int|
                        0 <= b < old.boxes.len() && b != orb ==> #[trigger] new.boxes[b]
                            == old.boxes[b]
                    &&& new.help == old.help && new.free_ids == old.free_ids
                }
            },
        forall|sim: &mut WaitFreeSimulator<LF, N>, removed: Result<(), ()>| #[trigger]
            call_ensures(WaitFreeSimulator::<LF, N>::try_remove, (sim, orb), removed) ==> {
                let old = (*sim)@;
                let new = (*final(sim))@;
                &&& removed is Ok <==> old.queue().len() > 0 && old.queue()[0] == orb
                &&& removed is Err ==> new == old
                &&& removed is Ok ==> {
                    &&& new.queue().len() == old.queue().len() - 1
                    &&& forall|i: int|
                        0 <= i < new.queue().len() ==> #[trigger] new.queue()[i] == old.queue()[i
                            + 1]
                }
                &&& new.boxes == old.boxes
            },
        forall|sim: &WaitFreeSimulator<LF, N>, front: Option<usize>| #[trigger]
            call_ensures(WaitFreeSimulator::<LF, N>::first, (sim,), front) ==> {
                &&& front is None <==> sim@.queue().len() == 0
                &&& front matches Some(b) ==> b == sim@.queue()[0]
            },
        forall|sim: &WaitFreeSimulator<LF, N>, current: (usize, &OperationRecord<LF>)| #[trigger]
            call_ensures(WaitFreeSimulator::<LF, N>::load, (sim, orb), current) ==> {
                &&& current.0 == sim@.boxes[orb as int].len() - 1
                &&& *current.1 == sim@.boxes[orb as int].last()
            },
{
}

} // verus!
