# bystander

Lets those who share a lock-free structure help each other. A lock-free algorithm
is given in normalized form: a generator that finds the compare-and-sets of an
operation, a wrap-up that draws the conclusion from how they went, and a fast
path. An operation that meets too much contention on the fast path is recorded and
put into a help queue; whoever runs an operation first helps the one at the front.

The library is written in Verus. Its shared memory is a value with explicit
accesses: nodes, descriptors and records are allocated and never freed, and are
named by their index. Every method that is one access can be interleaved with
those of other handles; the invariants are proved to hold after each.

- `src/contention.rs`: how much contention an operation has met
- `src/atomic.rs`: a versioned value, replaced by comparing and exchanging
- `src/cas.rs`: lists of compare-and-sets that several handles carry out together
- `src/help_memory.rs`: the memory of the help queue, its invariant, and what
  any number of accesses by any handles keep of it
- `src/help_steps.rs`: what a handle has seen before it changes the memory, and
  why the change is sound whatever has happened since
- `src/help_order.rs`: the order of announcements, when every handle helps first
- `src/help_queue.rs`: the help queue, access by access and operation by operation
- `src/enqueue.rs`: an enqueue that others may interrupt between any two accesses,
  and the proof that it ends within a number of accesses that only the number of
  handles determines
- `src/operation.rs`: normalized algorithms and the records of their operations
- `src/request.rs`: a request for help that others may interrupt in the same way
- `src/run.rs`: the order in which running an operation goes about it
- `src/simulation.rs`: what the handles of a simulator share, and its invariant
- `src/simulator.rs`: handles, helping, and running operations
- `src/laws.rs`: what holds of the library as a whole
- `app/lib.rs`: a simulator shared between threads by a lock, which makes the
  program as a whole not lock-free; the lock is held for one step at a time, and
  never while the algorithm runs
