# maniac

The data structures and scheduling decisions of a work-stealing async runtime,
written in Verus with their contracts proved:

- `spsc`, `unbounded`: segmented bounded queues and unbounded chains of them
  (first in, first out, with segment pooling bookkeeping);
- `mpsc`: a many-producer channel of unbounded queues with signal bits and a
  randomised consumer;
- `wheel`, `timer_wheel`, `timer`: single-level and hierarchical timing wheels and
  the timer state machine on top of them;
- `summary`, `partition`, `waker`, `bits`: task-slot reservation over leaves,
  partition ownership, worker wake-up status and bit search;
- `task_signals`, `acquire`: the scheduled-task words of the arena and how a worker
  finds and takes a task, keeping the summary exact;
- `worker`, `scheduler`, `executor`, `ticker`, `signal`: the timer and message
  side of a worker, the scheduler's bookkeeping and spawn admission, arena sizing,
  the tick service's decisions, signal delivery counts and registration;
- `run_loop`: the decisions of a worker's run passes, taken one step at a time.

`src/` is the verified library; `tests/` exercises it; `app/` holds the
thread-safe handles, the tick thread, the worker's run passes and signal plumbing
that wrap the single-owner library types.
