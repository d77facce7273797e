use vstd::prelude::*;

pub mod acquire;
pub mod bits;
pub mod executor;
pub mod mpsc;
pub mod partition;
pub mod rng;
pub mod run_loop;
pub mod scheduler;
pub mod seqs;
pub mod signal;
pub mod spsc;
pub mod summary;
pub mod task_signals;
pub mod ticker;
pub mod timer;
pub mod timer_wheel;
pub mod unbounded;
pub mod waker;
pub mod worker;
pub mod wheel;

verus! {

} // verus!
