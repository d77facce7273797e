use vstd::prelude::*;

verus! {

/// How an executor sizes its task arena: leaves, task slots per leaf, and
/// workers.
#[derive(Debug, Clone, Copy)]
pub struct ExecutorConfig {
    pub leaf_count: usize,
    pub tasks_per_leaf: usize,
    pub worker_count: usize,
}

/// Task slots per leaf when the arena is sized from a task count.
pub const DEFAULT_TASKS_PER_LEAF: usize = 4096;

/// The arena sizing for `worker_count` workers and `max_tasks` tasks: at least one
/// worker and as many tasks as workers; leaves of 4096 slots, at least one leaf,
/// and at least a leaf per worker, the slots then spread over the leaves (at least
/// one each).
pub open spec fn sized(worker_count: usize, max_tasks: usize) -> ExecutorConfig {
    let wc = if worker_count < 1 {
        1
    } else {
        worker_count
    };
    let mt = if max_tasks < wc {
        wc
    } else {
        max_tasks
    };
    let lc0 = mt / DEFAULT_TASKS_PER_LEAF;
    let lc = if lc0 < 1 {
        1
    } else {
        lc0
    };
    if lc < wc {
        let tpl = mt / wc;
        ExecutorConfig {
            leaf_count: wc,
            tasks_per_leaf: if tpl < 1 {
                1
            } else {
                tpl
            },
            worker_count: wc,
        }
    } else {
        ExecutorConfig { leaf_count: lc, tasks_per_leaf: DEFAULT_TASKS_PER_LEAF, worker_count: wc }
    }
}

impl ExecutorConfig {
    /// A configuration of the given sizes.
    pub fn new(leaf_count: usize, tasks_per_leaf: usize, worker_count: usize) -> (c: Self)
        ensures
            c == (ExecutorConfig { leaf_count, tasks_per_leaf, worker_count }),
    {
        ExecutorConfig { leaf_count, tasks_per_leaf, worker_count }
    }

    /// The configuration for `worker_count` workers and up to `max_tasks` tasks; see
    /// `sized`.
    pub fn with_max_tasks(worker_count: usize, max_tasks: usize) -> (c: Self)
        ensures
            c == sized(worker_count, max_tasks),
            c.worker_count >= 1,
            c.leaf_count >= c.worker_count,
            c.tasks_per_leaf >= 1,
    {
        let worker_count = if worker_count < 1 {
            1
        } else {
            worker_count
        };
        let max_tasks = if max_tasks < worker_count {
            worker_count
        } else {
            max_tasks
        };
        let mut tasks_per_leaf: usize = DEFAULT_TASKS_PER_LEAF;
        let mut leaf_count = max_tasks / tasks_per_leaf;
        if leaf_count < 1 {
            leaf_count = 1;
        }
        if leaf_count < worker_count {
            leaf_count = worker_count;
            tasks_per_leaf = max_tasks / leaf_count;
            if tasks_per_leaf < 1 {
                tasks_per_leaf = 1;
            }
        }
        ExecutorConfig { leaf_count, tasks_per_leaf, worker_count }
    }
}

} // verus!
