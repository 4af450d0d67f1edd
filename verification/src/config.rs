//! What an operator configures, and the check that a run can start with it.

use vstd::prelude::*;
use crate::task::{wait_bounds_ok, ConfigError, TaskSet};

verus! {

/// The options of a run.
#[derive(Debug, Clone)]
pub struct Configuration {
    /// Base URL put before the paths that tasks request, unless they are
    /// absolute.
    pub host: String,
    /// The number of concurrent simulated users.
    pub users: usize,
    /// The number of users spawned per second during ramp-up.
    pub hatch_rate: usize,
    /// Seconds after which the shutdown begins; without, the run lasts until
    /// it is signalled to stop.
    pub run_time: Option<usize>,
    /// Least number of seconds between two tasks, for task sets that set no
    /// wait of their own.
    pub min_wait: usize,
    /// Bound on the seconds between two tasks, for task sets that set no wait
    /// of their own.
    pub max_wait: usize,
    /// The process coordinates workers.
    pub manager: bool,
    /// The process is a worker of a manager.
    pub worker: bool,
    /// Where a worker finds its manager.
    pub manager_host: String,
    /// The port on which a worker finds its manager.
    pub manager_port: u16,
    /// The number of workers that a manager waits for before the run starts.
    pub expect_workers: usize,
    /// The file that statistics are appended to.
    pub stats_log_file: String,
    /// The file that debug output is appended to.
    pub debug_log_file: String,
    /// How much is logged.
    pub log_level: u8,
    /// Whether the counts of status codes are reported.
    pub status_codes: bool,
    /// Whether only the summary at the end is reported.
    pub only_summary: bool,
    /// Whether the statistics start anew once all users are spawned.
    pub reset_stats: bool,
}

/// Whether every task set has a task.
pub open spec fn all_have_tasks(sets: Seq<TaskSet>) -> bool {
    forall|i: int| 0 <= i < sets.len() ==> (#[trigger] sets[i]).tasks@.len() > 0
}

/// Whether no task set and no task has a weight of 0.
pub open spec fn all_weights_positive(sets: Seq<TaskSet>) -> bool {
    forall|i: int|
        0 <= i < sets.len() ==> (#[trigger] sets[i]).weight >= 1 && crate::task::all_tasks_wf(
            sets[i].tasks@,
        )
}

/// Whether the wait bounds of every task set are consistent.
pub open spec fn all_waits_ok(sets: Seq<TaskSet>) -> bool {
    forall|i: int|
        0 <= i < sets.len() ==> wait_bounds_ok((#[trigger] sets[i]).min_wait, sets[i].max_wait)
}

/// Whether a run can start with `config` and `sets`, and if not, why not. Of
/// several faults the first of these is named: options that exclude each
/// other; no task set, or one without tasks; a weight of 0; inconsistent wait
/// bounds.
pub open spec fn verdict(config: Configuration, sets: Seq<TaskSet>) -> Result<(), ConfigError> {
    if config.manager && config.worker {
        Err(ConfigError::ContradictoryFlags)
    } else if sets.len() == 0 || !all_have_tasks(sets) {
        Err(ConfigError::EmptyTaskSet)
    } else if !all_weights_positive(sets) {
        Err(ConfigError::InvalidWeight)
    } else if !wait_bounds_ok(config.min_wait, config.max_wait) || !all_waits_ok(sets) {
        Err(ConfigError::InvalidWait)
    } else {
        Ok(())
    }
}

/// Whether every task set has a task.
fn check_tasks(sets: &Vec<TaskSet>) -> (ok: bool)
    ensures
        ok == all_have_tasks(sets@),
{
    let mut i: usize = 0;
    while i < sets.len()
        invariant
            i <= sets.len(),
            forall|j: int| 0 <= j < i ==> (#[trigger] sets@[j]).tasks@.len() > 0,
        decreases sets.len() - i,
    {
        if sets[i].tasks.len() == 0 {
            return false;
        }
        i = i + 1;
    }
    true
}

/// Whether no task set and no task has a weight of 0.
fn check_weights(sets: &Vec<TaskSet>) -> (ok: bool)
    ensures
        ok == all_weights_positive(sets@),
{
    let mut i: usize = 0;
    while i < sets.len()
        invariant
            i <= sets.len(),
            forall|j: int|
                0 <= j < i ==> (#[trigger] sets@[j]).weight >= 1 && crate::task::all_tasks_wf(
                    sets@[j].tasks@,
                ),
        decreases sets.len() - i,
    {
        if sets[i].weight == 0 {
            return false;
        }
        let mut k: usize = 0;
        while k < sets[i].tasks.len()
            invariant
                i < sets.len(),
                k <= sets@[i as int].tasks@.len(),
                forall|j: int| 0 <= j < k ==> (#[trigger] sets@[i as int].tasks@[j]).wf(),
            decreases sets@[i as int].tasks@.len() - k,
        {
            if sets[i].tasks[k].weight == 0 {
                assert(!sets@[i as int].tasks@[k as int].wf());
                return false;
            }
            k = k + 1;
        }
        i = i + 1;
    }
    true
}

/// Whether the wait bounds of every task set are consistent.
fn check_waits(sets: &Vec<TaskSet>) -> (ok: bool)
    ensures
        ok == all_waits_ok(sets@),
{
    let mut i: usize = 0;
    while i < sets.len()
        invariant
            i <= sets.len(),
            forall|j: int|
                0 <= j < i ==> wait_bounds_ok((#[trigger] sets@[j]).min_wait, sets@[j].max_wait),
        decreases sets.len() - i,
    {
        if sets[i].max_wait != 0 && sets[i].max_wait < sets[i].min_wait {
            return false;
        }
        i = i + 1;
    }
    true
}

impl Configuration {
    /// Checks that a run can start with these options and `sets`. Where it
    /// can, every task set is valid and has a task.
    pub fn validate(&self, sets: &Vec<TaskSet>) -> (result: Result<(), ConfigError>)
        ensures
            result == verdict(*self, sets@),
            result.is_ok() ==> sets@.len() > 0 && forall|i: int|
                0 <= i < sets@.len() ==> (#[trigger] sets@[i]).wf() && sets@[i].tasks@.len() > 0,
    {
        if self.manager && self.worker {
            return Err(ConfigError::ContradictoryFlags);
        }
        if sets.len() == 0 || !check_tasks(sets) {
            return Err(ConfigError::EmptyTaskSet);
        }
        if !check_weights(sets) {
            return Err(ConfigError::InvalidWeight);
        }
        if (self.max_wait != 0 && self.max_wait < self.min_wait) || !check_waits(sets) {
            return Err(ConfigError::InvalidWait);
        }
        Ok(())
    }
}

} // verus!
