//! Tasks and task sets: what an operator declares before a run begins.
//!
//! A task is a unit of work with a weight, an optional sequence number and
//! flags that bind it to a user's start or stop. A task set is a named,
//! weighted group of tasks that a simulated user is bound to. Both are built
//! with chained setters and do not change during a run.

use vstd::prelude::*;

verus! {

/// Why a declared configuration cannot be run.
#[derive(Debug, Clone, Copy, PartialEq, Eq, Structural)]
pub enum ConfigError {
    /// A weight of 0 was given, or weights whose sum exceeds a machine word.
    InvalidWeight,
    /// A task set holds no task, or no task set was registered.
    EmptyTaskSet,
    /// The wait bounds have a maximum that is neither 0 nor at least the
    /// minimum.
    InvalidWait,
    /// Options were given that exclude each other.
    ContradictoryFlags,
}

/// The part of a user's life in which a task runs.
#[derive(Debug, Clone, Copy, PartialEq, Eq, Structural)]
pub enum Phase {
    /// Once, when the user starts.
    OnStart,
    /// Repeatedly, until the user is told to exit.
    Steady,
    /// Once, when the user stops.
    OnStop,
}

/// One unit of work of a task set. Its position in the task set's list is its
/// index, by which plans refer to it.
#[derive(Debug, Clone)]
pub struct Task {
    /// Name under which the task's requests are recorded; empty for none.
    pub name: String,
    /// How often the task runs relative to the others of its task set.
    pub weight: usize,
    /// Tasks with a sequence number run in the order of these numbers; tasks
    /// without one run after all of them.
    pub sequence: Option<usize>,
    /// The task runs when the user starts.
    pub on_start: bool,
    /// The task runs when the user stops.
    pub on_stop: bool,
}

impl Task {
    /// A task is valid if its weight is positive.
    pub open spec fn wf(&self) -> bool {
        self.weight >= 1
    }

    /// Whether the task runs in `phase`: on start or on stop if flagged so (a
    /// task may carry both flags), and in the steady phase if it carries
    /// neither.
    pub open spec fn runs_in(&self, phase: Phase) -> bool {
        match phase {
            Phase::OnStart => self.on_start,
            Phase::Steady => !self.on_start && !self.on_stop,
            Phase::OnStop => self.on_stop,
        }
    }

    /// An unnamed, unsequenced steady task of weight 1.
    pub fn new() -> (task: Task)
        ensures
            task.name@ == Seq::<char>::empty(),
            task.weight == 1,
            task.sequence == None::<usize>,
            !task.on_start,
            !task.on_stop,
            task.wf(),
    {
        Task { name: String::new(), weight: 1, sequence: None, on_start: false, on_stop: false }
    }

    /// Sets the name under which the task's requests are recorded.
    pub fn set_name(self, name: &str) -> (task: Task)
        ensures
            task.name@ == name@,
            task.weight == self.weight,
            task.sequence == self.sequence,
            task.on_start == self.on_start,
            task.on_stop == self.on_stop,
    {
        let mut task = self;
        task.name = name.to_owned();
        task
    }

    /// Sets the weight; a weight of 0 is refused.
    pub fn set_weight(self, weight: usize) -> (result: Result<Task, ConfigError>)
        ensures
            weight == 0 <==> result == Err::<Task, ConfigError>(ConfigError::InvalidWeight),
            weight > 0 ==> result == Ok::<Task, ConfigError>((Task { weight: weight, ..self })),
    {
        if weight == 0 {
            Err(ConfigError::InvalidWeight)
        } else {
            let mut task = self;
            task.weight = weight;
            Ok(task)
        }
    }

    /// Gives the task a sequence number.
    pub fn set_sequence(self, sequence: usize) -> (task: Task)
        ensures
            task == (Task { sequence: Some(sequence), ..self }),
    {
        let mut task = self;
        task.sequence = Some(sequence);
        task
    }

    /// Makes the task run when the user starts.
    pub fn set_on_start(self) -> (task: Task)
        ensures
            task == (Task { on_start: true, ..self }),
    {
        let mut task = self;
        task.on_start = true;
        task
    }

    /// Makes the task run when the user stops.
    pub fn set_on_stop(self) -> (task: Task)
        ensures
            task == (Task { on_stop: true, ..self }),
    {
        let mut task = self;
        task.on_stop = true;
        task
    }

    /// Whether the task runs in `phase`.
    pub fn in_phase(&self, phase: Phase) -> (b: bool)
        ensures
            b == self.runs_in(phase),
    {
        match phase {
            Phase::OnStart => self.on_start,
            Phase::Steady => !self.on_start && !self.on_stop,
            Phase::OnStop => self.on_stop,
        }
    }
}

/// Whether every task of `tasks` is valid.
pub open spec fn all_tasks_wf(tasks: Seq<Task>) -> bool {
    forall|i: int| 0 <= i < tasks.len() ==> (#[trigger] tasks[i]).wf()
}

/// Whether wait bounds are consistent: a maximum of 0 stands for no wait, any
/// other maximum is at least the minimum.
pub open spec fn wait_bounds_ok(min_wait: usize, max_wait: usize) -> bool {
    max_wait == 0 || min_wait <= max_wait
}

/// A named, weighted group of tasks that a user is bound to.
#[derive(Debug, Clone)]
pub struct TaskSet {
    /// The task set's name.
    pub name: String,
    /// How many users of the pool run the set relative to the others.
    pub weight: usize,
    /// The tasks, each at its index.
    pub tasks: Vec<Task>,
    /// Least number of seconds a user waits between two steady tasks.
    pub min_wait: usize,
    /// Bound, not reached, on the seconds a user waits; 0 for no wait.
    pub max_wait: usize,
    /// Host for the requests of the set's users, if the set has one of its own.
    pub host: Option<String>,
}

impl TaskSet {
    /// A task set is valid if its weight is positive, its tasks are valid and
    /// its wait bounds are consistent.
    pub open spec fn wf(&self) -> bool {
        &&& self.weight >= 1
        &&& all_tasks_wf(self.tasks@)
        &&& wait_bounds_ok(self.min_wait, self.max_wait)
    }

    /// A task set of weight 1 without tasks, wait or host.
    pub fn new(name: &str) -> (set: TaskSet)
        ensures
            set.name@ == name@,
            set.weight == 1,
            set.tasks@ == Seq::<Task>::empty(),
            set.min_wait == 0,
            set.max_wait == 0,
            set.host.is_none(),
            set.wf(),
    {
        TaskSet {
            name: name.to_owned(),
            weight: 1,
            tasks: Vec::new(),
            min_wait: 0,
            max_wait: 0,
            host: None,
        }
    }

    /// Sets the weight; a weight of 0 is refused.
    pub fn set_weight(self, weight: usize) -> (result: Result<TaskSet, ConfigError>)
        ensures
            weight == 0 <==> result == Err::<TaskSet, ConfigError>(ConfigError::InvalidWeight),
            weight > 0 ==> result == Ok::<TaskSet, ConfigError>((TaskSet { weight: weight, ..self })),
    {
        if weight == 0 {
            Err(ConfigError::InvalidWeight)
        } else {
            let mut set = self;
            set.weight = weight;
            Ok(set)
        }
    }

    /// Sets the host for the requests of the set's users.
    pub fn set_host(self, host: &str) -> (set: TaskSet)
        ensures
            set.host.is_some(),
            set.host.unwrap()@ == host@,
            set.name == self.name,
            set.weight == self.weight,
            set.tasks == self.tasks,
            set.min_wait == self.min_wait,
            set.max_wait == self.max_wait,
    {
        let mut set = self;
        set.host = Some(host.to_owned());
        set
    }

    /// Sets the wait bounds, in seconds. A maximum that is neither 0 nor at
    /// least the minimum is refused.
    pub fn set_wait_time(self, min_wait: usize, max_wait: usize) -> (result: Result<
        TaskSet,
        ConfigError,
    >)
        ensures
            !wait_bounds_ok(min_wait, max_wait) <==> result == Err::<TaskSet, ConfigError>(
                ConfigError::InvalidWait,
            ),
            wait_bounds_ok(min_wait, max_wait) ==> result == Ok::<TaskSet, ConfigError>(
                (TaskSet { min_wait: min_wait, max_wait: max_wait, ..self }),
            ),
    {
        if max_wait != 0 && max_wait < min_wait {
            Err(ConfigError::InvalidWait)
        } else {
            let mut set = self;
            set.min_wait = min_wait;
            set.max_wait = max_wait;
            Ok(set)
        }
    }

    /// Appends `task`; its index is the number of tasks registered before it.
    pub fn register_task(self, task: Task) -> (set: TaskSet)
        ensures
            set.tasks@ == self.tasks@.push(task),
            set.name == self.name,
            set.weight == self.weight,
            set.min_wait == self.min_wait,
            set.max_wait == self.max_wait,
            set.host == self.host,
    {
        let mut set = self;
        set.tasks.push(task);
        set
    }

    /// Whether some task runs in the steady phase. A user of a task set
    /// without one goes from its start tasks straight to its stop tasks.
    pub fn has_steady_task(&self) -> (b: bool)
        ensures
            b <==> exists|i: int| 0 <= i < self.tasks@.len() && (#[trigger] self.tasks@[i]).runs_in(Phase::Steady),
    {
        let mut i: usize = 0;
        while i < self.tasks.len()
            invariant
                i <= self.tasks.len(),
                forall|k: int| 0 <= k < i ==> !(#[trigger] self.tasks@[k]).runs_in(Phase::Steady),
            decreases self.tasks.len() - i,
        {
            if self.tasks[i].in_phase(Phase::Steady) {
                return true;
            }
            i = i + 1;
        }
        false
    }
}

} // verus!
