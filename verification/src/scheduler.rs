//! The per-user scheduler: drives one simulated user through its plan.
//!
//! A user runs its start tasks, then its steady tasks over and over, and at
//! last its stop tasks. After each steady task it draws a wait, and before
//! each second of that wait it looks for commands; the command to exit sends
//! it to its stop tasks at once. The scheduler decides; its caller acts. The
//! caller hands in what happened ([`Event`]) and is told what to do next
//! ([`Action`]): run a task, poll the command channel, sleep for a second, or
//! finish.

use vstd::prelude::*;
use vstd::arithmetic::div_mod::lemma_fundamental_div_mod;
use crate::planner::{
    all_nonempty, before, lemma_before_within, lemma_entry_is_task, lemma_occurrences_push,
    lemma_partition_gcd_divides, lemma_planned_nonempty, lemma_positions_length,
    lemma_positions_occurrences, lemma_positions_take_next, lemma_reshuffled_keeps_plan,
    lemma_reshuffled_length, occurrences, partition_gcd, planned_runs, positions, reshuffled,
    walked, Bucket, Plan,
};
use crate::random::{draw_wait, shuffle, thread_generator, wait_allowed};
use crate::task::{Phase, Task, TaskSet};

verus! {

/// A command that the pool controller sends to a user. A running user acts on
/// `Exit` alone.
#[derive(Debug, Clone, Copy, PartialEq, Eq, Structural)]
pub enum UserCommand {
    /// Hold before starting.
    Wait,
    /// Start running.
    Run,
    /// Stop: run the stop tasks and end.
    Exit,
}

/// What the caller reports to the scheduler.
#[derive(Debug)]
pub enum Event {
    /// The user is to begin.
    Start,
    /// The task that was to run has returned.
    TaskDone,
    /// The command channel was drained without blocking; these were on it.
    Commands(Vec<UserCommand>),
    /// The second of sleep is over.
    SliceElapsed,
}

/// What the scheduler tells the caller to do next.
#[derive(Debug, Clone, Copy, PartialEq, Eq, Structural)]
pub enum Action {
    /// Invoke the function of the task with this index, then report
    /// `TaskDone`.
    RunTask { task: usize },
    /// Drain the command channel without blocking, then report `Commands`.
    PollCommands,
    /// Sleep for one second, then report `SliceElapsed`.
    Sleep,
    /// The user has ended.
    Finish,
}

/// Where a user stands, and with it the event that the scheduler awaits.
#[derive(Debug, Clone, Copy, PartialEq, Eq, Structural)]
pub enum Stage {
    /// Not started; awaits `Start`.
    Created,
    /// A start task runs; awaits `TaskDone`.
    OnStart,
    /// A steady task runs; awaits `TaskDone`.
    SteadyTask,
    /// The command channel is being polled; awaits `Commands`.
    SteadyPoll,
    /// The user sleeps for a second of its wait; awaits `SliceElapsed`.
    SteadySleep,
    /// A stop task runs; awaits `TaskDone`.
    OnStop,
    /// Ended; awaits nothing.
    Done,
}

/// Why the scheduler did not act on an event.
#[derive(Debug, Clone, Copy, PartialEq, Eq, Structural)]
pub enum StepError {
    /// The event is not the one that the user's stage awaits.
    UnexpectedEvent,
}

/// One task that a user was told to run.
pub struct Run {
    /// The phase in which it ran.
    pub phase: Phase,
    /// The task's index.
    pub task: usize,
}

/// What a user has been told to run so far.
pub struct History {
    /// The start tasks, in the order in which they ran.
    pub started: Seq<usize>,
    /// The steady tasks, in the order in which they ran.
    pub steady: Seq<usize>,
    /// The steady tasks of the pass through the steady buckets that is under
    /// way.
    pub round: Seq<usize>,
    /// The number of passes through the steady buckets that are complete.
    pub rounds: nat,
    /// The stop tasks, in the order in which they ran.
    pub stopped: Seq<usize>,
}

/// `tasks` as runs of `phase`.
pub open spec fn tagged(phase: Phase, tasks: Seq<usize>) -> Seq<Run> {
    Seq::new(tasks.len(), |i: int| Run { phase: phase, task: tasks[i] })
}

impl History {
    /// Every task that the user was told to run, in order.
    pub open spec fn trace(self) -> Seq<Run> {
        tagged(Phase::OnStart, self.started) + tagged(Phase::Steady, self.steady) + tagged(
            Phase::OnStop,
            self.stopped,
        )
    }
}

/// Whether the command to exit is among `commands`.
pub open spec fn contains_exit(commands: Seq<UserCommand>) -> bool {
    exists|i: int| 0 <= i < commands.len() && #[trigger] commands[i] == UserCommand::Exit
}

/// The stage in which a task of `phase` runs.
pub open spec fn stage_of(phase: Phase) -> Stage {
    match phase {
        Phase::OnStart => Stage::OnStart,
        Phase::Steady => Stage::SteadyTask,
        Phase::OnStop => Stage::OnStop,
    }
}

/// Whether `name` is what requests of `task` are recorded under: the task's
/// name if it has one, and none otherwise.
pub open spec fn names_task(name: Option<String>, task: Task) -> bool {
    match name {
        Some(n) => n@ == task.name@ && task.name@.len() > 0,
        None => task.name@.len() == 0,
    }
}

/// Whether `(bucket, position)` is a place in `buckets`.
pub open spec fn cursor_in(buckets: Seq<Bucket>, bucket: usize, position: usize) -> bool {
    bucket < buckets.len() && position < buckets[bucket as int].tasks@.len()
}

/// The first phase from `from` on that has a bucket, if there is one.
pub open spec fn first_phase(plan: Plan, from: Phase) -> Option<Phase> {
    if from == Phase::OnStart && plan.on_start_buckets@.len() > 0 {
        Some(Phase::OnStart)
    } else if from != Phase::OnStop && plan.steady_buckets@.len() > 0 {
        Some(Phase::Steady)
    } else if plan.on_stop_buckets@.len() > 0 {
        Some(Phase::OnStop)
    } else {
        None
    }
}

/// Whether `after` is `before` with bucket `k` of `phase` in a new order and
/// everything else as it was. A bucket of one entry or none has no other
/// order: the plan is as it was.
pub open spec fn freshly(before: Plan, after: Plan, phase: Phase, k: int) -> bool {
    &&& reshuffled(before.buckets(phase), after.buckets(phase), k)
    &&& before.buckets(phase)[k].tasks@.len() <= 1 ==> after == before
    &&& phase != Phase::OnStart ==> after.on_start_buckets == before.on_start_buckets
    &&& phase != Phase::Steady ==> after.steady_buckets == before.steady_buckets
    &&& phase != Phase::OnStop ==> after.on_stop_buckets == before.on_stop_buckets
}

/// The state of one simulated user.
pub struct UserScheduler {
    /// The task set that the user is bound to.
    pub task_set: TaskSet,
    /// The user's plan; a bucket is shuffled in place when the user enters it.
    pub plan: Plan,
    /// Where the user stands.
    pub stage: Stage,
    /// The bucket, in the list of the current phase, of the task that runs or
    /// ran last.
    pub bucket_index: usize,
    /// That task's place in its bucket.
    pub position_in_bucket: usize,
    /// The seconds to wait after the steady task that ran last.
    pub wait: usize,
    /// The seconds of that wait that are over.
    pub slept: usize,
    /// Whether the command to exit has come.
    pub exit_requested: bool,
    /// The name under which the requests of the current task are recorded, if
    /// the task has one.
    pub task_request_name: Option<String>,
    /// What the user has been told to run so far.
    pub history: Ghost<History>,
}

impl UserScheduler {
    /// The bucket list of `phase` in the user's plan.
    pub open spec fn buckets(&self, phase: Phase) -> Seq<Bucket> {
        self.plan.buckets(phase)
    }

    /// Every task that the user was told to run, in order.
    pub open spec fn trace(&self) -> Seq<Run> {
        self.history@.trace()
    }

    /// What does not change in a run: a valid task set whose wait can be
    /// drawn, and a plan of its tasks without an empty bucket.
    pub open spec fn grounded(&self) -> bool {
        &&& self.task_set.wf()
        &&& self.task_set.tasks@.len() <= usize::MAX
        &&& (self.task_set.max_wait == 0 || self.task_set.min_wait < self.task_set.max_wait)
        &&& self.plan.plans(self.task_set.tasks@, false)
        &&& all_nonempty(self.plan.on_start_buckets@)
        &&& all_nonempty(self.plan.steady_buckets@)
        &&& all_nonempty(self.plan.on_stop_buckets@)
    }

    /// The count of the steady runs: each task has run as often as the plan
    /// lists it, times the number of complete passes, plus its runs in the
    /// pass under way, which are no more than the plan lists.
    pub open spec fn tallied(&self) -> bool {
        &&& forall|t: usize| #[trigger]
            occurrences(self.history@.steady, t) == self.history@.rounds * planned_runs(
                self.task_set.tasks@,
                Phase::Steady,
                t as int,
            ) + occurrences(self.history@.round, t)
        &&& forall|t: usize| #[trigger]
            occurrences(self.history@.round, t) <= planned_runs(
                self.task_set.tasks@,
                Phase::Steady,
                t as int,
            )
    }

    /// Whether the user is about to run the entry at `(bucket, position)` of
    /// `phase`: everything before it in the phase has run, and nothing after.
    pub open spec fn poised(&self, phase: Phase, bucket: usize, position: usize) -> bool {
        let h = self.history@;
        &&& self.grounded()
        &&& self.tallied()
        &&& cursor_in(self.buckets(phase), bucket, position)
        &&& match phase {
            Phase::OnStart => {
                &&& h.started == before(self.buckets(phase), bucket as int, position as int)
                &&& h.steady.len() == 0
                &&& h.round.len() == 0
                &&& h.rounds == 0
                &&& h.stopped.len() == 0
                &&& !self.exit_requested
            },
            Phase::Steady => {
                &&& h.started == positions(self.plan.on_start_buckets@)
                &&& h.round == before(self.buckets(phase), bucket as int, position as int)
                &&& h.stopped.len() == 0
                &&& !self.exit_requested
            },
            Phase::OnStop => {
                &&& h.started == positions(self.plan.on_start_buckets@)
                &&& h.stopped == before(self.buckets(phase), bucket as int, position as int)
            },
        }
    }

    /// The scheduler's invariant.
    pub open spec fn wf(&self) -> bool {
        let h = self.history@;
        let b = self.bucket_index;
        let p = self.position_in_bucket;
        &&& self.grounded()
        &&& self.tallied()
        &&& self.exit_requested ==> self.stage == Stage::OnStop || self.stage == Stage::Done
        &&& match self.stage {
            Stage::Created => {
                &&& h.started.len() == 0
                &&& h.steady.len() == 0
                &&& h.round.len() == 0
                &&& h.rounds == 0
                &&& h.stopped.len() == 0
            },
            Stage::OnStart => {
                &&& cursor_in(self.plan.on_start_buckets@, b, p)
                &&& h.started == walked(self.plan.on_start_buckets@, b as int, p as int)
                &&& h.steady.len() == 0
                &&& h.round.len() == 0
                &&& h.rounds == 0
                &&& h.stopped.len() == 0
            },
            Stage::SteadyTask => self.in_steady(),
            Stage::SteadyPoll => {
                &&& self.in_steady()
                &&& wait_allowed(self.task_set.min_wait, self.task_set.max_wait, self.wait)
                &&& self.slept <= self.wait
            },
            Stage::SteadySleep => {
                &&& self.in_steady()
                &&& wait_allowed(self.task_set.min_wait, self.task_set.max_wait, self.wait)
                &&& self.slept < self.wait
            },
            Stage::OnStop => {
                &&& cursor_in(self.plan.on_stop_buckets@, b, p)
                &&& h.started == positions(self.plan.on_start_buckets@)
                &&& h.stopped == walked(self.plan.on_stop_buckets@, b as int, p as int)
            },
            Stage::Done => {
                &&& h.started == positions(self.plan.on_start_buckets@)
                &&& h.stopped == positions(self.plan.on_stop_buckets@)
            },
        }
    }

    /// What holds while the user is in its steady phase.
    pub open spec fn in_steady(&self) -> bool {
        let h = self.history@;
        &&& cursor_in(self.plan.steady_buckets@, self.bucket_index, self.position_in_bucket)
        &&& h.started == positions(self.plan.on_start_buckets@)
        &&& h.round == walked(
            self.plan.steady_buckets@,
            self.bucket_index as int,
            self.position_in_bucket as int,
        )
        &&& h.stopped.len() == 0
    }

    /// Whether `post` is `pre` after it was told to run the entry at
    /// `(bucket, position)` of `phase`, and `result` tells so.
    pub open spec fn runs(
        pre: UserScheduler,
        post: UserScheduler,
        phase: Phase,
        bucket: int,
        position: int,
        result: Result<Action, StepError>,
    ) -> bool {
        let task = post.buckets(phase)[bucket].tasks@[position];
        &&& post.stage == stage_of(phase)
        &&& post.bucket_index == bucket
        &&& post.position_in_bucket == position
        &&& result == Ok::<Action, StepError>(Action::RunTask { task: task })
        &&& task < post.task_set.tasks@.len()
        &&& post.task_set.tasks@[task as int].runs_in(phase)
        &&& names_task(post.task_request_name, post.task_set.tasks@[task as int])
        &&& post.trace() == pre.trace().push(Run { phase: phase, task: task })
    }

    /// Whether `post` is `pre` after it was told that it has ended.
    pub open spec fn ends(pre: UserScheduler, post: UserScheduler, result: Result<Action, StepError>) -> bool {
        &&& post.stage == Stage::Done
        &&& result == Ok::<Action, StepError>(Action::Finish)
        &&& post.plan == pre.plan
        &&& post.bucket_index == pre.bucket_index
        &&& post.position_in_bucket == pre.position_in_bucket
        &&& post.task_request_name == pre.task_request_name
        &&& post.history == pre.history
    }

    /// Whether `post` is `pre` after it entered the first phase from `from` on
    /// that has a bucket, with that phase's first bucket in a new order, or
    /// ended for want of such a phase.
    pub open spec fn begins(
        pre: UserScheduler,
        post: UserScheduler,
        from: Phase,
        result: Result<Action, StepError>,
    ) -> bool {
        match first_phase(pre.plan, from) {
            Some(phase) => freshly(pre.plan, post.plan, phase, 0) && Self::runs(
                pre,
                post,
                phase,
                0,
                0,
                result,
            ),
            None => Self::ends(pre, post, result),
        }
    }

    /// Whether `post` is `pre` after it went on from the entry that ran last
    /// in `phase`: to the next entry of the bucket; from a bucket's last entry
    /// to the first of the next bucket, which comes into a new order; and from
    /// the last entry of the last bucket on to the steady phase (after the
    /// start tasks), back to the first bucket (in the steady phase) or to the
    /// end (after the stop tasks).
    pub open spec fn advances(
        pre: UserScheduler,
        post: UserScheduler,
        phase: Phase,
        result: Result<Action, StepError>,
    ) -> bool {
        let list = pre.buckets(phase);
        let b = pre.bucket_index as int;
        let p = pre.position_in_bucket as int;
        if p + 1 < list[b].tasks@.len() {
            post.plan == pre.plan && Self::runs(pre, post, phase, b, p + 1, result)
        } else if b + 1 < list.len() {
            freshly(pre.plan, post.plan, phase, b + 1) && Self::runs(pre, post, phase, b + 1, 0, result)
        } else {
            match phase {
                Phase::OnStart => Self::begins(pre, post, Phase::Steady, result),
                Phase::Steady => freshly(pre.plan, post.plan, phase, 0) && Self::runs(
                    pre,
                    post,
                    phase,
                    0,
                    0,
                    result,
                ),
                Phase::OnStop => Self::ends(pre, post, result),
            }
        }
    }

    /// Whether `post` is `pre` with another stage and nothing run.
    pub open spec fn stays(pre: UserScheduler, post: UserScheduler, stage: Stage) -> bool {
        &&& post.stage == stage
        &&& post.plan == pre.plan
        &&& post.bucket_index == pre.bucket_index
        &&& post.position_in_bucket == pre.position_in_bucket
        &&& post.task_request_name == pre.task_request_name
        &&& post.history == pre.history
    }

    /// The scheduler's transitions: whether `post` and `result` are what
    /// `pre` may come to on `event`.
    pub open spec fn follows(
        pre: UserScheduler,
        event: Event,
        post: UserScheduler,
        result: Result<Action, StepError>,
    ) -> bool {
        &&& post.task_set == pre.task_set
        &&& match (pre.stage, event) {
            (Stage::Created, Event::Start) => {
                &&& !post.exit_requested
                &&& post.wait == pre.wait
                &&& post.slept == pre.slept
                &&& Self::begins(pre, post, Phase::OnStart, result)
            },
            (Stage::OnStart, Event::TaskDone) => {
                &&& !post.exit_requested
                &&& post.wait == pre.wait
                &&& post.slept == pre.slept
                &&& Self::advances(pre, post, Phase::OnStart, result)
            },
            (Stage::SteadyTask, Event::TaskDone) => {
                &&& !post.exit_requested
                &&& result == Ok::<Action, StepError>(Action::PollCommands)
                &&& Self::stays(pre, post, Stage::SteadyPoll)
                &&& post.slept == 0
                &&& wait_allowed(pre.task_set.min_wait, pre.task_set.max_wait, post.wait)
            },
            (Stage::SteadyPoll, Event::Commands(commands)) => {
                &&& post.slept == pre.slept
                &&& post.wait == pre.wait
                &&& if contains_exit(commands@) {
                    &&& post.exit_requested
                    &&& Self::begins(pre, post, Phase::OnStop, result)
                } else if pre.slept < pre.wait {
                    &&& !post.exit_requested
                    &&& result == Ok::<Action, StepError>(Action::Sleep)
                    &&& Self::stays(pre, post, Stage::SteadySleep)
                } else {
                    &&& !post.exit_requested
                    &&& Self::advances(pre, post, Phase::Steady, result)
                }
            },
            (Stage::SteadySleep, Event::SliceElapsed) => {
                &&& post.slept == pre.slept + 1
                &&& post.wait == pre.wait
                &&& !post.exit_requested
                &&& if pre.slept + 1 < pre.wait {
                    &&& result == Ok::<Action, StepError>(Action::PollCommands)
                    &&& Self::stays(pre, post, Stage::SteadyPoll)
                } else {
                    Self::advances(pre, post, Phase::Steady, result)
                }
            },
            (Stage::OnStop, Event::TaskDone) => {
                &&& post.exit_requested == pre.exit_requested
                &&& post.wait == pre.wait
                &&& post.slept == pre.slept
                &&& Self::advances(pre, post, Phase::OnStop, result)
            },
            _ => result == Err::<Action, StepError>(StepError::UnexpectedEvent) && post == pre,
        }
    }
}


/// Brings bucket `k` into a random order, if it holds more than one entry. A
/// bucket of one entry or none is left as it is; of a longer bucket the
/// entries stay and their order is left to chance, which may as well leave it
/// as it was.
fn reshuffle(buckets: &mut Vec<Bucket>, k: usize)
    requires
        k < old(buckets).len(),
    ensures
        reshuffled(old(buckets)@, final(buckets)@, k as int),
        old(buckets)@[k as int].tasks@.len() <= 1 ==> *final(buckets) == *old(buckets),
{
    if buckets[k].tasks.len() > 1 {
        let mut rng = thread_generator();
        shuffle(&mut buckets[k].tasks, &mut rng);
    }
}

/// Whether the command to exit is among `commands`.
pub fn has_exit(commands: &Vec<UserCommand>) -> (found: bool)
    ensures
        found == contains_exit(commands@),
{
    let mut i: usize = 0;
    while i < commands.len()
        invariant
            i <= commands.len(),
            forall|k: int| 0 <= k < i ==> #[trigger] commands@[k] != UserCommand::Exit,
        decreases commands.len() - i,
    {
        match commands[i] {
            UserCommand::Exit => {
                return true;
            },
            _ => {},
        }
        i = i + 1;
    }
    false
}

impl UserScheduler {
    /// A user of `task_set` that has not started, with a fresh plan. The wait
    /// bounds must allow a draw: a maximum of 0, or a minimum below the
    /// maximum.
    pub fn new(task_set: TaskSet) -> (user: UserScheduler)
        requires
            task_set.wf(),
            task_set.max_wait == 0 || task_set.min_wait < task_set.max_wait,
        ensures
            user.wf(),
            user.stage == Stage::Created,
            user.task_set == task_set,
            user.plan.plans(task_set.tasks@, true),
            user.trace().len() == 0,
            !user.exit_requested,
            user.task_request_name.is_none(),
    {
        let plan = Plan::new(&task_set);
        proof {
            vstd::std_specs::vec::axiom_spec_len(&task_set.tasks);
            lemma_planned_nonempty(plan.on_start_buckets@, task_set.tasks@, Phase::OnStart, true);
            lemma_planned_nonempty(plan.steady_buckets@, task_set.tasks@, Phase::Steady, true);
            lemma_planned_nonempty(plan.on_stop_buckets@, task_set.tasks@, Phase::OnStop, true);
        }
        let ghost history = History {
            started: Seq::empty(),
            steady: Seq::empty(),
            round: Seq::empty(),
            rounds: 0,
            stopped: Seq::empty(),
        };
        UserScheduler {
            task_set: task_set,
            plan: plan,
            stage: Stage::Created,
            bucket_index: 0,
            position_in_bucket: 0,
            wait: 0,
            slept: 0,
            exit_requested: false,
            task_request_name: None,
            history: Ghost(history),
        }
    }

    /// The number of buckets of `phase`.
    fn bucket_count(&self, phase: Phase) -> (n: usize)
        ensures
            n == self.buckets(phase).len(),
    {
        match phase {
            Phase::OnStart => self.plan.on_start_buckets.len(),
            Phase::Steady => self.plan.steady_buckets.len(),
            Phase::OnStop => self.plan.on_stop_buckets.len(),
        }
    }

    /// The number of entries of bucket `k` of `phase`.
    fn bucket_len(&self, phase: Phase, k: usize) -> (n: usize)
        requires
            k < self.buckets(phase).len(),
        ensures
            n == self.buckets(phase)[k as int].tasks@.len(),
    {
        match phase {
            Phase::OnStart => self.plan.on_start_buckets[k].tasks.len(),
            Phase::Steady => self.plan.steady_buckets[k].tasks.len(),
            Phase::OnStop => self.plan.on_stop_buckets[k].tasks.len(),
        }
    }

    /// Brings bucket `k` of `phase` into a random order, if it holds more than
    /// one entry; a bucket of one entry or none is left as it is, and the user
    /// with it.
    fn reshuffle_in(&mut self, phase: Phase, k: usize)
        requires
            old(self).grounded(),
            k < old(self).buckets(phase).len(),
        ensures
            final(self).grounded(),
            freshly(old(self).plan, final(self).plan, phase, k as int),
            old(self).buckets(phase)[k as int].tasks@.len() <= 1 ==> *final(self) == *old(self),
            final(self).buckets(phase).take(k as int) == old(self).buckets(phase).take(k as int),
            final(self).task_set == old(self).task_set,
            final(self).stage == old(self).stage,
            final(self).bucket_index == old(self).bucket_index,
            final(self).position_in_bucket == old(self).position_in_bucket,
            final(self).wait == old(self).wait,
            final(self).slept == old(self).slept,
            final(self).exit_requested == old(self).exit_requested,
            final(self).task_request_name == old(self).task_request_name,
            final(self).history == old(self).history,
    {
        match phase {
            Phase::OnStart => {
                reshuffle(&mut self.plan.on_start_buckets, k);
            },
            Phase::Steady => {
                reshuffle(&mut self.plan.steady_buckets, k);
            },
            Phase::OnStop => {
                reshuffle(&mut self.plan.on_stop_buckets, k);
            },
        }
        proof {
            lemma_reshuffled_keeps_plan(
                old(self).buckets(phase),
                self.buckets(phase),
                k as int,
                self.task_set.tasks@,
                phase,
            );
        }
    }

    /// Tells the caller to run the entry at `(bucket, position)` of `phase`,
    /// and takes note of it.
    #[verifier::rlimit(40)]
    fn issue(&mut self, phase: Phase, bucket: usize, position: usize) -> (action: Action)
        requires
            old(self).poised(phase, bucket, position),
        ensures
            final(self).wf(),
            Self::runs(
                *old(self),
                *final(self),
                phase,
                bucket as int,
                position as int,
                Ok::<Action, StepError>(action),
            ),
            final(self).plan == old(self).plan,
            final(self).task_set == old(self).task_set,
            final(self).exit_requested == old(self).exit_requested,
            final(self).wait == old(self).wait,
            final(self).slept == old(self).slept,
    {
        let task: usize = match phase {
            Phase::OnStart => self.plan.on_start_buckets[bucket].tasks[position],
            Phase::Steady => self.plan.steady_buckets[bucket].tasks[position],
            Phase::OnStop => self.plan.on_stop_buckets[bucket].tasks[position],
        };
        let ghost list: Seq<Bucket> = self.buckets(phase);
        let ghost h: History = self.history@;
        proof {
            lemma_entry_is_task(
                list,
                self.task_set.tasks@,
                phase,
                false,
                bucket as int,
                position as int,
            );
            assert(list[bucket as int].tasks@.take(position + 1) == list[bucket as int].tasks@.take(
                position as int,
            ).push(task));
            assert(walked(list, bucket as int, position as int) == before(
                list,
                bucket as int,
                position as int,
            ).push(task));
        }
        if self.task_set.tasks[task].name.as_str().is_empty() {
            self.task_request_name = None;
        } else {
            self.task_request_name = Some(self.task_set.tasks[task].name.clone());
        }
        self.bucket_index = bucket;
        self.position_in_bucket = position;
        match phase {
            Phase::OnStart => {
                self.stage = Stage::OnStart;
                self.history = Ghost(History { started: h.started.push(task), ..h });
            },
            Phase::Steady => {
                self.stage = Stage::SteadyTask;
                self.history = Ghost(
                    History { steady: h.steady.push(task), round: h.round.push(task), ..h },
                );
                proof {
                    let tasks: Seq<Task> = self.task_set.tasks@;
                    assert forall|t: usize| #[trigger]
                        occurrences(self.history@.steady, t) == self.history@.rounds * planned_runs(
                            tasks,
                            Phase::Steady,
                            t as int,
                        ) + occurrences(self.history@.round, t) by {
                        lemma_occurrences_push(h.steady, task, t);
                        lemma_occurrences_push(h.round, task, t);
                        assert(occurrences(h.steady, t) == h.rounds * planned_runs(
                            tasks,
                            Phase::Steady,
                            t as int,
                        ) + occurrences(h.round, t));
                    }
                    assert forall|t: usize| #[trigger]
                        occurrences(self.history@.round, t) <= planned_runs(
                            tasks,
                            Phase::Steady,
                            t as int,
                        ) by {
                        lemma_before_within(list, bucket as int, position + 1, t);
                        lemma_positions_occurrences(list, tasks, Phase::Steady, false, t);
                    }
                }
            },
            Phase::OnStop => {
                self.stage = Stage::OnStop;
                self.history = Ghost(History { stopped: h.stopped.push(task), ..h });
            },
        }
        proof {
            let run = Run { phase: phase, task: task };
            assert(self.trace() =~= old(self).trace().push(run));
        }
        Action::RunTask { task: task }
    }

    /// Enters the first phase from `from` on that has a bucket, or ends.
    #[verifier::rlimit(40)]
    fn begin(&mut self, from: Phase) -> (action: Action)
        requires
            old(self).grounded(),
            old(self).tallied(),
            old(self).history@.stopped.len() == 0,
            from == Phase::OnStart ==> old(self).history@.started.len() == 0,
            from != Phase::OnStart ==> old(self).history@.started == positions(
                old(self).plan.on_start_buckets@,
            ),
            from != Phase::OnStop ==> old(self).history@.steady.len() == 0 && old(
                self,
            ).history@.round.len() == 0 && old(self).history@.rounds == 0 && !old(
                self,
            ).exit_requested,
        ensures
            final(self).wf(),
            Self::begins(*old(self), *final(self), from, Ok::<Action, StepError>(action)),
            final(self).task_set == old(self).task_set,
            final(self).exit_requested == old(self).exit_requested,
            final(self).wait == old(self).wait,
            final(self).slept == old(self).slept,
    {
        let phase: Phase = if matches!(from, Phase::OnStart) && self.plan.on_start_buckets.len()
            > 0 {
            Phase::OnStart
        } else if !matches!(from, Phase::OnStop) && self.plan.steady_buckets.len() > 0 {
            Phase::Steady
        } else if self.plan.on_stop_buckets.len() > 0 {
            Phase::OnStop
        } else {
            proof {
                if from == Phase::OnStart {
                    assert(self.history@.started =~= positions(self.plan.on_start_buckets@));
                }
                assert(self.history@.stopped =~= positions(self.plan.on_stop_buckets@));
            }
            self.stage = Stage::Done;
            return Action::Finish;
        };
        assert(first_phase(self.plan, from) == Some(phase));
        proof {
            if from == Phase::OnStart && phase != Phase::OnStart {
                assert(self.history@.started =~= positions(self.plan.on_start_buckets@));
            }
        }
        self.reshuffle_in(phase, 0);
        proof {
            assert(self.buckets(phase).take(0) == Seq::<Bucket>::empty());
            assert(before(self.buckets(phase), 0, 0) == Seq::<usize>::empty());
            if self.history@.started.len() == 0 {
                assert(self.history@.started =~= Seq::<usize>::empty());
            }
            if self.history@.round.len() == 0 {
                assert(self.history@.round =~= Seq::<usize>::empty());
            }
            assert(self.history@.stopped =~= Seq::<usize>::empty());
        }
        self.issue(phase, 0, 0)
    }

    /// Goes on from the entry that ran last in `phase`.
    #[verifier::rlimit(40)]
    fn advance(&mut self, phase: Phase) -> (action: Action)
        requires
            old(self).wf(),
            match phase {
                Phase::OnStart => old(self).stage == Stage::OnStart,
                Phase::Steady => old(self).stage == Stage::SteadyPoll,
                Phase::OnStop => old(self).stage == Stage::OnStop,
            },
        ensures
            final(self).wf(),
            Self::advances(*old(self), *final(self), phase, Ok::<Action, StepError>(action)),
            final(self).task_set == old(self).task_set,
            final(self).exit_requested == old(self).exit_requested,
            final(self).wait == old(self).wait,
            final(self).slept == old(self).slept,
    {
        let bucket: usize = self.bucket_index;
        let position: usize = self.position_in_bucket;
        let ghost list: Seq<Bucket> = self.buckets(phase);
        let ghost tasks: Seq<Task> = self.task_set.tasks@;
        let entries: usize = self.bucket_len(phase, bucket);
        let buckets: usize = self.bucket_count(phase);
        if position + 1 < entries {
            return self.issue(phase, bucket, position + 1);
        }
        proof {
            lemma_positions_take_next(list, bucket as int);
            assert(list[bucket as int].tasks@.take(position + 1) == list[bucket as int].tasks@);
            assert(walked(list, bucket as int, position as int) == positions(
                list.take(bucket + 1),
            ));
        }
        if bucket + 1 < buckets {
            self.reshuffle_in(phase, bucket + 1);
            proof {
                let fresh: Seq<Bucket> = self.buckets(phase);
                assert(fresh[bucket + 1].tasks@.take(0) == Seq::<usize>::empty());
                assert(before(fresh, bucket + 1, 0) == positions(list.take(bucket + 1)));
            }
            return self.issue(phase, bucket + 1, 0);
        }
        proof {
            assert(list.take(bucket + 1) == list);
        }
        match phase {
            Phase::OnStart => self.begin(Phase::Steady),
            Phase::Steady => {
                let ghost h: History = self.history@;
                self.history = Ghost(
                    History { round: Seq::empty(), rounds: h.rounds + 1, ..h },
                );
                proof {
                    assert forall|t: usize| #[trigger]
                        occurrences(self.history@.steady, t) == self.history@.rounds * planned_runs(
                            tasks,
                            Phase::Steady,
                            t as int,
                        ) + occurrences(self.history@.round, t) by {
                        let planned: nat = planned_runs(tasks, Phase::Steady, t as int);
                        lemma_positions_occurrences(list, tasks, Phase::Steady, false, t);
                        assert(occurrences(h.steady, t) == h.rounds * planned + occurrences(
                            h.round,
                            t,
                        ));
                        assert((h.rounds + 1) * planned == h.rounds * planned + planned)
                            by (nonlinear_arith);
                    }
                    assert forall|t: usize| #[trigger]
                        occurrences(self.history@.round, t) <= planned_runs(
                            tasks,
                            Phase::Steady,
                            t as int,
                        ) by {}
                }
                self.reshuffle_in(phase, 0);
                proof {
                    let fresh: Seq<Bucket> = self.buckets(phase);
                    assert(fresh.take(0) == Seq::<Bucket>::empty());
                    assert(before(fresh, 0, 0) == Seq::<usize>::empty());
                }
                self.issue(phase, 0, 0)
            },
            Phase::OnStop => {
                self.stage = Stage::Done;
                Action::Finish
            },
        }
    }

    /// Takes in what happened and tells what to do next.
    ///
    /// A user that has not started begins with its first start task; without
    /// start tasks with its first steady task; without steady tasks with its
    /// first stop task; without any task it ends. After a steady task the user
    /// draws its wait and polls for commands. On the command to exit it goes to
    /// its stop tasks; else it sleeps for a second and polls again while
    /// seconds of its wait are left, and then runs the next steady task. An
    /// event that the user's stage does not await changes nothing and is
    /// answered by an error.
    #[verifier::rlimit(40)]
    pub fn step(&mut self, event: Event) -> (result: Result<Action, StepError>)
        requires
            old(self).wf(),
        ensures
            final(self).wf(),
            Self::follows(*old(self), event, *final(self), result),
    {
        match (self.stage, event) {
            (Stage::Created, Event::Start) => Ok(self.begin(Phase::OnStart)),
            (Stage::OnStart, Event::TaskDone) => Ok(self.advance(Phase::OnStart)),
            (Stage::SteadyTask, Event::TaskDone) => {
                self.wait = draw_wait(self.task_set.min_wait, self.task_set.max_wait);
                self.slept = 0;
                self.stage = Stage::SteadyPoll;
                Ok(Action::PollCommands)
            },
            (Stage::SteadyPoll, Event::Commands(commands)) => {
                if has_exit(&commands) {
                    self.exit_requested = true;
                    Ok(self.begin(Phase::OnStop))
                } else if self.slept < self.wait {
                    self.stage = Stage::SteadySleep;
                    Ok(Action::Sleep)
                } else {
                    Ok(self.advance(Phase::Steady))
                }
            },
            (Stage::SteadySleep, Event::SliceElapsed) => {
                self.slept = self.slept + 1;
                self.stage = Stage::SteadyPoll;
                if self.slept < self.wait {
                    Ok(Action::PollCommands)
                } else {
                    Ok(self.advance(Phase::Steady))
                }
            },
            (Stage::OnStop, Event::TaskDone) => Ok(self.advance(Phase::OnStop)),
            _ => Err(StepError::UnexpectedEvent),
        }
    }
}


/// The place of a phase in a user's life.
pub open spec fn phase_rank(phase: Phase) -> int {
    match phase {
        Phase::OnStart => 0,
        Phase::Steady => 1,
        Phase::OnStop => 2,
    }
}

impl UserScheduler {
    /// The name under which a request is recorded: the name given with the
    /// request, if one is given; else the name of the task that runs, if it
    /// has one; else the path of the request.
    pub fn request_name(&self, path: &str, named: Option<&str>) -> (name: String)
        ensures
            name@ == match named {
                Some(n) => n@,
                None => match self.task_request_name {
                    Some(t) => t@,
                    None => path@,
                },
            },
    {
        match named {
            Some(n) => n.to_owned(),
            None => match &self.task_request_name {
                Some(t) => t.clone(),
                None => path.to_owned(),
            },
        }
    }

    /// The stop entries that the user has yet to run.
    pub open spec fn stop_entries_left(&self) -> int {
        positions(self.plan.on_stop_buckets@).len() - self.history@.stopped.len()
    }

    /// A user runs its tasks in the order of the phases: no steady task before
    /// a start task, no stop task before a steady or a start task. Before the
    /// first steady or stop task every start entry of the plan has run, each
    /// once and so each start task as often as the plan lists it; and a user
    /// that has ended has run every stop entry of the plan, each once.
    pub proof fn lemma_phases_in_order(self)
        requires
            self.wf(),
        ensures
            forall|i: int, j: int|
                0 <= i < j < self.trace().len() ==> phase_rank((#[trigger] self.trace()[i]).phase)
                    <= phase_rank((#[trigger] self.trace()[j]).phase),
            self.history@.steady.len() > 0 || self.history@.stopped.len() > 0 || self.stage
                == Stage::Done ==> self.history@.started == positions(self.plan.on_start_buckets@),
            self.history@.steady.len() > 0 || self.history@.stopped.len() > 0 || self.stage
                == Stage::Done ==> forall|t: usize| #[trigger]
                occurrences(self.history@.started, t) == planned_runs(
                    self.task_set.tasks@,
                    Phase::OnStart,
                    t as int,
                ),
            self.stage == Stage::Done ==> self.history@.stopped == positions(
                self.plan.on_stop_buckets@,
            ),
            self.stage == Stage::Done ==> forall|t: usize| #[trigger]
                occurrences(self.history@.stopped, t) == planned_runs(
                    self.task_set.tasks@,
                    Phase::OnStop,
                    t as int,
                ),
    {
        let tasks: Seq<Task> = self.task_set.tasks@;
        assert forall|t: usize| #[trigger]
            occurrences(positions(self.plan.on_start_buckets@), t) == planned_runs(
                tasks,
                Phase::OnStart,
                t as int,
            ) by {
            lemma_positions_occurrences(self.plan.on_start_buckets@, tasks, Phase::OnStart, false, t);
        }
        assert forall|t: usize| #[trigger]
            occurrences(positions(self.plan.on_stop_buckets@), t) == planned_runs(
                tasks,
                Phase::OnStop,
                t as int,
            ) by {
            lemma_positions_occurrences(self.plan.on_stop_buckets@, tasks, Phase::OnStop, false, t);
        }
    }

    /// Over a user's run the steady tasks run in the ratio of their weights.
    /// Of two steady tasks whose groups reduce by the same divisor (as two
    /// tasks of one group do), with weights `wi` and `wj` and `ri` and `rj`
    /// runs so far, `ri * wj` and `rj * wi` differ by no more than the runs of
    /// one pass allow, however long the run; and they are equal whenever a
    /// pass through the steady buckets is complete.
    pub proof fn lemma_steady_ratio(self, i: usize, j: usize)
        requires
            self.wf(),
            i < self.task_set.tasks@.len(),
            j < self.task_set.tasks@.len(),
            self.task_set.tasks@[i as int].runs_in(Phase::Steady),
            self.task_set.tasks@[j as int].runs_in(Phase::Steady),
            partition_gcd(self.task_set.tasks@, Phase::Steady, self.task_set.tasks@[i as int].sequence)
                == partition_gcd(
                self.task_set.tasks@,
                Phase::Steady,
                self.task_set.tasks@[j as int].sequence,
            ),
        ensures
            ({
                let tasks = self.task_set.tasks@;
                let wi = tasks[i as int].weight as int;
                let wj = tasks[j as int].weight as int;
                let ri = occurrences(self.history@.steady, i) as int;
                let rj = occurrences(self.history@.steady, j) as int;
                let ci = planned_runs(tasks, Phase::Steady, i as int) as int;
                let cj = planned_runs(tasks, Phase::Steady, j as int) as int;
                &&& ri == self.history@.rounds * ci + occurrences(self.history@.round, i)
                &&& rj == self.history@.rounds * cj + occurrences(self.history@.round, j)
                &&& ci * wj == cj * wi
                &&& -(cj * wi) <= ri * wj - rj * wi <= ci * wj
                &&& self.history@.round.len() == 0 ==> ri * wj == rj * wi
            }),
    {
        let tasks = self.task_set.tasks@;
        let wi: int = tasks[i as int].weight as int;
        let wj: int = tasks[j as int].weight as int;
        let g: int = partition_gcd(tasks, Phase::Steady, tasks[i as int].sequence) as int;
        let ri: int = occurrences(self.history@.steady, i) as int;
        let rj: int = occurrences(self.history@.steady, j) as int;
        let ci: int = planned_runs(tasks, Phase::Steady, i as int) as int;
        let cj: int = planned_runs(tasks, Phase::Steady, j as int) as int;
        let pi: int = occurrences(self.history@.round, i) as int;
        let pj: int = occurrences(self.history@.round, j) as int;
        let r: int = self.history@.rounds as int;
        lemma_partition_gcd_divides(tasks, Phase::Steady, tasks[i as int].sequence, i as int);
        lemma_partition_gcd_divides(tasks, Phase::Steady, tasks[j as int].sequence, j as int);
        lemma_fundamental_div_mod(wi, g);
        lemma_fundamental_div_mod(wj, g);
        assert(ci == wi / g);
        assert(cj == wj / g);
        assert(ri == r * ci + pi);
        assert(rj == r * cj + pj);
        assert(0 <= pi <= ci);
        assert(0 <= pj <= cj);
        if self.history@.round.len() == 0 {
            assert(pi == 0 && pj == 0);
        }
        assert(ci * wj == cj * wi) by (nonlinear_arith)
            requires
                wi == g * ci,
                wj == g * cj,
        ;
        assert(ri * wj - rj * wi == pi * wj - pj * wi) by (nonlinear_arith)
            requires
                ri == r * ci + pi,
                rj == r * cj + pj,
                ci * wj == cj * wi,
        ;
        assert(pi * wj <= ci * wj && pj * wi <= cj * wi && 0 <= pi * wj && 0 <= pj * wi)
            by (nonlinear_arith)
            requires
                0 <= pi <= ci,
                0 <= pj <= cj,
                wi >= 0,
                wj >= 0,
        ;
    }

    /// The command to exit ends the steady phase at once: on the poll that
    /// brings it the user is told to run its first stop task, or to finish if
    /// it has none, and no steady task, poll or sleep comes between.
    pub proof fn lemma_exit_ends_steady(
        pre: UserScheduler,
        commands: Vec<UserCommand>,
        post: UserScheduler,
        result: Result<Action, StepError>,
    )
        requires
            pre.wf(),
            pre.stage == Stage::SteadyPoll,
            contains_exit(commands@),
            Self::follows(pre, Event::Commands(commands), post, result),
        ensures
            post.exit_requested,
            match result {
                Ok(Action::RunTask { task }) => {
                    &&& post.stage == Stage::OnStop
                    &&& post.bucket_index == 0
                    &&& post.position_in_bucket == 0
                    &&& post.trace() == pre.trace().push(Run { phase: Phase::OnStop, task: task })
                },
                Ok(Action::Finish) => {
                    &&& post.stage == Stage::Done
                    &&& post.trace() == pre.trace()
                    &&& pre.plan.on_stop_buckets@.len() == 0
                },
                _ => false,
            },
    {
    }

    /// A user that was told to exit neither polls nor sleeps nor runs a steady
    /// task again: each further step runs the next stop entry, with one entry
    /// less left to run, or finishes when none is left; and a user that has
    /// ended stays so.
    #[verifier::rlimit(40)]
    pub proof fn lemma_stop_phase_ends(
        pre: UserScheduler,
        event: Event,
        post: UserScheduler,
        result: Result<Action, StepError>,
    )
        requires
            pre.wf(),
            post.wf(),
            pre.exit_requested,
            Self::follows(pre, event, post, result),
        ensures
            post.exit_requested,
            match result {
                Ok(Action::RunTask { task }) => {
                    &&& pre.stage == Stage::OnStop
                    &&& post.stage == Stage::OnStop
                    &&& post.stop_entries_left() == pre.stop_entries_left() - 1
                    &&& post.stop_entries_left() >= 0
                },
                Ok(Action::Finish) => {
                    &&& pre.stage == Stage::OnStop
                    &&& post.stage == Stage::Done
                    &&& pre.stop_entries_left() == 0
                },
                Ok(_) => false,
                Err(_) => post == pre,
            },
    {
        if pre.stage == Stage::OnStop && event == Event::TaskDone {
            let list: Seq<Bucket> = pre.plan.on_stop_buckets@;
            let fresh: Seq<Bucket> = post.plan.on_stop_buckets@;
            let b: int = pre.bucket_index as int;
            let p: int = pre.position_in_bucket as int;
            lemma_positions_take_next(list, b);
            if p + 1 < list[b].tasks@.len() {
                lemma_positions_length(list, b, p + 1);
                lemma_positions_length(list, b, p + 2);
            } else if b + 1 < list.len() {
                lemma_reshuffled_keeps_plan(list, fresh, b + 1, pre.task_set.tasks@, Phase::OnStop);
                lemma_reshuffled_length(list, fresh, b + 1);
                lemma_positions_length(list, b, p + 1);
                lemma_positions_length(fresh, b + 1, 1);
                assert(list[b].tasks@.take(p + 1) == list[b].tasks@);
                assert(fresh[b + 1].tasks@.take(1).len() == 1);
            } else {
                assert(list.take(b + 1) == list);
                assert(list[b].tasks@.take(p + 1) == list[b].tasks@);
            }
        }
    }
}

} // verus!
