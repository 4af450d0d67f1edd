//! The pool controller: ramp-up, steady state and shutdown of the users of
//! one process.
//!
//! The controller spawns the users one by one, in the order that keeps the
//! task sets in the ratio of their weights and at the hatch rate. Then it
//! waits: for the run time to be over, for a signal of the operator, or for
//! the users to end by themselves. To shut down it tells every user to exit
//! and waits for them to end; those that have not ended at the deadline are
//! abandoned. The controller decides; its caller spawns, signals and waits.

use vstd::prelude::*;
use crate::coordinator::{outcome_of, StopReason};
use crate::outcome::Outcome;
use crate::pool::{can_deal, plan_users, spawn_order, SpawnPlan};
use crate::task::ConfigError;
use crate::weights::{as_nats, reduced};

verus! {

/// Where the pool stands.
#[derive(Debug, Clone, Copy, PartialEq, Eq, Structural)]
pub enum PoolPhase {
    /// Not started.
    Idle,
    /// Users are being spawned.
    Hatching,
    /// All users are spawned.
    Running,
    /// The users were told to exit and have yet to end.
    Stopping,
    /// The run of the pool is over.
    Done,
}

/// What the caller reports to the controller.
#[derive(Debug, Clone, Copy, PartialEq, Eq, Structural)]
pub enum PoolEvent {
    /// The pool is to start.
    Start,
    /// The time to spawn the next user has come.
    HatchDue,
    /// A user has ended.
    UserExited { user: usize },
    /// The run time is over.
    RunTimeElapsed,
    /// The operator sent a signal to stop.
    StopSignal,
    /// The time that users have to end after being told to exit is over.
    DeadlineElapsed,
}

/// What the controller tells the caller to do.
#[derive(Debug, Clone, Copy, PartialEq, Eq, Structural)]
pub enum PoolAction {
    /// Spawn the user `user` for the task set `task_set`, with a command
    /// channel and a plan of its own. `due_ms` milliseconds after the start
    /// the next user is due; with `last` there is none.
    Spawn { user: usize, task_set: usize, due_ms: u128, last: bool },
    /// Send the command to exit on the channel of every user, and start the
    /// deadline.
    BroadcastExit,
    /// Nothing yet.
    Wait,
    /// End with this outcome; `abandoned` users had not ended.
    Finish { outcome: Outcome, abandoned: usize },
    /// Nothing; the event does not matter in this phase.
    Ignored,
}

/// The number of users that have not ended, among users of which `exited`
/// tells for each whether it has.
pub open spec fn alive_among(exited: Seq<bool>) -> nat
    decreases exited.len(),
{
    if exited.len() == 0 {
        0
    } else {
        alive_among(exited.drop_last()) + if exited.last() {
            0nat
        } else {
            1nat
        }
    }
}

/// The time, in milliseconds after the start, at which the user with number
/// `user` is due at a hatch rate of `hatch_rate` users per second.
pub open spec fn due_at(user: nat, hatch_rate: nat) -> nat {
    (user * 1000) / hatch_rate
}

/// Marking a user as ended leaves one user less.
pub proof fn lemma_alive_update(exited: Seq<bool>, i: int)
    requires
        0 <= i < exited.len(),
        !exited[i],
    ensures
        alive_among(exited.update(i, true)) == alive_among(exited) - 1,
        alive_among(exited) <= exited.len(),
    decreases exited.len(),
{
    if i == exited.len() - 1 {
        assert(exited.update(i, true).drop_last() == exited.drop_last());
        lemma_alive_bound(exited.drop_last());
    } else {
        assert(exited.update(i, true).drop_last() == exited.drop_last().update(i, true));
        lemma_alive_update(exited.drop_last(), i);
    }
}

/// No more users are alive than were spawned.
pub proof fn lemma_alive_bound(exited: Seq<bool>)
    ensures
        alive_among(exited) <= exited.len(),
    decreases exited.len(),
{
    if exited.len() > 0 {
        lemma_alive_bound(exited.drop_last());
    }
}

/// The users of one process and their life.
pub struct Pool {
    /// The weights of the task sets.
    pub weights: Vec<usize>,
    /// The number of users to spawn.
    pub users: usize,
    /// The number of users to spawn per second.
    pub hatch_rate: usize,
    /// For each user the index of its task set.
    pub order: Vec<usize>,
    /// For each spawned user whether it has ended.
    pub exited: Vec<bool>,
    /// The number of spawned users that have not ended.
    pub alive: usize,
    /// Where the pool stands.
    pub phase: PoolPhase,
    /// Why the users were told to exit, once they were.
    pub stop_reason: Option<StopReason>,
}

impl Pool {
    /// The number of users spawned so far.
    pub open spec fn spawned(&self) -> nat {
        self.exited@.len()
    }

    /// The controller's invariant.
    pub open spec fn wf(&self) -> bool {
        &&& can_deal(self.weights@)
        &&& self.hatch_rate > 0
        &&& self.order@ == spawn_order(as_nats(reduced(self.weights@)), self.users as nat)
        &&& self.spawned() <= self.users
        &&& self.alive == alive_among(self.exited@)
        &&& match self.phase {
            PoolPhase::Idle => self.spawned() == 0,
            PoolPhase::Hatching => 0 < self.spawned() < self.users,
            PoolPhase::Running => self.spawned() == self.users && self.alive > 0,
            PoolPhase::Stopping => self.alive > 0 && self.stop_reason.is_some(),
            PoolPhase::Done => true,
        }
    }

    /// Whether `post` differs from `pre` at most in the spawned users, the
    /// phase and the reason to stop.
    pub open spec fn same_pool(pre: Pool, post: Pool) -> bool {
        &&& post.weights == pre.weights
        &&& post.users == pre.users
        &&& post.hatch_rate == pre.hatch_rate
        &&& post.order == pre.order
    }

    /// Whether `post` and `action` are what `pre` comes to by spawning its
    /// next user: the user goes to the task set that the spawn order gives
    /// it, and the pool runs once the last user is spawned.
    pub open spec fn spawns(pre: Pool, post: Pool, action: PoolAction) -> bool {
        let user = pre.spawned();
        let last = user + 1 == pre.users;
        &&& post.exited@ == pre.exited@.push(false)
        &&& post.stop_reason == pre.stop_reason
        &&& post.phase == if last {
            PoolPhase::Running
        } else {
            PoolPhase::Hatching
        }
        &&& action == (PoolAction::Spawn {
            user: user as usize,
            task_set: pre.order@[user as int],
            due_ms: due_at(user + 1, pre.hatch_rate as nat) as u128,
            last: last,
        })
    }

    /// Whether `post` and `action` are what `pre` comes to when it is to
    /// stop for `reason`: with users alive they are told to exit, without the
    /// pool ends.
    pub open spec fn stops(pre: Pool, reason: StopReason, post: Pool, action: PoolAction) -> bool {
        &&& post.exited@ == pre.exited@
        &&& post.stop_reason == Some(reason)
        &&& if pre.alive == 0 {
            post.phase == PoolPhase::Done && action == (PoolAction::Finish {
                outcome: outcome_of(Some(reason)),
                abandoned: 0,
            })
        } else {
            post.phase == PoolPhase::Stopping && action == PoolAction::BroadcastExit
        }
    }

    /// The controller's transitions: whether `post` and `action` are what
    /// `pre` comes to on `event`.
    pub open spec fn follows(pre: Pool, event: PoolEvent, post: Pool, action: PoolAction) -> bool {
        let unchanged = post.exited@ == pre.exited@ && post.stop_reason == pre.stop_reason
            && post.phase == pre.phase;
        &&& Self::same_pool(pre, post)
        &&& match (pre.phase, event) {
            (PoolPhase::Idle, PoolEvent::Start) => if pre.users == 0 {
                &&& post.exited@ == pre.exited@
                &&& post.stop_reason == pre.stop_reason
                &&& post.phase == PoolPhase::Done
                &&& action == (PoolAction::Finish { outcome: Outcome::Completed, abandoned: 0 })
            } else {
                Self::spawns(pre, post, action)
            },
            (PoolPhase::Hatching, PoolEvent::HatchDue) => Self::spawns(pre, post, action),
            (PoolPhase::Hatching, PoolEvent::UserExited { user })
            | (PoolPhase::Running, PoolEvent::UserExited { user })
            | (PoolPhase::Stopping, PoolEvent::UserExited { user }) => if user >= pre.spawned()
                || pre.exited@[user as int] {
                unchanged && action == PoolAction::Ignored
            } else {
                &&& post.exited@ == pre.exited@.update(user as int, true)
                &&& post.stop_reason == pre.stop_reason
                &&& if pre.alive == 1 && pre.phase != PoolPhase::Hatching {
                    post.phase == PoolPhase::Done && action == (PoolAction::Finish {
                        outcome: outcome_of(pre.stop_reason),
                        abandoned: 0,
                    })
                } else {
                    post.phase == pre.phase && action == PoolAction::Wait
                }
            },
            (PoolPhase::Hatching, PoolEvent::RunTimeElapsed) | (
                PoolPhase::Running,
                PoolEvent::RunTimeElapsed,
            ) => Self::stops(pre, StopReason::RunTimeElapsed, post, action),
            (PoolPhase::Hatching, PoolEvent::StopSignal) | (
                PoolPhase::Running,
                PoolEvent::StopSignal,
            ) => Self::stops(pre, StopReason::Signal, post, action),
            (PoolPhase::Stopping, PoolEvent::DeadlineElapsed) => {
                &&& post.exited@ == pre.exited@
                &&& post.stop_reason == pre.stop_reason
                &&& post.phase == PoolPhase::Done
                &&& action == (PoolAction::Finish {
                    outcome: outcome_of(pre.stop_reason),
                    abandoned: pre.alive,
                })
            },
            _ => unchanged && action == PoolAction::Ignored,
        }
    }

    /// A pool of `users` users for task sets with the given weights, spawned
    /// at `hatch_rate` users per second, which must not be 0. Weights by
    /// which users cannot be dealt are refused.
    pub fn new(weights: Vec<usize>, users: usize, hatch_rate: usize) -> (result: Result<
        Pool,
        ConfigError,
    >)
        requires
            hatch_rate > 0,
        ensures
            match result {
                Ok(pool) => {
                    &&& pool.wf()
                    &&& pool.weights == weights
                    &&& pool.users == users
                    &&& pool.hatch_rate == hatch_rate
                    &&& pool.phase == PoolPhase::Idle
                    &&& pool.stop_reason.is_none()
                },
                Err(ConfigError::EmptyTaskSet) => weights@.len() == 0,
                Err(ConfigError::InvalidWeight) => weights@.len() > 0 && !can_deal(weights@),
                Err(_) => false,
            },
    {
        match plan_users(&weights, users) {
            Ok(plan) => {
                let SpawnPlan { order, counts } = plan;
                Ok(
                    Pool {
                        weights: weights,
                        users: users,
                        hatch_rate: hatch_rate,
                        order: order,
                        exited: Vec::new(),
                        alive: 0,
                        phase: PoolPhase::Idle,
                        stop_reason: None,
                    },
                )
            },
            Err(e) => Err(e),
        }
    }

    /// Spawns the next user.
    fn spawn(&mut self) -> (action: PoolAction)
        requires
            old(self).wf(),
            old(self).spawned() < old(self).users,
            old(self).phase == PoolPhase::Idle || old(self).phase == PoolPhase::Hatching,
        ensures
            final(self).wf(),
            Self::same_pool(*old(self), *final(self)),
            Self::spawns(*old(self), *final(self), action),
    {
        let user: usize = self.exited.len();
        let task_set: usize = self.order[user];
        let last: bool = user + 1 == self.users;
        assert((user + 1) * 1000 <= usize::MAX * 1000) by (nonlinear_arith)
            requires
                user + 1 <= usize::MAX,
        ;
        let due_ms: u128 = ((user as u128 + 1) * 1000) / (self.hatch_rate as u128);
        proof {
            lemma_alive_bound(self.exited@);
        }
        self.exited.push(false);
        self.alive = self.alive + 1;
        proof {
            assert(self.exited@.drop_last() == old(self).exited@);
        }
        self.phase = if last {
            PoolPhase::Running
        } else {
            PoolPhase::Hatching
        };
        PoolAction::Spawn { user: user, task_set: task_set, due_ms: due_ms, last: last }
    }

    /// Begins the shutdown.
    fn stop(&mut self, reason: StopReason) -> (action: PoolAction)
        requires
            old(self).wf(),
            old(self).phase == PoolPhase::Hatching || old(self).phase == PoolPhase::Running,
        ensures
            final(self).wf(),
            Self::same_pool(*old(self), *final(self)),
            Self::stops(*old(self), reason, *final(self), action),
    {
        self.stop_reason = Some(reason);
        if self.alive == 0 {
            self.phase = PoolPhase::Done;
            PoolAction::Finish {
                outcome: match reason {
                    StopReason::Signal => Outcome::Interrupted,
                    StopReason::RunTimeElapsed => Outcome::Completed,
                },
                abandoned: 0,
            }
        } else {
            self.phase = PoolPhase::Stopping;
            PoolAction::BroadcastExit
        }
    }

    /// The outcome of a pool that went to its end.
    fn outcome(&self) -> (outcome: Outcome)
        ensures
            outcome == outcome_of(self.stop_reason),
    {
        match self.stop_reason {
            Some(StopReason::Signal) => Outcome::Interrupted,
            _ => Outcome::Completed,
        }
    }

    /// Takes in what happened and tells what to do.
    pub fn step(&mut self, event: PoolEvent) -> (action: PoolAction)
        requires
            old(self).wf(),
        ensures
            final(self).wf(),
            Self::follows(*old(self), event, *final(self), action),
    {
        match (self.phase, event) {
            (PoolPhase::Idle, PoolEvent::Start) => {
                if self.users == 0 {
                    self.phase = PoolPhase::Done;
                    PoolAction::Finish { outcome: Outcome::Completed, abandoned: 0 }
                } else {
                    self.spawn()
                }
            },
            (PoolPhase::Hatching, PoolEvent::HatchDue) => self.spawn(),
            (PoolPhase::Hatching, PoolEvent::UserExited { user })
            | (PoolPhase::Running, PoolEvent::UserExited { user })
            | (PoolPhase::Stopping, PoolEvent::UserExited { user }) => {
                if user >= self.exited.len() || self.exited[user] {
                    return PoolAction::Ignored;
                }
                proof {
                    lemma_alive_update(self.exited@, user as int);
                }
                self.exited[user] = true;
                self.alive = self.alive - 1;
                let hatching: bool = match self.phase {
                    PoolPhase::Hatching => true,
                    _ => false,
                };
                if self.alive == 0 && !hatching {
                    self.phase = PoolPhase::Done;
                    PoolAction::Finish { outcome: self.outcome(), abandoned: 0 }
                } else {
                    PoolAction::Wait
                }
            },
            (PoolPhase::Hatching, PoolEvent::RunTimeElapsed) | (
                PoolPhase::Running,
                PoolEvent::RunTimeElapsed,
            ) => self.stop(StopReason::RunTimeElapsed),
            (PoolPhase::Hatching, PoolEvent::StopSignal) | (
                PoolPhase::Running,
                PoolEvent::StopSignal,
            ) => self.stop(StopReason::Signal),
            (PoolPhase::Stopping, PoolEvent::DeadlineElapsed) => {
                self.phase = PoolPhase::Done;
                PoolAction::Finish { outcome: self.outcome(), abandoned: self.alive }
            },
            _ => PoolAction::Ignored,
        }
    }
}

} // verus!
