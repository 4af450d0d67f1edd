//! The manager's side of the coordination of workers.
//!
//! Workers attach to the manager, which gives each an identity that it keeps
//! for the run and turns away those for which it holds no place. Attached
//! workers report their statistics, which the manager merges. When the run
//! time is over or the operator signals, the manager tells the workers to
//! stop; they report a last time and take their leave, and the manager ends.
//! A worker that is lost on the way costs the run nothing but its further
//! statistics. The manager decides; its caller reads and writes the
//! connections.

use vstd::prelude::*;
use crate::outcome::Outcome;
use crate::stats::{lemma_plus_zero, sum_tallies, Statistics, Tally};

verus! {

/// Where the manager stands.
#[derive(Debug, Clone, Copy, PartialEq, Eq, Structural)]
pub enum ManagerPhase {
    /// Waiting for the expected workers to attach.
    Attaching,
    /// The workers run.
    Running,
    /// The workers were told to stop and have yet to take their leave.
    Stopping,
    /// The run is over.
    Done,
}

/// Where a worker stands that the manager gave an identity.
#[derive(Debug, Clone, Copy, PartialEq, Eq, Structural)]
pub enum WorkerState {
    /// The manager holds the worker's connection.
    Attached,
    /// The worker took its leave.
    Finished,
    /// The worker's connection was lost.
    Lost,
}

/// Why the workers are told to stop.
#[derive(Debug, Clone, Copy, PartialEq, Eq, Structural)]
pub enum StopReason {
    /// The run time is over.
    RunTimeElapsed,
    /// The operator sent a signal.
    Signal,
}

/// Why a worker is turned away.
#[derive(Debug, Clone, Copy, PartialEq, Eq, Structural)]
pub enum DenyReason {
    /// The manager holds as many connections as it expects workers.
    Full,
    /// The worker gave an identity that the manager did not assign.
    UnknownIdentity,
    /// The worker gave the identity of a worker that is attached or took its
    /// leave.
    IdentityInUse,
    /// The run is stopping or over.
    Stopping,
}

/// What the caller reports to the manager.
#[derive(Debug)]
#[allow(inconsistent_fields)]
pub enum ManagerEvent {
    /// A worker asks to attach, with its identity if it has one.
    Attach { worker_id: Option<usize> },
    /// A worker reports the statistics gathered since its last report.
    Delta { worker_id: usize, delta: Statistics },
    /// A worker reports its last statistics.
    Final { worker_id: usize, delta: Statistics },
    /// A worker takes its leave.
    Bye { worker_id: usize },
    /// The connection of a worker was lost.
    Disconnected { worker_id: usize },
    /// The time within which workers must attach is over.
    AttachDeadline,
    /// The run is to stop.
    Stop { reason: StopReason },
}

/// What the manager tells the caller to do.
#[derive(Debug, Clone, Copy, PartialEq, Eq, Structural)]
#[allow(inconsistent_fields)]
pub enum ManagerAction {
    /// Answer the worker that it is attached under this identity, and send it
    /// the configuration.
    Admit { worker_id: usize },
    /// Answer the worker that it is turned away.
    Deny { reason: DenyReason },
    /// Nothing; the statistics are merged.
    Merged,
    /// Nothing but a note in the log.
    Noted,
    /// Nothing; the event does not matter any more.
    Ignored,
    /// A worker that is not attached sent a message: a violation of the
    /// protocol.
    Violation,
    /// Tell every attached worker to stop.
    BroadcastStop { reason: StopReason },
    /// End with this outcome.
    Finish { outcome: Outcome },
}

/// The number of attached workers.
pub open spec fn held(workers: Seq<WorkerState>) -> nat
    decreases workers.len(),
{
    if workers.len() == 0 {
        0
    } else {
        held(workers.drop_last()) + if workers.last() == WorkerState::Attached {
            1nat
        } else {
            0nat
        }
    }
}

/// Whether the worker with identity `id` is attached.
pub open spec fn is_attached(workers: Seq<WorkerState>, id: usize) -> bool {
    id < workers.len() && workers[id as int] == WorkerState::Attached
}

/// The outcome of a run that was stopped for `reason` (or, with none, by its
/// workers' leave) and went to its end.
pub open spec fn outcome_of(reason: Option<StopReason>) -> Outcome {
    match reason {
        Some(StopReason::Signal) => Outcome::Interrupted,
        _ => Outcome::Completed,
    }
}

/// The counters of `name` in each of `reports`.
pub open spec fn tallies_of(reports: Seq<Statistics>, name: Seq<char>) -> Seq<Tally> {
    Seq::new(reports.len(), |i: int| reports[i].tally_of(name))
}

/// Changing one worker's state changes the number of attached workers by what
/// the worker counts for.
pub proof fn lemma_held_update(workers: Seq<WorkerState>, i: int, state: WorkerState)
    requires
        0 <= i < workers.len(),
    ensures
        held(workers.update(i, state)) == held(workers) - (if workers[i] == WorkerState::Attached {
            1int
        } else {
            0int
        }) + (if state == WorkerState::Attached {
            1int
        } else {
            0int
        }),
        held(workers) <= workers.len(),
    decreases workers.len(),
{
    if i == workers.len() - 1 {
        assert(workers.update(i, state).drop_last() == workers.drop_last());
        lemma_held_bound(workers.drop_last());
    } else {
        assert(workers.update(i, state).drop_last() == workers.drop_last().update(i, state));
        lemma_held_update(workers.drop_last(), i, state);
    }
}

/// No more workers are attached than there are.
pub proof fn lemma_held_bound(workers: Seq<WorkerState>)
    ensures
        held(workers) <= workers.len(),
    decreases workers.len(),
{
    if workers.len() > 0 {
        lemma_held_bound(workers.drop_last());
    }
}

/// The manager of a run.
pub struct Manager {
    /// The number of workers that the manager waits for and holds at most.
    pub expect_workers: usize,
    /// The state of each worker, at its identity.
    pub workers: Vec<WorkerState>,
    /// The number of attached workers.
    pub attached: usize,
    /// Where the manager stands.
    pub phase: ManagerPhase,
    /// Why the workers were told to stop, once they were.
    pub stop_reason: Option<StopReason>,
    /// The statistics of all workers together.
    pub stats: Statistics,
    /// The reports that were merged, in the order in which they came.
    pub reports: Ghost<Seq<Statistics>>,
}

impl Manager {
    /// The manager's invariant: it holds no more workers than it expects, and
    /// fewer while it waits for workers; and its statistics are, for every
    /// request name, the sum of all reports that it merged.
    pub open spec fn wf(&self) -> bool {
        &&& self.stats.wf()
        &&& self.attached == held(self.workers@)
        &&& self.attached <= self.expect_workers
        &&& self.phase == ManagerPhase::Attaching ==> self.attached < self.expect_workers
        &&& self.phase == ManagerPhase::Stopping ==> self.stop_reason.is_some() && self.attached
            > 0
        &&& forall|i: int| 0 <= i < self.reports@.len() ==> (#[trigger] self.reports@[i]).wf()
        &&& forall|name: Seq<char>| #[trigger]
            self.stats.tally_of(name) == sum_tallies(tallies_of(self.reports@, name))
    }

    /// Whether `event` carries valid statistics, if it carries any.
    pub open spec fn accepts(event: ManagerEvent) -> bool {
        match event {
            ManagerEvent::Delta { worker_id, delta } => delta.wf(),
            ManagerEvent::Final { worker_id, delta } => delta.wf(),
            _ => true,
        }
    }

    /// Whether `post` is `pre` but for its workers, its phase and the reason
    /// to stop.
    pub open spec fn keeps_stats(pre: Manager, post: Manager) -> bool {
        &&& post.expect_workers == pre.expect_workers
        &&& post.stats == pre.stats
        &&& post.reports == pre.reports
    }

    /// Whether `post` and `action` are what `pre` comes to when a worker asks
    /// to attach. A new worker gets the next identity, a lost worker that
    /// gives its identity gets it back, as long as a place is free and the run
    /// is not stopping. With the last expected worker the run begins.
    pub open spec fn attaches(
        pre: Manager,
        worker_id: Option<usize>,
        post: Manager,
        action: ManagerAction,
    ) -> bool {
        let open = pre.phase == ManagerPhase::Attaching || pre.phase == ManagerPhase::Running;
        let free = pre.attached < pre.expect_workers;
        let phase = if pre.phase == ManagerPhase::Attaching && pre.attached + 1
            == pre.expect_workers {
            ManagerPhase::Running
        } else {
            pre.phase
        };
        &&& Self::keeps_stats(pre, post)
        &&& post.stop_reason == pre.stop_reason
        &&& if !open {
            post.workers@ == pre.workers@ && post.phase == pre.phase && action
                == (ManagerAction::Deny { reason: DenyReason::Stopping })
        } else {
            match worker_id {
                None => if free {
                    &&& post.workers@ == pre.workers@.push(WorkerState::Attached)
                    &&& post.phase == phase
                    &&& action == (ManagerAction::Admit { worker_id: pre.workers@.len() as usize })
                } else {
                    post.workers@ == pre.workers@ && post.phase == pre.phase && action
                        == (ManagerAction::Deny { reason: DenyReason::Full })
                },
                Some(id) => if id >= pre.workers@.len() {
                    post.workers@ == pre.workers@ && post.phase == pre.phase && action
                        == (ManagerAction::Deny { reason: DenyReason::UnknownIdentity })
                } else if pre.workers@[id as int] != WorkerState::Lost {
                    post.workers@ == pre.workers@ && post.phase == pre.phase && action
                        == (ManagerAction::Deny { reason: DenyReason::IdentityInUse })
                } else if free {
                    &&& post.workers@ == pre.workers@.update(id as int, WorkerState::Attached)
                    &&& post.phase == phase
                    &&& action == (ManagerAction::Admit { worker_id: id })
                } else {
                    post.workers@ == pre.workers@ && post.phase == pre.phase && action
                        == (ManagerAction::Deny { reason: DenyReason::Full })
                },
            }
        }
    }

    /// Whether `post` and `action` are what `pre` comes to on a report of
    /// statistics. The report of an attached worker is merged; where a counter
    /// would exceed 64 bits the run ends with an error. A report of any other
    /// worker violates the protocol and changes nothing.
    pub open spec fn reports_in(
        pre: Manager,
        worker_id: usize,
        delta: Statistics,
        post: Manager,
        action: ManagerAction,
    ) -> bool {
        &&& post.expect_workers == pre.expect_workers
        &&& post.workers@ == pre.workers@
        &&& post.stop_reason == pre.stop_reason
        &&& if !is_attached(pre.workers@, worker_id) || pre.phase == ManagerPhase::Done {
            &&& action == if pre.phase == ManagerPhase::Done {
                ManagerAction::Ignored
            } else {
                ManagerAction::Violation
            }
            &&& post.phase == pre.phase
            &&& post.stats == pre.stats
            &&& post.reports == pre.reports
        } else if pre.stats.fits(&delta) {
            &&& action == ManagerAction::Merged
            &&& post.phase == pre.phase
            &&& post.reports@ == pre.reports@.push(delta)
            &&& forall|name: Seq<char>| #[trigger]
                post.stats.tally_of(name) == pre.stats.tally_of(name).plus(delta.tally_of(name))
        } else {
            &&& action == (ManagerAction::Finish { outcome: Outcome::RuntimeError })
            &&& post.phase == ManagerPhase::Done
            &&& post.stats == pre.stats
            &&& post.reports == pre.reports
        }
    }

    /// Whether `post` and `action` are what `pre` comes to when the attached
    /// worker `worker_id` leaves, having taken its leave or not. The run ends
    /// with its last worker's leave; it ends with the loss of its last worker
    /// only where the workers were told to stop.
    pub open spec fn leaves(
        pre: Manager,
        worker_id: usize,
        state: WorkerState,
        post: Manager,
        action: ManagerAction,
    ) -> bool {
        let over = pre.attached == 1 && (pre.phase == ManagerPhase::Stopping || (pre.phase
            == ManagerPhase::Running && state == WorkerState::Finished));
        &&& Self::keeps_stats(pre, post)
        &&& post.stop_reason == pre.stop_reason
        &&& post.workers@ == pre.workers@.update(worker_id as int, state)
        &&& if over {
            post.phase == ManagerPhase::Done && action == (ManagerAction::Finish {
                outcome: outcome_of(pre.stop_reason),
            })
        } else {
            post.phase == pre.phase && action == ManagerAction::Noted
        }
    }

    /// The manager's transitions: whether `post` and `action` are what `pre`
    /// comes to on `event`.
    pub open spec fn follows(pre: Manager, event: ManagerEvent, post: Manager, action: ManagerAction) -> bool {
        match event {
            ManagerEvent::Attach { worker_id } => Self::attaches(pre, worker_id, post, action),
            ManagerEvent::Delta { worker_id, delta } => Self::reports_in(
                pre,
                worker_id,
                delta,
                post,
                action,
            ),
            ManagerEvent::Final { worker_id, delta } => Self::reports_in(
                pre,
                worker_id,
                delta,
                post,
                action,
            ),
            ManagerEvent::Bye { worker_id } => if pre.phase == ManagerPhase::Done {
                post == pre && action == ManagerAction::Ignored
            } else if !is_attached(pre.workers@, worker_id) {
                post == pre && action == ManagerAction::Violation
            } else {
                Self::leaves(pre, worker_id, WorkerState::Finished, post, action)
            },
            ManagerEvent::Disconnected { worker_id } => if pre.phase == ManagerPhase::Done
                || !is_attached(pre.workers@, worker_id) {
                post == pre && action == ManagerAction::Ignored
            } else {
                Self::leaves(pre, worker_id, WorkerState::Lost, post, action)
            },
            ManagerEvent::AttachDeadline => if pre.phase == ManagerPhase::Attaching {
                &&& Self::keeps_stats(pre, post)
                &&& post.workers@ == pre.workers@
                &&& post.stop_reason == pre.stop_reason
                &&& post.phase == ManagerPhase::Done
                &&& action == (ManagerAction::Finish { outcome: Outcome::AttachTimeout })
            } else {
                post == pre && action == ManagerAction::Ignored
            },
            ManagerEvent::Stop { reason } => if pre.phase == ManagerPhase::Attaching || pre.phase
                == ManagerPhase::Running {
                &&& Self::keeps_stats(pre, post)
                &&& post.workers@ == pre.workers@
                &&& post.stop_reason == Some(reason)
                &&& if pre.attached == 0 {
                    post.phase == ManagerPhase::Done && action == (ManagerAction::Finish {
                        outcome: outcome_of(Some(reason)),
                    })
                } else {
                    post.phase == ManagerPhase::Stopping && action == (ManagerAction::BroadcastStop {
                        reason: reason,
                    })
                }
            } else {
                post == pre && action == ManagerAction::Ignored
            },
        }
    }

    /// A manager that expects `expect_workers` workers and has none. Without
    /// workers to wait for, the run begins at once.
    pub fn new(expect_workers: usize) -> (manager: Manager)
        ensures
            manager.wf(),
            manager.expect_workers == expect_workers,
            manager.workers@.len() == 0,
            manager.reports@.len() == 0,
            manager.stop_reason.is_none(),
            manager.phase == if expect_workers == 0 {
                ManagerPhase::Running
            } else {
                ManagerPhase::Attaching
            },
    {
        let stats = Statistics::new();
        let manager = Manager {
            expect_workers: expect_workers,
            workers: Vec::new(),
            attached: 0,
            phase: if expect_workers == 0 {
                ManagerPhase::Running
            } else {
                ManagerPhase::Attaching
            },
            stop_reason: None,
            stats: stats,
            reports: Ghost(Seq::empty()),
        };
        proof {
            assert forall|name: Seq<char>| #[trigger]
                manager.stats.tally_of(name) == sum_tallies(tallies_of(manager.reports@, name)) by {
                assert(tallies_of(manager.reports@, name).len() == 0);
            }
        }
        manager
    }

    /// Answers a worker that asks to attach.
    fn attach(&mut self, worker_id: Option<usize>) -> (action: ManagerAction)
        requires
            old(self).wf(),
        ensures
            final(self).wf(),
            Self::attaches(*old(self), worker_id, *final(self), action),
    {
        match self.phase {
            ManagerPhase::Attaching | ManagerPhase::Running => {},
            _ => {
                return ManagerAction::Deny { reason: DenyReason::Stopping };
            },
        }
        let free: bool = self.attached < self.expect_workers;
        let id: usize = match worker_id {
            None => {
                if !free {
                    return ManagerAction::Deny { reason: DenyReason::Full };
                }
                let id: usize = self.workers.len();
                self.workers.push(WorkerState::Attached);
                proof {
                    assert(self.workers@.drop_last() == old(self).workers@);
                }
                id
            },
            Some(id) => {
                if id >= self.workers.len() {
                    return ManagerAction::Deny { reason: DenyReason::UnknownIdentity };
                }
                match self.workers[id] {
                    WorkerState::Lost => {},
                    _ => {
                        return ManagerAction::Deny { reason: DenyReason::IdentityInUse };
                    },
                }
                if !free {
                    return ManagerAction::Deny { reason: DenyReason::Full };
                }
                proof {
                    lemma_held_update(self.workers@, id as int, WorkerState::Attached);
                }
                self.workers[id] = WorkerState::Attached;
                id
            },
        };
        self.attached = self.attached + 1;
        if self.attached == self.expect_workers {
            match self.phase {
                ManagerPhase::Attaching => {
                    self.phase = ManagerPhase::Running;
                },
                _ => {},
            }
        }
        ManagerAction::Admit { worker_id: id }
    }

    /// Takes in the statistics that a worker reports.
    fn report(&mut self, worker_id: usize, delta: &Statistics) -> (action: ManagerAction)
        requires
            old(self).wf(),
            delta.wf(),
        ensures
            final(self).wf(),
            Self::reports_in(*old(self), worker_id, *delta, *final(self), action),
    {
        match self.phase {
            ManagerPhase::Done => {
                return ManagerAction::Ignored;
            },
            _ => {},
        }
        let known: bool = worker_id < self.workers.len();
        let attached: bool = known && match self.workers[worker_id] {
            WorkerState::Attached => true,
            _ => false,
        };
        if !attached {
            return ManagerAction::Violation;
        }
        match self.stats.merge(delta) {
            Ok(()) => {
                proof {
                    let log: Seq<Statistics> = self.reports@.push(*delta);
                    assert forall|name: Seq<char>| #[trigger]
                        self.stats.tally_of(name) == sum_tallies(tallies_of(log, name)) by {
                        assert(tallies_of(log, name).drop_last() =~= tallies_of(
                            self.reports@,
                            name,
                        ));
                        assert(old(self).stats.tally_of(name) == sum_tallies(
                            tallies_of(self.reports@, name),
                        ));
                    }
                }
                self.reports = Ghost(self.reports@.push(*delta));
                ManagerAction::Merged
            },
            Err(_) => {
                self.phase = ManagerPhase::Done;
                ManagerAction::Finish { outcome: Outcome::RuntimeError }
            },
        }
    }

    /// Takes note that the attached worker `worker_id` left.
    fn leave(&mut self, worker_id: usize, state: WorkerState) -> (action: ManagerAction)
        requires
            old(self).wf(),
            old(self).phase != ManagerPhase::Done,
            is_attached(old(self).workers@, worker_id),
            state != WorkerState::Attached,
        ensures
            final(self).wf(),
            Self::leaves(*old(self), worker_id, state, *final(self), action),
    {
        proof {
            lemma_held_update(self.workers@, worker_id as int, state);
        }
        self.workers[worker_id] = state;
        self.attached = self.attached - 1;
        let finished: bool = match state {
            WorkerState::Finished => true,
            _ => false,
        };
        let over: bool = self.attached == 0 && match self.phase {
            ManagerPhase::Stopping => true,
            ManagerPhase::Running => finished,
            _ => false,
        };
        if over {
            self.phase = ManagerPhase::Done;
            ManagerAction::Finish {
                outcome: match self.stop_reason {
                    Some(StopReason::Signal) => Outcome::Interrupted,
                    _ => Outcome::Completed,
                },
            }
        } else {
            ManagerAction::Noted
        }
    }

    /// Whether the worker with identity `worker_id` is attached.
    pub fn holds(&self, worker_id: usize) -> (attached: bool)
        ensures
            attached == is_attached(self.workers@, worker_id),
    {
        worker_id < self.workers.len() && match self.workers[worker_id] {
            WorkerState::Attached => true,
            _ => false,
        }
    }

    /// Takes in what happened and tells what to do.
    pub fn step(&mut self, event: ManagerEvent) -> (action: ManagerAction)
        requires
            old(self).wf(),
            Self::accepts(event),
        ensures
            final(self).wf(),
            Self::follows(*old(self), event, *final(self), action),
    {
        match event {
            ManagerEvent::Attach { worker_id } => self.attach(worker_id),
            ManagerEvent::Delta { worker_id, delta } => self.report(worker_id, &delta),
            ManagerEvent::Final { worker_id, delta } => self.report(worker_id, &delta),
            ManagerEvent::Bye { worker_id } => {
                match self.phase {
                    ManagerPhase::Done => {
                        return ManagerAction::Ignored;
                    },
                    _ => {},
                }
                if !self.holds(worker_id) {
                    return ManagerAction::Violation;
                }
                self.leave(worker_id, WorkerState::Finished)
            },
            ManagerEvent::Disconnected { worker_id } => {
                match self.phase {
                    ManagerPhase::Done => {
                        return ManagerAction::Ignored;
                    },
                    _ => {},
                }
                if !self.holds(worker_id) {
                    return ManagerAction::Ignored;
                }
                self.leave(worker_id, WorkerState::Lost)
            },
            ManagerEvent::AttachDeadline => {
                match self.phase {
                    ManagerPhase::Attaching => {
                        self.phase = ManagerPhase::Done;
                        ManagerAction::Finish { outcome: Outcome::AttachTimeout }
                    },
                    _ => ManagerAction::Ignored,
                }
            },
            ManagerEvent::Stop { reason } => {
                match self.phase {
                    ManagerPhase::Attaching | ManagerPhase::Running => {
                        self.stop_reason = Some(reason);
                        if self.attached == 0 {
                            self.phase = ManagerPhase::Done;
                            ManagerAction::Finish {
                                outcome: match reason {
                                    StopReason::Signal => Outcome::Interrupted,
                                    StopReason::RunTimeElapsed => Outcome::Completed,
                                },
                            }
                        } else {
                            self.phase = ManagerPhase::Stopping;
                            ManagerAction::BroadcastStop { reason: reason }
                        }
                    },
                    _ => ManagerAction::Ignored,
                }
            },
        }
    }

    /// The statistics of the run are the sum of the workers' reports: for
    /// every request name the manager's counters are those of all merged
    /// reports together, whatever the order in which the reports came.
    pub proof fn lemma_stats_are_sum_of_reports(self, name: Seq<char>, other_order: Seq<Statistics>)
        requires
            self.wf(),
            other_order.to_multiset() == self.reports@.to_multiset(),
        ensures
            self.stats.tally_of(name) == sum_tallies(tallies_of(self.reports@, name)),
            self.stats.tally_of(name) == sum_tallies(tallies_of(other_order, name)),
    {
        let mine: Seq<Tally> = tallies_of(self.reports@, name);
        let theirs: Seq<Tally> = tallies_of(other_order, name);
        assert(mine =~= self.reports@.map_values(|d: Statistics| d.tally_of(name)));
        assert(theirs =~= other_order.map_values(|d: Statistics| d.tally_of(name)));
        crate::stats::lemma_map_keeps_multiset(self.reports@, other_order, name);
        assert forall|i: int| 0 <= i < mine.len() implies (#[trigger] mine[i]).wf() by {
            crate::stats::lemma_tally_of_wf(self.reports@[i], name);
        }
        assert forall|i: int| 0 <= i < theirs.len() implies (#[trigger] theirs[i]).wf() by {
            broadcast use vstd::seq_lib::group_to_multiset_ensures;

            assert(other_order.to_multiset().count(other_order[i]) > 0);
            assert(self.reports@.contains(other_order[i]));
            crate::stats::lemma_tally_of_wf(other_order[i], name);
        }
        crate::stats::lemma_sum_tallies_any_order(mine, theirs);
    }
}

} // verus!
