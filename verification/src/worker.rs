//! A worker's side of the coordination: it attaches to the manager, runs its
//! pool of users, reports the statistics gathered since its last report, and
//! on the manager's word drains its pool, reports a last time and takes its
//! leave. The worker decides; its caller reads and writes the connection and
//! runs the pool.

use vstd::prelude::*;
use crate::coordinator::tallies_of;
use crate::histogram::{
    added, bucket_of, histogram_of, lemma_bucket_in_range, lemma_histogram_counts,
};
use crate::outcome::Outcome;
use crate::stats::{
    lemma_plus_associates, lemma_plus_zero, lemma_sum_tallies_wf, lemma_tally_of_wf, sum_tallies,
    RequestRecord, Statistics, StatsError, Tally,
};

verus! {

/// Where a worker stands.
#[derive(Debug, Clone, Copy, PartialEq, Eq, Structural)]
pub enum WorkerPhase {
    /// The connection to the manager is being made.
    Connecting,
    /// The worker announced itself and awaits the manager's answer.
    Attaching,
    /// The worker's pool runs.
    Running,
    /// The pool was told to stop and has yet to end.
    Draining,
    /// The worker's run is over.
    Done,
}

/// What the caller reports to the worker.
#[derive(Debug, Clone, Copy, PartialEq, Eq, Structural)]
pub enum WorkerEvent {
    /// The connection to the manager stands.
    Connected,
    /// The manager admitted the worker under this identity and sent the
    /// configuration.
    Admitted { worker_id: usize },
    /// The manager turned the worker away.
    Denied,
    /// The reporting interval is over.
    ReportDue,
    /// The manager told the workers to stop.
    Stop,
    /// The pool has ended.
    PoolEnded,
    /// The connection to the manager was lost or could not be made.
    ConnectionLost,
}

/// What the worker tells the caller to do.
#[derive(Debug, Clone, Copy, PartialEq, Eq, Structural)]
pub enum WorkerAction {
    /// Announce the worker to the manager, with its identity if it has one.
    SendAttach { worker_id: Option<usize> },
    /// Start the pool with the configuration that the manager sent.
    StartPool,
    /// Take the report and send it as the statistics since the last report.
    SendDelta,
    /// Tell the pool to stop.
    StopPool,
    /// Take the report, send it as the last statistics, take leave and
    /// disconnect.
    SendFinalAndBye,
    /// End with this outcome.
    Finish { outcome: Outcome },
    /// Nothing; the event does not matter in this phase.
    Ignored,
}

/// The counters of `name` that `records` add up to.
pub open spec fn recorded_tally(records: Seq<RequestRecord>, name: Seq<char>) -> Tally
    decreases records.len(),
{
    if records.len() == 0 {
        Tally::zero()
    } else {
        let before = recorded_tally(records.drop_last(), name);
        let last = records.last();
        if last.name@ == name {
            before.plus(Tally::sample(last.status, last.elapsed_ms, last.success))
        } else {
            before
        }
    }
}

/// The latencies of the records of `name`, in order.
pub open spec fn latencies_of(records: Seq<RequestRecord>, name: Seq<char>) -> Seq<u64>
    decreases records.len(),
{
    if records.len() == 0 {
        Seq::empty()
    } else {
        let before = latencies_of(records.drop_last(), name);
        if records.last().name@ == name {
            before.push(records.last().elapsed_ms)
        } else {
            before
        }
    }
}

/// The histogram that records add up to is the histogram of their latencies,
/// so that percentiles read from it are within one percent of the percentiles
/// of the latencies themselves
/// ([`lemma_percentile_accuracy`](crate::histogram::lemma_percentile_accuracy)).
pub proof fn lemma_recorded_histogram(records: Seq<RequestRecord>, name: Seq<char>)
    ensures
        recorded_tally(records, name).histogram == histogram_of(latencies_of(records, name)),
        recorded_tally(records, name).count == latencies_of(records, name).len(),
    decreases records.len(),
{
    if records.len() > 0 {
        let last = records.last();
        lemma_recorded_histogram(records.drop_last(), name);
        if last.name@ == name {
            let before: Seq<u64> = latencies_of(records.drop_last(), name);
            let h: Seq<nat> = histogram_of(before);
            let sample: Tally = Tally::sample(last.status, last.elapsed_ms, last.success);
            let b: int = bucket_of(last.elapsed_ms as nat) as int;
            lemma_histogram_counts(before, 0);
            lemma_bucket_in_range(last.elapsed_ms);
            assert(before.push(last.elapsed_ms).drop_last() == before);
            assert(added(h, sample.histogram) =~= h.update(b, h[b] + 1));
        }
    }
}

/// The counters that records add up to are valid.
pub proof fn lemma_recorded_tally_wf(records: Seq<RequestRecord>, name: Seq<char>)
    ensures
        recorded_tally(records, name).wf(),
    decreases records.len(),
{
    if records.len() > 0 {
        let last = records.last();
        lemma_recorded_tally_wf(records.drop_last(), name);
        lemma_plus_zero(
            recorded_tally(records.drop_last(), name),
            Tally::sample(last.status, last.elapsed_ms, last.success),
        );
    } else {
        lemma_plus_zero(Tally::zero(), Tally::zero());
    }
}

/// One worker of a manager.
pub struct Worker {
    /// Where the worker stands.
    pub phase: WorkerPhase,
    /// The identity that the manager gave the worker, once it has one.
    pub worker_id: Option<usize>,
    /// The statistics gathered since the last report.
    pub stats: Statistics,
    /// The reports that were handed out, in order.
    pub sent: Ghost<Seq<Statistics>>,
    /// The records that were counted, in order.
    pub recorded: Ghost<Seq<RequestRecord>>,
}

impl Worker {
    /// The worker's invariant: no record is lost and none is counted twice.
    /// For every request name, the reports handed out and the statistics
    /// still held add up to the records that were counted.
    pub open spec fn wf(&self) -> bool {
        &&& self.stats.wf()
        &&& forall|i: int| 0 <= i < self.sent@.len() ==> (#[trigger] self.sent@[i]).wf()
        &&& forall|name: Seq<char>| #[trigger]
            sum_tallies(tallies_of(self.sent@, name)).plus(self.stats.tally_of(name))
                == recorded_tally(self.recorded@, name)
    }

    /// What the worker comes to on `event`: its next phase, its identity and
    /// what it tells its caller.
    pub open spec fn next(phase: WorkerPhase, worker_id: Option<usize>, event: WorkerEvent) -> (
        WorkerPhase,
        Option<usize>,
        WorkerAction,
    ) {
        match (phase, event) {
            (WorkerPhase::Connecting, WorkerEvent::Connected) => (
                WorkerPhase::Attaching,
                worker_id,
                WorkerAction::SendAttach { worker_id: worker_id },
            ),
            (WorkerPhase::Attaching, WorkerEvent::Admitted { worker_id: id }) => (
                WorkerPhase::Running,
                Some(id),
                WorkerAction::StartPool,
            ),
            (WorkerPhase::Attaching, WorkerEvent::Denied) => (
                WorkerPhase::Done,
                worker_id,
                WorkerAction::Finish { outcome: Outcome::RuntimeError },
            ),
            (WorkerPhase::Running, WorkerEvent::ReportDue) | (
                WorkerPhase::Draining,
                WorkerEvent::ReportDue,
            ) => (phase, worker_id, WorkerAction::SendDelta),
            (WorkerPhase::Running, WorkerEvent::Stop) => (
                WorkerPhase::Draining,
                worker_id,
                WorkerAction::StopPool,
            ),
            (WorkerPhase::Running, WorkerEvent::PoolEnded) | (
                WorkerPhase::Draining,
                WorkerEvent::PoolEnded,
            ) => (WorkerPhase::Done, worker_id, WorkerAction::SendFinalAndBye),
            (WorkerPhase::Connecting, WorkerEvent::ConnectionLost)
            | (WorkerPhase::Attaching, WorkerEvent::ConnectionLost)
            | (WorkerPhase::Running, WorkerEvent::ConnectionLost)
            | (WorkerPhase::Draining, WorkerEvent::ConnectionLost) => (
                WorkerPhase::Done,
                worker_id,
                WorkerAction::Finish { outcome: Outcome::RuntimeError },
            ),
            _ => (phase, worker_id, WorkerAction::Ignored),
        }
    }

    /// A worker that has yet to connect, with the identity that it was given
    /// earlier, if it was given one.
    pub fn new(worker_id: Option<usize>) -> (worker: Worker)
        ensures
            worker.wf(),
            worker.phase == WorkerPhase::Connecting,
            worker.worker_id == worker_id,
            worker.sent@.len() == 0,
            worker.recorded@.len() == 0,
            worker.stats.entries@.len() == 0,
    {
        let worker = Worker {
            phase: WorkerPhase::Connecting,
            worker_id: worker_id,
            stats: Statistics::new(),
            sent: Ghost(Seq::empty()),
            recorded: Ghost(Seq::empty()),
        };
        proof {
            lemma_plus_zero(Tally::zero(), Tally::zero());
            assert forall|name: Seq<char>| #[trigger]
                sum_tallies(tallies_of(worker.sent@, name)).plus(worker.stats.tally_of(name))
                    == recorded_tally(worker.recorded@, name) by {
                assert(tallies_of(worker.sent@, name).len() == 0);
            }
        }
        worker
    }

    /// Takes in what happened and tells what to do.
    pub fn step(&mut self, event: WorkerEvent) -> (action: WorkerAction)
        requires
            old(self).wf(),
        ensures
            final(self).wf(),
            (final(self).phase, final(self).worker_id, action) == Self::next(
                old(self).phase,
                old(self).worker_id,
                event,
            ),
            final(self).stats == old(self).stats,
            final(self).sent == old(self).sent,
            final(self).recorded == old(self).recorded,
    {
        match (self.phase, event) {
            (WorkerPhase::Connecting, WorkerEvent::Connected) => {
                self.phase = WorkerPhase::Attaching;
                WorkerAction::SendAttach { worker_id: self.worker_id }
            },
            (WorkerPhase::Attaching, WorkerEvent::Admitted { worker_id }) => {
                self.phase = WorkerPhase::Running;
                self.worker_id = Some(worker_id);
                WorkerAction::StartPool
            },
            (WorkerPhase::Attaching, WorkerEvent::Denied) => {
                self.phase = WorkerPhase::Done;
                WorkerAction::Finish { outcome: Outcome::RuntimeError }
            },
            (WorkerPhase::Running, WorkerEvent::ReportDue) | (
                WorkerPhase::Draining,
                WorkerEvent::ReportDue,
            ) => WorkerAction::SendDelta,
            (WorkerPhase::Running, WorkerEvent::Stop) => {
                self.phase = WorkerPhase::Draining;
                WorkerAction::StopPool
            },
            (WorkerPhase::Running, WorkerEvent::PoolEnded) | (
                WorkerPhase::Draining,
                WorkerEvent::PoolEnded,
            ) => {
                self.phase = WorkerPhase::Done;
                WorkerAction::SendFinalAndBye
            },
            (WorkerPhase::Connecting, WorkerEvent::ConnectionLost)
            | (WorkerPhase::Attaching, WorkerEvent::ConnectionLost)
            | (WorkerPhase::Running, WorkerEvent::ConnectionLost)
            | (WorkerPhase::Draining, WorkerEvent::ConnectionLost) => {
                self.phase = WorkerPhase::Done;
                WorkerAction::Finish { outcome: Outcome::RuntimeError }
            },
            _ => WorkerAction::Ignored,
        }
    }

    /// Counts the record of a request of one of the worker's users. Nothing is
    /// counted where a counter would exceed 64 bits.
    pub fn record(&mut self, record: &RequestRecord) -> (result: Result<(), StatsError>)
        requires
            old(self).wf(),
        ensures
            final(self).wf(),
            final(self).phase == old(self).phase,
            final(self).worker_id == old(self).worker_id,
            final(self).sent == old(self).sent,
            result.is_ok() <==> old(self).stats.tally_of(record.name@).fits(
                Tally::sample(record.status, record.elapsed_ms, record.success),
            ),
            result.is_ok() ==> final(self).recorded@ == old(self).recorded@.push(*record),
            result.is_err() ==> result == Err::<(), StatsError>(StatsError::Overflow) && *final(self)
                == *old(self),
    {
        let result = self.stats.record(record);
        if result.is_ok() {
            proof {
                let log: Seq<RequestRecord> = self.recorded@.push(*record);
                let sample: Tally = Tally::sample(record.status, record.elapsed_ms, record.success);
                assert(log.drop_last() =~= self.recorded@);
                assert(log.last() == *record);
                assert forall|name: Seq<char>| #[trigger]
                    sum_tallies(tallies_of(self.sent@, name)).plus(self.stats.tally_of(name))
                        == recorded_tally(log, name) by {
                    let reported: Tally = sum_tallies(tallies_of(self.sent@, name));
                    assert(reported.plus(old(self).stats.tally_of(name)) == recorded_tally(
                        self.recorded@,
                        name,
                    ));
                    if name == record.name@ {
                        assert forall|i: int|
                            0 <= i < self.sent@.len() implies (#[trigger] tallies_of(
                            self.sent@,
                            name,
                        )[i]).wf() by {
                            lemma_tally_of_wf(self.sent@[i], name);
                        }
                        lemma_sum_tallies_wf(tallies_of(self.sent@, name));
                        lemma_tally_of_wf(old(self).stats, name);
                        lemma_plus_zero(sample, Tally::zero());
                        lemma_plus_associates(reported, old(self).stats.tally_of(name), sample);
                    }
                }
            }
            self.recorded = Ghost(self.recorded@.push(*record));
        }
        result
    }

    /// Hands out the statistics gathered since the last report, to be sent to
    /// the manager, and starts anew with none.
    pub fn report(&mut self) -> (delta: Statistics)
        requires
            old(self).wf(),
        ensures
            final(self).wf(),
            delta == old(self).stats,
            delta.wf(),
            final(self).stats.entries@.len() == 0,
            final(self).sent@ == old(self).sent@.push(delta),
            final(self).recorded == old(self).recorded,
            final(self).phase == old(self).phase,
            final(self).worker_id == old(self).worker_id,
    {
        let delta = self.stats.take();
        proof {
            let log: Seq<Statistics> = self.sent@.push(delta);
            assert forall|name: Seq<char>| #[trigger]
                sum_tallies(tallies_of(log, name)).plus(self.stats.tally_of(name))
                    == recorded_tally(self.recorded@, name) by {
                assert(tallies_of(log, name).drop_last() =~= tallies_of(self.sent@, name));
                assert(tallies_of(log, name).last() == delta.tally_of(name));
                assert forall|i: int|
                    0 <= i < self.sent@.len() implies (#[trigger] tallies_of(self.sent@, name)[i]).wf() by {
                    lemma_tally_of_wf(self.sent@[i], name);
                }
                lemma_sum_tallies_wf(tallies_of(self.sent@, name));
                lemma_tally_of_wf(delta, name);
                lemma_plus_zero(
                    sum_tallies(tallies_of(self.sent@, name)).plus(delta.tally_of(name)),
                    Tally::zero(),
                );
                assert(sum_tallies(tallies_of(self.sent@, name)).plus(delta.tally_of(name))
                    == recorded_tally(self.recorded@, name));
            }
        }
        self.sent = Ghost(self.sent@.push(delta));
        delta
    }
}

} // verus!
