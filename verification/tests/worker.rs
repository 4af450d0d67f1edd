use goose::coordinator::{Manager, ManagerAction, ManagerEvent};
use goose::outcome::Outcome;
use goose::stats::{Method, RequestRecord, Statistics};
use goose::worker::{Worker, WorkerAction, WorkerEvent, WorkerPhase};

fn hit(name: &str, elapsed_ms: u64) -> RequestRecord {
    RequestRecord::answered(Method::Get, name.to_string(), format!("http://h{}", name), 200, elapsed_ms)
}

fn count(stats: &Statistics, name: &str) -> u64 {
    match stats.find(&name.to_string()) {
        Some(i) => stats.entries[i].count,
        None => 0,
    }
}

#[test]
fn worker_attaches_runs_drains_and_leaves() {
    let mut worker = Worker::new(None);
    assert_eq!(worker.phase, WorkerPhase::Connecting);
    assert_eq!(worker.step(WorkerEvent::Stop), WorkerAction::Ignored);
    assert_eq!(worker.step(WorkerEvent::Connected), WorkerAction::SendAttach { worker_id: None });
    assert_eq!(worker.phase, WorkerPhase::Attaching);
    assert_eq!(worker.step(WorkerEvent::ReportDue), WorkerAction::Ignored);
    assert_eq!(worker.step(WorkerEvent::Admitted { worker_id: 4 }), WorkerAction::StartPool);
    assert_eq!(worker.worker_id, Some(4));
    assert_eq!(worker.phase, WorkerPhase::Running);
    assert_eq!(worker.step(WorkerEvent::ReportDue), WorkerAction::SendDelta);
    assert_eq!(worker.step(WorkerEvent::Stop), WorkerAction::StopPool);
    assert_eq!(worker.phase, WorkerPhase::Draining);
    assert_eq!(worker.step(WorkerEvent::Stop), WorkerAction::Ignored);
    assert_eq!(worker.step(WorkerEvent::ReportDue), WorkerAction::SendDelta);
    assert_eq!(worker.step(WorkerEvent::PoolEnded), WorkerAction::SendFinalAndBye);
    assert_eq!(worker.phase, WorkerPhase::Done);
    assert_eq!(worker.step(WorkerEvent::ConnectionLost), WorkerAction::Ignored);
    assert_eq!(worker.step(WorkerEvent::ReportDue), WorkerAction::Ignored);
}

#[test]
fn worker_that_is_turned_away_or_cut_off_ends_with_an_error() {
    let mut worker = Worker::new(Some(2));
    assert_eq!(worker.step(WorkerEvent::Connected), WorkerAction::SendAttach { worker_id: Some(2) });
    assert_eq!(
        worker.step(WorkerEvent::Denied),
        WorkerAction::Finish { outcome: Outcome::RuntimeError }
    );
    assert_eq!(worker.phase, WorkerPhase::Done);
    let mut worker = Worker::new(None);
    assert_eq!(
        worker.step(WorkerEvent::ConnectionLost),
        WorkerAction::Finish { outcome: Outcome::RuntimeError }
    );
    let mut worker = Worker::new(None);
    worker.step(WorkerEvent::Connected);
    worker.step(WorkerEvent::Admitted { worker_id: 0 });
    assert_eq!(
        worker.step(WorkerEvent::ConnectionLost),
        WorkerAction::Finish { outcome: Outcome::RuntimeError }
    );
}

#[test]
fn reports_hold_each_record_once() {
    let mut manager = Manager::new(1);
    manager.step(ManagerEvent::Attach { worker_id: None });
    let mut worker = Worker::new(None);
    let mut recorded = 0;
    for round in 0..5u64 {
        for i in 0..(3 + round) {
            assert_eq!(worker.record(&hit("front", 10 * round + i)), Ok(()));
            recorded += 1;
        }
        assert_eq!(worker.record(&hit("node", 7)), Ok(()));
        let delta = worker.report();
        assert!(worker.stats.entries.is_empty());
        assert_eq!(count(&delta, "front"), 3 + round);
        assert_eq!(count(&delta, "node"), 1);
        assert_eq!(
            manager.step(ManagerEvent::Delta { worker_id: 0, delta: delta }),
            ManagerAction::Merged
        );
    }
    assert_eq!(count(&manager.stats, "front"), recorded);
    assert_eq!(count(&manager.stats, "node"), 5);
    let last = worker.report();
    assert!(last.entries.is_empty());
    assert_eq!(
        manager.step(ManagerEvent::Final { worker_id: 0, delta: last }),
        ManagerAction::Merged
    );
    assert_eq!(count(&manager.stats, "front"), recorded);
}
