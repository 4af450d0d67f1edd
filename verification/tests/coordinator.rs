use goose::coordinator::{
    DenyReason, Manager, ManagerAction, ManagerEvent, ManagerPhase, StopReason, WorkerState,
};
use goose::outcome::{exit_code, Outcome};
use goose::stats::{Method, RequestRecord, Statistics, Summary};

fn report(succeeded: u64, failed: u64) -> Statistics {
    let mut stats = Statistics::new();
    for i in 0..succeeded {
        stats
            .record(&RequestRecord {
                method: Method::Get,
                name: "front".to_string(),
                url: "http://localhost/".to_string(),
                status: 200,
                elapsed_ms: 10 + i,
                success: true,
                error: None,
            })
            .unwrap();
    }
    for _ in 0..failed {
        stats
            .record(&RequestRecord {
                method: Method::Post,
                name: "front".to_string(),
                url: "http://localhost/".to_string(),
                status: 500,
                elapsed_ms: 300,
                success: false,
                error: Some("server error".to_string()),
            })
            .unwrap();
    }
    stats
}

fn front(stats: &Statistics) -> &Summary {
    &stats.entries[stats.find(&"front".to_string()).unwrap()]
}

#[test]
fn exit_codes_are_those_of_the_outcomes() {
    assert_eq!(exit_code(Outcome::Completed), 0);
    assert_eq!(exit_code(Outcome::ConfigurationError), 1);
    assert_eq!(exit_code(Outcome::AttachTimeout), 2);
    assert_eq!(exit_code(Outcome::RuntimeError), 3);
    assert_eq!(exit_code(Outcome::Interrupted), 130);
}

#[test]
fn workers_get_identities_and_excess_workers_are_refused() {
    let mut manager = Manager::new(2);
    assert_eq!(manager.phase, ManagerPhase::Attaching);
    assert_eq!(
        manager.step(ManagerEvent::Attach { worker_id: None }),
        ManagerAction::Admit { worker_id: 0 }
    );
    assert_eq!(manager.phase, ManagerPhase::Attaching);
    assert_eq!(
        manager.step(ManagerEvent::Attach { worker_id: Some(5) }),
        ManagerAction::Deny { reason: DenyReason::UnknownIdentity }
    );
    assert_eq!(
        manager.step(ManagerEvent::Attach { worker_id: Some(0) }),
        ManagerAction::Deny { reason: DenyReason::IdentityInUse }
    );
    assert_eq!(
        manager.step(ManagerEvent::Attach { worker_id: None }),
        ManagerAction::Admit { worker_id: 1 }
    );
    assert_eq!(manager.phase, ManagerPhase::Running);
    assert_eq!(manager.attached, 2);
    assert_eq!(
        manager.step(ManagerEvent::Attach { worker_id: None }),
        ManagerAction::Deny { reason: DenyReason::Full }
    );
    assert_eq!(manager.workers, vec![WorkerState::Attached, WorkerState::Attached]);
    assert!(manager.holds(1));
    assert!(!manager.holds(2));
}

#[test]
fn two_workers_reports_add_up_at_the_manager() {
    let mut manager = Manager::new(2);
    manager.step(ManagerEvent::Attach { worker_id: None });
    manager.step(ManagerEvent::Attach { worker_id: None });
    assert_eq!(
        manager.step(ManagerEvent::Delta { worker_id: 0, delta: report(60, 2) }),
        ManagerAction::Merged
    );
    assert_eq!(
        manager.step(ManagerEvent::Delta { worker_id: 1, delta: report(100, 2) }),
        ManagerAction::Merged
    );
    assert_eq!(
        manager.step(ManagerEvent::Stop { reason: StopReason::RunTimeElapsed }),
        ManagerAction::BroadcastStop { reason: StopReason::RunTimeElapsed }
    );
    assert_eq!(manager.phase, ManagerPhase::Stopping);
    assert_eq!(
        manager.step(ManagerEvent::Final { worker_id: 0, delta: report(40, 0) }),
        ManagerAction::Merged
    );
    assert_eq!(manager.step(ManagerEvent::Bye { worker_id: 0 }), ManagerAction::Noted);
    assert_eq!(
        manager.step(ManagerEvent::Final { worker_id: 1, delta: Statistics::new() }),
        ManagerAction::Merged
    );
    assert_eq!(
        manager.step(ManagerEvent::Bye { worker_id: 1 }),
        ManagerAction::Finish { outcome: Outcome::Completed }
    );
    assert_eq!(manager.phase, ManagerPhase::Done);
    let total = front(&manager.stats);
    assert_eq!((total.count, total.success, total.failure), (204, 200, 4));
    assert_eq!(total.statuses.counts[200], 200);
    assert_eq!(total.statuses.counts[500], 4);
    let one = report(100, 2);
    let one = front(&one);
    assert_eq!(one.histogram.counts[278], 2);
    assert_eq!(total.histogram.counts[278], 4);
    assert_eq!(total.histogram.counts[10], 3);
    assert_eq!(total.histogram.counts[109], 1);
    assert_eq!(manager.step(ManagerEvent::Bye { worker_id: 1 }), ManagerAction::Ignored);
    assert_eq!(
        manager.step(ManagerEvent::Delta { worker_id: 1, delta: report(1, 0) }),
        ManagerAction::Ignored
    );
    assert_eq!(front(&manager.stats).count, 204);
}

#[test]
fn attach_deadline_ends_the_manager_while_it_waits() {
    let mut manager = Manager::new(3);
    manager.step(ManagerEvent::Attach { worker_id: None });
    assert_eq!(
        manager.step(ManagerEvent::AttachDeadline),
        ManagerAction::Finish { outcome: Outcome::AttachTimeout }
    );
    assert_eq!(manager.phase, ManagerPhase::Done);
    assert_eq!(
        manager.step(ManagerEvent::Attach { worker_id: None }),
        ManagerAction::Deny { reason: DenyReason::Stopping }
    );

    let mut manager = Manager::new(1);
    manager.step(ManagerEvent::Attach { worker_id: None });
    assert_eq!(manager.step(ManagerEvent::AttachDeadline), ManagerAction::Ignored);
    assert_eq!(manager.phase, ManagerPhase::Running);
}

#[test]
fn lost_worker_keeps_its_statistics_and_may_come_back() {
    let mut manager = Manager::new(2);
    manager.step(ManagerEvent::Attach { worker_id: None });
    manager.step(ManagerEvent::Attach { worker_id: None });
    manager.step(ManagerEvent::Delta { worker_id: 0, delta: report(5, 1) });
    assert_eq!(manager.step(ManagerEvent::Disconnected { worker_id: 0 }), ManagerAction::Noted);
    assert_eq!(manager.phase, ManagerPhase::Running);
    assert_eq!(manager.workers[0], WorkerState::Lost);
    assert_eq!(front(&manager.stats).count, 6);
    assert_eq!(
        manager.step(ManagerEvent::Delta { worker_id: 0, delta: report(5, 1) }),
        ManagerAction::Violation
    );
    assert_eq!(manager.step(ManagerEvent::Bye { worker_id: 0 }), ManagerAction::Violation);
    assert_eq!(manager.step(ManagerEvent::Disconnected { worker_id: 0 }), ManagerAction::Ignored);
    assert_eq!(front(&manager.stats).count, 6);
    assert_eq!(
        manager.step(ManagerEvent::Attach { worker_id: Some(0) }),
        ManagerAction::Admit { worker_id: 0 }
    );
    assert_eq!(
        manager.step(ManagerEvent::Delta { worker_id: 0, delta: report(1, 0) }),
        ManagerAction::Merged
    );
    assert_eq!(front(&manager.stats).count, 7);
}

#[test]
fn signal_ends_the_run_as_interrupted() {
    let mut manager = Manager::new(1);
    manager.step(ManagerEvent::Attach { worker_id: None });
    assert_eq!(
        manager.step(ManagerEvent::Stop { reason: StopReason::Signal }),
        ManagerAction::BroadcastStop { reason: StopReason::Signal }
    );
    assert_eq!(
        manager.step(ManagerEvent::Stop { reason: StopReason::RunTimeElapsed }),
        ManagerAction::Ignored
    );
    assert_eq!(
        manager.step(ManagerEvent::Attach { worker_id: None }),
        ManagerAction::Deny { reason: DenyReason::Stopping }
    );
    assert_eq!(
        manager.step(ManagerEvent::Disconnected { worker_id: 0 }),
        ManagerAction::Finish { outcome: Outcome::Interrupted }
    );

    let mut manager = Manager::new(2);
    manager.step(ManagerEvent::Attach { worker_id: None });
    manager.step(ManagerEvent::Disconnected { worker_id: 0 });
    assert_eq!(
        manager.step(ManagerEvent::Stop { reason: StopReason::Signal }),
        ManagerAction::Finish { outcome: Outcome::Interrupted }
    );
}

#[test]
fn run_ends_with_the_leave_of_its_last_worker() {
    let mut manager = Manager::new(2);
    manager.step(ManagerEvent::Attach { worker_id: None });
    manager.step(ManagerEvent::Attach { worker_id: None });
    assert_eq!(manager.step(ManagerEvent::Disconnected { worker_id: 1 }), ManagerAction::Noted);
    assert_eq!(
        manager.step(ManagerEvent::Bye { worker_id: 0 }),
        ManagerAction::Finish { outcome: Outcome::Completed }
    );

    let mut manager = Manager::new(1);
    manager.step(ManagerEvent::Attach { worker_id: None });
    assert_eq!(manager.step(ManagerEvent::Disconnected { worker_id: 0 }), ManagerAction::Noted);
    assert_eq!(manager.phase, ManagerPhase::Running);
}

#[test]
fn manager_without_workers_runs_at_once() {
    let mut manager = Manager::new(0);
    assert_eq!(manager.phase, ManagerPhase::Running);
    assert_eq!(
        manager.step(ManagerEvent::Attach { worker_id: None }),
        ManagerAction::Deny { reason: DenyReason::Full }
    );
    assert_eq!(
        manager.step(ManagerEvent::Stop { reason: StopReason::RunTimeElapsed }),
        ManagerAction::Finish { outcome: Outcome::Completed }
    );
}

#[test]
fn report_that_overflows_a_counter_ends_the_run_with_an_error() {
    let mut manager = Manager::new(1);
    manager.step(ManagerEvent::Attach { worker_id: None });
    let mut full = Summary::new(&"front".to_string());
    full.count = u64::MAX;
    full.success = u64::MAX;
    full.histogram.counts[7] = u64::MAX;
    full.statuses.counts[200] = u64::MAX;
    full.min_ms = 7;
    full.max_ms = 7;
    let full = Statistics { entries: vec![full] };
    assert!(full.is_valid());
    assert_eq!(manager.step(ManagerEvent::Delta { worker_id: 0, delta: full }), ManagerAction::Merged);
    assert_eq!(
        manager.step(ManagerEvent::Delta { worker_id: 0, delta: report(1, 0) }),
        ManagerAction::Finish { outcome: Outcome::RuntimeError }
    );
    assert_eq!(manager.phase, ManagerPhase::Done);
    assert_eq!(front(&manager.stats).count, u64::MAX);
}

#[test]
fn statistics_from_elsewhere_are_checked() {
    assert!(Statistics::new().is_valid());
    assert!(report(3, 1).is_valid());
    let mut broken = report(3, 1);
    broken.entries[0].count = 5;
    assert!(!broken.is_valid());
    let mut broken = report(3, 1);
    broken.entries[0].histogram.counts.pop();
    assert!(!broken.is_valid());
    let mut broken = report(3, 1);
    broken.entries[0].statuses.counts[404] = 1;
    assert!(!broken.is_valid());
    let mut broken = report(3, 1);
    broken.entries[0].success = 4;
    assert!(!broken.is_valid());
    let mut twice = report(1, 0);
    twice.entries.push(Summary::new(&"front".to_string()));
    assert!(!twice.is_valid());
    let mut lone = Summary::new(&"idle".to_string());
    lone.min_ms = 1;
    assert!(!lone.is_valid());
    let mut huge = Summary::new(&"huge".to_string());
    huge.histogram.counts[0] = u64::MAX;
    huge.histogram.counts[1] = 1;
    assert!(!huge.is_valid());
    assert_eq!(huge.histogram.sum_within(), None);
    assert_eq!(report(4, 3).entries[0].statuses.sum_within(), Some(7));
}
