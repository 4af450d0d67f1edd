use goose::config::Configuration;
use goose::controller::{Pool, PoolAction, PoolEvent, PoolPhase};
use goose::outcome::Outcome;
use goose::task::{ConfigError, Task, TaskSet};

fn spawn(user: usize, task_set: usize, due_ms: u128, last: bool) -> PoolAction {
    PoolAction::Spawn { user, task_set, due_ms, last }
}

fn hatched(weights: Vec<usize>, users: usize, hatch_rate: usize) -> Pool {
    let mut pool = Pool::new(weights, users, hatch_rate).unwrap();
    let mut action = pool.step(PoolEvent::Start);
    while let PoolAction::Spawn { last: false, .. } = action {
        action = pool.step(PoolEvent::HatchDue);
    }
    assert_eq!(pool.phase, PoolPhase::Running);
    pool
}

#[test]
fn users_are_spawned_in_order_at_the_hatch_rate() {
    let mut pool = Pool::new(vec![4, 1], 5, 2).unwrap();
    assert_eq!(pool.phase, PoolPhase::Idle);
    assert_eq!(pool.step(PoolEvent::HatchDue), PoolAction::Ignored);
    assert_eq!(pool.step(PoolEvent::Start), spawn(0, 0, 500, false));
    assert_eq!(pool.phase, PoolPhase::Hatching);
    assert_eq!(pool.step(PoolEvent::Start), PoolAction::Ignored);
    assert_eq!(pool.step(PoolEvent::HatchDue), spawn(1, 0, 1000, false));
    assert_eq!(pool.step(PoolEvent::HatchDue), spawn(2, 0, 1500, false));
    assert_eq!(pool.step(PoolEvent::HatchDue), spawn(3, 0, 2000, false));
    assert_eq!(pool.step(PoolEvent::HatchDue), spawn(4, 1, 2500, true));
    assert_eq!(pool.phase, PoolPhase::Running);
    assert_eq!(pool.alive, 5);
    assert_eq!(pool.step(PoolEvent::HatchDue), PoolAction::Ignored);
    assert_eq!(pool.step(PoolEvent::DeadlineElapsed), PoolAction::Ignored);
}

#[test]
fn hatch_rate_paces_the_spawns() {
    let mut pool = Pool::new(vec![1], 4, 3).unwrap();
    assert_eq!(pool.step(PoolEvent::Start), spawn(0, 0, 333, false));
    assert_eq!(pool.step(PoolEvent::HatchDue), spawn(1, 0, 666, false));
    assert_eq!(pool.step(PoolEvent::HatchDue), spawn(2, 0, 1000, false));
    assert_eq!(pool.step(PoolEvent::HatchDue), spawn(3, 0, 1333, true));
}

#[test]
fn run_time_tells_the_users_to_exit_and_waits_for_them() {
    let mut pool = hatched(vec![1, 1], 3, 10);
    assert_eq!(pool.step(PoolEvent::RunTimeElapsed), PoolAction::BroadcastExit);
    assert_eq!(pool.phase, PoolPhase::Stopping);
    assert_eq!(pool.step(PoolEvent::StopSignal), PoolAction::Ignored);
    assert_eq!(pool.step(PoolEvent::UserExited { user: 1 }), PoolAction::Wait);
    assert_eq!(pool.step(PoolEvent::UserExited { user: 1 }), PoolAction::Ignored);
    assert_eq!(pool.step(PoolEvent::UserExited { user: 7 }), PoolAction::Ignored);
    assert_eq!(pool.step(PoolEvent::UserExited { user: 0 }), PoolAction::Wait);
    assert_eq!(
        pool.step(PoolEvent::UserExited { user: 2 }),
        PoolAction::Finish { outcome: Outcome::Completed, abandoned: 0 }
    );
    assert_eq!(pool.phase, PoolPhase::Done);
    assert_eq!(pool.step(PoolEvent::UserExited { user: 2 }), PoolAction::Ignored);
}

#[test]
fn users_that_miss_the_deadline_are_abandoned() {
    let mut pool = hatched(vec![3], 4, 10);
    assert_eq!(pool.step(PoolEvent::StopSignal), PoolAction::BroadcastExit);
    assert_eq!(pool.step(PoolEvent::UserExited { user: 3 }), PoolAction::Wait);
    assert_eq!(
        pool.step(PoolEvent::DeadlineElapsed),
        PoolAction::Finish { outcome: Outcome::Interrupted, abandoned: 3 }
    );
    assert_eq!(pool.phase, PoolPhase::Done);
}

#[test]
fn pool_ends_when_all_users_end_by_themselves() {
    let mut pool = hatched(vec![1], 2, 1);
    assert_eq!(pool.step(PoolEvent::UserExited { user: 0 }), PoolAction::Wait);
    assert_eq!(
        pool.step(PoolEvent::UserExited { user: 1 }),
        PoolAction::Finish { outcome: Outcome::Completed, abandoned: 0 }
    );
}

#[test]
fn stop_during_ramp_up_spawns_no_further_user() {
    let mut pool = Pool::new(vec![1], 3, 1).unwrap();
    assert_eq!(pool.step(PoolEvent::Start), spawn(0, 0, 1000, false));
    assert_eq!(pool.step(PoolEvent::UserExited { user: 0 }), PoolAction::Wait);
    assert_eq!(pool.phase, PoolPhase::Hatching);
    assert_eq!(pool.step(PoolEvent::HatchDue), spawn(1, 0, 2000, false));
    assert_eq!(pool.step(PoolEvent::StopSignal), PoolAction::BroadcastExit);
    assert_eq!(pool.step(PoolEvent::HatchDue), PoolAction::Ignored);
    assert_eq!(
        pool.step(PoolEvent::UserExited { user: 1 }),
        PoolAction::Finish { outcome: Outcome::Interrupted, abandoned: 0 }
    );

    let mut pool = Pool::new(vec![1], 3, 1).unwrap();
    pool.step(PoolEvent::Start);
    pool.step(PoolEvent::UserExited { user: 0 });
    assert_eq!(
        pool.step(PoolEvent::RunTimeElapsed),
        PoolAction::Finish { outcome: Outcome::Completed, abandoned: 0 }
    );
}

#[test]
fn pool_without_users_ends_at_once() {
    let mut pool = Pool::new(vec![2, 3], 0, 1).unwrap();
    assert_eq!(
        pool.step(PoolEvent::Start),
        PoolAction::Finish { outcome: Outcome::Completed, abandoned: 0 }
    );
    assert_eq!(pool.phase, PoolPhase::Done);
}

#[test]
fn pool_refuses_weights_that_cannot_be_dealt_by() {
    assert_eq!(Pool::new(vec![], 3, 1).err(), Some(ConfigError::EmptyTaskSet));
    assert_eq!(Pool::new(vec![1, 0], 3, 1).err(), Some(ConfigError::InvalidWeight));
}

fn options() -> Configuration {
    Configuration {
        host: "http://localhost".to_string(),
        users: 5,
        hatch_rate: 1,
        run_time: Some(60),
        min_wait: 0,
        max_wait: 0,
        manager: false,
        worker: false,
        manager_host: "127.0.0.1".to_string(),
        manager_port: 5115,
        expect_workers: 0,
        stats_log_file: String::new(),
        debug_log_file: String::new(),
        log_level: 0,
        status_codes: false,
        only_summary: false,
        reset_stats: false,
    }
}

fn set_with_task() -> TaskSet {
    TaskSet::new("A").register_task(Task::new())
}

#[test]
fn configuration_is_checked_before_the_run() {
    assert_eq!(options().validate(&vec![set_with_task()]), Ok(()));
    assert_eq!(options().validate(&vec![]), Err(ConfigError::EmptyTaskSet));
    assert_eq!(
        options().validate(&vec![set_with_task(), TaskSet::new("empty")]),
        Err(ConfigError::EmptyTaskSet)
    );
    let mut both = options();
    both.manager = true;
    both.worker = true;
    assert_eq!(both.validate(&vec![set_with_task()]), Err(ConfigError::ContradictoryFlags));
    assert_eq!(both.validate(&vec![]), Err(ConfigError::ContradictoryFlags));
    let mut manager = options();
    manager.manager = true;
    assert_eq!(manager.validate(&vec![set_with_task()]), Ok(()));

    let mut weightless = set_with_task();
    weightless.tasks[0].weight = 0;
    assert_eq!(
        options().validate(&vec![set_with_task(), weightless]),
        Err(ConfigError::InvalidWeight)
    );
    let mut weightless = set_with_task();
    weightless.weight = 0;
    assert_eq!(options().validate(&vec![weightless]), Err(ConfigError::InvalidWeight));

    let mut waiting = options();
    waiting.min_wait = 5;
    waiting.max_wait = 3;
    assert_eq!(waiting.validate(&vec![set_with_task()]), Err(ConfigError::InvalidWait));
    waiting.max_wait = 5;
    assert_eq!(waiting.validate(&vec![set_with_task()]), Ok(()));
    waiting.max_wait = 0;
    assert_eq!(waiting.validate(&vec![set_with_task()]), Ok(()));
    let mut odd = set_with_task();
    odd.min_wait = 9;
    odd.max_wait = 2;
    assert_eq!(options().validate(&vec![odd]), Err(ConfigError::InvalidWait));
}

#[test]
fn wait_bounds_of_a_task_set_are_checked_when_set() {
    assert_eq!(TaskSet::new("A").set_wait_time(5, 3).err(), Some(ConfigError::InvalidWait));
    let set = TaskSet::new("A").set_wait_time(3, 5).unwrap();
    assert_eq!((set.min_wait, set.max_wait), (3, 5));
    let set = TaskSet::new("A").set_wait_time(5, 5).unwrap();
    assert_eq!((set.min_wait, set.max_wait), (5, 5));
    let set = TaskSet::new("A").set_wait_time(5, 0).unwrap();
    assert_eq!((set.min_wait, set.max_wait), (5, 0));
    let set = TaskSet::new("A").set_host("http://example.com").set_weight(4).unwrap();
    assert_eq!(set.host.as_deref(), Some("http://example.com"));
    assert_eq!(set.weight, 4);
    assert!(!set.has_steady_task());
    assert!(set.register_task(Task::new()).has_steady_task());
    let task = Task::new().set_name("login").set_on_start().set_on_stop().set_sequence(3);
    assert_eq!(task.name, "login");
    assert!(task.on_start && task.on_stop);
    assert_eq!(task.sequence, Some(3));
    assert!(!TaskSet::new("A").register_task(task).has_steady_task());
}
