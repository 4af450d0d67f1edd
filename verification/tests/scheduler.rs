use goose::scheduler::{has_exit, Action, Event, Stage, StepError, UserCommand, UserScheduler};
use goose::task::{Task, TaskSet};

fn task(name: &str, weight: usize) -> Task {
    Task::new().set_name(name).set_weight(weight).unwrap()
}

fn drupal_like() -> TaskSet {
    TaskSet::new("A")
        .register_task(task("front", 15))
        .register_task(task("node", 10))
        .register_task(task("profile", 3))
}

/// Reports that the running task is done and answers polls with no command
/// and sleeps with their end, until the next task is to run or the user ends.
fn next_task(user: &mut UserScheduler) -> Option<usize> {
    let mut action = user.step(Event::TaskDone).unwrap();
    loop {
        action = match action {
            Action::RunTask { task } => return Some(task),
            Action::Finish => return None,
            Action::PollCommands => user.step(Event::Commands(vec![])).unwrap(),
            Action::Sleep => user.step(Event::SliceElapsed).unwrap(),
        };
    }
}

#[test]
fn start_task_runs_before_any_steady_task() {
    let set = TaskSet::new("auth")
        .register_task(task("login", 1).set_on_start())
        .register_task(task("front", 15))
        .register_task(task("node", 10));
    for _ in 0..20 {
        let mut user = UserScheduler::new(set.clone());
        assert_eq!(user.stage, Stage::Created);
        assert_eq!(user.step(Event::Start), Ok(Action::RunTask { task: 0 }));
        assert_eq!(user.stage, Stage::OnStart);
        for _ in 0..60 {
            let task = next_task(&mut user).unwrap();
            assert!(task == 1 || task == 2);
            assert_eq!(user.stage, Stage::SteadyTask);
        }
    }
}

#[test]
fn steady_tasks_run_in_the_ratio_of_their_weights() {
    let mut user = UserScheduler::new(drupal_like());
    let mut runs = [0usize; 3];
    let first = match user.step(Event::Start).unwrap() {
        Action::RunTask { task } => task,
        other => panic!("unexpected action {:?}", other),
    };
    runs[first] += 1;
    for executed in 1..2800 {
        let task = next_task(&mut user).unwrap();
        runs[task] += 1;
        if (executed + 1) % 28 == 0 {
            let passes = (executed + 1) / 28;
            assert_eq!(runs, [15 * passes, 10 * passes, 3 * passes]);
        }
    }
    assert_eq!(runs, [1500, 1000, 300]);
    assert_eq!(runs[0] * 10, runs[1] * 15);
    assert_eq!(runs[1] * 3, runs[2] * 10);
}

#[test]
fn ratio_stays_within_one_pass_at_every_moment() {
    let mut user = UserScheduler::new(drupal_like());
    let mut runs = [0i64; 3];
    let weights = [15i64, 10, 3];
    let mut task = match user.step(Event::Start).unwrap() {
        Action::RunTask { task } => task,
        other => panic!("unexpected action {:?}", other),
    };
    for _ in 0..500 {
        runs[task] += 1;
        for i in 0..3 {
            for j in 0..3 {
                let difference = runs[i] * weights[j] - runs[j] * weights[i];
                assert!(difference <= weights[i] * weights[j]);
                assert!(difference >= -(weights[i] * weights[j]));
            }
        }
        task = next_task(&mut user).unwrap();
    }
}

#[test]
fn user_with_start_tasks_only_starts_stops_and_ends() {
    let set = TaskSet::new("only start").register_task(task("login", 1).set_on_start());
    let mut user = UserScheduler::new(set);
    assert_eq!(user.step(Event::Start), Ok(Action::RunTask { task: 0 }));
    assert_eq!(user.step(Event::TaskDone), Ok(Action::Finish));
    assert_eq!(user.stage, Stage::Done);

    let set = TaskSet::new("start and stop")
        .register_task(task("logout", 1).set_on_stop())
        .register_task(task("login", 1).set_on_start());
    let mut user = UserScheduler::new(set);
    assert_eq!(user.step(Event::Start), Ok(Action::RunTask { task: 1 }));
    assert_eq!(user.stage, Stage::OnStart);
    assert_eq!(user.step(Event::TaskDone), Ok(Action::RunTask { task: 0 }));
    assert_eq!(user.stage, Stage::OnStop);
    assert_eq!(user.step(Event::TaskDone), Ok(Action::Finish));
    assert_eq!(user.stage, Stage::Done);
}

#[test]
fn user_without_tasks_ends_at_once() {
    let mut user = UserScheduler::new(TaskSet::new("none"));
    assert_eq!(user.step(Event::Start), Ok(Action::Finish));
    assert_eq!(user.stage, Stage::Done);
    assert_eq!(user.step(Event::Start), Err(StepError::UnexpectedEvent));
    assert_eq!(user.step(Event::TaskDone), Err(StepError::UnexpectedEvent));
    assert_eq!(user.stage, Stage::Done);
}

#[test]
fn exit_sends_the_user_to_its_stop_tasks() {
    let set = TaskSet::new("auth")
        .register_task(task("login", 1).set_on_start())
        .register_task(task("front", 15))
        .register_task(task("logout", 1).set_on_stop())
        .set_wait_time(0, 5)
        .unwrap();
    let mut user = UserScheduler::new(set);
    assert_eq!(user.step(Event::Start), Ok(Action::RunTask { task: 0 }));
    assert_eq!(user.step(Event::TaskDone), Ok(Action::RunTask { task: 1 }));
    assert_eq!(user.step(Event::TaskDone), Ok(Action::PollCommands));
    assert!(!user.exit_requested);
    assert_eq!(
        user.step(Event::Commands(vec![UserCommand::Exit])),
        Ok(Action::RunTask { task: 2 })
    );
    assert!(user.exit_requested);
    assert_eq!(user.stage, Stage::OnStop);
    assert_eq!(user.step(Event::Commands(vec![])), Err(StepError::UnexpectedEvent));
    assert_eq!(user.step(Event::SliceElapsed), Err(StepError::UnexpectedEvent));
    assert_eq!(user.step(Event::TaskDone), Ok(Action::Finish));
    assert_eq!(user.stage, Stage::Done);
}

#[test]
fn exit_during_a_wait_is_seen_before_the_next_second() {
    let set = TaskSet::new("slow")
        .register_task(task("front", 1))
        .register_task(task("logout", 1).set_on_stop())
        .set_wait_time(3, 4)
        .unwrap();
    let mut user = UserScheduler::new(set);
    assert_eq!(user.step(Event::Start), Ok(Action::RunTask { task: 0 }));
    assert_eq!(user.step(Event::TaskDone), Ok(Action::PollCommands));
    assert_eq!(user.wait, 3);
    assert_eq!(user.step(Event::Commands(vec![])), Ok(Action::Sleep));
    assert_eq!(user.step(Event::SliceElapsed), Ok(Action::PollCommands));
    assert_eq!(
        user.step(Event::Commands(vec![UserCommand::Run, UserCommand::Exit])),
        Ok(Action::RunTask { task: 1 })
    );
    assert_eq!(user.step(Event::TaskDone), Ok(Action::Finish));
}

#[test]
fn exit_without_stop_tasks_ends_the_user() {
    let set = TaskSet::new("plain").register_task(task("front", 1));
    let mut user = UserScheduler::new(set);
    assert_eq!(user.step(Event::Start), Ok(Action::RunTask { task: 0 }));
    assert_eq!(user.step(Event::TaskDone), Ok(Action::PollCommands));
    assert_eq!(user.step(Event::Commands(vec![UserCommand::Exit])), Ok(Action::Finish));
    assert_eq!(user.stage, Stage::Done);
}

#[test]
fn wait_is_slept_in_whole_seconds_with_a_poll_before_each() {
    let set = TaskSet::new("slow").register_task(task("front", 1)).set_wait_time(2, 3).unwrap();
    let mut user = UserScheduler::new(set);
    assert_eq!(user.step(Event::Start), Ok(Action::RunTask { task: 0 }));
    for _ in 0..5 {
        assert_eq!(user.step(Event::TaskDone), Ok(Action::PollCommands));
        assert_eq!(user.wait, 2);
        assert_eq!(user.slept, 0);
        assert_eq!(user.step(Event::Commands(vec![])), Ok(Action::Sleep));
        assert_eq!(user.step(Event::SliceElapsed), Ok(Action::PollCommands));
        assert_eq!(user.slept, 1);
        assert_eq!(user.step(Event::Commands(vec![UserCommand::Wait])), Ok(Action::Sleep));
        assert_eq!(user.step(Event::SliceElapsed), Ok(Action::RunTask { task: 0 }));
    }
}

#[test]
fn no_wait_where_the_maximum_is_zero() {
    let set = TaskSet::new("fast").register_task(task("front", 1)).set_wait_time(7, 0).unwrap();
    let mut user = UserScheduler::new(set);
    assert_eq!(user.step(Event::Start), Ok(Action::RunTask { task: 0 }));
    for _ in 0..5 {
        assert_eq!(user.step(Event::TaskDone), Ok(Action::PollCommands));
        assert_eq!(user.wait, 0);
        assert_eq!(user.step(Event::Commands(vec![])), Ok(Action::RunTask { task: 0 }));
    }
}

#[test]
fn drawn_waits_lie_within_the_bounds_and_vary() {
    let set = TaskSet::new("random").register_task(task("front", 1)).set_wait_time(10, 1000).unwrap();
    let mut user = UserScheduler::new(set);
    assert_eq!(user.step(Event::Start), Ok(Action::RunTask { task: 0 }));
    let mut waits = Vec::new();
    for _ in 0..40 {
        assert_eq!(user.step(Event::TaskDone), Ok(Action::PollCommands));
        assert!(user.wait >= 10 && user.wait < 1000);
        waits.push(user.wait);
        let mut action = user.step(Event::Commands(vec![])).unwrap();
        let mut slept = 0;
        while action != (Action::RunTask { task: 0 }) {
            action = match action {
                Action::Sleep => {
                    slept += 1;
                    user.step(Event::SliceElapsed).unwrap()
                }
                Action::PollCommands => user.step(Event::Commands(vec![])).unwrap(),
                other => panic!("unexpected action {:?}", other),
            };
        }
        assert_eq!(slept, *waits.last().unwrap());
    }
    assert!(waits.iter().any(|&w| w != 10));
    assert!(waits.iter().any(|&w| w != waits[0]));
}

#[test]
fn buckets_are_shuffled_when_entered() {
    let mut user = UserScheduler::new(drupal_like());
    let planned: Vec<usize> = user.plan.steady_buckets[0].tasks.clone();
    let mut orders: Vec<Vec<usize>> = Vec::new();
    let mut current = Vec::new();
    let first = match user.step(Event::Start).unwrap() {
        Action::RunTask { task } => task,
        other => panic!("unexpected action {:?}", other),
    };
    current.push(first);
    for _ in 1..(28 * 30) {
        current.push(next_task(&mut user).unwrap());
        if current.len() == 28 {
            let mut sorted = current.clone();
            sorted.sort();
            assert_eq!(sorted, planned);
            orders.push(std::mem::take(&mut current));
        }
    }
    assert_eq!(orders.len(), 30);
    assert!(orders.iter().any(|order| *order != planned));
    assert!(orders.iter().any(|order| *order != orders[0]));
}

#[test]
fn sequenced_buckets_run_in_order_and_wrap() {
    let set = TaskSet::new("ordered")
        .register_task(task("free", 1))
        .register_task(task("second", 1).set_sequence(2))
        .register_task(task("first", 1).set_sequence(1));
    let mut user = UserScheduler::new(set);
    let mut seen = Vec::new();
    match user.step(Event::Start).unwrap() {
        Action::RunTask { task } => seen.push(task),
        other => panic!("unexpected action {:?}", other),
    }
    assert_eq!((user.bucket_index, user.position_in_bucket), (0, 0));
    for step in 1..9 {
        seen.push(next_task(&mut user).unwrap());
        assert_eq!(user.bucket_index, step % 3);
        assert_eq!(user.position_in_bucket, 0);
    }
    assert_eq!(seen, vec![2, 1, 0, 2, 1, 0, 2, 1, 0]);
}

#[test]
fn stop_tasks_run_once_each_in_sequence_order() {
    let set = TaskSet::new("teardown")
        .register_task(task("front", 1))
        .register_task(task("logout", 1).set_on_stop().set_sequence(2))
        .register_task(task("save", 1).set_on_stop().set_sequence(1))
        .register_task(task("login", 1).set_on_start());
    let mut user = UserScheduler::new(set);
    let mut trace = Vec::new();
    let mut action = user.step(Event::Start).unwrap();
    let mut steady_runs = 0;
    loop {
        action = match action {
            Action::RunTask { task } => {
                trace.push(task);
                if task == 0 {
                    steady_runs += 1;
                }
                user.step(Event::TaskDone).unwrap()
            }
            Action::PollCommands => {
                let commands = if steady_runs == 4 { vec![UserCommand::Exit] } else { vec![] };
                user.step(Event::Commands(commands)).unwrap()
            }
            Action::Sleep => user.step(Event::SliceElapsed).unwrap(),
            Action::Finish => break,
        };
    }
    assert_eq!(trace, vec![3, 0, 0, 0, 0, 2, 1]);
    assert_eq!(user.stage, Stage::Done);
}

#[test]
fn event_that_is_not_awaited_changes_nothing() {
    let mut user = UserScheduler::new(drupal_like());
    assert_eq!(user.step(Event::TaskDone), Err(StepError::UnexpectedEvent));
    assert_eq!(user.step(Event::SliceElapsed), Err(StepError::UnexpectedEvent));
    assert_eq!(user.step(Event::Commands(vec![UserCommand::Exit])), Err(StepError::UnexpectedEvent));
    assert_eq!(user.stage, Stage::Created);
    assert!(!user.exit_requested);
    assert!(matches!(user.step(Event::Start), Ok(Action::RunTask { .. })));
    assert_eq!(user.step(Event::Start), Err(StepError::UnexpectedEvent));
    assert_eq!(user.step(Event::SliceElapsed), Err(StepError::UnexpectedEvent));
    assert_eq!(user.stage, Stage::SteadyTask);
}

#[test]
fn request_name_is_the_given_name_then_the_task_name_then_the_path() {
    let set = TaskSet::new("names")
        .register_task(task("(Anon) front page", 1).set_sequence(1))
        .register_task(Task::new().set_sequence(2));
    let mut user = UserScheduler::new(set);
    assert_eq!(user.request_name("/", None), "/");
    assert_eq!(user.step(Event::Start), Ok(Action::RunTask { task: 0 }));
    assert_eq!(user.task_request_name.as_deref(), Some("(Anon) front page"));
    assert_eq!(user.request_name("/", None), "(Anon) front page");
    assert_eq!(user.request_name("/misc/x.js", Some("static asset")), "static asset");
    assert_eq!(next_task(&mut user), Some(1));
    assert_eq!(user.task_request_name, None);
    assert_eq!(user.request_name("/node/1", None), "/node/1");
    assert_eq!(user.request_name("/node/1", Some("node")), "node");
    assert_eq!(next_task(&mut user), Some(0));
    assert_eq!(user.request_name("/", None), "(Anon) front page");
}

#[test]
fn exit_is_found_among_other_commands() {
    assert!(!has_exit(&vec![]));
    assert!(!has_exit(&vec![UserCommand::Wait, UserCommand::Run]));
    assert!(has_exit(&vec![UserCommand::Exit]));
    assert!(has_exit(&vec![UserCommand::Run, UserCommand::Exit, UserCommand::Wait]));
}
