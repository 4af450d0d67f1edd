use goose::planner::Plan;
use goose::task::{ConfigError, Task, TaskSet};
use goose::weights::{compute_gcd, compute_gcd_of, reduce_weights};

fn task(name: &str, weight: usize) -> Task {
    Task::new().set_name(name).set_weight(weight).unwrap()
}

fn count(entries: &[usize], index: usize) -> usize {
    entries.iter().filter(|&&e| e == index).count()
}

#[test]
fn gcd_of_two_numbers() {
    assert_eq!(compute_gcd(15, 5), 5);
    assert_eq!(compute_gcd(5, 15), 5);
    assert_eq!(compute_gcd(15, 10), 5);
    assert_eq!(compute_gcd(7, 3), 1);
    assert_eq!(compute_gcd(0, 9), 9);
    assert_eq!(compute_gcd(9, 0), 9);
    assert_eq!(compute_gcd(0, 0), 0);
}

#[test]
fn gcd_of_a_list() {
    assert_eq!(compute_gcd_of(&vec![15, 10, 3]), 1);
    assert_eq!(compute_gcd_of(&vec![15, 10, 5]), 5);
    assert_eq!(compute_gcd_of(&vec![12]), 12);
    assert_eq!(compute_gcd_of(&vec![]), 0);
}

#[test]
fn reduced_weights_keep_the_ratio() {
    assert_eq!(reduce_weights(&vec![4, 1]), vec![4, 1]);
    assert_eq!(reduce_weights(&vec![50, 50]), vec![1, 1]);
    assert_eq!(reduce_weights(&vec![15, 10, 5]), vec![3, 2, 1]);
    assert_eq!(reduce_weights(&vec![]), Vec::<usize>::new());
}

#[test]
fn weight_of_zero_is_refused() {
    assert_eq!(Task::new().set_weight(0).err(), Some(ConfigError::InvalidWeight));
    assert_eq!(TaskSet::new("a").set_weight(0).err(), Some(ConfigError::InvalidWeight));
    assert_eq!(Task::new().set_weight(3).unwrap().weight, 3);
}

#[test]
fn three_weighted_tasks_fill_one_bucket() {
    let set = TaskSet::new("A")
        .register_task(task("front", 15))
        .register_task(task("node", 10))
        .register_task(task("profile", 3));
    let plan = Plan::new(&set);
    assert!(plan.on_start_buckets.is_empty());
    assert!(plan.on_stop_buckets.is_empty());
    assert_eq!(plan.steady_buckets.len(), 1);
    let bucket = &plan.steady_buckets[0];
    assert_eq!(bucket.sequence, None);
    assert_eq!(bucket.tasks.len(), 28);
    assert_eq!(count(&bucket.tasks, 0), 15);
    assert_eq!(count(&bucket.tasks, 1), 10);
    assert_eq!(count(&bucket.tasks, 2), 3);
}

#[test]
fn weights_are_reduced_within_a_group() {
    let set = TaskSet::new("A").register_task(task("a", 4)).register_task(task("b", 6));
    let plan = Plan::new(&set);
    assert_eq!(plan.steady_buckets.len(), 1);
    assert_eq!(plan.steady_buckets[0].tasks, vec![0, 0, 1, 1, 1]);
}

#[test]
fn buckets_ascend_by_sequence_and_end_unsequenced() {
    let set = TaskSet::new("A")
        .register_task(task("free", 2))
        .register_task(task("late", 3).set_sequence(7))
        .register_task(task("early", 2).set_sequence(1))
        .register_task(task("early too", 4).set_sequence(1))
        .register_task(task("login", 1).set_on_start())
        .register_task(task("logout", 5).set_on_stop().set_sequence(0));
    let plan = Plan::new(&set);
    assert_eq!(plan.steady_buckets.len(), 3);
    assert_eq!(plan.steady_buckets[0].sequence, Some(1));
    assert_eq!(plan.steady_buckets[0].tasks, vec![2, 3, 3]);
    assert_eq!(plan.steady_buckets[1].sequence, Some(7));
    assert_eq!(plan.steady_buckets[1].tasks, vec![1]);
    assert_eq!(plan.steady_buckets[2].sequence, None);
    assert_eq!(plan.steady_buckets[2].tasks, vec![0]);
    assert_eq!(plan.on_start_buckets.len(), 1);
    assert_eq!(plan.on_start_buckets[0].tasks, vec![4]);
    assert_eq!(plan.on_stop_buckets.len(), 1);
    assert_eq!(plan.on_stop_buckets[0].sequence, Some(0));
    assert_eq!(plan.on_stop_buckets[0].tasks, vec![5]);
}

#[test]
fn task_set_without_tasks_has_an_empty_plan() {
    let plan = Plan::new(&TaskSet::new("none"));
    assert!(plan.on_start_buckets.is_empty());
    assert!(plan.steady_buckets.is_empty());
    assert!(plan.on_stop_buckets.is_empty());
}
