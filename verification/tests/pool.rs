use goose::pool::plan_users;
use goose::task::ConfigError;

fn counts_of(order: &[usize], sets: usize) -> Vec<usize> {
    let mut counts = vec![0; sets];
    for &set in order {
        counts[set] += 1;
    }
    counts
}

#[test]
fn users_are_dealt_in_the_ratio_of_the_weights() {
    let plan = plan_users(&vec![4, 1], 10).unwrap();
    assert_eq!(plan.order, vec![0, 0, 0, 0, 1, 0, 0, 0, 0, 1]);
    assert_eq!(plan.counts, vec![8, 2]);
    let plan = plan_users(&vec![5, 3], 8).unwrap();
    assert_eq!(plan.order, vec![0, 1, 0, 0, 1, 0, 0, 1]);
    assert_eq!(plan.counts, vec![5, 3]);
    let plan = plan_users(&vec![1, 1, 1], 7).unwrap();
    assert_eq!(plan.order, vec![0, 1, 2, 0, 1, 2, 0]);
    assert_eq!(plan.counts, vec![3, 2, 2]);
    let plan = plan_users(&vec![50, 50], 4).unwrap();
    assert_eq!(plan.order, vec![0, 1, 0, 1]);
    let plan = plan_users(&vec![7], 3).unwrap();
    assert_eq!(plan.order, vec![0, 0, 0]);
    assert_eq!(plan.counts, vec![3]);
}

#[test]
fn no_users_give_an_empty_order() {
    let plan = plan_users(&vec![3, 2], 0).unwrap();
    assert!(plan.order.is_empty());
    assert_eq!(plan.counts, vec![0, 0]);
}

#[test]
fn every_prefix_is_within_one_user_of_the_ratio() {
    let cases: Vec<Vec<usize>> = vec![
        vec![1, 1, 1, 1, 7, 7],
        vec![1, 1, 1, 5, 5, 5],
        vec![15, 10, 3],
        vec![4, 1],
        vec![9, 1, 1, 1, 1, 1, 1],
        vec![2, 3, 5, 7, 11, 13],
        vec![1000, 1],
    ];
    for weights in cases {
        let total: usize = weights.iter().sum();
        let users = 3 * total;
        let plan = plan_users(&weights, users).unwrap();
        assert_eq!(plan.order.len(), users);
        assert_eq!(plan.counts, counts_of(&plan.order, weights.len()));
        for k in 0..=users {
            let counts = counts_of(&plan.order[..k], weights.len());
            for (i, &w) in weights.iter().enumerate() {
                let low = k * w / total;
                let high = (k * w + total - 1) / total;
                assert!(low <= counts[i] && counts[i] <= high);
                if k % total == 0 {
                    assert_eq!(counts[i], k / total * w);
                }
            }
        }
    }
}

#[test]
fn weights_that_cannot_be_dealt_by_are_refused() {
    assert_eq!(plan_users(&vec![], 5).err(), Some(ConfigError::EmptyTaskSet));
    assert_eq!(plan_users(&vec![3, 0, 1], 5).err(), Some(ConfigError::InvalidWeight));
    assert_eq!(plan_users(&vec![0], 0).err(), Some(ConfigError::InvalidWeight));
    assert_eq!(plan_users(&vec![usize::MAX, 1], 2).err(), Some(ConfigError::InvalidWeight));
    assert_eq!(plan_users(&vec![usize::MAX - 1, 1], 2).unwrap().order, vec![0, 0]);
    assert_eq!(plan_users(&vec![usize::MAX, usize::MAX], 3).unwrap().order, vec![0, 1, 0]);
    assert_eq!(plan_users(&vec![40, 10], 5).unwrap().order, vec![0, 0, 0, 0, 1]);
}
