use scrutipy::decimal::Decimal;
use scrutipy::grim_u::{
    partition_from_sample, r1_target, simrank, simrank_from_samples, simrank_single, SimRank,
};

#[test]
fn partition_from_a_sample() {
    let p = partition_from_sample(&vec![2, 0, 1], 3, 3, 6).unwrap();
    assert_eq!(p.n1, vec![1, 2, 3]);
    assert_eq!(p.n2, vec![4, 5, 6]);
    let p = partition_from_sample(&vec![5, 0, 3], 3, 3, 11).unwrap();
    assert_eq!(p.n1, vec![1, 4, 6]);
    assert_eq!(p.n2, vec![2, 3, 5]);
    assert!(partition_from_sample(&vec![2, 0, 1], 3, 3, 7).is_none());
    assert!(partition_from_sample(&vec![0, 0, 1], 3, 3, 4).is_none());
    assert!(partition_from_sample(&vec![0, 9, 1], 3, 3, 13).is_none());
    assert!(partition_from_sample(&vec![0, 1], 3, 3, 3).is_none());
}

#[test]
fn rank_sum_target() {
    assert_eq!(r1_target(3, Decimal::from_int(0)), 6);
    assert_eq!(r1_target(3, Decimal::new(15, 1)), 8);
    assert_eq!(r1_target(4, Decimal::from_int(5)), 15);
}

#[test]
fn simrank_finds_the_only_partition() {
    let found = simrank(3, 3, Decimal::from_int(0), 5, 2000);
    assert_eq!(found.len(), 1);
    assert_eq!(found[0].n1, vec![1, 2, 3]);
    assert_eq!(found[0].n2, vec![4, 5, 6]);
}

#[test]
fn simrank_respects_length() {
    let found = simrank(4, 4, Decimal::from_int(8), 2, 5000);
    assert!(found.len() <= 2);
    for p in &found {
        assert_eq!(p.n1.iter().sum::<usize>(), 18);
        assert_eq!(p.n1.len() + p.n2.len(), 8);
    }
    assert!(simrank(4, 4, Decimal::from_int(8), 0, 5000).is_empty());
}

#[test]
fn simrank_single_and_u_values() {
    let p = simrank_single(2, 2, Decimal::from_int(0), 2000).unwrap();
    assert_eq!(p.n1, vec![1, 2]);
    assert_eq!(p.u_values(), (4, 0));
    let q = SimRank::new(vec![2, 3], vec![1, 4]);
    assert_eq!(q.u_values(), (2, 2));
}

#[test]
fn simrank_from_given_draws() {
    // target 11 for n1 = 3, u = 5: {1,4,6}, {2,3,6}, {2,4,5}, {1,3,...}
    let samples = vec![
        vec![0, 1, 2],
        vec![5, 0, 3],
        vec![3, 5, 0],
        vec![1, 2, 5],
        vec![4, 1, 3],
        vec![0, 0, 5],
    ];
    let found = simrank_from_samples(&samples, 3, 3, Decimal::from_int(5), 5);
    let groups: Vec<Vec<usize>> = found.iter().map(|p| p.n1.clone()).collect();
    assert_eq!(groups, vec![vec![1, 4, 6], vec![2, 3, 6], vec![2, 4, 5]]);
    let first_two = simrank_from_samples(&samples, 3, 3, Decimal::from_int(5), 2);
    assert_eq!(first_two.len(), 2);
    assert_eq!(first_two[1].n2, vec![1, 4, 5]);
    assert!(simrank_from_samples(&samples, 3, 3, Decimal::from_int(5), 0).is_empty());
}

#[test]
fn simrank_never_exceeds_max_iter() {
    assert!(simrank(3, 3, Decimal::from_int(0), 5, 0).is_empty());
    assert!(simrank_single(3, 3, Decimal::from_int(0), 0).is_none());
}
