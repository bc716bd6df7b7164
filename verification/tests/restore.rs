use forkserver_slopt::slopt::{
    Adsts, Adwin, AdwinArm, ArmRecord, ArmStats, Bandit, DriftTest, KLUcb, SloptMetadata, Ts, Ucb1,
    WindowSplit,
};

fn never(_: WindowSplit) -> bool {
    false
}

struct NoDrift;

impl DriftTest for NoDrift {
    fn detects_change(_split: WindowSplit) -> bool {
        false
    }
}

#[test]
fn stored_window_restores() {
    let mut a = Adwin::default();
    for i in 0..257u32 {
        a.add((i % 5 == 0) as u8, &never);
    }
    let b = Adwin::from_buckets(&a.bucket_sums(), a.num_add()).expect("restorable");
    assert_eq!(b.bucket_sums(), a.bucket_sums());
    assert_eq!(b.len(), a.len());
    assert_eq!(b.sum(), a.sum());
    assert_eq!(b.num_add(), a.num_add());
}

#[test]
fn window_from_stored_levels() {
    let a = Adwin::from_buckets(&vec![vec![1, 0, 1], vec![2, 1]], 7).expect("restorable");
    assert_eq!(a.len(), 3 + 4);
    assert_eq!(a.sum(), 2 + 3);
    assert_eq!(a.num_add(), 7);
    let empty = Adwin::from_buckets(&vec![vec![]], 0).expect("restorable");
    assert_eq!(empty.len(), 0);
}

#[test]
fn invalid_stored_levels_are_refused() {
    assert!(Adwin::from_buckets(&vec![], 0).is_none());
    assert!(Adwin::from_buckets(&vec![vec![], vec![2]], 0).is_none());
    assert!(Adwin::from_buckets(&vec![vec![1], vec![]], 0).is_none());
    assert!(Adwin::from_buckets(&vec![vec![0; 11]], 0).is_none());
    assert!(Adwin::from_buckets(&vec![vec![256]], 0).is_none());
    assert!(Adwin::from_buckets(&vec![vec![1], vec![511]], 0).is_none());
    assert!(Adwin::from_buckets(&vec![vec![1], vec![510]], 0).is_some());
    assert!(Adwin::from_buckets(&vec![vec![1]], 100).is_none());
    assert!(Adwin::from_buckets(&vec![vec![1]; 65], 0).is_none());
}

#[test]
fn arm_records_round_trip() {
    let mut b: Adsts<NoDrift> = Adsts::with_arms(3);
    for i in 0..40usize {
        b.add_reward(i % 3, (i % 2) as u8);
    }
    let records = b.records();
    assert_eq!(records.len(), 3);
    let c: Adsts<NoDrift> = Adsts::from_records(&records).expect("valid records");
    assert_eq!(c.records(), records);
    assert_eq!(c.arm(1).num_selected, 13);
}

#[test]
fn arm_record_with_window_beyond_counters_is_refused() {
    let r = ArmRecord { levels: vec![vec![1, 1]], num_add: 2, num_selected: 1, total_rewards: 5 };
    assert!(AdwinArm::from_record(&r).is_none());
    let r = ArmRecord { levels: vec![vec![1, 1]], num_add: 2, num_selected: 2, total_rewards: 1 };
    assert!(AdwinArm::from_record(&r).is_none());
    let r = ArmRecord { levels: vec![vec![1, 1]], num_add: 2, num_selected: 2, total_rewards: 2 };
    assert!(AdwinArm::from_record(&r).is_some());
    let bad = vec![r.clone(), ArmRecord { levels: vec![], num_add: 0, num_selected: 0, total_rewards: 0 }];
    assert!(Adsts::<NoDrift>::from_records(&bad).is_none());
}

#[test]
fn bandits_from_counters() {
    let arms = vec![
        ArmStats { num_selected: 3, total_rewards: 1 },
        ArmStats { num_selected: 0, total_rewards: 0 },
    ];
    let ts = Ts::from_stats(arms.clone());
    assert_eq!(ts.arm(0).num_selected, 3);
    let u = Ucb1::from_stats(arms.clone(), 3);
    assert_eq!(u.time_step(), 3);
    assert_eq!(u.first_unplayed(), Some(1));
    let k = KLUcb::from_stats(arms, 3);
    assert_eq!(k.arm(0).total_rewards, 1);
}

#[test]
fn metadata_from_parts() {
    let op = Ts::with_arms(2);
    let rows = vec![vec![Ts::with_arms(3), Ts::with_arms(3)], vec![Ts::with_arms(3), Ts::with_arms(3)]];
    let mut m = SloptMetadata::from_parts(op, rows, vec![50], (1, 1, 2));
    assert_eq!(m.bucket(), &vec![50]);
    assert_eq!(m.last_choices(), (1, 1, 2));
    assert_eq!(m.bucket_len(49), 0);
    assert_eq!(m.bucket_len(50), 1);
    m.reward_last_choices(true);
    assert_eq!(m.op_bandit().arm(1).total_rewards, 1);
    assert_eq!(m.bs_bandits()[1][1].arm(2).num_selected, 1);
    assert_eq!(m.bs_bandits()[0][1].arm(2).num_selected, 0);
    m.op_bandit_mut().add_reward(0, 1);
    assert_eq!(m.op_bandit().arm(0).num_selected, 1);
    m.bs_bandits_mut()[0][0].add_reward(0, 0);
    assert_eq!(m.bs_bandits()[0][0].arm(0).num_selected, 1);
}
