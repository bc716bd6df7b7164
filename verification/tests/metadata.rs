use forkserver_slopt::slopt::{ArmStats, Bandit, SloptMetadata, Ts, Ucb1, BUCKET, MAX_STACK_POW};

#[test]
fn bucket_len_picks_first_bound_above_len() {
    let meta: SloptMetadata<Ts> = SloptMetadata::new(3, MAX_STACK_POW, BUCKET.to_vec());
    assert_eq!(meta.bucket_len(0), 0);
    assert_eq!(meta.bucket_len(99), 0);
    assert_eq!(meta.bucket_len(100), 1);
    assert_eq!(meta.bucket_len(9_999), 2);
    assert_eq!(meta.bucket_len(10_000), 3);
    assert_eq!(meta.bucket_len(100_000), 4);
    assert_eq!(meta.bucket_len(usize::MAX), 4);
}

#[test]
fn new_metadata_has_a_row_per_bucket() {
    let meta: SloptMetadata<Ts> = SloptMetadata::new(3, MAX_STACK_POW, BUCKET.to_vec());
    assert_eq!(meta.bs_bandits().len(), 5);
    for row in meta.bs_bandits() {
        assert_eq!(row.len(), 3);
        for b in row {
            assert_eq!(b.num_arms(), MAX_STACK_POW);
        }
    }
    assert_eq!(meta.op_bandit().num_arms(), 3);
    assert_eq!(meta.last_choices(), (0, 0, 0));
}

#[test]
fn reward_goes_to_last_choices() {
    let mut meta: SloptMetadata<Ts> = SloptMetadata::new(3, MAX_STACK_POW, BUCKET.to_vec());
    meta.set_last_choices(2, 1, 4);
    meta.reward_last_choices(true);
    assert_eq!(meta.op_bandit().arm(2).num_selected, 1);
    assert_eq!(meta.op_bandit().arm(2).total_rewards, 1);
    assert_eq!(meta.op_bandit().arm(0).num_selected, 0);
    let b = &meta.bs_bandits()[1][2];
    assert_eq!(b.arm(4).num_selected, 1);
    assert_eq!(b.arm(4).total_rewards, 1);
    meta.reward_last_choices(false);
    assert_eq!(meta.op_bandit().arm(2).num_selected, 2);
    assert_eq!(meta.op_bandit().arm(2).total_rewards, 1);
    let mut ts = Ts::with_arms(2);
    ts.add_reward(1, 1);
    assert_eq!(ts.arm(1).total_rewards, 1);
}

#[test]
fn a_round_remembers_its_choices_and_returns_the_stack_size() {
    let mut meta: SloptMetadata<Ts> = SloptMetadata::new(3, MAX_STACK_POW, BUCKET.to_vec());
    assert_eq!(meta.begin_round(1, 3, 2), 8);
    assert_eq!(meta.last_choices(), (1, 3, 2));
    assert_eq!(meta.begin_round(0, 0, 0), 2);
    assert_eq!(meta.last_choices(), (0, 0, 0));
}

#[test]
fn the_last_reward_that_fits_the_counter_is_recorded() {
    let mut ts = Ts::from_stats(vec![ArmStats { num_selected: 0, total_rewards: u64::MAX - 1 }]);
    ts.add_reward(0, 1);
    assert_eq!(ts.arm(0).total_rewards, u64::MAX);
    assert_eq!(ts.arm(0).num_selected, 1);
}

#[test]
fn crediting_a_round_steps_only_the_chosen_bandits() {
    let mut meta: SloptMetadata<Ucb1> = SloptMetadata::new(2, MAX_STACK_POW, BUCKET.to_vec());
    meta.begin_round(1, 2, 3);
    meta.reward_last_choices(true);
    assert_eq!(meta.op_bandit().time_step(), 1);
    assert_eq!(meta.op_bandit().arm(1).num_selected, 1);
    for (b, row) in meta.bs_bandits().iter().enumerate() {
        for (o, bandit) in row.iter().enumerate() {
            let expected = if b == 2 && o == 1 { 1 } else { 0 };
            assert_eq!(bandit.time_step(), expected);
        }
    }
    assert_eq!(meta.bs_bandits()[2][1].arm(3).total_rewards, 1);
}
