use forkserver_slopt::slopt::{Adsts, Bandit, DriftTest, KLUcb, Ts, Ucb1, WindowSplit};

struct NoDrift;

impl DriftTest for NoDrift {
    fn detects_change(_split: WindowSplit) -> bool {
        false
    }
}

struct AlwaysDrift;

impl DriftTest for AlwaysDrift {
    fn detects_change(_split: WindowSplit) -> bool {
        true
    }
}

#[test]
fn ts_counts_plays_and_rewards() {
    let mut ts = Ts::with_arms(3);
    assert_eq!(ts.num_arms(), 3);
    ts.add_reward(1, 1);
    ts.add_reward(1, 0);
    ts.add_reward(2, 1);
    assert_eq!(ts.arm(0).num_selected, 0);
    assert_eq!(ts.arm(1).num_selected, 2);
    assert_eq!(ts.arm(1).total_rewards, 1);
    assert_eq!(ts.arm(2).num_selected, 1);
    assert_eq!(ts.arm(2).total_rewards, 1);
}

#[test]
fn ucb1_counts_steps_and_finds_unplayed_arms() {
    let mut u = Ucb1::with_arms(3);
    assert_eq!(u.first_unplayed(), Some(0));
    u.add_reward(0, 1);
    assert_eq!(u.first_unplayed(), Some(1));
    u.add_reward(2, 0);
    assert_eq!(u.first_unplayed(), Some(1));
    u.add_reward(1, 1);
    assert_eq!(u.first_unplayed(), None);
    assert_eq!(u.time_step(), 3);
    assert_eq!(u.arm(0).total_rewards, 1);
    assert_eq!(u.arm(2).total_rewards, 0);
}

#[test]
fn klucb_counts_steps_and_finds_unplayed_arms() {
    let mut k = KLUcb::with_arms(2);
    assert_eq!(k.first_unplayed(), Some(0));
    k.add_reward(1, 1);
    assert_eq!(k.first_unplayed(), Some(0));
    k.add_reward(0, 0);
    assert_eq!(k.first_unplayed(), None);
    assert_eq!(k.time_step(), 2);
    assert_eq!(k.arm(1).num_selected, 1);
}

#[test]
fn no_arms_no_unplayed_arm() {
    let u = Ucb1::with_arms(0);
    assert_eq!(u.first_unplayed(), None);
    assert_eq!(u.num_arms(), 0);
}

#[test]
fn adsts_counts_and_windows() {
    let mut b: Adsts<NoDrift> = Adsts::with_arms(2);
    for _ in 0..150 {
        b.add_reward(1, 1);
    }
    b.add_reward(0, 0);
    assert_eq!(b.arm(1).num_selected, 150);
    assert_eq!(b.arm(1).total_rewards, 150);
    assert_eq!(b.arm(1).adwin.len(), 150);
    assert_eq!(b.arm(1).adwin.sum(), 150);
    assert_eq!(b.arm(0).num_selected, 1);
    assert_eq!(b.arm(0).adwin.len(), 1);
    assert_eq!(b.arm(0).adwin.sum(), 0);
}

#[test]
fn adsts_window_forgets_while_counters_remember() {
    let mut b: Adsts<AlwaysDrift> = Adsts::with_arms(1);
    for _ in 0..100 {
        b.add_reward(0, 1);
    }
    assert_eq!(b.arm(0).num_selected, 100);
    assert_eq!(b.arm(0).total_rewards, 100);
    assert!(b.arm(0).adwin.len() < 17);
    assert_eq!(b.arm(0).adwin.sum(), b.arm(0).adwin.len());
}
