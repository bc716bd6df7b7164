use std::cell::Cell;

use forkserver_slopt::slopt::{Adwin, WindowSplit};

fn never(_: WindowSplit) -> bool {
    false
}

/// The change test of the fuzzer: a Hoeffding-style bound on the difference
/// of the means of the two parts, with confidence `1e-7`.
fn hoeffding(s: WindowSplit) -> bool {
    let n = s.window_len as f64;
    let dd2 = 2.0 * ((2.0 * n.ln() / 1e-7).ln());
    let u = s.window_sum as f64 / n;
    let ddv2 = u * (1.0 - u) * dd2;
    let dd2_over_3 = dd2 / 3.0;
    let u0 = s.older_sum as f64 / s.older_count as f64;
    let u1 = s.newer_sum as f64 / s.newer_count as f64;
    let du = (u0 - u1).abs();
    let inv_m = 1.0 / (1.0 + s.older_count as f64 - 5.0) + 1.0 / (1.0 + s.newer_count as f64 - 5.0);
    let eps = (ddv2 * inv_m).sqrt() + dd2_over_3 * inv_m;
    du > eps
}

fn total_of(a: &Adwin) -> (u64, u64) {
    let mut n = 0u64;
    let mut s = 0u64;
    for (i, level) in a.bucket_sums().iter().enumerate() {
        for x in level {
            n += 1u64 << i;
            s += x;
        }
    }
    (n, s)
}

#[test]
fn empty_window() {
    let a = Adwin::default();
    assert_eq!(a.len(), 0);
    assert_eq!(a.sum(), 0);
    assert_eq!(a.bucket_sums(), vec![Vec::<u64>::new()]);
}

#[test]
fn add_counts_and_sums() {
    let mut a = Adwin::default();
    a.add(1, &never);
    a.add(0, &never);
    a.add(1, &never);
    assert_eq!(a.len(), 3);
    assert_eq!(a.sum(), 2);
    assert_eq!(a.bucket_sums(), vec![vec![1, 0, 1]]);
}

#[test]
fn eleventh_bucket_merges_the_two_oldest() {
    let mut a = Adwin::default();
    for i in 0..11u8 {
        a.add(i % 2, &never);
    }
    // rewards 0,1,0,1,...,0: the two oldest (0 and 1) become one bucket of size 2
    assert_eq!(a.bucket_sums(), vec![vec![0, 1, 0, 1, 0, 1, 0, 1, 0], vec![1]]);
    assert_eq!(a.len(), 11);
    assert_eq!(a.sum(), 5);
    assert_eq!(total_of(&a), (11, 5));
}

#[test]
fn levels_never_exceed_m_buckets() {
    let mut a = Adwin::default();
    for i in 0..1000u32 {
        a.add((i % 3 == 0) as u8, &never);
        for level in a.bucket_sums() {
            assert!(level.len() <= 10);
        }
        assert_eq!(total_of(&a), (a.len(), a.sum()));
    }
    assert_eq!(a.len(), 1000);
    assert_eq!(a.sum(), 334);
}

#[test]
fn expire_takes_the_oldest_bucket() {
    let mut a = Adwin::default();
    for i in 0..11u8 {
        a.add(i % 2, &never);
    }
    a.expire_oldest_bucket();
    assert_eq!(a.bucket_sums(), vec![vec![0, 1, 0, 1, 0, 1, 0, 1, 0]]);
    assert_eq!(a.len(), 9);
    assert_eq!(a.sum(), 4);
    a.expire_oldest_bucket();
    assert_eq!(a.bucket_sums(), vec![vec![1, 0, 1, 0, 1, 0, 1, 0]]);
    assert_eq!(a.len(), 8);
}

#[test]
fn expire_on_empty_window_does_nothing() {
    let mut a = Adwin::default();
    a.expire_oldest_bucket();
    assert_eq!(a.len(), 0);
    assert_eq!(a.bucket_sums(), vec![Vec::<u64>::new()]);
}

#[test]
fn short_window_is_never_examined() {
    let mut a = Adwin::default();
    for _ in 0..16 {
        a.add(1, &never);
    }
    let asked = Cell::new(0);
    let test = |_: WindowSplit| {
        asked.set(asked.get() + 1);
        true
    };
    assert!(!a.try_drop_once(&test));
    assert_eq!(asked.get(), 0);
    assert_eq!(a.len(), 16);
}

#[test]
fn splits_are_asked_oldest_first_and_only_when_both_sides_are_large_enough() {
    let mut a = Adwin::default();
    for i in 0..20u8 {
        a.add(i % 2, &never);
    }
    // buckets, oldest first: level 1 holds [1, 1, 1, 1, 1] (sizes 2), level 0 holds 0,1,...
    let seen = std::cell::RefCell::new(Vec::new());
    let test = |s: WindowSplit| {
        seen.borrow_mut().push(s);
        false
    };
    assert!(!a.try_drop_once(&test));
    let seen = seen.into_inner();
    assert!(!seen.is_empty());
    for s in &seen {
        assert!(s.older_count >= 5);
        assert!(s.newer_count >= 5);
        assert_eq!(s.older_count + s.newer_count, 20);
        assert_eq!(s.older_sum + s.newer_sum, 10);
        assert_eq!(s.window_len, 20);
        assert_eq!(s.window_sum, 10);
    }
    for w in seen.windows(2) {
        assert!(w[0].older_count < w[1].older_count);
    }
    assert_eq!(seen[0].older_count, 6);
    assert_eq!(seen.last().unwrap().newer_count, 5);
    assert_eq!(a.len(), 20);
}

#[test]
fn a_flagged_split_drops_exactly_one_bucket() {
    let mut a = Adwin::default();
    for _ in 0..20 {
        a.add(1, &never);
    }
    let before = a.bucket_sums();
    let oldest_level = before.len() - 1;
    let oldest = before[oldest_level][0];
    assert!(a.try_drop_once(&|_: WindowSplit| true));
    assert_eq!(a.len(), 20 - (1u64 << oldest_level));
    assert_eq!(a.sum(), 20 - oldest);
}

#[test]
fn dropping_stops_below_the_minimum_length() {
    let mut a = Adwin::default();
    for _ in 0..40 {
        a.add(1, &never);
    }
    a.drop_last_till_identical(&|_: WindowSplit| true);
    assert!(a.len() < 17);
    assert!(a.len() > 0);
    assert_eq!(total_of(&a), (a.len(), a.sum()));
}

#[test]
fn periodic_check_runs_every_hundred_rewards() {
    let mut a = Adwin::default();
    let asked = Cell::new(0);
    let test = |_: WindowSplit| {
        asked.set(asked.get() + 1);
        false
    };
    for _ in 0..99 {
        a.add(1, &test);
    }
    assert_eq!(asked.get(), 0);
    a.add(1, &test);
    assert!(asked.get() > 0);
    assert_eq!(a.len(), 100);
}

#[test]
fn stationary_rewards_keep_the_whole_window() {
    let mut a = Adwin::default();
    for i in 0..1000u32 {
        a.add((i % 2) as u8, &hoeffding);
    }
    assert_eq!(a.len(), 1000);
    assert_eq!(a.sum(), 500);
}

#[test]
fn a_change_in_rewards_shrinks_the_window() {
    let mut a = Adwin::default();
    for _ in 0..500 {
        a.add(0, &hoeffding);
    }
    for _ in 0..500 {
        a.add(1, &hoeffding);
    }
    assert!(a.len() < 1000);
    // the newest rewards are all 1, and most of what is left is newer than the change
    assert!(a.sum() * 2 > a.len());
    assert_eq!(total_of(&a), (a.len(), a.sum()));
}

#[test]
fn binary_rewards_never_sum_past_the_window() {
    let mut a = Adwin::default();
    for i in 0..2000u32 {
        let reward = if (i / 300) % 2 == 0 { (i % 5 == 0) as u8 } else { 1 };
        a.add(reward, &hoeffding);
        assert!(a.sum() <= a.len());
    }
}

#[test]
fn binary_buckets_never_sum_past_their_size() {
    let mut a = Adwin::default();
    for i in 0..3000u32 {
        let reward = if (i / 500) % 2 == 0 { (i % 7 == 0) as u8 } else { 1 };
        a.add(reward, &hoeffding);
        for (level, sums) in a.bucket_sums().iter().enumerate() {
            for s in sums {
                assert!(*s <= 1u64 << level);
            }
        }
    }
}

#[test]
fn a_settled_window_is_left_alone_by_the_next_pass() {
    let mut a = Adwin::default();
    for _ in 0..300 {
        a.add(0, &hoeffding);
    }
    for _ in 0..300 {
        a.add(1, &hoeffding);
    }
    a.drop_last_till_identical(&hoeffding);
    let kept = a.bucket_sums();
    assert!(!a.try_drop_once(&hoeffding));
    assert_eq!(a.bucket_sums(), kept);
}

#[test]
fn the_hundredth_reward_leaves_a_settled_window() {
    let mut a = Adwin::default();
    for _ in 0..60 {
        a.add(0, &hoeffding);
    }
    for _ in 0..40 {
        a.add(1, &hoeffding);
    }
    let kept = a.bucket_sums();
    assert!(!a.try_drop_once(&hoeffding));
    assert_eq!(a.bucket_sums(), kept);
}

#[test]
fn normalizing_a_kept_window_changes_nothing() {
    let mut a = Adwin::default();
    for i in 0..250u32 {
        a.add((i % 3 == 0) as u8, &never);
    }
    let kept = a.bucket_sums();
    a.normalize_buckets();
    assert_eq!(a.bucket_sums(), kept);
    assert_eq!(a.len(), 250);
    assert_eq!(a.sum(), 84);
}

#[test]
fn a_window_restored_from_binary_levels_sums_within_its_length() {
    let levels = vec![vec![1, 0, 1], vec![2, 1], vec![4]];
    let mut a = Adwin::from_buckets(&levels, 3).unwrap();
    assert_eq!(a.len(), 3 + 4 + 4);
    assert_eq!(a.sum(), 2 + 3 + 4);
    assert!(a.sum() <= a.len());
    for i in 0..500u32 {
        a.add((i % 2) as u8, &hoeffding);
        assert!(a.sum() <= a.len());
        for (level, sums) in a.bucket_sums().iter().enumerate() {
            for s in sums {
                assert!(*s <= 1u64 << level);
            }
        }
    }
}
