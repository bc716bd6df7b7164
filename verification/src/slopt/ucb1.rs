//! UCB1. An arm's index is its mean reward plus an exploration bonus that
//! grows with the number of rewards recorded so far; arms that were never
//! played come first. This type keeps the counters the index is made of.
use vstd::prelude::*;

use crate::slopt::{played, first_unplayed, fresh_stats, record_play, stats_have_room, ArmStats, Bandit};

verus! {

/// UCB1: one `ArmStats` per arm and the number of rewards recorded.
#[derive(Clone, Debug)]
pub struct Ucb1 {
    arms: Vec<ArmStats>,
    time_step: u64,
}

impl Ucb1 {
    /// The counters of every arm.
    pub closed spec fn stats(&self) -> Seq<ArmStats> {
        self.arms@
    }

    /// The number of rewards recorded so far.
    pub closed spec fn steps(&self) -> nat {
        self.time_step as nat
    }

    /// The counters of arm `i`.
    pub fn arm(&self, i: usize) -> (a: ArmStats)
        requires
            i < self.stats().len(),
        ensures
            a == self.stats()[i as int],
    {
        self.arms[i]
    }

    /// The bandit with these arm counters, after `time_step` recorded rewards.
    pub fn from_stats(arms: Vec<ArmStats>, time_step: u64) -> (b: Self)
        ensures
            b.stats() == arms@,
            b.steps() == time_step,
    {
        Ucb1 { arms, time_step }
    }

    /// Number of arms.
    pub fn num_arms(&self) -> (n: usize)
        ensures
            n == self.stats().len(),
    {
        self.arms.len()
    }

    /// The number of rewards recorded so far.
    pub fn time_step(&self) -> (t: u64)
        ensures
            t == self.steps(),
    {
        self.time_step
    }

    /// The arm that is chosen before any index is compared: the first arm
    /// never played, if there is one.
    pub fn first_unplayed(&self) -> (r: Option<usize>)
        ensures
            match r {
                Some(i) => {
                    &&& i < self.stats().len()
                    &&& self.stats()[i as int].num_selected == 0
                    &&& forall|j: int| 0 <= j < i ==> #[trigger] self.stats()[j].num_selected != 0
                },
                None => forall|j: int| 0 <= j < self.stats().len() ==> #[trigger] self.stats()[j].num_selected != 0,
            },
    {
        first_unplayed(&self.arms)
    }
}

impl Bandit for Ucb1 {
    open spec fn obeys_bandit_spec() -> bool {
        true
    }

    open spec fn arm_count(&self) -> nat {
        self.stats().len()
    }

    open spec fn well_formed(&self) -> bool {
        true
    }

    open spec fn plays(&self, arm_idx: int) -> nat {
        self.stats()[arm_idx].num_selected as nat
    }

    open spec fn rewards(&self, arm_idx: int) -> nat {
        self.stats()[arm_idx].total_rewards as nat
    }

    open spec fn credits(&self, arm_idx: int, reward: u8, next: Self) -> bool {
        next.stats() == played(self.stats(), arm_idx, reward) && next.steps() == self.steps() + 1
    }

    open spec fn has_room(&self, arm_idx: int, reward: u8) -> bool {
        stats_have_room(self.stats()[arm_idx], reward) && self.steps() < u64::MAX
    }

    fn with_arms(n_arms: usize) -> (b: Self)
        ensures
            b.steps() == 0,
            forall|i: int| 0 <= i < n_arms ==> #[trigger] b.stats()[i] == (ArmStats { num_selected: 0, total_rewards: 0 }),
    {
        Ucb1 { arms: fresh_stats(n_arms), time_step: 0 }
    }

    fn add_reward(&mut self, arm_idx: usize, reward: u8)
        ensures
            final(self).steps() == old(self).steps() + 1,
            final(self).stats() == old(self).stats().update(
                arm_idx as int,
                ArmStats {
                    num_selected: (old(self).stats()[arm_idx as int].num_selected + 1) as u64,
                    total_rewards: (old(self).stats()[arm_idx as int].total_rewards + reward) as u64,
                },
            ),
    {
        self.time_step = self.time_step + 1;
        record_play(&mut self.arms, arm_idx, reward);
    }
}

} // verus!
