//! Thompson sampling over Beta posteriors. The posterior of an arm is fixed
//! by its play and reward counts, which are what this type keeps; drawing
//! from the posteriors is done by the caller.
use vstd::prelude::*;

use crate::slopt::{played, fresh_stats, record_play, stats_have_room, ArmStats, Bandit};

verus! {

/// Thompson sampling: one `ArmStats` per arm.
#[derive(Clone, Debug)]
pub struct Ts {
    arms: Vec<ArmStats>,
}

impl Ts {
    /// The counters of every arm.
    pub closed spec fn stats(&self) -> Seq<ArmStats> {
        self.arms@
    }

    /// The counters of arm `i`.
    pub fn arm(&self, i: usize) -> (a: ArmStats)
        requires
            i < self.stats().len(),
        ensures
            a == self.stats()[i as int],
    {
        self.arms[i]
    }

    /// The bandit with these arm counters.
    pub fn from_stats(arms: Vec<ArmStats>) -> (b: Self)
        ensures
            b.stats() == arms@,
    {
        Ts { arms }
    }

    /// Number of arms.
    pub fn num_arms(&self) -> (n: usize)
        ensures
            n == self.stats().len(),
    {
        self.arms.len()
    }
}

impl Bandit for Ts {
    open spec fn obeys_bandit_spec() -> bool {
        true
    }

    open spec fn arm_count(&self) -> nat {
        self.stats().len()
    }

    open spec fn well_formed(&self) -> bool {
        true
    }

    open spec fn plays(&self, arm_idx: int) -> nat {
        self.stats()[arm_idx].num_selected as nat
    }

    open spec fn rewards(&self, arm_idx: int) -> nat {
        self.stats()[arm_idx].total_rewards as nat
    }

    open spec fn credits(&self, arm_idx: int, reward: u8, next: Self) -> bool {
        next.stats() == played(self.stats(), arm_idx, reward)
    }

    open spec fn has_room(&self, arm_idx: int, reward: u8) -> bool {
        stats_have_room(self.stats()[arm_idx], reward)
    }

    fn with_arms(n_arms: usize) -> (b: Self)
        ensures
            forall|i: int| 0 <= i < n_arms ==> #[trigger] b.stats()[i] == (ArmStats { num_selected: 0, total_rewards: 0 }),
    {
        Ts { arms: fresh_stats(n_arms) }
    }

    fn add_reward(&mut self, arm_idx: usize, reward: u8)
        ensures
            final(self).stats() == old(self).stats().update(
                arm_idx as int,
                ArmStats {
                    num_selected: (old(self).stats()[arm_idx as int].num_selected + 1) as u64,
                    total_rewards: (old(self).stats()[arm_idx as int].total_rewards + reward) as u64,
                },
            ),
    {
        record_play(&mut self.arms, arm_idx, reward);
    }
}

} // verus!
