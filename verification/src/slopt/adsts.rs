//! ADS-TS: Thompson sampling whose posteriors are built from an adaptive
//! window of recent rewards, so that an arm whose payoff changed forgets its
//! past. The posterior of an arm is fixed by its window's length and reward
//! sum; drawing from the posteriors is done by the caller.
use std::marker::PhantomData;
use vstd::prelude::*;

use crate::slopt::adwin::{Adwin, WindowSplit, ADWIN_DROP_INTERVAL};
use crate::slopt::adwin_model::{
    binary, count_of, flatten, level_views, levels_binary, pushed_blocks, restorable, sum_of, summarizes,
};
use crate::slopt::Bandit;

verus! {

/// The test that decides whether the two parts of a window differ enough to
/// drop the older part.
pub trait DriftTest {
    fn detects_change(split: WindowSplit) -> bool;
}

/// One arm: its adaptive window and its lifetime counters.
#[derive(Clone)]
pub struct AdwinArm {
    pub adwin: Adwin,
    pub num_selected: u64,
    pub total_rewards: u64,
}

impl AdwinArm {
    /// An arm never played.
    pub fn new() -> (a: Self)
        ensures
            a.well_formed(),
            a.num_selected == 0,
            a.total_rewards == 0,
            a.adwin.blocks().len() == 0,
            a.adwin.contents() == Seq::<u8>::empty(),
    {
        AdwinArm { adwin: Adwin::default(), num_selected: 0, total_rewards: 0 }
    }

    /// The window is consistent and holds no more than the arm's lifetime counters.
    pub open spec fn well_formed(&self) -> bool {
        &&& self.adwin.well_formed()
        &&& self.adwin.width() <= self.num_selected
        &&& self.adwin.reward_sum() <= self.total_rewards
    }
}

/// An arm as plain values: the bucket sums of its window's levels, the
/// rewards added since its window last looked for a change, and its counters.
#[derive(Clone, Debug, PartialEq, Eq)]
pub struct ArmRecord {
    pub levels: Vec<Vec<u64>>,
    pub num_add: usize,
    pub num_selected: u64,
    pub total_rewards: u64,
}

/// The record describes an arm: its levels describe a window that holds no
/// more than the arm's counters.
pub open spec fn record_valid(r: ArmRecord) -> bool {
    let l = level_views(r.levels@);
    &&& restorable(l, r.num_add as nat)
    &&& count_of(flatten(l)) <= r.num_selected
    &&& sum_of(flatten(l)) <= r.total_rewards
}

impl AdwinArm {
    /// A record that holds an arm's levels, check counter and counters, as
    /// `record` writes them, describes an arm: `from_record` gives it back.
    pub proof fn lemma_record_restores(&self, r: ArmRecord)
        requires
            self.well_formed(),
            level_views(r.levels@) == self.adwin.level_seqs(),
            r.num_add == self.adwin.adds_since_drop(),
            r.num_selected == self.num_selected,
            r.total_rewards == self.total_rewards,
        ensures
            record_valid(r),
    {
        self.adwin.lemma_stored_window_restores();
        self.adwin.lemma_blocks_are_levels();
    }

    /// The arm as plain values.
    pub fn record(&self) -> (r: ArmRecord)
        ensures
            level_views(r.levels@) == self.adwin.level_seqs(),
            r.num_add == self.adwin.adds_since_drop(),
            r.num_selected == self.num_selected,
            r.total_rewards == self.total_rewards,
    {
        let levels = self.adwin.bucket_sums();
        proof {
            assert(level_views(levels@) =~= self.adwin.level_seqs());
        }
        ArmRecord {
            levels,
            num_add: self.adwin.num_add(),
            num_selected: self.num_selected,
            total_rewards: self.total_rewards,
        }
    }

    /// The arm a record describes, if it describes one.
    pub fn from_record(r: &ArmRecord) -> (a: Option<AdwinArm>)
        ensures
            a is Some <==> record_valid(*r),
            a matches Some(a) ==> {
                &&& a.well_formed()
                &&& a.adwin.level_seqs() == level_views(r.levels@)
                &&& a.adwin.adds_since_drop() == r.num_add
                &&& a.num_selected == r.num_selected
                &&& a.total_rewards == r.total_rewards
            },
    {
        match Adwin::from_buckets(&r.levels, r.num_add) {
            None => None,
            Some(adwin) => {
                if adwin.len() <= r.num_selected && adwin.sum() <= r.total_rewards {
                    Some(AdwinArm { adwin, num_selected: r.num_selected, total_rewards: r.total_rewards })
                } else {
                    None
                }
            },
        }
    }
}

/// `a1` is the arm `a0` after it was played and earned `reward`: its
/// counters went up by one play and by the reward, and its window is the old
/// one after `reward` was added under the drift test `D`.
pub open spec fn arm_credited<D: DriftTest>(a0: AdwinArm, reward: u8, a1: AdwinArm) -> bool {
    &&& a1.num_selected == a0.num_selected + 1
    &&& a1.total_rewards == a0.total_rewards + reward
    &&& a0.adwin.added(reward, D::detects_change, a1.adwin)
}

/// ADS-TS over arms whose windows are cut by the drift test `D`.
pub struct Adsts<D> {
    arms: Vec<AdwinArm>,
    detector: PhantomData<D>,
}

impl<D> Clone for Adsts<D> {
    fn clone(&self) -> Self {
        Adsts { arms: self.arms.clone(), detector: PhantomData }
    }
}

impl<D: DriftTest> Adsts<D> {
    /// The arms.
    pub closed spec fn arm_seq(&self) -> Seq<AdwinArm> {
        self.arms@
    }

    /// Arm `i`.
    pub fn arm(&self, i: usize) -> (a: &AdwinArm)
        requires
            i < self.arm_seq().len(),
        ensures
            *a == self.arm_seq()[i as int],
    {
        &self.arms[i]
    }

    /// Number of arms.
    pub fn num_arms(&self) -> (n: usize)
        ensures
            n == self.arm_seq().len(),
    {
        self.arms.len()
    }

    /// The bandit whose arms the records describe, if each describes an arm.
    pub fn from_records(records: &Vec<ArmRecord>) -> (b: Option<Self>)
        ensures
            b is Some <==> forall|i: int| 0 <= i < records@.len() ==> #[trigger] record_valid(records@[i]),
            b matches Some(b) ==> {
                &&& b.well_formed()
                &&& b.arm_seq().len() == records@.len()
                &&& forall|i: int|
                    0 <= i < records@.len() ==> {
                        &&& (#[trigger] b.arm_seq()[i]).num_selected == records@[i].num_selected
                        &&& b.arm_seq()[i].total_rewards == records@[i].total_rewards
                        &&& b.arm_seq()[i].adwin.level_seqs() == level_views(records@[i].levels@)
                        &&& b.arm_seq()[i].adwin.adds_since_drop() == records@[i].num_add
                    }
            },
    {
        let mut arms: Vec<AdwinArm> = Vec::new();
        let mut i: usize = 0;
        while i < records.len()
            invariant
                i <= records@.len(),
                arms@.len() == i,
                forall|k: int| 0 <= k < i ==> #[trigger] record_valid(records@[k]),
                forall|k: int|
                    0 <= k < i ==> {
                        &&& (#[trigger] arms@[k]).well_formed()
                        &&& arms@[k].num_selected == records@[k].num_selected
                        &&& arms@[k].total_rewards == records@[k].total_rewards
                        &&& arms@[k].adwin.level_seqs() == level_views(records@[k].levels@)
                        &&& arms@[k].adwin.adds_since_drop() == records@[k].num_add
                    },
            decreases records@.len() - i,
        {
            match AdwinArm::from_record(&records[i]) {
                None => {
                    return None;
                },
                Some(a) => {
                    arms.push(a);
                },
            }
            i += 1;
        }
        let b = Adsts { arms, detector: PhantomData };
        proof {
            assert forall|k: int| 0 <= k < b.arm_seq().len() implies #[trigger] b.arm_seq()[k].well_formed() by {
                assert(b.arm_seq()[k] == arms@[k]);
            }
        }
        Some(b)
    }

    /// The records that `records` writes for a consistent bandit are all
    /// valid, so that `from_records` restores a bandit with the same arms.
    pub proof fn lemma_records_restore(&self, v: Seq<ArmRecord>)
        requires
            self.well_formed(),
            v.len() == self.arm_seq().len(),
            forall|i: int|
                0 <= i < v.len() ==> {
                    &&& (#[trigger] v[i]).num_selected == self.arm_seq()[i].num_selected
                    &&& v[i].total_rewards == self.arm_seq()[i].total_rewards
                    &&& level_views(v[i].levels@) == self.arm_seq()[i].adwin.level_seqs()
                    &&& v[i].num_add == self.arm_seq()[i].adwin.adds_since_drop()
                },
        ensures
            forall|i: int| 0 <= i < v.len() ==> #[trigger] record_valid(v[i]),
    {
        assert forall|i: int| 0 <= i < v.len() implies #[trigger] record_valid(v[i]) by {
            self.arm_seq()[i].lemma_record_restores(v[i]);
        }
    }

    /// Every arm as plain values.
    pub fn records(&self) -> (v: Vec<ArmRecord>)
        ensures
            v@.len() == self.arm_seq().len(),
            forall|i: int|
                0 <= i < v@.len() ==> {
                    &&& (#[trigger] v@[i]).num_selected == self.arm_seq()[i].num_selected
                    &&& v@[i].total_rewards == self.arm_seq()[i].total_rewards
                    &&& level_views(v@[i].levels@) == self.arm_seq()[i].adwin.level_seqs()
                    &&& v@[i].num_add == self.arm_seq()[i].adwin.adds_since_drop()
                },
    {
        let mut v: Vec<ArmRecord> = Vec::new();
        let mut i: usize = 0;
        while i < self.arms.len()
            invariant
                i <= self.arms@.len(),
                v@.len() == i,
                forall|k: int|
                    0 <= k < i ==> {
                        &&& (#[trigger] v@[k]).num_selected == self.arm_seq()[k].num_selected
                        &&& v@[k].total_rewards == self.arm_seq()[k].total_rewards
                        &&& level_views(v@[k].levels@) == self.arm_seq()[k].adwin.level_seqs()
                        &&& v@[k].num_add == self.arm_seq()[k].adwin.adds_since_drop()
                    },
            decreases self.arms@.len() - i,
        {
            v.push(self.arms[i].record());
            i += 1;
        }
        v
    }
}

impl<D: DriftTest> Bandit for Adsts<D> {
    open spec fn obeys_bandit_spec() -> bool {
        true
    }

    open spec fn arm_count(&self) -> nat {
        self.arm_seq().len()
    }

    open spec fn well_formed(&self) -> bool {
        forall|i: int| 0 <= i < self.arm_seq().len() ==> #[trigger] self.arm_seq()[i].well_formed()
    }

    open spec fn plays(&self, arm_idx: int) -> nat {
        self.arm_seq()[arm_idx].num_selected as nat
    }

    open spec fn rewards(&self, arm_idx: int) -> nat {
        self.arm_seq()[arm_idx].total_rewards as nat
    }

    open spec fn credits(&self, arm_idx: int, reward: u8, next: Self) -> bool {
        &&& next.arm_seq().len() == self.arm_seq().len()
        &&& forall|j: int| 0 <= j < self.arm_seq().len() && j != arm_idx ==> #[trigger] next.arm_seq()[j] == self.arm_seq()[j]
        &&& arm_credited::<D>(self.arm_seq()[arm_idx], reward, next.arm_seq()[arm_idx])
    }

    open spec fn has_room(&self, arm_idx: int, reward: u8) -> bool {
        &&& self.arm_seq()[arm_idx].num_selected < u64::MAX
        &&& self.arm_seq()[arm_idx].total_rewards + reward <= u64::MAX
    }

    fn with_arms(n_arms: usize) -> (b: Self)
        ensures
            forall|i: int|
                0 <= i < n_arms ==> {
                    &&& (#[trigger] b.arm_seq()[i]).num_selected == 0
                    &&& b.arm_seq()[i].total_rewards == 0
                    &&& b.arm_seq()[i].adwin.blocks().len() == 0
                },
    {
        let mut arms: Vec<AdwinArm> = Vec::with_capacity(n_arms);
        let mut i: usize = 0;
        while i < n_arms
            invariant
                i <= n_arms,
                arms@.len() == i,
                forall|k: int|
                    0 <= k < i ==> {
                        &&& (#[trigger] arms@[k]).well_formed()
                        &&& arms@[k].num_selected == 0
                        &&& arms@[k].total_rewards == 0
                        &&& arms@[k].adwin.blocks().len() == 0
                    },
            decreases n_arms - i,
        {
            arms.push(AdwinArm::new());
            i += 1;
        }
        Adsts { arms, detector: PhantomData }
    }

    fn add_reward(&mut self, arm_idx: usize, reward: u8)
        ensures
            forall|j: int| 0 <= j < old(self).arm_seq().len() && j != arm_idx ==> #[trigger] final(self).arm_seq()[j]
                == old(self).arm_seq()[j],
            arm_credited::<D>(old(self).arm_seq()[arm_idx as int], reward, final(self).arm_seq()[arm_idx as int]),
            ({
                let a0 = old(self).arm_seq()[arm_idx as int];
                let a1 = final(self).arm_seq()[arm_idx as int];
                &&& a1.adwin.width() <= a0.adwin.width() + 1
                &&& a1.adwin.blocks().len() >= 1
                &&& a1.adwin.blocks().last() == (1nat, reward as nat)
                &&& a0.adwin.adds_since_drop() + 1 < ADWIN_DROP_INTERVAL ==> {
                    &&& a1.adwin.contents() == a0.adwin.contents().push(reward)
                    &&& a1.adwin.width() == a0.adwin.width() + 1
                    &&& a1.adwin.reward_sum() == a0.adwin.reward_sum() + reward
                }
                &&& binary(a0.adwin.contents()) && reward <= 1 ==> binary(a1.adwin.contents())
                &&& levels_binary(a0.adwin.level_seqs()) && reward <= 1 ==> levels_binary(a1.adwin.level_seqs())
                &&& summarizes(pushed_blocks(a0.adwin.level_seqs(), reward), a0.adwin.contents().push(reward))
            }),
    {
        let test = D::detects_change;
        let ghost a0 = self.arms@[arm_idx as int];
        proof {
            assert(self.arm_seq()[arm_idx as int].well_formed());
            assert(a0.adwin.well_formed());
        }
        self.arms[arm_idx].num_selected = self.arms[arm_idx].num_selected + 1;
        self.arms[arm_idx].total_rewards = self.arms[arm_idx].total_rewards + reward as u64;
        self.arms[arm_idx].adwin.add(reward, &test);
        proof {
            let a1 = self.arms@[arm_idx as int];
            assert(a1.well_formed());
            assert forall|i: int| 0 <= i < self.arm_seq().len() implies #[trigger] self.arm_seq()[i].well_formed() by {
                if i != arm_idx {
                    assert(self.arm_seq()[i] == old(self).arm_seq()[i]);
                }
            }
        }
    }
}

} // verus!
