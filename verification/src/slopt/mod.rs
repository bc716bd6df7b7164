//! Multi-armed bandits and the metadata that schedules mutations with them:
//! one bandit picks the mutation operator, and for each input-length bucket
//! and operator another bandit picks how many times (as a power of two) the
//! operator is stacked.
use vstd::arithmetic::power2::pow2;
use vstd::prelude::*;

use crate::mutator::stacked_mutations;

pub mod adsts;
pub mod adwin;
pub mod adwin_model;
pub mod klucb;
pub mod ts;
pub mod ucb1;

pub use adsts::{AdwinArm, Adsts, ArmRecord, DriftTest};
pub use adwin::{Adwin, WindowSplit};
pub use klucb::KLUcb;
pub use ts::Ts;
pub use ucb1::Ucb1;

verus! {

/// Upper bounds of the input-length buckets: `[0, 100)`, `[100, 1_000)`,
/// `[1_000, 10_000)`, `[10_000, 100_000)` and `[100_000, +inf)`.
pub const BUCKET: [usize; 4] = [100, 1_000, 10_000, 100_000];

/// Number of arms of a stacking bandit: stack sizes `2^1` to `2^7`.
pub const MAX_STACK_POW: usize = 7;

/// A multi-armed bandit that learns from the rewards of the arms it chose.
///
/// An implementation states its arms through the spec functions below and
/// says so with `obeys_bandit_spec`; the contracts of `with_arms` and
/// `add_reward` bind only implementations that do. One that does not keeps
/// the defaults and promises nothing.
pub trait Bandit: Sized {
    /// Whether the implementation keeps the contracts of this trait.
    open spec fn obeys_bandit_spec() -> bool {
        false
    }

    /// The number of arms.
    open spec fn arm_count(&self) -> nat {
        0
    }

    /// The bandit's internal consistency.
    open spec fn well_formed(&self) -> bool {
        false
    }

    /// How many rewards the arm has received.
    open spec fn plays(&self, arm_idx: int) -> nat {
        0
    }

    /// The sum of the rewards the arm has received.
    open spec fn rewards(&self, arm_idx: int) -> nat {
        0
    }

    /// Recording one more reward of this value on the arm keeps the counters in range.
    open spec fn has_room(&self, arm_idx: int, reward: u8) -> bool {
        false
    }

    /// `next` is this bandit after arm `arm_idx` was played and earned `reward`.
    open spec fn credits(&self, arm_idx: int, reward: u8, next: Self) -> bool {
        true
    }

    /// A bandit over `n_arms` arms that has seen no reward.
    fn with_arms(n_arms: usize) -> (b: Self)
        ensures
            Self::obeys_bandit_spec() ==> {
                &&& b.well_formed()
                &&& b.arm_count() == n_arms
                &&& forall|i: int, r: u8| 0 <= i < n_arms ==> #[trigger] b.has_room(i, r)
                &&& forall|i: int| 0 <= i < n_arms ==> #[trigger] b.plays(i) == 0
                &&& forall|i: int| 0 <= i < n_arms ==> #[trigger] b.rewards(i) == 0
            },
    ;

    /// Records the reward that the arm earned.
    fn add_reward(&mut self, arm_idx: usize, reward: u8)
        requires
            Self::obeys_bandit_spec() ==> {
                &&& old(self).well_formed()
                &&& arm_idx < old(self).arm_count()
                &&& old(self).has_room(arm_idx as int, reward)
            },
        ensures
            Self::obeys_bandit_spec() ==> {
                &&& final(self).well_formed()
                &&& old(self).credits(arm_idx as int, reward, *final(self))
                &&& final(self).arm_count() == old(self).arm_count()
                &&& final(self).plays(arm_idx as int) == old(self).plays(arm_idx as int) + 1
                &&& final(self).rewards(arm_idx as int) == old(self).rewards(arm_idx as int) + reward
                &&& forall|j: int|
                    0 <= j < old(self).arm_count() && j != arm_idx ==> #[trigger] final(self).plays(j) == old(
                        self,
                    ).plays(j)
                &&& forall|j: int|
                    0 <= j < old(self).arm_count() && j != arm_idx ==> #[trigger] final(self).rewards(j) == old(
                        self,
                    ).rewards(j)
            },
    ;
}

/// Counters of one arm: how often it was played and what it earned.
#[derive(Clone, Copy, Debug)]
pub struct ArmStats {
    pub num_selected: u64,
    pub total_rewards: u64,
}

/// The arm can record one more reward of this value.
pub open spec fn stats_have_room(a: ArmStats, reward: u8) -> bool {
    a.num_selected < u64::MAX && a.total_rewards + reward <= u64::MAX
}

/// The counters `arms` once arm `arm_idx` was played and earned `reward`.
pub open spec fn played(arms: Seq<ArmStats>, arm_idx: int, reward: u8) -> Seq<ArmStats> {
    arms.update(
        arm_idx,
        ArmStats {
            num_selected: (arms[arm_idx].num_selected + 1) as u64,
            total_rewards: (arms[arm_idx].total_rewards + reward) as u64,
        },
    )
}

/// `n` arms that were never played.
pub fn fresh_stats(n: usize) -> (arms: Vec<ArmStats>)
    ensures
        arms@.len() == n,
        forall|i: int| 0 <= i < n ==> #[trigger] arms@[i] == (ArmStats { num_selected: 0, total_rewards: 0 }),
{
    let mut arms: Vec<ArmStats> = Vec::with_capacity(n);
    let mut i: usize = 0;
    while i < n
        invariant
            i <= n,
            arms@.len() == i,
            forall|k: int| 0 <= k < i ==> #[trigger] arms@[k] == (ArmStats { num_selected: 0, total_rewards: 0 }),
        decreases n - i,
    {
        arms.push(ArmStats { num_selected: 0, total_rewards: 0 });
        i += 1;
    }
    arms
}

/// Counts one more play of the arm and adds its reward.
pub fn record_play(arms: &mut Vec<ArmStats>, arm_idx: usize, reward: u8)
    requires
        arm_idx < old(arms)@.len(),
        stats_have_room(old(arms)@[arm_idx as int], reward),
    ensures
        final(arms)@ == old(arms)@.update(
            arm_idx as int,
            ArmStats {
                num_selected: (old(arms)@[arm_idx as int].num_selected + 1) as u64,
                total_rewards: (old(arms)@[arm_idx as int].total_rewards + reward) as u64,
            },
        ),
{
    let a = arms[arm_idx];
    arms.set(
        arm_idx,
        ArmStats { num_selected: a.num_selected + 1, total_rewards: a.total_rewards + reward as u64 },
    );
}

/// The first arm that was never played, if any.
pub fn first_unplayed(arms: &Vec<ArmStats>) -> (r: Option<usize>)
    ensures
        match r {
            Some(i) => {
                &&& i < arms@.len()
                &&& arms@[i as int].num_selected == 0
                &&& forall|j: int| 0 <= j < i ==> #[trigger] arms@[j].num_selected != 0
            },
            None => forall|j: int| 0 <= j < arms@.len() ==> #[trigger] arms@[j].num_selected != 0,
        },
{
    let mut i: usize = 0;
    while i < arms.len()
        invariant
            i <= arms@.len(),
            forall|j: int| 0 <= j < i ==> #[trigger] arms@[j].num_selected != 0,
        decreases arms@.len() - i,
    {
        if arms[i].num_selected == 0 {
            return Some(i);
        }
        i += 1;
    }
    None
}

/// The credit for one round: 1 when the input was kept, 0 otherwise.
pub open spec fn reward_for(interesting: bool) -> u8 {
    if interesting {
        1
    } else {
        0
    }
}

/// A well-formed bandit over `n` arms, none of them played or rewarded yet,
/// each with room for a reward.
pub open spec fn fresh_bandit<B: Bandit>(b: B, n: nat) -> bool {
    &&& B::obeys_bandit_spec()
    &&& b.well_formed()
    &&& b.arm_count() == n
    &&& forall|k: int| 0 <= k < n ==> #[trigger] b.plays(k) == 0 && b.rewards(k) == 0
    &&& forall|k: int, r: u8| 0 <= k < n ==> #[trigger] b.has_room(k, r)
}

/// Scheduling state kept by the fuzzer: the operator bandit, one stacking
/// bandit per (length bucket, operator), the bucket bounds, and the
/// (operator, bucket, stack) choices of the last round.
#[derive(Debug)]
pub struct SloptMetadata<B> {
    op_bandit: B,
    bs_bandit: Vec<Vec<B>>,
    bucket: Vec<usize>,
    last_choices: (usize, usize, usize),
}

impl<B: Clone> Clone for SloptMetadata<B> {
    fn clone(&self) -> Self {
        SloptMetadata {
            op_bandit: self.op_bandit.clone(),
            bs_bandit: self.bs_bandit.clone(),
            bucket: self.bucket.clone(),
            last_choices: self.last_choices,
        }
    }
}

impl<B: Bandit> SloptMetadata<B> {
    /// The bandit that picks the operator.
    pub closed spec fn op(&self) -> B {
        self.op_bandit
    }

    /// The stacking bandits, by length bucket, then by operator.
    pub closed spec fn stacks(&self) -> Seq<Seq<B>> {
        self.bs_bandit@.map_values(|row: Vec<B>| row@)
    }

    /// The upper bounds of the length buckets.
    pub closed spec fn bounds(&self) -> Seq<usize> {
        self.bucket@
    }

    /// The choices of the last round: (operator, bucket, stack).
    pub closed spec fn choices(&self) -> (usize, usize, usize) {
        self.last_choices
    }

    /// One row of stacking bandits per length bucket, one bandit per operator in each row.
    pub open spec fn shaped_for(&self, mutations: nat) -> bool {
        &&& self.stacks().len() == self.bounds().len() + 1
        &&& forall|b: int| 0 <= b < self.stacks().len() ==> (#[trigger] self.stacks()[b]).len() == mutations
    }

    /// The bandits have the sizes that `new(mutations, max_stack_pow, _)` gives them.
    pub open spec fn sized_for(&self, mutations: nat, max_stack_pow: nat) -> bool {
        &&& self.shaped_for(mutations)
        &&& B::obeys_bandit_spec() ==> {
            &&& self.op().well_formed()
            &&& self.op().arm_count() == mutations
            &&& forall|b: int, o: int|
                0 <= b < self.stacks().len() && 0 <= o < mutations ==> {
                    &&& (#[trigger] self.stacks()[b][o]).well_formed()
                    &&& self.stacks()[b][o].arm_count() == max_stack_pow
                }
        }
    }

    /// The last choices name an arm of the operator bandit and an arm of the
    /// stacking bandit of their bucket and operator, and both can take `reward`.
    pub open spec fn choices_valid(&self, reward: u8) -> bool {
        self.can_credit(self.choices(), reward)
    }

    /// A round with these (operator, bucket, stack) choices can be credited:
    /// the bucket has a row with a bandit for the operator, and the chosen
    /// arms exist and have room for a reward.
    pub open spec fn can_credit(&self, choices: (usize, usize, usize), reward: u8) -> bool {
        let (o, b, k) = choices;
        &&& b < self.stacks().len()
        &&& o < self.stacks()[b as int].len()
        &&& B::obeys_bandit_spec() ==> {
            &&& self.op().well_formed()
            &&& o < self.op().arm_count()
            &&& self.op().has_room(o as int, reward)
            &&& self.stacks()[b as int][o as int].well_formed()
            &&& k < self.stacks()[b as int][o as int].arm_count()
            &&& self.stacks()[b as int][o as int].has_room(k as int, reward)
        }
    }

    /// Bandits for `mutations` operators; for each of the `bucket.len() + 1`
    /// length buckets and each operator, a bandit over `max_stack_pow` stack sizes.
    pub fn new(mutations: usize, max_stack_pow: usize, bucket: Vec<usize>) -> (m: Self)
        requires
            bucket@.len() < usize::MAX,
        ensures
            m.sized_for(mutations as nat, max_stack_pow as nat),
            m.bounds() == bucket@,
            m.choices() == (0usize, 0usize, 0usize),
            call_ensures(B::with_arms, (mutations,), m.op()),
            forall|b: int, o: int|
                0 <= b < m.stacks().len() && 0 <= o < mutations ==> call_ensures(
                    B::with_arms,
                    (max_stack_pow,),
                    #[trigger] m.stacks()[b][o],
                ),
            B::obeys_bandit_spec() ==> fresh_bandit(m.op(), mutations as nat),
            B::obeys_bandit_spec() ==> forall|b: int, o: int|
                0 <= b < m.stacks().len() && 0 <= o < mutations ==> #[trigger] fresh_bandit(
                    m.stacks()[b][o],
                    max_stack_pow as nat,
                ),
    {
        let op_bandit = B::with_arms(mutations);
        let len = bucket.len() + 1;
        let mut bs_bandit: Vec<Vec<B>> = Vec::with_capacity(len);
        let mut b: usize = 0;
        while b < len
            invariant
                b <= len,
                bs_bandit@.len() == b,
                forall|i: int| 0 <= i < b ==> (#[trigger] bs_bandit@[i])@.len() == mutations,
                forall|i: int, o: int|
                    0 <= i < b && 0 <= o < mutations ==> call_ensures(
                        B::with_arms,
                        (max_stack_pow,),
                        #[trigger] bs_bandit@[i]@[o],
                    ),
                B::obeys_bandit_spec() ==> forall|i: int, o: int|
                    0 <= i < b && 0 <= o < mutations ==> #[trigger] fresh_bandit(
                        bs_bandit@[i]@[o],
                        max_stack_pow as nat,
                    ),
            decreases len - b,
        {
            let mut inner: Vec<B> = Vec::with_capacity(mutations);
            let mut o: usize = 0;
            while o < mutations
                invariant
                    o <= mutations,
                    inner@.len() == o,
                    forall|i: int| 0 <= i < o ==> call_ensures(B::with_arms, (max_stack_pow,), #[trigger] inner@[i]),
                    B::obeys_bandit_spec() ==> forall|i: int|
                        0 <= i < o ==> #[trigger] fresh_bandit(inner@[i], max_stack_pow as nat),
                decreases mutations - o,
            {
                inner.push(B::with_arms(max_stack_pow));
                o += 1;
            }
            bs_bandit.push(inner);
            b += 1;
        }
        let m = SloptMetadata { op_bandit, bs_bandit, bucket, last_choices: (0, 0, 0) };
        proof {
            assert forall|b: int| 0 <= b < m.stacks().len() implies (#[trigger] m.stacks()[b]).len() == mutations by {
                assert(m.stacks()[b] == m.bs_bandit@[b]@);
            }
            assert forall|b: int, o: int| 0 <= b < m.stacks().len() && 0 <= o < mutations implies call_ensures(
                B::with_arms,
                (max_stack_pow,),
                #[trigger] m.stacks()[b][o],
            ) by {
                assert(m.stacks()[b] == m.bs_bandit@[b]@);
            }
            if B::obeys_bandit_spec() {
            assert forall|i: int, o: int|
                0 <= i < m.stacks().len() && 0 <= o < mutations implies #[trigger] fresh_bandit(
                m.stacks()[i][o],
                max_stack_pow as nat,
            ) by {
                assert(m.stacks()[i] == m.bs_bandit@[i]@);
                assert(fresh_bandit(m.bs_bandit@[i]@[o], max_stack_pow as nat));
            }
            assert forall|i: int, o: int| 0 <= i < m.stacks().len() && 0 <= o < mutations implies {
                &&& (#[trigger] m.stacks()[i][o]).well_formed()
                &&& m.stacks()[i][o].arm_count() == max_stack_pow
            } by {
                assert(fresh_bandit(m.stacks()[i][o], max_stack_pow as nat));
            }
            }
        }
        m
    }

    /// Metadata made of its parts: the operator bandit, the stacking bandits,
    /// the bucket bounds and the last choices.
    pub fn from_parts(
        op_bandit: B,
        bs_bandit: Vec<Vec<B>>,
        bucket: Vec<usize>,
        last_choices: (usize, usize, usize),
    ) -> (m: Self)
        ensures
            m.op() == op_bandit,
            m.stacks() == bs_bandit@.map_values(|row: Vec<B>| row@),
            m.bounds() == bucket@,
            m.choices() == last_choices,
    {
        SloptMetadata { op_bandit, bs_bandit, bucket, last_choices }
    }

    /// The upper bounds of the length buckets.
    pub fn bucket(&self) -> (r: &Vec<usize>)
        ensures
            r@ == self.bounds(),
    {
        &self.bucket
    }

    /// The operator bandit.
    pub fn op_bandit(&self) -> (r: &B)
        ensures
            *r == self.op(),
    {
        &self.op_bandit
    }

    /// The operator bandit, to update.
    pub fn op_bandit_mut(&mut self) -> (r: &mut B)
        ensures
            *r == old(self).op(),
            final(self).op() == *final(r),
            final(self).stacks() == old(self).stacks(),
            final(self).bounds() == old(self).bounds(),
            final(self).choices() == old(self).choices(),
    {
        &mut self.op_bandit
    }

    /// The stacking bandits, by length bucket, then by operator.
    pub fn bs_bandits(&self) -> (r: &Vec<Vec<B>>)
        ensures
            r@.map_values(|row: Vec<B>| row@) == self.stacks(),
    {
        &self.bs_bandit
    }

    /// The stacking bandits, to update.
    pub fn bs_bandits_mut(&mut self) -> (r: &mut Vec<Vec<B>>)
        ensures
            r@.map_values(|row: Vec<B>| row@) == old(self).stacks(),
            final(self).stacks() == final(r)@.map_values(|row: Vec<B>| row@),
            final(self).op() == old(self).op(),
            final(self).bounds() == old(self).bounds(),
            final(self).choices() == old(self).choices(),
    {
        &mut self.bs_bandit
    }

    /// The bucket of an input of `len` bytes: the index of the first bound
    /// above `len`, or the number of bounds when there is none.
    pub fn bucket_len(&self, len: usize) -> (r: usize)
        ensures
            r <= self.bounds().len(),
            r < self.bounds().len() ==> len < self.bounds()[r as int],
            forall|j: int| 0 <= j < r ==> len >= #[trigger] self.bounds()[j],
    {
        let mut i: usize = 0;
        while i < self.bucket.len()
            invariant
                i <= self.bucket@.len(),
                forall|j: int| 0 <= j < i ==> len >= #[trigger] self.bucket@[j],
            decreases self.bucket@.len() - i,
        {
            if len < self.bucket[i] {
                return i;
            }
            i += 1;
        }
        self.bucket.len()
    }

    /// The choices of the last round: (operator, bucket, stack).
    pub fn last_choices(&self) -> (r: (usize, usize, usize))
        ensures
            r == self.choices(),
    {
        self.last_choices
    }

    /// Remembers the choices of this round.
    pub fn set_last_choices(&mut self, op: usize, bucket: usize, bs: usize)
        ensures
            final(self).choices() == (op, bucket, bs),
            final(self).op() == old(self).op(),
            final(self).stacks() == old(self).stacks(),
            final(self).bounds() == old(self).bounds(),
    {
        self.last_choices = (op, bucket, bs)
    }

    /// Starts a round with the operator, length bucket and stack choice drawn
    /// for it: remembers them as the last choices, and returns how many times
    /// the operator is to be applied, `2^(1 + bs)`.
    pub fn begin_round(&mut self, op: usize, bucket: usize, bs: usize) -> (n: usize)
        requires
            bs < 30,
        ensures
            n == pow2((bs + 1) as nat),
            final(self).choices() == (op, bucket, bs),
            final(self).op() == old(self).op(),
            final(self).stacks() == old(self).stacks(),
            final(self).bounds() == old(self).bounds(),
    {
        self.set_last_choices(op, bucket, bs);
        stacked_mutations(bs)
    }

    /// Credits the outcome of the last round: the reward goes to the chosen
    /// operator, and to the chosen stack size of that operator in the chosen bucket.
    pub fn reward_last_choices(&mut self, interesting: bool)
        requires
            old(self).choices_valid(reward_for(interesting)),
        ensures
            ({
                let (o, b, k) = old(self).choices();
                let r = reward_for(interesting);
                &&& final(self).choices() == old(self).choices()
                &&& final(self).bounds() == old(self).bounds()
                &&& final(self).stacks().len() == old(self).stacks().len()
                &&& forall|i: int|
                    0 <= i < old(self).stacks().len() ==> (#[trigger] final(self).stacks()[i]).len() == old(
                        self,
                    ).stacks()[i].len()
                &&& forall|i: int, p: int|
                    0 <= i < old(self).stacks().len() && 0 <= p < old(self).stacks()[i].len() && (i != b || p
                        != o) ==> #[trigger] final(self).stacks()[i][p] == old(self).stacks()[i][p]
                &&& B::obeys_bandit_spec() ==> {
                    &&& old(self).op().credits(o as int, r, final(self).op())
                    &&& old(self).stacks()[b as int][o as int].credits(k as int, r, final(self).stacks()[b as int][o as int])
                    &&& final(self).op().well_formed()
                    &&& final(self).op().arm_count() == old(self).op().arm_count()
                    &&& final(self).op().plays(o as int) == old(self).op().plays(o as int) + 1
                    &&& final(self).op().rewards(o as int) == old(self).op().rewards(o as int) + r
                    &&& forall|j: int|
                        0 <= j < old(self).op().arm_count() && j != o ==> #[trigger] final(self).op().plays(j)
                            == old(self).op().plays(j) && final(self).op().rewards(j) == old(self).op().rewards(j)
                    &&& final(self).stacks()[b as int][o as int].well_formed()
                    &&& final(self).stacks()[b as int][o as int].arm_count() == old(self).stacks()[b as int][o as int].arm_count()
                    &&& final(self).stacks()[b as int][o as int].plays(k as int) == old(self).stacks()[b as int][o as int].plays(k as int) + 1
                    &&& final(self).stacks()[b as int][o as int].rewards(k as int) == old(self).stacks()[b as int][o as int].rewards(k as int) + r
                    &&& forall|j: int|
                        0 <= j < old(self).stacks()[b as int][o as int].arm_count() && j != k
                            ==> #[trigger] final(self).stacks()[b as int][o as int].plays(j) == old(self).stacks()[b as int][o as int].plays(j)
                            && final(self).stacks()[b as int][o as int].rewards(j) == old(self).stacks()[b as int][o as int].rewards(j)
                }
            }),
    {
        let reward: u8 = if interesting {
            1
        } else {
            0
        };
        let choices = self.last_choices;
        let ghost s0 = self.stacks();
        proof {
            assert(self.bs_bandit@[choices.1 as int]@ == s0[choices.1 as int]);
        }
        self.op_bandit.add_reward(choices.0, reward);
        self.bs_bandit[choices.1][choices.0].add_reward(choices.2, reward);
        proof {
            let (o, b, k) = choices;
            assert forall|i: int| 0 <= i < s0.len() implies (#[trigger] self.stacks()[i]).len() == s0[i].len() by {
                if i != b {
                    assert(self.bs_bandit@[i] == old(self).bs_bandit@[i]);
                }
            }
            assert forall|i: int, p: int|
                0 <= i < s0.len() && 0 <= p < s0[i].len() && (i != b || p != o) implies #[trigger] self.stacks()[i][p]
                == s0[i][p] by {
                if i != b {
                    assert(self.bs_bandit@[i] == old(self).bs_bandit@[i]);
                } else {
                    assert(self.bs_bandit@[i]@[p] == old(self).bs_bandit@[i]@[p]);
                }
            }
        }
    }
}

/// A round can always be credited when its operator is an arm of the
/// operator bandit, its bucket comes from `bucket_len`, its stack size is an
/// arm of the stacking bandit, and those arms' counters have room.
pub proof fn lemma_round_can_be_credited<B: Bandit>(
    m: SloptMetadata<B>,
    mutations: nat,
    max_stack_pow: nat,
    op: usize,
    bucket: usize,
    bs: usize,
    reward: u8,
)
    requires
        m.sized_for(mutations, max_stack_pow),
        op < mutations,
        bucket <= m.bounds().len(),
        bs < max_stack_pow,
        B::obeys_bandit_spec() ==> m.op().has_room(op as int, reward),
        B::obeys_bandit_spec() ==> m.stacks()[bucket as int][op as int].has_room(bs as int, reward),
    ensures
        m.can_credit((op, bucket, bs), reward),
{
    assert(m.stacks()[bucket as int].len() == mutations);
    if B::obeys_bandit_spec() {
        assert(m.stacks()[bucket as int][op as int].well_formed());
    }
}

} // verus!
