//! ADWIN: an adaptive sliding window over the rewards of one arm, kept as an
//! exponential histogram. Level `i` holds buckets that each summarise `2^i`
//! consecutive rewards; older buckets sit at the front of a level, and higher
//! levels are older than lower ones.
use std::collections::VecDeque;
use vstd::arithmetic::power2::{
    lemma2_to64, lemma2_to64_rest, lemma_pow2_pos, lemma_pow2_strictly_increases, pow2,
};
use vstd::bits::{lemma_u64_pow2_no_overflow, lemma_u64_shl_is_mul};
use vstd::prelude::*;

use crate::slopt::adwin_model::{
    binary, carried_len, carried_level, carry, carry_ready, change_seen, count_of,
    deterministic, drops_flagged, expand, expand_ones, flatten, flatten_from, is_candidate,
    lemma_binary_push_skip, lemma_binary_reward_total, lemma_blocks_binary_sum,
    lemma_carry_closed_form, lemma_carry_grown, lemma_expand_ones, lemma_expand_summarizes,
    lemma_flatten_drop_empty_last, lemma_flatten_merge, lemma_flatten_newest,
    lemma_flatten_pop_oldest, lemma_flatten_push_newest, lemma_flatten_split,
    lemma_level_prefix_step, lemma_level_sum_edit, lemma_level_within_totals,
    lemma_levels_binary, lemma_levels_binary_back, lemma_levels_bounded, lemma_levels_feasible,
    lemma_levels_feasible_back, lemma_merge_totals, lemma_prefix_totals,
    lemma_reward_total_split, lemma_seen_exclusive, lemma_summarizes_binary,
    lemma_summarizes_drop_first, lemma_summarizes_feasible, lemma_summarizes_merge,
    lemma_summarizes_prefix, lemma_summarizes_push, lemma_summarizes_totals,
    lemma_totals_concat, level_blocks, level_views, levels_binary, no_change_seen,
    pushed_blocks, restorable, reward_total, shape_ok, split_of, sum_of, summarizes,
};

verus! {

/// Largest number of buckets a level keeps before two of them are merged.
pub const ADWIN_M: usize = 10;

/// Window length below which no split is examined.
pub const ADWIN_MIN_ELEM_TO_START_DROP: u64 = 17;

/// Both sides of a split must hold at least this many rewards to be compared.
pub const ADWIN_MIN_ELEM_TO_CHECK: u64 = 5;

/// The window looks for a change once every this many rewards.
pub const ADWIN_DROP_INTERVAL: usize = 100;

/// A split of the window into an older and a newer part, as handed to the
/// change test: counts and reward sums of both parts, and of the whole window.
#[derive(Clone, Copy, Debug, PartialEq, Eq)]
pub struct WindowSplit {
    pub older_count: u64,
    pub older_sum: u64,
    pub newer_count: u64,
    pub newer_sum: u64,
    pub window_len: u64,
    pub window_sum: u64,
}

/// One level of the histogram: the reward sums of its buckets, oldest first.
#[derive(Clone, Debug)]
struct AdwinNode {
    sums: VecDeque<u64>,
}

/// The adaptive window of one arm.
#[derive(Clone)]
pub struct Adwin {
    levels: Vec<AdwinNode>,
    num_add: usize,
    w: u64,
    sum: u64,
    window: Ghost<Seq<u8>>,
}

/// Whether bucket sum `s` fits a level-`i` bucket: at most 255 per reward.
fn fits_level(s: u64, i: usize) -> (ok: bool)
    requires
        i < 64,
    ensures
        ok == (s <= 255 * pow2(i as nat)),
{
    proof {
        lemma2_to64();
        lemma2_to64_rest();
        lemma_pow2_pos(i as nat);
    }
    if i <= 56 {
        proof {
            if i < 56 {
                lemma_pow2_strictly_increases(i as nat, 56);
            }
            assert(255 * pow2(i as nat) <= 255 * pow2(56)) by (nonlinear_arith)
                requires
                    pow2(i as nat) <= pow2(56),
            ;
            lemma_u64_shl_is_mul(255, i as u64);
        }
        s <= (255u64 << (i as u64))
    } else {
        proof {
            if i > 57 {
                lemma_pow2_strictly_increases(57, i as nat);
            }
            assert(255 * pow2(i as nat) >= 255 * pow2(57)) by (nonlinear_arith)
                requires
                    pow2(i as nat) >= pow2(57),
            ;
        }
        true
    }
}

impl AdwinNode {
    /// An empty level.
    fn new() -> (node: Self)
        ensures
            node.sums@ == Seq::<u64>::empty(),
    {
        AdwinNode { sums: VecDeque::new() }
    }
}

impl Adwin {
    /// The bucket sums, level by level.
    pub closed spec fn level_seqs(&self) -> Seq<Seq<u64>> {
        self.levels@.map_values(|n: AdwinNode| n.sums@)
    }

    /// The buckets of the window, oldest first, as (reward count, reward sum).
    pub closed spec fn blocks(&self) -> Seq<(nat, nat)> {
        flatten(self.level_seqs())
    }

    /// The number of rewards in the window.
    pub closed spec fn width(&self) -> nat {
        self.w as nat
    }

    /// The sum of the rewards in the window.
    pub closed spec fn reward_sum(&self) -> nat {
        self.sum as nat
    }

    /// Rewards added since the window last looked for a change.
    pub closed spec fn adds_since_drop(&self) -> nat {
        self.num_add as nat
    }

    /// The rewards the window currently holds, oldest first.
    pub closed spec fn contents(&self) -> Seq<u8> {
        self.window@
    }

    /// The histogram has its shape.
    pub closed spec fn shape(&self) -> bool {
        shape_ok(self.level_seqs())
    }

    /// The buckets cut the window's rewards into consecutive runs, and the
    /// length and sum of the window are those of its buckets.
    pub open spec fn well_formed(&self) -> bool {
        &&& self.shape()
        &&& summarizes(self.blocks(), self.contents())
        &&& self.width() == count_of(self.blocks())
        &&& self.reward_sum() == sum_of(self.blocks())
        &&& self.adds_since_drop() < ADWIN_DROP_INTERVAL
    }

    /// The window's length and sum are the length and sum of the rewards it holds.
    pub proof fn lemma_window_totals(&self)
        requires
            self.well_formed(),
        ensures
            self.width() == self.contents().len(),
            self.reward_sum() == reward_total(self.contents()),
    {
        lemma_summarizes_totals(self.blocks(), self.contents());
    }

    /// The split after `k` buckets compares the window's oldest rewards,
    /// as many as its older part counts, with the rest of the window.
    pub proof fn lemma_split_matches_rewards(&self, k: int)
        requires
            self.well_formed(),
            0 <= k <= self.blocks().len(),
        ensures
            ({
                let n0 = count_of(self.blocks().take(k));
                &&& n0 <= self.contents().len()
                &&& sum_of(self.blocks().take(k)) == reward_total(self.contents().take(n0 as int))
                &&& count_of(self.blocks()) - n0 == self.contents().skip(n0 as int).len()
                &&& sum_of(self.blocks()) - sum_of(self.blocks().take(k)) == reward_total(
                    self.contents().skip(n0 as int),
                )
            }),
    {
        let b = self.blocks();
        let r = self.contents();
        lemma_summarizes_prefix(b, r, k);
        let n0 = count_of(b.take(k));
        lemma_summarizes_totals(b.take(k), r.take(n0 as int));
        lemma_summarizes_totals(b, r);
        lemma_reward_total_split(r, n0 as int);
    }

    /// A window fed only rewards of 0 and 1 sums to no more than its length,
    /// so that `1 + width - sum` is at least 1; and each bucket of level `i`
    /// sums to at most `2^i`, the number of rewards it stands for.
    pub proof fn lemma_binary_sum_within_width(&self)
        requires
            self.well_formed(),
            binary(self.contents()),
        ensures
            self.reward_sum() <= self.width(),
            forall|i: int, j: int|
                0 <= i < self.level_seqs().len() && 0 <= j < self.level_seqs()[i].len() ==> #[trigger] self.level_seqs()[i][j]
                    <= pow2(i as nat),
    {
        self.lemma_window_totals();
        lemma_binary_reward_total(self.contents());
        lemma_summarizes_binary(self.blocks(), self.contents());
        lemma_levels_binary_back(self.level_seqs());
    }

    /// A window whose level-`i` buckets each sum to at most `2^i` (as one fed
    /// only rewards of 0 and 1 has, and as a window restored from such levels
    /// has) sums to no more than its length.
    pub proof fn lemma_levels_binary_sum(&self)
        requires
            self.well_formed(),
            levels_binary(self.level_seqs()),
        ensures
            self.reward_sum() <= self.width(),
    {
        lemma_levels_binary(self.level_seqs());
        lemma_blocks_binary_sum(self.blocks());
    }

    /// The window has settled under `test`: it is too short to be examined,
    /// or the test answered `false` on each of its candidate splits.
    pub open spec fn settled<F: Fn(WindowSplit) -> bool>(&self, test: F) -> bool {
        self.width() < ADWIN_MIN_ELEM_TO_START_DROP || no_change_seen(self.blocks(), test)
    }

    /// `next` is this window after `reward` was added under `test`: a
    /// consistent window whose buckets are `pushed_blocks` without the `d`
    /// oldest, each of which the test flagged (none unless the reward is the
    /// `ADWIN_DROP_INTERVAL`-th since the last check); whose rewards are these
    /// rewards and the new one without the oldest; whose count of rewards since
    /// the last check went up by one, modulo `ADWIN_DROP_INTERVAL`; and which,
    /// when that count came round, has settled under the test.
    pub open spec fn added<F: Fn(WindowSplit) -> bool>(&self, reward: u8, test: F, next: Adwin) -> bool {
        &&& next.well_formed()
        &&& next.adds_since_drop() == (self.adds_since_drop() + 1) % (ADWIN_DROP_INTERVAL as nat)
        &&& exists|d: int|
            #![trigger drops_flagged(pushed_blocks(self.level_seqs(), reward), d, test)]
            {
                let b = pushed_blocks(self.level_seqs(), reward);
                &&& 0 <= d <= b.len()
                &&& next.blocks() == b.skip(d)
                &&& drops_flagged(b, d, test)
                &&& self.adds_since_drop() + 1 < ADWIN_DROP_INTERVAL ==> d == 0
            }
        &&& exists|d: int| 0 <= d <= self.contents().len() && next.contents() == self.contents().push(reward).skip(d)
        &&& self.adds_since_drop() + 1 == ADWIN_DROP_INTERVAL ==> next.settled(test)
    }

    /// The buckets are those of the levels.
    pub proof fn lemma_blocks_are_levels(&self)
        ensures
            self.blocks() == flatten(self.level_seqs()),
    {
    }

    /// What a window stores about itself (its bucket sums and its count of
    /// rewards since the last check) always restores it.
    pub proof fn lemma_stored_window_restores(&self)
        requires
            self.well_formed(),
        ensures
            restorable(self.level_seqs(), self.adds_since_drop()),
    {
        lemma_summarizes_feasible(self.blocks(), self.contents());
        lemma_levels_feasible_back(self.level_seqs());
    }

    /// Rebuilds a window from its stored levels (bucket sums of each level,
    /// level 0 first, oldest first within a level) and its count of rewards
    /// added since the last check. Nothing is returned when they do not
    /// describe a window.
    #[verifier::spinoff_prover]
    pub fn from_buckets(levels: &Vec<Vec<u64>>, num_add: usize) -> (r: Option<Adwin>)
        ensures
            r is Some <==> restorable(level_views(levels@), num_add as nat),
            r matches Some(a) ==> {
                &&& a.well_formed()
                &&& a.level_seqs() == level_views(levels@)
                &&& a.blocks() == flatten(level_views(levels@))
                &&& a.width() == count_of(a.blocks())
                &&& a.reward_sum() == sum_of(a.blocks())
                &&& a.adds_since_drop() == num_add
            },
    {
        let ghost l = level_views(levels@);
        let n = levels.len();
        if n == 0 || n > 64 || num_add >= ADWIN_DROP_INTERVAL {
            proof {
                if n > 64 && shape_ok(l) && count_of(flatten(l)) <= u64::MAX {
                    assert(l.last() == l[l.len() - 1]);
                    lemma_levels_bounded(l);
                }
            }
            return None;
        }
        let mut w: u64 = 0;
        let mut sum: u64 = 0;
        let mut nodes: Vec<AdwinNode> = Vec::new();
        let mut i: usize = 0;
        while i < n
            invariant
                1 <= n <= 64,
                n == levels@.len(),
                l == level_views(levels@),
                num_add < ADWIN_DROP_INTERVAL,
                i <= n,
                nodes@.len() == i,
                forall|k: int| 0 <= k < i ==> (#[trigger] nodes@[k]).sums@ == l[k],
                forall|k: int| 0 <= k < i ==> #[trigger] l[k].len() <= ADWIN_M,
                forall|k: int| 0 <= k < i && n > 1 ==> #[trigger] l[k].len() >= 1,
                forall|k: int, j: int| 0 <= k < i && 0 <= j < l[k].len() ==> #[trigger] l[k][j] <= 255 * pow2(k as nat),
                w == count_of(flatten(l.take(i as int))),
                sum == sum_of(flatten(l.take(i as int))),
            decreases n - i,
        {
            let row = &levels[i];
            let m = row.len();
            if m > ADWIN_M || (m == 0 && n > 1) {
                proof {
                    assert(l[i as int].len() == m);
                    if i + 1 == n {
                        assert(l.last() == l[i as int]);
                    }
                }
                return None;
            }
            proof {
                lemma_u64_pow2_no_overflow(i as nat);
                lemma_u64_shl_is_mul(1, i as u64);
                lemma_flatten_split(l, i + 1);
                assert(l.take(i + 1).drop_last() =~= l.take(i as int));
                assert(l.take(i + 1).last() == l[i as int]);
                lemma_totals_concat(level_blocks(l[i as int], i as nat), flatten(l.take(i as int)));
                lemma_totals_concat(flatten_from(l, i + 1), flatten(l.take(i + 1)));
            }
            let bucket_size: u64 = 1u64 << (i as u64);
            let ghost lb = level_blocks(l[i as int], i as nat);
            let ghost w0 = w;
            let ghost sum0 = sum;
            let mut node = AdwinNode::new();
            let mut j: usize = 0;
            while j < m
                invariant
                    i < n <= 64,
                    n == levels@.len(),
                    l == level_views(levels@),
                    m == l[i as int].len(),
                    *row == levels@[i as int],
                    bucket_size == pow2(i as nat),
                    lb == level_blocks(l[i as int], i as nat),
                    j <= m,
                    node.sums@ == l[i as int].take(j as int),
                    forall|jj: int| 0 <= jj < j ==> #[trigger] l[i as int][jj] <= 255 * pow2(i as nat),
                    w == w0 + count_of(lb.take(j as int)),
                    sum == sum0 + sum_of(lb.take(j as int)),
                    w0 == count_of(flatten(l.take(i as int))),
                    sum0 == sum_of(flatten(l.take(i as int))),
                    count_of(flatten(l)) >= count_of(flatten(l.take(i + 1))),
                    sum_of(flatten(l)) >= sum_of(flatten(l.take(i + 1))),
                    count_of(flatten(l.take(i + 1))) == count_of(lb) + w0,
                    sum_of(flatten(l.take(i + 1))) == sum_of(lb) + sum0,
                decreases m - j,
            {
                let x = row[j];
                proof {
                    lemma_level_prefix_step(l[i as int], i as nat, j as int);
                }
                if !fits_level(x, i) {
                    return None;
                }
                let nw = w.checked_add(bucket_size);
                let ns = sum.checked_add(x);
                if nw.is_none() || ns.is_none() {
                    return None;
                }
                w = nw.unwrap();
                sum = ns.unwrap();
                node.sums.push_back(x);
                j += 1;
                proof {
                    assert(node.sums@ =~= l[i as int].take(j as int));
                }
            }
            proof {
                assert(lb.take(m as int) =~= lb);
                assert(node.sums@ =~= l[i as int]);
            }
            nodes.push(node);
            i += 1;
        }
        let a = Adwin { levels: nodes, num_add, w, sum, window: Ghost(expand(flatten(l))) };
        proof {
            assert(l.take(n as int) =~= l);
            assert(a.level_seqs() =~= l);
            assert(shape_ok(l)) by {
                assert(l.last() == l[l.len() - 1]);
            }
            lemma_levels_feasible(l);
            lemma_expand_summarizes(flatten(l));
        }
        Some(a)
    }

    /// Rewards in the window.
    pub fn len(&self) -> (n: u64)
        ensures
            n == self.width(),
    {
        self.w
    }

    /// Rewards added since the window last looked for a change.
    pub fn num_add(&self) -> (n: usize)
        ensures
            n == self.adds_since_drop(),
    {
        self.num_add
    }

    /// Sum of the rewards in the window.
    pub fn sum(&self) -> (s: u64)
        ensures
            s == self.reward_sum(),
    {
        self.sum
    }

    /// The bucket sums of each level, level 0 (newest) first, oldest first within a level.
    pub fn bucket_sums(&self) -> (v: Vec<Vec<u64>>)
        ensures
            v@.len() == self.level_seqs().len(),
            forall|i: int| 0 <= i < v@.len() ==> #[trigger] v@[i]@ == self.level_seqs()[i],
    {
        let mut v: Vec<Vec<u64>> = Vec::new();
        let mut i: usize = 0;
        while i < self.levels.len()
            invariant
                i <= self.levels@.len(),
                v@.len() == i,
                forall|k: int| 0 <= k < i ==> #[trigger] v@[k]@ == self.level_seqs()[k],
            decreases self.levels@.len() - i,
        {
            let mut row: Vec<u64> = Vec::new();
            let mut j: usize = 0;
            let n = self.levels[i].sums.len();
            while j < n
                invariant
                    i < self.levels@.len(),
                    n == self.levels@[i as int].sums@.len(),
                    j <= n,
                    row@ == self.levels@[i as int].sums@.take(j as int),
                decreases n - j,
            {
                row.push(self.levels[i].sums[j]);
                j += 1;
                assert(row@ =~= self.levels@[i as int].sums@.take(j as int));
            }
            assert(row@ =~= self.levels@[i as int].sums@);
            v.push(row);
            i += 1;
        }
        v
    }

    proof fn lemma_bounded(&self)
        requires
            self.well_formed(),
        ensures
            self.levels@.len() <= 64,
            self.levels@.len() >= 1,
    {
        lemma_levels_bounded(self.level_seqs());
    }

    /// Carries overfull levels upward: while a level holds more than
    /// `ADWIN_M` buckets, its two oldest buckets become one bucket at the back
    /// of the next level. Whatever the levels hold, afterwards no level holds
    /// more than `ADWIN_M` buckets, and each bucket stands for a run of
    /// consecutive old buckets, in the same order. On the levels that `add`
    /// hands it (every level non-empty, at most one bucket too many on level
    /// 0), the result is `carry` from level 0. Levels that are not overfull
    /// are left as they are. The buckets must sum to a `u64`, as the merged
    /// sums are `u64` additions.
    pub fn normalize_buckets(&mut self)
        requires
            old(self).level_seqs().len() >= 1,
            sum_of(old(self).blocks()) <= u64::MAX,
        ensures
            final(self).level_seqs().len() >= 1,
            forall|i: int| 0 <= i < final(self).level_seqs().len() ==> #[trigger] final(self).level_seqs()[i].len() <= ADWIN_M,
            final(self).contents() == old(self).contents(),
            final(self).width() == old(self).width(),
            final(self).reward_sum() == old(self).reward_sum(),
            final(self).adds_since_drop() == old(self).adds_since_drop(),
            count_of(final(self).blocks()) == count_of(old(self).blocks()),
            sum_of(final(self).blocks()) == sum_of(old(self).blocks()),
            forall|r: Seq<u8>| #[trigger] summarizes(old(self).blocks(), r) ==> summarizes(final(self).blocks(), r),
            (forall|i: int| 0 <= i < old(self).level_seqs().len() ==> #[trigger] old(self).level_seqs()[i].len() <= ADWIN_M)
                ==> final(self).level_seqs() == old(self).level_seqs(),
            old(self).well_formed() ==> final(self).well_formed(),
            carry_ready(old(self).level_seqs()) ==> {
                &&& final(self).shape()
                &&& forall|i: int|
                    0 <= i < final(self).level_seqs().len() ==> #[trigger] final(self).level_seqs()[i].len() >= 1
                &&& final(self).level_seqs()[0].last() == old(self).level_seqs()[0].last()
                &&& final(self).level_seqs() == carry(old(self).level_seqs(), 0)
                &&& final(self).level_seqs().len() == carried_len(old(self).level_seqs())
                &&& forall|k: int|
                    0 <= k < final(self).level_seqs().len() ==> #[trigger] final(self).level_seqs()[k]
                        == carried_level(old(self).level_seqs(), k)
                &&& old(self).level_seqs().len() <= final(self).level_seqs().len() <= old(self).level_seqs().len() + 1
                &&& forall|k: int|
                    1 <= k < old(self).level_seqs().len() ==> #[trigger] final(self).level_seqs()[k].len() + 1
                        >= old(self).level_seqs()[k].len() && final(self).level_seqs()[k].len()
                        <= old(self).level_seqs()[k].len() + 1
            },
    {
        let ghost ready = carry_ready(self.level_seqs());
        proof {
            if ready {
                lemma_carry_closed_form(self.level_seqs());
            }
        }
        let ghost small = forall|i: int| 0 <= i < self.levels@.len() ==> #[trigger] self.level_seqs()[i].len() <= ADWIN_M;
        let ghost l_old = self.level_seqs();
        let ghost newest = self.level_seqs()[0].last();
        let ghost target = carry(self.level_seqs(), 0);
        let ghost b_old = self.blocks();
        let mut level_idx: usize = 0;
        while level_idx < self.levels.len()
            invariant
                self.levels@.len() >= 1,
                level_idx <= self.levels@.len(),
                forall|i: int| 0 <= i < level_idx ==> #[trigger] self.level_seqs()[i].len() <= ADWIN_M,
                self.w == old(self).w,
                self.sum == old(self).sum,
                self.num_add == old(self).num_add,
                self.window == old(self).window,
                b_old == old(self).blocks(),
                count_of(self.blocks()) == count_of(old(self).blocks()),
                sum_of(self.blocks()) == sum_of(old(self).blocks()),
                sum_of(old(self).blocks()) <= u64::MAX,
                l_old == old(self).level_seqs(),
                small == (forall|i: int| 0 <= i < l_old.len() ==> #[trigger] l_old[i].len() <= ADWIN_M),
                small ==> self.level_seqs() == l_old,
                forall|r: Seq<u8>| #[trigger] summarizes(b_old, r) ==> summarizes(self.blocks(), r),
                ready ==> {
                    &&& forall|i: int| 0 <= i < self.levels@.len() ==> #[trigger] self.level_seqs()[i].len() >= 1
                    &&& forall|i: int|
                        0 <= i < self.levels@.len() && i != level_idx ==> #[trigger] self.level_seqs()[i].len()
                            <= ADWIN_M
                    &&& level_idx < self.levels@.len() ==> self.level_seqs()[level_idx as int].len() <= ADWIN_M + 1
                    &&& self.level_seqs()[0].last() == newest
                    &&& carry(self.level_seqs(), level_idx as int) == target
                },
            decreases self.blocks().len(), self.levels@.len() - level_idx,
        {
            let ghost start_blocks = self.blocks().len();
            let ghost start_len = self.levels@.len();
            if self.levels[level_idx].sums.len() > ADWIN_M && level_idx + 1 == self.levels.len() {
                let ghost before = self.level_seqs();
                self.levels.push(AdwinNode::new());
                proof {
                    assert(self.level_seqs() =~= before.push(Seq::empty()));
                    assert(self.level_seqs().drop_last() =~= before);
                    lemma_flatten_drop_empty_last(self.level_seqs());
                    lemma_carry_grown(before, level_idx as int);
                    assert forall|i: int| 0 <= i < level_idx implies #[trigger] self.level_seqs()[i].len() <= ADWIN_M by {
                        assert(self.level_seqs()[i] == before[i]);
                    }
                }
            }
            proof {
                let l = self.level_seqs();
                if ready && l[level_idx as int].len() <= ADWIN_M {
                    assert(carry(l, level_idx as int) == l);
                    if level_idx + 1 < l.len() {
                        assert(l[level_idx + 1].len() <= ADWIN_M);
                    }
                    assert(carry(l, level_idx + 1) == l);
                }
            }
            let ghost mut merged = false;
            while self.levels[level_idx].sums.len() > ADWIN_M
                invariant
                    self.levels@.len() >= 1,
                    level_idx < self.levels@.len(),
                    forall|i: int| 0 <= i < level_idx ==> #[trigger] self.level_seqs()[i].len() <= ADWIN_M,
                    self.level_seqs()[level_idx as int].len() > ADWIN_M ==> level_idx + 1 < self.levels@.len(),
                    self.w == old(self).w,
                    self.sum == old(self).sum,
                    self.num_add == old(self).num_add,
                    self.window == old(self).window,
                    b_old == old(self).blocks(),
                    count_of(self.blocks()) == count_of(old(self).blocks()),
                    sum_of(self.blocks()) == sum_of(old(self).blocks()),
                    sum_of(old(self).blocks()) <= u64::MAX,
                    small ==> self.level_seqs() == l_old,
                    small == (forall|i: int| 0 <= i < l_old.len() ==> #[trigger] l_old[i].len() <= ADWIN_M),
                    forall|r: Seq<u8>| #[trigger] summarizes(b_old, r) ==> summarizes(self.blocks(), r),
                    merged ==> self.blocks().len() < start_blocks,
                    !merged ==> self.blocks().len() == start_blocks,
                    !merged && self.level_seqs()[level_idx as int].len() <= ADWIN_M ==> self.levels@.len() == start_len,
                    ready ==> {
                        &&& forall|i: int|
                            0 <= i < self.levels@.len() ==> #[trigger] self.level_seqs()[i].len() >= 1 || (i
                                == self.levels@.len() - 1 && i == level_idx + 1 && self.level_seqs()[level_idx as int].len()
                                > ADWIN_M)
                        &&& forall|i: int|
                            0 <= i < self.levels@.len() && i != level_idx && i != level_idx + 1
                                ==> #[trigger] self.level_seqs()[i].len() <= ADWIN_M
                        &&& self.level_seqs()[level_idx as int].len() <= ADWIN_M + 1
                        &&& level_idx + 1 < self.levels@.len() ==> self.level_seqs()[level_idx + 1].len() <= ADWIN_M + 1
                        &&& self.level_seqs()[level_idx as int].len() > ADWIN_M ==> self.level_seqs()[level_idx
                            + 1].len() <= ADWIN_M
                        &&& self.level_seqs()[0].len() >= 1
                        &&& self.level_seqs()[0].last() == newest
                        &&& self.level_seqs()[level_idx as int].len() > ADWIN_M ==> carry(
                            self.level_seqs(),
                            level_idx as int,
                        ) == target
                        &&& self.level_seqs()[level_idx as int].len() <= ADWIN_M ==> carry(
                            self.level_seqs(),
                            level_idx + 1,
                        ) == target
                    },
                decreases self.level_seqs()[level_idx as int].len(),
            {
                let ghost l0 = self.level_seqs();
                proof {
                    lemma_level_within_totals(l0, level_idx as int);
                    lemma_level_sum_edit(l0[level_idx as int], level_idx as nat);
                    lemma_level_sum_edit(l0[level_idx as int].drop_first(), level_idx as nat);
                }
                let s0 = self.levels[level_idx].sums.pop_front().expect("overflow implies at least 2 buckets");
                let s1 = self.levels[level_idx].sums.pop_front().expect("overflow implies at least 2 buckets");
                proof {
                    assert(s1 == l0[level_idx as int][1]);
                }
                let s = s0 + s1;
                let len = self.levels.len();
                if level_idx + 1 == len {
                    self.levels.push(AdwinNode::new());
                }
                proof {
                    assert(self.level_seqs() =~= l0.update(
                        level_idx as int,
                        l0[level_idx as int].drop_first().drop_first(),
                    ));
                }
                self.levels[level_idx + 1].sums.push_back(s);
                proof {
                    let rest = l0[level_idx as int].drop_first().drop_first();
                    let l1 = l0.update(level_idx as int, rest);
                    let l2 = l1.update(level_idx + 1, l0[level_idx + 1].push(s));
                    assert(self.level_seqs() =~= l2);
                    assert(rest =~= l0[level_idx as int].skip(2));
                    assert(s == (l0[level_idx as int][0] + l0[level_idx as int][1]) as u64);
                    if ready {
                        assert(carry(l0, level_idx as int) == carry(l2, level_idx + 1));
                    }
                    lemma_merge_totals(l0, level_idx as int, s);
                    lemma_flatten_merge(l0, level_idx as int, s);
                    let q = (flatten_from(l0, level_idx + 2).len() + l0[level_idx + 1].len()) as int;
                    assert(self.blocks().len() == flatten(l0).len() - 1);
                    assert forall|r: Seq<u8>| #[trigger] summarizes(b_old, r) implies summarizes(self.blocks(), r) by {
                        lemma_summarizes_merge(flatten(l0), r, q);
                    }
                    assert forall|i: int| 0 <= i < level_idx implies #[trigger] self.level_seqs()[i].len() <= ADWIN_M by {
                        assert(self.level_seqs()[i] == l0[i]);
                    }
                    merged = true;
                }
            }
            level_idx += 1;
        }
    }

    /// Adds a reward as the newest element of the window; every
    /// `ADWIN_DROP_INTERVAL` rewards, drops old buckets while the test flags
    /// a change.
    pub fn add<F: Fn(WindowSplit) -> bool>(&mut self, reward: u8, test: &F)
        requires
            old(self).well_formed(),
            old(self).width() + 1 <= u64::MAX,
            old(self).reward_sum() + reward <= u64::MAX,
            forall|s: WindowSplit| test.requires((s,)),
        ensures
            old(self).added(reward, *test, *final(self)),
            final(self).width() <= old(self).width() + 1,
            final(self).reward_sum() <= old(self).reward_sum() + reward,
            final(self).blocks().len() >= 1,
            final(self).blocks().last() == (1nat, reward as nat),
            old(self).adds_since_drop() + 1 < ADWIN_DROP_INTERVAL ==> {
                &&& final(self).contents() == old(self).contents().push(reward)
                &&& final(self).width() == old(self).width() + 1
                &&& final(self).reward_sum() == old(self).reward_sum() + reward
            },
            binary(old(self).contents()) && reward <= 1 ==> binary(final(self).contents()),
            levels_binary(old(self).level_seqs()) && reward <= 1 ==> levels_binary(final(self).level_seqs()),
            summarizes(pushed_blocks(old(self).level_seqs(), reward), old(self).contents().push(reward)),
    {
        let ghost b0 = self.blocks();
        let ghost l0 = self.level_seqs();
        self.w = self.w + 1;
        self.sum = self.sum + reward as u64;
        self.window = Ghost(self.window@.push(reward));
        if self.levels.len() == 0 {
            self.levels.push(AdwinNode::new());
        }
        self.levels[0].sums.push_back(reward as u64);
        proof {
            assert(self.level_seqs() =~= l0.update(0, l0[0].push(reward as u64)));
            lemma_flatten_push_newest(l0, reward as u64);
            lemma_summarizes_push(b0, old(self).contents(), reward);
            lemma_totals_concat(b0, seq![(1nat, reward as nat)]);
            assert(b0.push((1nat, reward as nat)) =~= b0 + seq![(1nat, reward as nat)]);
            assert(seq![(1nat, reward as nat)].drop_last() =~= Seq::<(nat, nat)>::empty());
            assert(count_of(Seq::<(nat, nat)>::empty()) == 0);
            assert(sum_of(Seq::<(nat, nat)>::empty()) == 0);
            assert forall|i: int| 0 <= i < self.levels@.len() implies #[trigger] self.level_seqs()[i].len() >= 1 by {
                if i != 0 {
                    assert(l0.len() > 1);
                    if i == l0.len() - 1 {
                        assert(l0.last() == l0[i]);
                    }
                }
            }
        }
        let ghost before_carry = self.blocks();
        proof {
            if levels_binary(l0) && reward <= 1 {
                lemma_levels_binary(l0);
                assert(before_carry == b0.push((1nat, reward as nat)));
                assert forall|i: int| 0 <= i < before_carry.len() implies #[trigger] before_carry[i].1 <= before_carry[i].0
                    && 1 <= before_carry[i].0 by {
                    if i < b0.len() {
                        assert(before_carry[i] == b0[i]);
                    }
                }
                lemma_expand_ones(before_carry);
            }
        }
        self.normalize_buckets();
        let ghost pushed = self.contents();
        let ghost merged = self.blocks();
        proof {
            assert(merged == pushed_blocks(l0, reward));
            lemma_flatten_newest(self.level_seqs());
            assert(pushed.skip(0) =~= pushed);
            assert(merged.skip(0) =~= merged);
            assert(drops_flagged(merged, 0, *test));
        }
        if ADWIN_DROP_INTERVAL == 1 {
            self.drop_last_till_identical(test);
        } else {
            self.num_add = self.num_add + 1;
            if self.num_add == ADWIN_DROP_INTERVAL {
                self.num_add = 0;
                self.drop_last_till_identical(test);
            }
        }
        proof {
            if levels_binary(l0) && reward <= 1 {
                let e = expand_ones(before_carry);
                assert(summarizes(before_carry, e));
                lemma_summarizes_binary(merged, e);
                let d = choose|d: int|
                    #![trigger drops_flagged(pushed_blocks(l0, reward), d, *test)]
                    {
                        let b = pushed_blocks(l0, reward);
                        &&& 0 <= d <= b.len()
                        &&& self.blocks() == b.skip(d)
                        &&& drops_flagged(b, d, *test)
                        &&& old(self).adds_since_drop() + 1 < ADWIN_DROP_INTERVAL ==> d == 0
                    };
                assert forall|i: int| 0 <= i < self.blocks().len() implies #[trigger] self.blocks()[i].1
                    <= self.blocks()[i].0 by {
                    assert(self.blocks()[i] == merged[i + d]);
                }
                lemma_levels_binary_back(self.level_seqs());
            }
            if binary(old(self).contents()) && reward <= 1 {
                let d = choose|d: int|
                    0 <= d <= old(self).contents().len() && self.contents() == old(self).contents().push(reward).skip(d);
                lemma_binary_push_skip(old(self).contents(), reward, d);
            }
        }
    }

    /// Takes the oldest bucket out of the window.
    pub fn expire_oldest_bucket(&mut self)
        requires
            old(self).well_formed(),
        ensures
            final(self).well_formed(),
            final(self).adds_since_drop() == old(self).adds_since_drop(),
            old(self).blocks().len() == 0 ==> final(self).blocks() == old(self).blocks()
                && final(self).width() == old(self).width() && final(self).reward_sum() == old(self).reward_sum(),
            old(self).blocks().len() == 0 ==> final(self).contents() == old(self).contents(),
            old(self).blocks().len() > 0 ==> {
                &&& final(self).blocks() == old(self).blocks().drop_first()
                &&& final(self).contents() == old(self).contents().skip(old(self).blocks()[0].0 as int)
                &&& final(self).width() == old(self).width() - old(self).blocks()[0].0
                &&& final(self).reward_sum() == old(self).reward_sum() - old(self).blocks()[0].1
            },
    {
        proof {
            self.lemma_bounded();
        }
        let last_idx = self.levels.len() - 1;
        proof {
            lemma_u64_pow2_no_overflow(last_idx as nat);
            lemma_u64_shl_is_mul(1, last_idx as u64);
        }
        let bucket_size: u64 = 1u64 << (last_idx as u64);
        let ghost l0 = self.level_seqs();
        let ghost b0 = self.blocks();
        let popped = self.levels[last_idx].sums.pop_front();
        let ghost l1 = self.level_seqs();
        if let Some(oldest_sum) = popped {
            proof {
                assert(l1 =~= l0.update(last_idx as int, l0.last().drop_first()));
                lemma_flatten_pop_oldest(l0);
                lemma_totals_concat(seq![b0[0]], b0.drop_first());
                assert(b0 =~= seq![b0[0]] + b0.drop_first());
                assert(seq![b0[0]].drop_last() =~= Seq::<(nat, nat)>::empty());
                assert(count_of(Seq::<(nat, nat)>::empty()) == 0);
                assert(sum_of(Seq::<(nat, nat)>::empty()) == 0);
                assert(count_of(seq![b0[0]]) == b0[0].0);
                assert(sum_of(seq![b0[0]]) == b0[0].1);
                assert(bucket_size == pow2(last_idx as nat));
                assert(oldest_sum == l0.last()[0]);
            }
            self.w = self.w - bucket_size;
            self.sum = self.sum - oldest_sum;
            proof {
                lemma_summarizes_drop_first(b0, self.window@);
            }
            self.window = Ghost(self.window@.skip(b0[0].0 as int));
        } else {
            proof {
                assert(l1 =~= l0);
            }
        }
        let ghost l2 = self.level_seqs();
        if self.levels[last_idx].sums.len() == 0 && self.levels.len() > 1 {
            let _ = self.levels.pop();
            proof {
                assert(self.level_seqs() =~= l2.drop_last());
                lemma_flatten_drop_empty_last(l2);
            }
        }
        proof {
            if popped is Some {
                assert(flatten(l1) == b0.drop_first());
                assert(l2 == l1);
                assert(self.blocks() == b0.drop_first());
            }
            if popped is None {
                assert(l0.last().len() == 0);
                assert(l0.len() == 1);
                lemma_flatten_drop_empty_last(l0);
                assert(l0.drop_last().len() == 0);
                assert(b0.len() == 0);
                assert(self.level_seqs() =~= l0);
            }
        }
    }

    /// Asks the change test about each candidate split, oldest split first,
    /// and tells whether one was flagged.
    fn find_change<F: Fn(WindowSplit) -> bool>(&self, test: &F) -> (found: bool)
        requires
            self.well_formed(),
            forall|s: WindowSplit| test.requires((s,)),
        ensures
            found ==> change_seen(self.blocks(), *test),
            !found ==> no_change_seen(self.blocks(), *test),
    {
        proof {
            self.lemma_bounded();
        }
        let ghost b = self.blocks();
        let ghost l = self.level_seqs();
        let mut n0: u64 = 0;
        let mut s0: u64 = 0;
        let mut n1: u64 = self.w;
        let mut s1: u64 = self.sum;
        let ghost mut scanned: Seq<(nat, nat)> = Seq::empty();
        let mut li: usize = self.levels.len();
        proof {
            assert(l.take(li as int) =~= l);
            assert(b =~= scanned + flatten(l.take(li as int)));
        }
        while li > 0
            invariant
                self.well_formed(),
                b == self.blocks(),
                l == self.level_seqs(),
                l.len() == self.levels@.len(),
                l.len() <= 64,
                li <= l.len(),
                forall|s: WindowSplit| test.requires((s,)),
                b == scanned + flatten(l.take(li as int)),
                n0 == count_of(scanned),
                s0 == sum_of(scanned),
                n1 == count_of(b) - n0,
                s1 == sum_of(b) - s0,
                forall|j: int|
                    #![trigger is_candidate(b, j)]
                    is_candidate(b, j) && j <= scanned.len() ==> call_ensures(*test, (split_of(b, j),), false),
            decreases li,
        {
            li = li - 1;
            proof {
                lemma_u64_pow2_no_overflow(li as nat);
                lemma_u64_shl_is_mul(1, li as u64);
                assert(l.take(li + 1).drop_last() =~= l.take(li as int));
                assert(l.take(li + 1).last() == l[li as int]);
            }
            let bucket_size: u64 = 1u64 << (li as u64);
            let ghost lb = level_blocks(l[li as int], li as nat);
            let ghost rest = flatten(l.take(li as int));
            let ghost start = scanned;
            let n = self.levels[li].sums.len();
            let mut j: usize = 0;
            proof {
                assert(lb.skip(0) =~= lb);
            }
            while j < n
                invariant
                    self.well_formed(),
                    b == self.blocks(),
                    l == self.level_seqs(),
                    li < l.len(),
                    l.len() == self.levels@.len(),
                    n == l[li as int].len(),
                    bucket_size == pow2(li as nat),
                    lb == level_blocks(l[li as int], li as nat),
                    rest == flatten(l.take(li as int)),
                    j <= n,
                    forall|s: WindowSplit| test.requires((s,)),
                    b == scanned + lb.skip(j as int) + rest,
                    scanned == start + lb.take(j as int),
                    b == start + flatten(l.take(li + 1)),
                    flatten(l.take(li + 1)) == lb + rest,
                    n0 == count_of(scanned),
                    s0 == sum_of(scanned),
                    n1 == count_of(b) - n0,
                    s1 == sum_of(b) - s0,
                    forall|k: int|
                        #![trigger is_candidate(b, k)]
                        is_candidate(b, k) && k <= scanned.len() ==> call_ensures(*test, (split_of(b, k),), false),
                decreases n - j,
            {
                let s = self.levels[li].sums[j];
                let ghost next = scanned.push((pow2(li as nat), s as nat));
                proof {
                    assert(lb.skip(j as int) =~= seq![lb[j as int]] + lb.skip(j + 1));
                    assert(b =~= next + (lb.skip(j + 1) + rest));
                    assert(next.drop_last() =~= scanned);
                    lemma_totals_concat(next, lb.skip(j + 1) + rest);
                    assert(b.take(next.len() as int) =~= next);
                    assert(b.take(scanned.len() as int) =~= scanned);
                }
                n0 = n0 + bucket_size;
                s0 = s0 + s;
                n1 = n1 - bucket_size;
                s1 = s1 - s;
                proof {
                    scanned = next;
                    assert(scanned =~= start + lb.take(j + 1));
                }
                if n1 < ADWIN_MIN_ELEM_TO_CHECK {
                    proof {
                        assert forall|k: int| #[trigger] is_candidate(b, k) implies call_ensures(
                            *test,
                            (split_of(b, k),),
                            false,
                        ) by {
                            if k > scanned.len() {
                                lemma_prefix_totals(b, scanned.len() as int, k);
                            }
                        }
                    }
                    return false;
                }
                if n0 >= ADWIN_MIN_ELEM_TO_CHECK {
                    let split = WindowSplit {
                        older_count: n0,
                        older_sum: s0,
                        newer_count: n1,
                        newer_sum: s1,
                        window_len: self.w,
                        window_sum: self.sum,
                    };
                    proof {
                        assert(split == split_of(b, scanned.len() as int));
                        assert(is_candidate(b, scanned.len() as int));
                    }
                    if test(split) {
                        return true;
                    }
                }
                j += 1;
                proof {
                    assert(b == scanned + lb.skip(j as int) + rest) by {
                        assert(lb.skip(j - 1) =~= seq![lb[j - 1]] + lb.skip(j as int));
                    }
                }
            }
            proof {
                assert(lb.take(n as int) =~= lb);
                assert(scanned =~= start + lb);
                assert(b =~= scanned + flatten(l.take(li as int)));
            }
        }
        proof {
            assert(l.take(0) =~= Seq::<Seq<u64>>::empty());
            assert(b =~= scanned);
        }
        false
    }

    /// Looks once for a change in the window, and expires the oldest bucket
    /// when the test flags a split.
    pub fn try_drop_once<F: Fn(WindowSplit) -> bool>(&mut self, test: &F) -> (dropped: bool)
        requires
            old(self).well_formed(),
            forall|s: WindowSplit| test.requires((s,)),
        ensures
            final(self).well_formed(),
            final(self).adds_since_drop() == old(self).adds_since_drop(),
            !dropped ==> *final(self) == *old(self),
            !dropped && old(self).width() >= ADWIN_MIN_ELEM_TO_START_DROP ==> no_change_seen(
                old(self).blocks(),
                *test,
            ),
            dropped ==> {
                &&& old(self).width() >= ADWIN_MIN_ELEM_TO_START_DROP
                &&& change_seen(old(self).blocks(), *test)
                &&& old(self).blocks().len() >= 2
                &&& final(self).blocks() == old(self).blocks().drop_first()
                &&& final(self).contents() == old(self).contents().skip(old(self).blocks()[0].0 as int)
                &&& final(self).width() == old(self).width() - old(self).blocks()[0].0
                &&& final(self).reward_sum() == old(self).reward_sum() - old(self).blocks()[0].1
            },
            deterministic(*test) && old(self).settled(*test) ==> !dropped,
    {
        if self.w < ADWIN_MIN_ELEM_TO_START_DROP {
            return false;
        }
        if self.find_change(test) {
            proof {
                let b = self.blocks();
                if deterministic(*test) && no_change_seen(b, *test) {
                    lemma_seen_exclusive(b, *test);
                }
                let k = choose|k: int|
                    #![trigger is_candidate(b, k)]
                    is_candidate(b, k) && call_ensures(*test, (split_of(b, k),), true) && forall|j: int|
                        #![trigger is_candidate(b, j)]
                        is_candidate(b, j) && j < k ==> call_ensures(*test, (split_of(b, j),), false);
                assert(b.take(b.len() as int) =~= b);
                if k == b.len() {
                    assert(false);
                }
            }
            self.expire_oldest_bucket();
            true
        } else {
            false
        }
    }

    /// Expires oldest buckets as long as the test flags a split.
    pub fn drop_last_till_identical<F: Fn(WindowSplit) -> bool>(&mut self, test: &F)
        requires
            old(self).well_formed(),
            forall|s: WindowSplit| test.requires((s,)),
        ensures
            final(self).well_formed(),
            final(self).adds_since_drop() == old(self).adds_since_drop(),
            exists|d: int|
                0 <= d <= old(self).blocks().len() && final(self).blocks() == old(self).blocks().skip(d)
                    && drops_flagged(old(self).blocks(), d, *test),
            exists|d: int|
                0 <= d <= old(self).contents().len() && final(self).contents() == old(self).contents().skip(d),
            final(self).width() <= old(self).width(),
            final(self).reward_sum() <= old(self).reward_sum(),
            old(self).blocks().len() > 0 ==> final(self).blocks().len() > 0 && final(self).blocks().last()
                == old(self).blocks().last(),
            final(self).settled(*test),
            old(self).width() < ADWIN_MIN_ELEM_TO_START_DROP ==> *final(self) == *old(self),
    {
        if self.w < ADWIN_MIN_ELEM_TO_START_DROP {
            proof {
                assert(self.blocks().skip(0) =~= self.blocks());
                assert(self.contents().skip(0) =~= self.contents());
                assert(drops_flagged(self.blocks(), 0, *test));
            }
            return;
        }
        let ghost b0 = self.blocks();
        let ghost c0 = self.contents();
        proof {
            assert(b0.skip(0) =~= b0);
            assert(c0.skip(0) =~= c0);
            assert(drops_flagged(b0, 0, *test));
        }
        loop
            invariant
                self.well_formed(),
                self.adds_since_drop() == old(self).adds_since_drop(),
                forall|s: WindowSplit| test.requires((s,)),
                b0 == old(self).blocks(),
                exists|d: int| 0 <= d <= b0.len() && self.blocks() == b0.skip(d) && drops_flagged(b0, d, *test),
                c0 == old(self).contents(),
                exists|d: int| 0 <= d <= c0.len() && self.contents() == c0.skip(d),
                self.width() <= old(self).width(),
                self.reward_sum() <= old(self).reward_sum(),
                b0.len() > 0 ==> self.blocks().len() > 0 && self.blocks().last() == b0.last(),
            ensures
                self.well_formed(),
                self.adds_since_drop() == old(self).adds_since_drop(),
                exists|d: int| 0 <= d <= b0.len() && self.blocks() == b0.skip(d) && drops_flagged(b0, d, *test),
                exists|d: int| 0 <= d <= c0.len() && self.contents() == c0.skip(d),
                self.width() <= old(self).width(),
                self.reward_sum() <= old(self).reward_sum(),
                b0.len() > 0 ==> self.blocks().len() > 0 && self.blocks().last() == b0.last(),
                self.width() >= ADWIN_MIN_ELEM_TO_START_DROP ==> no_change_seen(self.blocks(), *test),
            decreases self.blocks().len(),
        {
            let ghost before = self.blocks();
            let ghost before_c = self.contents();
            if !self.try_drop_once(test) {
                break;
            }
            proof {
                let d = choose|d: int| 0 <= d <= b0.len() && before == b0.skip(d) && drops_flagged(b0, d, *test);
                assert(self.blocks() =~= b0.skip(d + 1));
                assert(drops_flagged(b0, d + 1, *test)) by {
                    assert forall|j: int| 0 <= j < d + 1 implies count_of(#[trigger] b0.skip(j))
                        >= ADWIN_MIN_ELEM_TO_START_DROP && change_seen(b0.skip(j), *test) by {
                        if j == d {
                            assert(b0.skip(j) == before);
                        }
                    }
                }
                let e = choose|e: int| 0 <= e <= c0.len() && before_c == c0.skip(e);
                lemma_summarizes_drop_first(before, before_c);
                assert(self.contents() =~= c0.skip(e + before[0].0));
            }
        }
    }
}

impl Default for Adwin {
    /// An empty window with a single empty level.
    fn default() -> (a: Self)
        ensures
            a.well_formed(),
            a.blocks().len() == 0,
            a.width() == 0,
            a.reward_sum() == 0,
            a.adds_since_drop() == 0,
            a.contents() == Seq::<u8>::empty(),
    {
        let mut levels: Vec<AdwinNode> = Vec::new();
        levels.push(AdwinNode::new());
        let a = Adwin { levels, w: 0, sum: 0, num_add: 0, window: Ghost(Seq::empty()) };
        proof {
            assert(a.level_seqs() =~= seq![Seq::<u64>::empty()]);
            assert(a.level_seqs().drop_last() =~= Seq::<Seq<u64>>::empty());
            lemma_flatten_drop_empty_last(a.level_seqs());
            assert(flatten(Seq::<Seq<u64>>::empty()) =~= Seq::<(nat, nat)>::empty());
        }
        a
    }
}

} // verus!
