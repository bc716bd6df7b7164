//! The model of the adaptive window: its buckets as a sequence of (reward
//! count, reward sum) pairs, oldest first, the rewards they summarize, the
//! splits the change test is asked about, and the facts about them that the
//! window's operations rely on.
use vstd::arithmetic::power2::{lemma2_to64, lemma_pow2_adds, lemma_pow2_pos, lemma_pow2_strictly_increases, pow2};
use vstd::prelude::*;

use crate::slopt::adwin::{WindowSplit, ADWIN_DROP_INTERVAL, ADWIN_M, ADWIN_MIN_ELEM_TO_CHECK, ADWIN_MIN_ELEM_TO_START_DROP};

verus! {

/// The buckets of a level with index `i`, as (reward count, reward sum) pairs.
pub open spec fn level_blocks(sums: Seq<u64>, i: nat) -> Seq<(nat, nat)> {
    Seq::new(sums.len(), |j: int| (pow2(i), sums[j] as nat))
}

/// All buckets of the histogram, oldest first: the last level comes first.
pub open spec fn flatten(levels: Seq<Seq<u64>>) -> Seq<(nat, nat)>
    decreases levels.len(),
{
    if levels.len() == 0 {
        Seq::empty()
    } else {
        level_blocks(levels.last(), (levels.len() - 1) as nat) + flatten(levels.drop_last())
    }
}

/// Number of rewards in a sequence of buckets.
pub open spec fn count_of(blocks: Seq<(nat, nat)>) -> nat
    decreases blocks.len(),
{
    if blocks.len() == 0 {
        0
    } else {
        count_of(blocks.drop_last()) + blocks.last().0
    }
}

/// Sum of the rewards in a sequence of buckets.
pub open spec fn sum_of(blocks: Seq<(nat, nat)>) -> nat
    decreases blocks.len(),
{
    if blocks.len() == 0 {
        0
    } else {
        sum_of(blocks.drop_last()) + blocks.last().1
    }
}

/// The split of `blocks` after its `k` oldest buckets.
pub open spec fn split_of(blocks: Seq<(nat, nat)>, k: int) -> WindowSplit {
    let n0 = count_of(blocks.take(k));
    let s0 = sum_of(blocks.take(k));
    WindowSplit {
        older_count: n0 as u64,
        older_sum: s0 as u64,
        newer_count: (count_of(blocks) - n0) as u64,
        newer_sum: (sum_of(blocks) - s0) as u64,
        window_len: count_of(blocks) as u64,
        window_sum: sum_of(blocks) as u64,
    }
}

/// Whether the split after `k` buckets is one that the change test is asked
/// about: both parts hold at least `ADWIN_MIN_ELEM_TO_CHECK` rewards.
pub open spec fn is_candidate(blocks: Seq<(nat, nat)>, k: int) -> bool {
    &&& 1 <= k <= blocks.len()
    &&& count_of(blocks.take(k)) >= ADWIN_MIN_ELEM_TO_CHECK
    &&& count_of(blocks) - count_of(blocks.take(k)) >= ADWIN_MIN_ELEM_TO_CHECK
}

/// Every candidate split of `blocks` was answered `false` by the test.
pub open spec fn no_change_seen<F: Fn(WindowSplit) -> bool>(blocks: Seq<(nat, nat)>, test: F) -> bool {
    forall|k: int| #[trigger] is_candidate(blocks, k) ==> call_ensures(test, (split_of(blocks, k),), false)
}

/// The test answered `true` on some candidate split and `false` on every
/// candidate before it.
pub open spec fn change_seen<F: Fn(WindowSplit) -> bool>(blocks: Seq<(nat, nat)>, test: F) -> bool {
    exists|k: int|
        #![trigger is_candidate(blocks, k)]
        is_candidate(blocks, k) && call_ensures(test, (split_of(blocks, k),), true) && forall|j: int|
            #![trigger is_candidate(blocks, j)]
            is_candidate(blocks, j) && j < k ==> call_ensures(test, (split_of(blocks, j),), false)
}

/// The test gives a single answer to each split.
pub open spec fn deterministic<F: Fn(WindowSplit) -> bool>(test: F) -> bool {
    forall|s: WindowSplit, a: bool, b: bool|
        #[trigger] call_ensures(test, (s,), a) && #[trigger] call_ensures(test, (s,), b) ==> a == b
}

/// A test with a single answer per split cannot both flag a split of
/// `blocks` and answer `false` on every candidate split of it.
pub proof fn lemma_seen_exclusive<F: Fn(WindowSplit) -> bool>(blocks: Seq<(nat, nat)>, test: F)
    requires
        deterministic(test),
        no_change_seen(blocks, test),
    ensures
        !change_seen(blocks, test),
{
    if change_seen(blocks, test) {
        let k = choose|k: int|
            #![trigger is_candidate(blocks, k)]
            is_candidate(blocks, k) && call_ensures(test, (split_of(blocks, k),), true) && forall|j: int|
                #![trigger is_candidate(blocks, j)]
                is_candidate(blocks, j) && j < k ==> call_ensures(test, (split_of(blocks, j),), false);
        assert(call_ensures(test, (split_of(blocks, k),), false));
    }
}

/// Each of the first `d` buckets of `blocks` was dropped from a window of at
/// least `ADWIN_MIN_ELEM_TO_START_DROP` rewards in which the test flagged a split.
pub open spec fn drops_flagged<F: Fn(WindowSplit) -> bool>(blocks: Seq<(nat, nat)>, d: int, test: F) -> bool {
    forall|j: int|
        0 <= j < d ==> count_of(#[trigger] blocks.skip(j)) >= ADWIN_MIN_ELEM_TO_START_DROP && change_seen(
            blocks.skip(j),
            test,
        )
}

/// The histogram's shape: at least one level, no empty level but possibly a
/// lone empty level 0, and at most `ADWIN_M` buckets per level.
pub open spec fn shape_ok(levels: Seq<Seq<u64>>) -> bool {
    &&& levels.len() >= 1
    &&& forall|i: int| 0 <= i < levels.len() - 1 ==> #[trigger] levels[i].len() >= 1
    &&& levels.len() > 1 ==> levels.last().len() >= 1
    &&& forall|i: int| 0 <= i < levels.len() ==> #[trigger] levels[i].len() <= ADWIN_M
}

/// The levels once overfull levels are carried upward from level `i`: a
/// level holding more than `ADWIN_M` buckets gives its two oldest, made into
/// one, to the back of the next level (a new level when there is none), and
/// the carry goes on from there.
pub open spec fn carry(levels: Seq<Seq<u64>>, i: int) -> Seq<Seq<u64>>
    decreases 2 * (levels.len() - i) + (if 0 <= i < levels.len() && levels[i].len() > ADWIN_M {
        1int
    } else {
        0int
    }),
{
    if 0 <= i < levels.len() && levels[i].len() > ADWIN_M {
        let grown = if i + 1 < levels.len() {
            levels
        } else {
            levels.push(Seq::empty())
        };
        let merged = (levels[i][0] + levels[i][1]) as u64;
        let next = grown.update(i, levels[i].skip(2)).update(i + 1, grown[i + 1].push(merged));
        proof {
            assert(next.len() == grown.len());
            assert(next[i + 1].len() == grown[i + 1].len() + 1);
        }
        carry(next, i + 1)
    } else {
        levels
    }
}

/// The levels as `add` hands them to be carried: every level holds a
/// bucket, level 0 at most one more than `ADWIN_M`, the others at most `ADWIN_M`.
pub open spec fn carry_ready(levels: Seq<Seq<u64>>) -> bool {
    &&& levels.len() >= 1
    &&& forall|i: int| 0 <= i < levels.len() ==> #[trigger] levels[i].len() >= 1
    &&& levels[0].len() <= ADWIN_M + 1
    &&& forall|i: int| 1 <= i < levels.len() ==> #[trigger] levels[i].len() <= ADWIN_M
}

/// A carry from level 0 reaches past level `j`: level 0 overflows (it holds
/// `ADWIN_M + 1` buckets) and every level from 1 to `j` is full (it holds
/// `ADWIN_M`), like a carry through the digits of a counter.
pub open spec fn carries_past(levels: Seq<Seq<u64>>, j: int) -> bool {
    &&& 0 <= j < levels.len()
    &&& levels[0].len() == ADWIN_M + 1
    &&& forall|k: int| 1 <= k <= j ==> #[trigger] levels[k].len() == ADWIN_M
}

/// Level `i` (empty past the last level) with the bucket carried into it,
/// if any: the two oldest buckets of level `i - 1`, made into one, at its back.
pub open spec fn carried_in(levels: Seq<Seq<u64>>, i: int) -> Seq<u64> {
    let own = if 0 <= i < levels.len() {
        levels[i]
    } else {
        Seq::<u64>::empty()
    };
    if i > 0 && carries_past(levels, i - 1) {
        own.push((levels[i - 1][0] + levels[i - 1][1]) as u64)
    } else {
        own
    }
}

/// Level `i` once normalized: with the bucket carried into it, and without
/// its two oldest buckets when the carry goes on past it.
pub open spec fn carried_level(levels: Seq<Seq<u64>>, i: int) -> Seq<u64> {
    if carries_past(levels, i) {
        carried_in(levels, i).skip(2)
    } else {
        carried_in(levels, i)
    }
}

/// The number of levels once normalized: one more when the carry goes past the last level.
pub open spec fn carried_len(levels: Seq<Seq<u64>>) -> nat {
    if carries_past(levels, levels.len() - 1) {
        levels.len() + 1
    } else {
        levels.len()
    }
}

/// `s` is `levels` carried up to level `i`: the levels below `i` are done,
/// level `i` has received its carry, and the levels above are untouched.
pub open spec fn carried_up_to(s: Seq<Seq<u64>>, i: int, levels: Seq<Seq<u64>>) -> bool {
    &&& 0 <= i <= levels.len()
    &&& s.len() == (if i == levels.len() && i > 0 && carries_past(levels, i - 1) {
        i + 1
    } else {
        levels.len() as int
    })
    &&& forall|k: int| 0 <= k < i ==> #[trigger] s[k] == carried_level(levels, k)
    &&& i < s.len() ==> s[i] == carried_in(levels, i)
    &&& forall|k: int| i < k < s.len() ==> #[trigger] s[k] == levels[k]
}

/// Carrying on from a state carried up to level `i` gives every level its
/// normalized form.
pub proof fn lemma_carry_steps(s: Seq<Seq<u64>>, i: int, levels: Seq<Seq<u64>>)
    requires
        carry_ready(levels),
        carried_up_to(s, i, levels),
    ensures
        carry(s, i).len() == carried_len(levels),
        forall|k: int| 0 <= k < carried_len(levels) ==> #[trigger] carry(s, i)[k] == carried_level(levels, k),
    decreases levels.len() - i,
{
    let n = levels.len() as int;
    if i < n {
        assert(s.len() == n);
        if i > 0 {
            assert(carries_past(levels, i) <==> carries_past(levels, i - 1) && levels[i].len() == ADWIN_M) by {
                if carries_past(levels, i - 1) && levels[i].len() == ADWIN_M {
                    assert forall|k: int| 1 <= k <= i implies #[trigger] levels[k].len() == ADWIN_M by {
                        if k < i {
                            assert(levels[k].len() == ADWIN_M);
                        }
                    }
                }
            }
        }
        assert(s[i] == carried_in(levels, i));
        assert(s[i].len() > ADWIN_M <==> carries_past(levels, i));
    }
    if 0 <= i < s.len() && s[i].len() > ADWIN_M {
        assert(i < n);
        assert(carries_past(levels, i));
        assert(levels[i].len() >= 2);
        assert(s[i][0] == levels[i][0] && s[i][1] == levels[i][1]);
        let grown = if i + 1 < s.len() {
            s
        } else {
            s.push(Seq::empty())
        };
        let merged = (s[i][0] + s[i][1]) as u64;
        let next = grown.update(i, s[i].skip(2)).update(i + 1, grown[i + 1].push(merged));
        assert(carry(s, i) == carry(next, i + 1));
        assert(carried_level(levels, i) == s[i].skip(2));
        assert(carried_in(levels, i + 1) == next[i + 1]) by {
            if i + 1 < n {
                assert(grown[i + 1] == levels[i + 1]);
            } else {
                assert(grown[i + 1] == Seq::<u64>::empty());
            }
        }
        assert forall|k: int| 0 <= k < i + 1 implies #[trigger] next[k] == carried_level(levels, k) by {
            if k < i {
                assert(next[k] == s[k]);
            }
        }
        assert forall|k: int| i + 1 < k < next.len() implies #[trigger] next[k] == levels[k] by {
            assert(next[k] == s[k]);
        }
        assert(carried_up_to(next, i + 1, levels));
        lemma_carry_steps(next, i + 1, levels);
    } else {
        assert(carry(s, i) == s);
        if i < n {
            assert(!carries_past(levels, i));
            assert(!carries_past(levels, n - 1));
            assert forall|k: int| 0 <= k < carried_len(levels) implies #[trigger] s[k] == carried_level(levels, k) by {
                if k > i {
                    assert(!carries_past(levels, k));
                    assert(!carries_past(levels, k - 1));
                    assert(carried_in(levels, k) == levels[k]);
                }
            }
        } else {
            assert forall|k: int| 0 <= k < carried_len(levels) implies #[trigger] s[k] == carried_level(levels, k) by {
                if k == n {
                    assert(!carries_past(levels, k));
                }
            }
        }
    }
}

/// The law of carrying, in closed form: from levels as `add` hands them,
/// each level `i` of the result is level `i` with, when level 0 overflowed
/// and every level from 1 to `i - 1` was full, one bucket more at its back,
/// the two oldest buckets of level `i - 1` made into one; and it loses its
/// own two oldest buckets exactly when the carry goes on past it. So an
/// overflowing level gives exactly one merged pair to the next level, and
/// only one level more appears, when every level was full.
pub proof fn lemma_carry_closed_form(levels: Seq<Seq<u64>>)
    requires
        carry_ready(levels),
    ensures
        carry(levels, 0).len() == carried_len(levels),
        forall|k: int| 0 <= k < carried_len(levels) ==> #[trigger] carry(levels, 0)[k] == carried_level(levels, k),
        levels.len() <= carry(levels, 0).len() <= levels.len() + 1,
        carry(levels, 0)[0] == (if levels[0].len() > ADWIN_M {
            levels[0].skip(2)
        } else {
            levels[0]
        }),
        forall|k: int|
            1 <= k < levels.len() ==> #[trigger] carry(levels, 0)[k].len() + 1 >= levels[k].len() && carry(
                levels,
                0,
            )[k].len() <= levels[k].len() + 1,
        forall|k: int|
            0 <= k < carry(levels, 0).len() ==> 1 <= #[trigger] carry(levels, 0)[k].len() <= ADWIN_M,
{
    assert(carried_in(levels, 0) == levels[0]);
    assert(carried_up_to(levels, 0, levels));
    lemma_carry_steps(levels, 0, levels);
    let r = carry(levels, 0);
    assert(carries_past(levels, 0) <==> levels[0].len() > ADWIN_M);
    assert(r[0] == carried_level(levels, 0));
    assert forall|k: int| 0 <= k < r.len() implies 1 <= #[trigger] r[k].len() <= ADWIN_M by {
        assert(r[k] == carried_level(levels, k));
        if k > 0 && k < levels.len() {
            assert(levels[k].len() <= ADWIN_M);
            if carries_past(levels, k) {
                assert(carries_past(levels, k - 1));
                assert(levels[k].len() == ADWIN_M);
            }
        }
        if k == levels.len() {
            assert(carries_past(levels, k - 1));
        }
    }
    assert forall|k: int| 1 <= k < levels.len() implies #[trigger] r[k].len() + 1 >= levels[k].len() && r[k].len()
        <= levels[k].len() + 1 by {
        assert(r[k] == carried_level(levels, k));
        if carries_past(levels, k) {
            assert(carries_past(levels, k - 1));
        }
    }
}

/// Adding an empty last level before carrying from the last level changes
/// nothing: the carry adds that level itself.
pub proof fn lemma_carry_grown(levels: Seq<Seq<u64>>, i: int)
    requires
        0 <= i,
        i + 1 == levels.len(),
        levels[i].len() > ADWIN_M,
    ensures
        carry(levels.push(Seq::empty()), i) == carry(levels, i),
{
    let l = levels.push(Seq::empty());
    assert(l[i] == levels[i]);
    assert(l[i + 1] == Seq::<u64>::empty());
}

/// The buckets, oldest first, once `reward` joins level 0 as its newest
/// bucket and overfull levels are carried upward.
pub open spec fn pushed_blocks(levels: Seq<Seq<u64>>, reward: u8) -> Seq<(nat, nat)> {
    flatten(carry(levels.update(0, levels[0].push(reward as u64)), 0))
}

/// `count_of` and `sum_of` add up over concatenation.
pub proof fn lemma_totals_concat(a: Seq<(nat, nat)>, b: Seq<(nat, nat)>)
    ensures
        count_of(a + b) == count_of(a) + count_of(b),
        sum_of(a + b) == sum_of(a) + sum_of(b),
    decreases b.len(),
{
    if b.len() == 0 {
        assert(a + b =~= a);
    } else {
        assert((a + b).drop_last() =~= a + b.drop_last());
        lemma_totals_concat(a, b.drop_last());
    }
}

/// A prefix holds no more rewards than the whole sequence, and prefix counts
/// grow with the prefix.
pub proof fn lemma_prefix_totals(b: Seq<(nat, nat)>, i: int, k: int)
    requires
        0 <= i <= k <= b.len(),
    ensures
        count_of(b.take(i)) <= count_of(b.take(k)) <= count_of(b),
        sum_of(b.take(i)) <= sum_of(b.take(k)) <= sum_of(b),
{
    lemma_totals_concat(b.take(i), b.subrange(i, k));
    assert(b.take(i) + b.subrange(i, k) =~= b.take(k));
    lemma_totals_concat(b.take(k), b.skip(k));
    assert(b.take(k) + b.skip(k) =~= b);
}

/// The rewards counted by the buckets of one level.
pub proof fn lemma_level_totals(s: Seq<u64>, i: nat)
    ensures
        count_of(level_blocks(s, i)) == s.len() * pow2(i),
    decreases s.len(),
{
    if s.len() > 0 {
        assert(level_blocks(s, i).drop_last() =~= level_blocks(s.drop_last(), i));
        lemma_level_totals(s.drop_last(), i);
        assert(level_blocks(s, i).last().0 == pow2(i));
        assert(count_of(level_blocks(s, i)) == count_of(level_blocks(s.drop_last(), i)) + pow2(i));
        let n: nat = s.len();
        let p: nat = pow2(i);
        assert(((n - 1) as nat) * p + p == n * p) by (nonlinear_arith)
            requires
                n >= 1,
        ;
    } else {
        assert(level_blocks(s, i).len() == 0);
        let n: nat = s.len();
        let p: nat = pow2(i);
        assert(n * p == 0) by (nonlinear_arith)
            requires
                n == 0,
        ;
    }
}


/// Appending a reward to level 0 appends a one-reward bucket to the window.
pub proof fn lemma_flatten_push_newest(levels: Seq<Seq<u64>>, x: u64)
    requires
        levels.len() >= 1,
    ensures
        flatten(levels.update(0, levels[0].push(x))) == flatten(levels).push((1nat, x as nat)),
    decreases levels.len(),
{
    let l2 = levels.update(0, levels[0].push(x));
    lemma2_to64();
    if levels.len() == 1 {
        assert(l2.drop_last() =~= levels.drop_last());
        assert(level_blocks(l2.last(), 0) =~= level_blocks(levels.last(), 0).push((1nat, x as nat)));
        assert(levels.drop_last().len() == 0);
        assert(flatten(levels.drop_last()) =~= Seq::<(nat, nat)>::empty());
        assert(flatten(levels) =~= level_blocks(levels.last(), 0));
        assert(flatten(l2) =~= level_blocks(l2.last(), 0));
        assert(flatten(l2) =~= flatten(levels).push((1nat, x as nat)));
    } else {
        assert(l2.drop_last() =~= levels.drop_last().update(0, levels.drop_last()[0].push(x)));
        lemma_flatten_push_newest(levels.drop_last(), x);
        assert(l2.last() == levels.last());
        assert(flatten(l2) =~= flatten(levels).push((1nat, x as nat)));
    }
}

/// A trailing empty level holds no bucket.
pub proof fn lemma_flatten_drop_empty_last(levels: Seq<Seq<u64>>)
    requires
        levels.len() >= 1,
        levels.last().len() == 0,
    ensures
        flatten(levels.drop_last()) == flatten(levels),
{
    assert(level_blocks(levels.last(), (levels.len() - 1) as nat) =~= Seq::<(nat, nat)>::empty());
    assert(flatten(levels) =~= flatten(levels.drop_last()));
}

/// Taking the oldest bucket of the last level takes the oldest bucket of the window.
pub proof fn lemma_flatten_pop_oldest(levels: Seq<Seq<u64>>)
    requires
        levels.len() >= 1,
        levels.last().len() >= 1,
    ensures
        ({
            let n = (levels.len() - 1) as int;
            let l2 = levels.update(n, levels.last().drop_first());
            &&& flatten(l2) == flatten(levels).drop_first()
            &&& flatten(levels).len() >= 1
            &&& flatten(levels)[0] == (pow2(n as nat), levels.last()[0] as nat)
        }),
{
    let n = (levels.len() - 1) as int;
    let l2 = levels.update(n, levels.last().drop_first());
    assert(l2.drop_last() =~= levels.drop_last());
    assert(level_blocks(l2.last(), n as nat) =~= level_blocks(levels.last(), n as nat).drop_first());
    assert(flatten(l2) =~= flatten(levels).drop_first());
}

pub proof fn lemma_flatten_unfold(levels: Seq<Seq<u64>>)
    requires
        levels.len() >= 1,
    ensures
        count_of(flatten(levels)) == count_of(level_blocks(levels.last(), (levels.len() - 1) as nat))
            + count_of(flatten(levels.drop_last())),
        sum_of(flatten(levels)) == sum_of(level_blocks(levels.last(), (levels.len() - 1) as nat))
            + sum_of(flatten(levels.drop_last())),
{
    lemma_totals_concat(
        level_blocks(levels.last(), (levels.len() - 1) as nat),
        flatten(levels.drop_last()),
    );
}

/// Replacing one level changes the window's totals by that level's difference.
pub proof fn lemma_update_level_totals(levels: Seq<Seq<u64>>, p: int, s: Seq<u64>)
    requires
        0 <= p < levels.len(),
    ensures
        count_of(flatten(levels.update(p, s))) + count_of(level_blocks(levels[p], p as nat))
            == count_of(flatten(levels)) + count_of(level_blocks(s, p as nat)),
        sum_of(flatten(levels.update(p, s))) + sum_of(level_blocks(levels[p], p as nat))
            == sum_of(flatten(levels)) + sum_of(level_blocks(s, p as nat)),
    decreases levels.len(),
{
    let l2 = levels.update(p, s);
    lemma_flatten_unfold(levels);
    lemma_flatten_unfold(l2);
    if p == levels.len() - 1 {
        assert(l2.drop_last() =~= levels.drop_last());
    } else {
        assert(l2.drop_last() =~= levels.drop_last().update(p, s));
        lemma_update_level_totals(levels.drop_last(), p, s);
    }
}

/// Sums of a level's buckets when buckets are taken off the front or added at the back.
pub proof fn lemma_level_sum_edit(s: Seq<u64>, i: nat)
    ensures
        s.len() >= 1 ==> sum_of(level_blocks(s, i)) == s[0] + sum_of(level_blocks(s.drop_first(), i)),
        forall|x: u64| sum_of(#[trigger] level_blocks(s.push(x), i)) == sum_of(level_blocks(s, i)) + x,
{
    assert forall|x: u64| sum_of(#[trigger] level_blocks(s.push(x), i)) == sum_of(level_blocks(s, i)) + x by {
        assert(level_blocks(s.push(x), i).drop_last() =~= level_blocks(s, i));
    }
    if s.len() >= 1 {
        let t = seq![s[0]];
        assert(level_blocks(s, i) =~= level_blocks(t, i) + level_blocks(s.drop_first(), i));
        lemma_totals_concat(level_blocks(t, i), level_blocks(s.drop_first(), i));
        assert(level_blocks(t, i).drop_last() =~= Seq::<(nat, nat)>::empty());
        assert(sum_of(Seq::<(nat, nat)>::empty()) == 0);
        assert(sum_of(level_blocks(t, i)) == s[0]);
    }
}

/// A histogram whose window fits in a `u64` has at most 64 levels.
pub proof fn lemma_levels_bounded(levels: Seq<Seq<u64>>)
    requires
        levels.len() >= 1,
        levels.len() > 1 ==> levels.last().len() >= 1,
        count_of(flatten(levels)) <= u64::MAX,
    ensures
        levels.len() <= 64,
{
    if levels.len() > 64 {
        let n = (levels.len() - 1) as nat;
        lemma_flatten_unfold(levels);
        lemma_level_totals(levels.last(), n);
        lemma2_to64();
        lemma_pow2_strictly_increases(64, n);
        assert(levels.last().len() * pow2(n) >= pow2(n)) by (nonlinear_arith)
            requires
                levels.last().len() >= 1,
        ;
    }
}

/// The newest bucket of the window is the newest bucket of level 0.
pub proof fn lemma_flatten_newest(levels: Seq<Seq<u64>>)
    requires
        levels.len() >= 1,
        levels[0].len() >= 1,
    ensures
        flatten(levels).len() >= 1,
        flatten(levels).last() == (1nat, levels[0].last() as nat),
    decreases levels.len(),
{
    lemma2_to64();
    if levels.len() == 1 {
        assert(flatten(levels.drop_last()) =~= Seq::<(nat, nat)>::empty());
        assert(flatten(levels) =~= level_blocks(levels.last(), 0));
    } else {
        assert(levels.drop_last()[0] == levels[0]);
        lemma_flatten_newest(levels.drop_last());
    }
}

/// A level's buckets hold no more than the whole window.
pub proof fn lemma_level_within_totals(levels: Seq<Seq<u64>>, p: int)
    requires
        0 <= p < levels.len(),
    ensures
        count_of(level_blocks(levels[p], p as nat)) <= count_of(flatten(levels)),
        sum_of(level_blocks(levels[p], p as nat)) <= sum_of(flatten(levels)),
{
    lemma_update_level_totals(levels, p, Seq::empty());
    assert(level_blocks(Seq::<u64>::empty(), p as nat) =~= Seq::<(nat, nat)>::empty());
}

/// Merging the two oldest buckets of a level into a new bucket at the back
/// of the next level keeps the window's totals.
pub proof fn lemma_merge_totals(levels: Seq<Seq<u64>>, p: int, x: u64)
    requires
        0 <= p,
        p + 1 < levels.len(),
        levels[p].len() >= 2,
        x == levels[p][0] + levels[p][1],
    ensures
        ({
            let l1 = levels.update(p, levels[p].drop_first().drop_first());
            let l2 = l1.update(p + 1, levels[p + 1].push(x));
            &&& count_of(flatten(l2)) == count_of(flatten(levels))
            &&& sum_of(flatten(l2)) == sum_of(flatten(levels))
        }),
{
    let rest = levels[p].drop_first().drop_first();
    let l1 = levels.update(p, rest);
    let l2 = l1.update(p + 1, levels[p + 1].push(x));
    lemma_update_level_totals(levels, p, rest);
    lemma_update_level_totals(l1, p + 1, levels[p + 1].push(x));
    lemma_level_totals(levels[p], p as nat);
    lemma_level_totals(rest, p as nat);
    lemma_level_totals(levels[p + 1], (p + 1) as nat);
    lemma_level_totals(levels[p + 1].push(x), (p + 1) as nat);
    lemma_pow2_adds(p as nat, 1);
    lemma2_to64();
    let n: nat = levels[p].len();
    let m: nat = levels[p + 1].len();
    let q: nat = pow2(p as nat);
    assert(n * q == ((n - 2) as nat) * q + 2 * q) by (nonlinear_arith)
        requires
            n >= 2,
    ;
    assert((m + 1) * (q * 2) == m * (q * 2) + 2 * q) by (nonlinear_arith);
    lemma_level_sum_edit(levels[p], p as nat);
    lemma_level_sum_edit(levels[p].drop_first(), p as nat);
    lemma_level_sum_edit(levels[p + 1], (p + 1) as nat);
    assert(levels[p].drop_first()[0] == levels[p][1]);
}

/// Sum of a sequence of rewards.
pub open spec fn reward_total(rewards: Seq<u8>) -> nat
    decreases rewards.len(),
{
    if rewards.len() == 0 {
        0
    } else {
        reward_total(rewards.drop_last()) + rewards.last() as nat
    }
}

/// `blocks` cuts `rewards` into consecutive runs, oldest first: each bucket
/// holds the length and the sum of its run.
pub open spec fn summarizes(blocks: Seq<(nat, nat)>, rewards: Seq<u8>) -> bool
    decreases blocks.len(),
{
    if blocks.len() == 0 {
        rewards.len() == 0
    } else {
        let c = blocks.last().0;
        &&& 1 <= c <= rewards.len()
        &&& reward_total(rewards.skip(rewards.len() - c)) == blocks.last().1
        &&& summarizes(blocks.drop_last(), rewards.take(rewards.len() - c))
    }
}

/// Two adjacent buckets, at `p` and `p + 1`, made into one.
pub open spec fn merge_at(blocks: Seq<(nat, nat)>, p: int) -> Seq<(nat, nat)> {
    blocks.take(p) + seq![(blocks[p].0 + blocks[p + 1].0, blocks[p].1 + blocks[p + 1].1)] + blocks.skip(p + 2)
}

/// `reward_total` adds up over concatenation.
pub proof fn lemma_reward_total_concat(a: Seq<u8>, b: Seq<u8>)
    ensures
        reward_total(a + b) == reward_total(a) + reward_total(b),
    decreases b.len(),
{
    if b.len() == 0 {
        assert(a + b =~= a);
    } else {
        assert((a + b).drop_last() =~= a + b.drop_last());
        lemma_reward_total_concat(a, b.drop_last());
    }
}

/// Splitting rewards at `k` splits their total.
pub proof fn lemma_reward_total_split(r: Seq<u8>, k: int)
    requires
        0 <= k <= r.len(),
    ensures
        reward_total(r) == reward_total(r.take(k)) + reward_total(r.skip(k)),
{
    lemma_reward_total_concat(r.take(k), r.skip(k));
    assert(r.take(k) + r.skip(k) =~= r);
}

/// Buckets that summarize rewards count them and sum them.
pub proof fn lemma_summarizes_totals(blocks: Seq<(nat, nat)>, rewards: Seq<u8>)
    requires
        summarizes(blocks, rewards),
    ensures
        count_of(blocks) == rewards.len(),
        sum_of(blocks) == reward_total(rewards),
    decreases blocks.len(),
{
    if blocks.len() > 0 {
        let c = blocks.last().0;
        lemma_summarizes_totals(blocks.drop_last(), rewards.take(rewards.len() - c));
        lemma_reward_total_split(rewards, rewards.len() - c);
    }
}

/// The oldest `k` buckets summarize the oldest rewards they count.
pub proof fn lemma_summarizes_prefix(blocks: Seq<(nat, nat)>, rewards: Seq<u8>, k: int)
    requires
        summarizes(blocks, rewards),
        0 <= k <= blocks.len(),
    ensures
        count_of(blocks.take(k)) <= rewards.len(),
        summarizes(blocks.take(k), rewards.take(count_of(blocks.take(k)) as int)),
    decreases blocks.len(),
{
    lemma_summarizes_totals(blocks, rewards);
    if k == blocks.len() {
        assert(blocks.take(k) =~= blocks);
        assert(rewards.take(rewards.len() as int) =~= rewards);
    } else {
        let c = blocks.last().0;
        let inner = rewards.take(rewards.len() - c);
        assert(blocks.drop_last().take(k) =~= blocks.take(k));
        lemma_summarizes_prefix(blocks.drop_last(), inner, k);
        let n0 = count_of(blocks.take(k)) as int;
        assert(inner.take(n0) =~= rewards.take(n0));
    }
}

/// A new one-reward bucket summarizes a new reward.
pub proof fn lemma_summarizes_push(blocks: Seq<(nat, nat)>, rewards: Seq<u8>, x: u8)
    requires
        summarizes(blocks, rewards),
    ensures
        summarizes(blocks.push((1nat, x as nat)), rewards.push(x)),
{
    let r2 = rewards.push(x);
    assert(blocks.push((1nat, x as nat)).drop_last() =~= blocks);
    assert(r2.take(r2.len() - 1) =~= rewards);
    assert(r2.skip(r2.len() - 1) =~= seq![x]);
    assert(seq![x].drop_last() =~= Seq::<u8>::empty());
    assert(reward_total(Seq::<u8>::empty()) == 0);
}

/// Dropping the oldest bucket drops the rewards it summarized.
pub proof fn lemma_summarizes_drop_first(blocks: Seq<(nat, nat)>, rewards: Seq<u8>)
    requires
        summarizes(blocks, rewards),
        blocks.len() >= 1,
    ensures
        blocks[0].0 <= rewards.len(),
        summarizes(blocks.drop_first(), rewards.skip(blocks[0].0 as int)),
    decreases blocks.len(),
{
    let c = blocks.last().0;
    let n = rewards.len();
    if blocks.len() == 1 {
        assert(blocks.drop_last().len() == 0);
        assert(summarizes(blocks.drop_last(), rewards.take(n - c)));
        assert(rewards.take(n - c).len() == 0);
        assert(blocks[0] == blocks.last());
        assert(blocks.drop_first().len() == 0);
        assert(rewards.skip(blocks[0].0 as int).len() == 0);
    } else {
        let inner = rewards.take(n - c);
        lemma_summarizes_drop_first(blocks.drop_last(), inner);
        assert(blocks.drop_last()[0] == blocks[0]);
        let c0 = blocks[0].0 as int;
        let r2 = rewards.skip(c0);
        let b2 = blocks.drop_first();
        assert(b2.last() == blocks.last());
        assert(b2.drop_last() =~= blocks.drop_last().drop_first());
        assert(r2.skip(r2.len() - c) =~= rewards.skip(n - c));
        assert(r2.take(r2.len() - c) =~= inner.skip(c0));
    }
}

/// Merging two adjacent buckets keeps what they summarize.
pub proof fn lemma_summarizes_merge(blocks: Seq<(nat, nat)>, rewards: Seq<u8>, p: int)
    requires
        summarizes(blocks, rewards),
        0 <= p,
        p + 1 < blocks.len(),
    ensures
        summarizes(merge_at(blocks, p), rewards),
    decreases blocks.len(),
{
    let n = rewards.len();
    let m = merge_at(blocks, p);
    let c = blocks.last().0;
    let inner = rewards.take(n - c);
    if p + 2 == blocks.len() {
        let b1 = blocks.drop_last();
        let c1 = b1.last().0;
        let inner2 = inner.take(inner.len() - c1);
        assert(m.last() == (blocks[p].0 + blocks[p + 1].0, blocks[p].1 + blocks[p + 1].1));
        assert(m.drop_last() =~= b1.drop_last());
        assert(b1.last() == blocks[p]);
        assert(b1.len() >= 1);
        assert(summarizes(b1, inner));
        assert(c1 <= inner.len());
        assert(rewards.take(n - (c1 + c)) =~= inner2);
        let tail = rewards.skip(n - (c1 + c));
        assert(tail.take(c1 as int) =~= inner.skip(inner.len() - c1));
        assert(tail.skip(c1 as int) =~= rewards.skip(n - c));
        lemma_reward_total_split(tail, c1 as int);
    } else {
        lemma_summarizes_merge(blocks.drop_last(), inner, p);
        assert(m.last() == blocks.last());
        assert(m.drop_last() =~= merge_at(blocks.drop_last(), p));
    }
}

/// The buckets of levels `k` and above, oldest first.
pub open spec fn flatten_from(levels: Seq<Seq<u64>>, k: int) -> Seq<(nat, nat)>
    decreases levels.len(),
{
    if levels.len() <= k || levels.len() == 0 {
        Seq::empty()
    } else {
        level_blocks(levels.last(), (levels.len() - 1) as nat) + flatten_from(levels.drop_last(), k)
    }
}

/// The window is the levels from `k` up, then the levels below `k`.
pub proof fn lemma_flatten_split(levels: Seq<Seq<u64>>, k: int)
    requires
        0 <= k <= levels.len(),
    ensures
        flatten(levels) == flatten_from(levels, k) + flatten(levels.take(k)),
    decreases levels.len(),
{
    if levels.len() == k {
        assert(levels.take(k) =~= levels);
        assert(flatten_from(levels, k) =~= Seq::<(nat, nat)>::empty());
        assert(flatten(levels) =~= flatten_from(levels, k) + flatten(levels.take(k)));
    } else {
        lemma_flatten_split(levels.drop_last(), k);
        assert(levels.drop_last().take(k) =~= levels.take(k));
        assert(flatten(levels) =~= flatten_from(levels, k) + flatten(levels.take(k)));
    }
}

/// `flatten_from(levels, k)` only depends on the levels from `k` up.
pub proof fn lemma_flatten_from_frame(l1: Seq<Seq<u64>>, l2: Seq<Seq<u64>>, k: int)
    requires
        0 <= k,
        l1.len() == l2.len(),
        forall|i: int| k <= i < l1.len() ==> l1[i] == l2[i],
    ensures
        flatten_from(l1, k) == flatten_from(l2, k),
    decreases l1.len(),
{
    if l1.len() > k {
        lemma_flatten_from_frame(l1.drop_last(), l2.drop_last(), k);
    }
}

/// Merging the first two buckets of `b`, in `up + a + b + rest`, by moving
/// their union to the back of `a`.
pub proof fn lemma_merge_seq(
    up: Seq<(nat, nat)>,
    a: Seq<(nat, nat)>,
    b: Seq<(nat, nat)>,
    rest: Seq<(nat, nat)>,
    m: (nat, nat),
)
    requires
        b.len() >= 2,
        m == (b[0].0 + b[1].0, b[0].1 + b[1].1),
    ensures
        up + a.push(m) + (b.skip(2) + rest) == merge_at(up + a + (b + rest), (up.len() + a.len()) as int),
{
    let f = up + a + (b + rest);
    let q = (up.len() + a.len()) as int;
    assert(f[q] == b[0]);
    assert(f[q + 1] == b[1]);
    assert(f.take(q) =~= up + a);
    assert(f.skip(q + 2) =~= b.skip(2) + rest);
    assert(up + a.push(m) + (b.skip(2) + rest) =~= merge_at(f, q));
}

/// The window as the levels above `p + 1`, level `p + 1`, level `p`, and the levels below `p`.
pub proof fn lemma_flatten_around(levels: Seq<Seq<u64>>, p: int)
    requires
        0 <= p,
        p + 1 < levels.len(),
    ensures
        flatten(levels) == flatten_from(levels, p + 2) + level_blocks(levels[p + 1], (p + 1) as nat) + (
        level_blocks(levels[p], p as nat) + flatten(levels.take(p))),
{
    lemma_flatten_split(levels, p + 2);
    let t2 = levels.take(p + 2);
    let t1 = levels.take(p + 1);
    assert(t2.drop_last() =~= t1);
    assert(t1.drop_last() =~= levels.take(p));
    assert(t2.last() == levels[p + 1]);
    assert(t1.last() == levels[p]);
    assert(flatten(t1) == level_blocks(levels[p], p as nat) + flatten(levels.take(p)));
    assert(flatten(t2) == level_blocks(levels[p + 1], (p + 1) as nat) + flatten(t1));
}

/// The merge step of normalization merges two adjacent buckets of the window.
pub proof fn lemma_flatten_merge(levels: Seq<Seq<u64>>, p: int, x: u64)
    requires
        0 <= p,
        p + 1 < levels.len(),
        levels[p].len() >= 2,
        x == levels[p][0] + levels[p][1],
    ensures
        ({
            let l1 = levels.update(p, levels[p].drop_first().drop_first());
            let l2 = l1.update(p + 1, levels[p + 1].push(x));
            let q = (flatten_from(levels, p + 2).len() + levels[p + 1].len()) as int;
            &&& 0 <= q
            &&& q + 1 < flatten(levels).len()
            &&& flatten(l2) == merge_at(flatten(levels), q)
        }),
{
    let l1 = levels.update(p, levels[p].drop_first().drop_first());
    let l2 = l1.update(p + 1, levels[p + 1].push(x));
    let up = flatten_from(levels, p + 2);
    let a = level_blocks(levels[p + 1], (p + 1) as nat);
    let b = level_blocks(levels[p], p as nat);
    let rest = flatten(levels.take(p));
    lemma_flatten_around(levels, p);
    lemma_flatten_around(l2, p);
    lemma_flatten_from_frame(levels, l2, p + 2);
    assert(l2.take(p) =~= levels.take(p));
    assert(l2[p + 1] == levels[p + 1].push(x));
    assert(l2[p] == levels[p].drop_first().drop_first());
    lemma_pow2_adds(p as nat, 1);
    lemma2_to64();
    let m = (pow2((p + 1) as nat), x as nat);
    assert(level_blocks(l2[p + 1], (p + 1) as nat) =~= a.push(m));
    assert(level_blocks(l2[p], p as nat) =~= b.skip(2));
    assert(m == (b[0].0 + b[1].0, b[0].1 + b[1].1));
    lemma_merge_seq(up, a, b, rest, m);
}

/// A run of `c` rewards that sums to `s`: full rewards of 255 first, then
/// what is left, then zeros.
pub open spec fn fill(c: nat, s: nat) -> Seq<u8>
    decreases c,
{
    if c == 0 {
        Seq::empty()
    } else {
        let x: nat = if s >= 255 {
            255
        } else {
            s
        };
        fill((c - 1) as nat, (s - x) as nat).push(x as u8)
    }
}

/// One run per bucket, oldest first.
pub open spec fn expand(blocks: Seq<(nat, nat)>) -> Seq<u8>
    decreases blocks.len(),
{
    if blocks.len() == 0 {
        Seq::empty()
    } else {
        expand(blocks.drop_last()) + fill(blocks.last().0, blocks.last().1)
    }
}

/// Every bucket holds at least one reward and no more than 255 per reward.
pub open spec fn blocks_feasible(blocks: Seq<(nat, nat)>) -> bool {
    forall|i: int| 0 <= i < blocks.len() ==> 1 <= #[trigger] blocks[i].0 && blocks[i].1 <= 255 * blocks[i].0
}

pub proof fn lemma_fill(c: nat, s: nat)
    requires
        s <= 255 * c,
    ensures
        fill(c, s).len() == c,
        reward_total(fill(c, s)) == s,
    decreases c,
{
    if c > 0 {
        let x: nat = if s >= 255 {
            255
        } else {
            s
        };
        lemma_fill((c - 1) as nat, (s - x) as nat);
        assert(fill(c, s).drop_last() =~= fill((c - 1) as nat, (s - x) as nat));
    }
}

/// Feasible buckets summarize their canonical runs.
pub proof fn lemma_expand_summarizes(blocks: Seq<(nat, nat)>)
    requires
        blocks_feasible(blocks),
    ensures
        summarizes(blocks, expand(blocks)),
    decreases blocks.len(),
{
    if blocks.len() > 0 {
        let b1 = blocks.drop_last();
        assert(blocks_feasible(b1)) by {
            assert forall|i: int| 0 <= i < b1.len() implies 1 <= #[trigger] b1[i].0 && b1[i].1 <= 255 * b1[i].0 by {
                assert(b1[i] == blocks[i]);
            }
        }
        lemma_expand_summarizes(b1);
        let last = blocks.last();
        assert(last == blocks[blocks.len() - 1]);
        lemma_fill(last.0, last.1);
        let e = expand(blocks);
        let f = fill(last.0, last.1);
        assert(e == expand(b1) + f);
        assert(e.skip(e.len() - last.0) =~= f);
        assert(e.take(e.len() - last.0) =~= expand(b1));
    }
}

/// The bucket sums of stored levels.
pub open spec fn level_views(levels: Seq<Vec<u64>>) -> Seq<Seq<u64>> {
    levels.map_values(|v: Vec<u64>| v@)
}

/// No bucket holds more than 255 per reward it stands for.
pub open spec fn levels_feasible(levels: Seq<Seq<u64>>) -> bool {
    forall|i: int, j: int| 0 <= i < levels.len() && 0 <= j < levels[i].len() ==> #[trigger] levels[i][j] <= 255 * pow2(i as nat)
}

/// Stored levels from which a window can be rebuilt.
pub open spec fn restorable(levels: Seq<Seq<u64>>, num_add: nat) -> bool {
    &&& shape_ok(levels)
    &&& levels_feasible(levels)
    &&& count_of(flatten(levels)) <= u64::MAX
    &&& sum_of(flatten(levels)) <= u64::MAX
    &&& num_add < ADWIN_DROP_INTERVAL
}

pub proof fn lemma_levels_feasible(levels: Seq<Seq<u64>>)
    requires
        levels_feasible(levels),
    ensures
        blocks_feasible(flatten(levels)),
    decreases levels.len(),
{
    if levels.len() > 0 {
        let d = levels.drop_last();
        assert(levels_feasible(d)) by {
            assert forall|i: int, j: int| 0 <= i < d.len() && 0 <= j < d[i].len() implies #[trigger] d[i][j] <= 255
                * pow2(i as nat) by {
                assert(d[i] == levels[i]);
            }
        }
        lemma_levels_feasible(d);
        let n = (levels.len() - 1) as nat;
        let lb = level_blocks(levels.last(), n);
        lemma_pow2_pos(n);
        assert forall|j: int| 0 <= j < lb.len() implies 1 <= #[trigger] lb[j].0 && lb[j].1 <= 255 * lb[j].0 by {
            assert(levels.last()[j] == levels[n as int][j]);
        }
        let f = flatten(levels);
        assert(f == lb + flatten(d));
        assert forall|i: int| 0 <= i < f.len() implies 1 <= #[trigger] f[i].0 && f[i].1 <= 255 * f[i].0 by {
            if i < lb.len() {
                assert(f[i] == lb[i]);
            } else {
                assert(f[i] == flatten(d)[i - lb.len()]);
            }
        }
    }
}

/// A run of `n` rewards sums to at most `255 * n`.
pub proof fn lemma_reward_total_bound(r: Seq<u8>)
    ensures
        reward_total(r) <= 255 * r.len(),
    decreases r.len(),
{
    if r.len() > 0 {
        lemma_reward_total_bound(r.drop_last());
    }
}

/// A run of rewards that are each 0 or 1 sums to at most its length.
pub proof fn lemma_binary_reward_total(r: Seq<u8>)
    requires
        forall|i: int| 0 <= i < r.len() ==> #[trigger] r[i] <= 1,
    ensures
        reward_total(r) <= r.len(),
    decreases r.len(),
{
    if r.len() > 0 {
        assert(r.last() == r[r.len() - 1]);
        assert forall|i: int| 0 <= i < r.drop_last().len() implies #[trigger] r.drop_last()[i] <= 1 by {
            assert(r.drop_last()[i] == r[i]);
        }
        lemma_binary_reward_total(r.drop_last());
    }
}

/// Buckets that summarize rewards are feasible.
pub proof fn lemma_summarizes_feasible(blocks: Seq<(nat, nat)>, rewards: Seq<u8>)
    requires
        summarizes(blocks, rewards),
    ensures
        blocks_feasible(blocks),
    decreases blocks.len(),
{
    if blocks.len() > 0 {
        let c = blocks.last().0;
        let b1 = blocks.drop_last();
        lemma_summarizes_feasible(b1, rewards.take(rewards.len() - c));
        let run = rewards.skip(rewards.len() - c);
        lemma_reward_total_bound(run);
        assert forall|i: int| 0 <= i < blocks.len() implies 1 <= #[trigger] blocks[i].0 && blocks[i].1 <= 255
            * blocks[i].0 by {
            if i < b1.len() {
                assert(blocks[i] == b1[i]);
            }
        }
    }
}

/// The buckets of feasible windows are feasible level by level.
pub proof fn lemma_levels_feasible_back(levels: Seq<Seq<u64>>)
    requires
        blocks_feasible(flatten(levels)),
    ensures
        levels_feasible(levels),
    decreases levels.len(),
{
    if levels.len() > 0 {
        let d = levels.drop_last();
        let n = (levels.len() - 1) as nat;
        let lb = level_blocks(levels.last(), n);
        let f = flatten(levels);
        assert(f == lb + flatten(d));
        assert(blocks_feasible(flatten(d))) by {
            assert forall|i: int| 0 <= i < flatten(d).len() implies 1 <= #[trigger] flatten(d)[i].0 && flatten(d)[i].1
                <= 255 * flatten(d)[i].0 by {
                assert(f[i + lb.len()] == flatten(d)[i]);
            }
        }
        lemma_levels_feasible_back(d);
        assert forall|i: int, j: int| 0 <= i < levels.len() && 0 <= j < levels[i].len() implies #[trigger] levels[i][j]
            <= 255 * pow2(i as nat) by {
            if i == n {
                assert(f[j] == lb[j]);
                assert(f[j].1 <= 255 * f[j].0);
                assert(levels.last()[j] == levels[i][j]);
            } else {
                assert(d[i] == levels[i]);
                assert(d[i][j] <= 255 * pow2(i as nat));
            }
        }
    }
}

/// Every reward is 0 or 1.
pub open spec fn binary(rewards: Seq<u8>) -> bool {
    forall|i: int| 0 <= i < rewards.len() ==> #[trigger] rewards[i] <= 1
}

/// Buckets that summarize rewards of 0 and 1 each sum to at most their count.
pub proof fn lemma_summarizes_binary(blocks: Seq<(nat, nat)>, rewards: Seq<u8>)
    requires
        summarizes(blocks, rewards),
        binary(rewards),
    ensures
        forall|i: int| 0 <= i < blocks.len() ==> #[trigger] blocks[i].1 <= blocks[i].0,
    decreases blocks.len(),
{
    if blocks.len() > 0 {
        let c = blocks.last().0;
        let b1 = blocks.drop_last();
        let head = rewards.take(rewards.len() - c);
        let run = rewards.skip(rewards.len() - c);
        assert forall|i: int| 0 <= i < head.len() implies #[trigger] head[i] <= 1 by {
            assert(head[i] == rewards[i]);
        }
        assert forall|i: int| 0 <= i < run.len() implies #[trigger] run[i] <= 1 by {
            assert(run[i] == rewards[i + rewards.len() - c]);
        }
        lemma_summarizes_binary(b1, head);
        lemma_binary_reward_total(run);
        assert forall|i: int| 0 <= i < blocks.len() implies #[trigger] blocks[i].1 <= blocks[i].0 by {
            if i < b1.len() {
                assert(blocks[i] == b1[i]);
            }
        }
    }
}

/// When every bucket sums to at most its count, a bucket of level `i` sums
/// to at most `2^i`.
pub proof fn lemma_levels_binary_back(levels: Seq<Seq<u64>>)
    requires
        forall|i: int| 0 <= i < flatten(levels).len() ==> #[trigger] flatten(levels)[i].1 <= flatten(levels)[i].0,
    ensures
        forall|i: int, j: int| 0 <= i < levels.len() && 0 <= j < levels[i].len() ==> #[trigger] levels[i][j] <= pow2(
            i as nat,
        ),
    decreases levels.len(),
{
    if levels.len() > 0 {
        let d = levels.drop_last();
        let n = (levels.len() - 1) as nat;
        let lb = level_blocks(levels.last(), n);
        let f = flatten(levels);
        assert(f == lb + flatten(d));
        assert forall|i: int| 0 <= i < flatten(d).len() implies #[trigger] flatten(d)[i].1 <= flatten(d)[i].0 by {
            assert(f[i + lb.len()] == flatten(d)[i]);
        }
        lemma_levels_binary_back(d);
        assert forall|i: int, j: int| 0 <= i < levels.len() && 0 <= j < levels[i].len() implies #[trigger] levels[i][j]
            <= pow2(i as nat) by {
            if i == n {
                assert(f[j] == lb[j]);
                assert(f[j].1 <= f[j].0);
                assert(levels.last()[j] == levels[i][j]);
            } else {
                assert(d[i] == levels[i]);
                assert(d[i][j] <= pow2(i as nat));
            }
        }
    }
}

/// Rewards of 0 and 1, with one more such reward and the oldest dropped,
/// are still rewards of 0 and 1.
pub proof fn lemma_binary_push_skip(rewards: Seq<u8>, x: u8, d: int)
    requires
        binary(rewards),
        x <= 1,
        0 <= d <= rewards.len() + 1,
    ensures
        binary(rewards.push(x).skip(d)),
{
    let p = rewards.push(x);
    assert forall|i: int| 0 <= i < p.skip(d).len() implies #[trigger] p.skip(d)[i] <= 1 by {
        assert(p.skip(d)[i] == p[i + d]);
        if i + d < rewards.len() {
            assert(p[i + d] == rewards[i + d]);
        }
    }
}

/// Every bucket sums to at most its count of rewards.
pub open spec fn blocks_binary(blocks: Seq<(nat, nat)>) -> bool {
    forall|i: int| 0 <= i < blocks.len() ==> #[trigger] blocks[i].1 <= blocks[i].0
}

/// Every bucket of level `i` sums to at most `2^i`, the number of rewards it stands for.
pub open spec fn levels_binary(levels: Seq<Seq<u64>>) -> bool {
    forall|i: int, j: int| 0 <= i < levels.len() && 0 <= j < levels[i].len() ==> #[trigger] levels[i][j] <= pow2(i as nat)
}

/// Levels whose buckets sum to at most their size give such buckets.
pub proof fn lemma_levels_binary(levels: Seq<Seq<u64>>)
    requires
        levels_binary(levels),
    ensures
        blocks_binary(flatten(levels)),
        forall|i: int| 0 <= i < flatten(levels).len() ==> 1 <= #[trigger] flatten(levels)[i].0,
    decreases levels.len(),
{
    if levels.len() > 0 {
        let d = levels.drop_last();
        assert(levels_binary(d)) by {
            assert forall|i: int, j: int| 0 <= i < d.len() && 0 <= j < d[i].len() implies #[trigger] d[i][j] <= pow2(
                i as nat,
            ) by {
                assert(d[i] == levels[i]);
            }
        }
        lemma_levels_binary(d);
        let n = (levels.len() - 1) as nat;
        let lb = level_blocks(levels.last(), n);
        lemma_pow2_pos(n);
        assert forall|j: int| 0 <= j < lb.len() implies 1 <= #[trigger] lb[j].0 && lb[j].1 <= lb[j].0 by {
            assert(levels.last()[j] == levels[n as int][j]);
        }
        let f = flatten(levels);
        assert(f == lb + flatten(d));
        assert forall|i: int| 0 <= i < f.len() implies 1 <= #[trigger] f[i].0 && f[i].1 <= f[i].0 by {
            if i < lb.len() {
                assert(f[i] == lb[i]);
            } else {
                assert(f[i] == flatten(d)[i - lb.len()]);
            }
        }
    }
}

/// Buckets that each sum to at most their count sum to at most their count together.
pub proof fn lemma_blocks_binary_sum(blocks: Seq<(nat, nat)>)
    requires
        blocks_binary(blocks),
    ensures
        sum_of(blocks) <= count_of(blocks),
    decreases blocks.len(),
{
    if blocks.len() > 0 {
        let b1 = blocks.drop_last();
        assert forall|i: int| 0 <= i < b1.len() implies #[trigger] b1[i].1 <= b1[i].0 by {
            assert(b1[i] == blocks[i]);
        }
        lemma_blocks_binary_sum(b1);
        assert(blocks.last() == blocks[blocks.len() - 1]);
    }
}

/// A run of `c` rewards of 0 and 1 that sums to `s`: `s` ones, then zeros.
pub open spec fn fill_ones(c: nat, s: nat) -> Seq<u8> {
    Seq::new(c, |i: int| if i < s { 1u8 } else { 0u8 })
}

/// One run of 0s and 1s per bucket, oldest first.
pub open spec fn expand_ones(blocks: Seq<(nat, nat)>) -> Seq<u8>
    decreases blocks.len(),
{
    if blocks.len() == 0 {
        Seq::empty()
    } else {
        expand_ones(blocks.drop_last()) + fill_ones(blocks.last().0, blocks.last().1)
    }
}

/// `fill_ones` sums to `s` when `s` ones fit.
pub proof fn lemma_fill_ones(c: nat, s: nat)
    requires
        s <= c,
    ensures
        reward_total(fill_ones(c, s)) == s,
    decreases c,
{
    if c > 0 {
        let f = fill_ones(c, s);
        if s == c {
            lemma_fill_ones((c - 1) as nat, (s - 1) as nat);
            assert(f.drop_last() =~= fill_ones((c - 1) as nat, (s - 1) as nat));
        } else {
            lemma_fill_ones((c - 1) as nat, s);
            assert(f.drop_last() =~= fill_ones((c - 1) as nat, s));
        }
    }
}

/// Buckets of at least one reward, each summing to at most its count,
/// summarize runs of 0s and 1s.
pub proof fn lemma_expand_ones(blocks: Seq<(nat, nat)>)
    requires
        blocks_binary(blocks),
        forall|i: int| 0 <= i < blocks.len() ==> 1 <= #[trigger] blocks[i].0,
    ensures
        summarizes(blocks, expand_ones(blocks)),
        binary(expand_ones(blocks)),
    decreases blocks.len(),
{
    if blocks.len() > 0 {
        let b1 = blocks.drop_last();
        assert forall|i: int| 0 <= i < b1.len() implies #[trigger] b1[i].1 <= b1[i].0 && 1 <= b1[i].0 by {
            assert(b1[i] == blocks[i]);
        }
        lemma_expand_ones(b1);
        let last = blocks.last();
        assert(last == blocks[blocks.len() - 1]);
        lemma_fill_ones(last.0, last.1);
        let e = expand_ones(blocks);
        let f = fill_ones(last.0, last.1);
        assert(e == expand_ones(b1) + f);
        assert(e.skip(e.len() - last.0) =~= f);
        assert(e.take(e.len() - last.0) =~= expand_ones(b1));
        assert forall|i: int| 0 <= i < e.len() implies #[trigger] e[i] <= 1 by {
            if i < expand_ones(b1).len() {
                assert(e[i] == expand_ones(b1)[i]);
            } else {
                assert(e[i] == f[i - expand_ones(b1).len()]);
            }
        }
    }
}

/// One more bucket of level `i` read: the totals of the first `j + 1`
/// buckets are those of the first `j` and the `j`-th bucket, and stay within
/// the level's totals.
pub proof fn lemma_level_prefix_step(s: Seq<u64>, i: nat, j: int)
    requires
        0 <= j < s.len(),
    ensures
        ({
            let lb = level_blocks(s, i);
            &&& count_of(lb.take(j + 1)) == count_of(lb.take(j)) + pow2(i)
            &&& sum_of(lb.take(j + 1)) == sum_of(lb.take(j)) + s[j]
            &&& count_of(lb.take(j + 1)) <= count_of(lb)
            &&& sum_of(lb.take(j + 1)) <= sum_of(lb)
        }),
{
    let lb = level_blocks(s, i);
    assert(lb.take(j + 1).drop_last() =~= lb.take(j));
    assert(lb.take(j + 1).last() == (pow2(i), s[j] as nat));
    lemma_prefix_totals(lb, j + 1, s.len() as int);
    assert(lb.take(s.len() as int) =~= lb);
}

} // verus!
