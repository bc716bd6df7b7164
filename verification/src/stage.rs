//! The mutational stage: its name and its mutator.
use std::marker::PhantomData;
use vstd::prelude::*;

verus! {

/// The name shared by all mutational stages, before their number.
pub const MUTATIONAL_STAGE_NAME: &'static str = "slopt-mutational";

/// How many iterations a stage draws at most.
pub const MUTATIONAL_MAX_ITERATIONS: usize = 128;

/// The decimal digit `d` as a character.
pub open spec fn digit_char(d: nat) -> char {
    (d + 48) as char
}

/// The decimal representation of `n`, without leading zeros.
pub open spec fn decimal(n: nat) -> Seq<char>
    decreases n,
{
    if n < 10 {
        seq![digit_char(n)]
    } else {
        decimal(n / 10).push(digit_char(n % 10))
    }
}

/// The name of the stage with number `stage_id`.
pub open spec fn stage_name_of(stage_id: nat) -> Seq<char> {
    "slopt-mutational:"@ + decimal(stage_id)
}

/// The decimal representation has at least one digit.
pub proof fn lemma_decimal_nonempty(n: nat)
    ensures
        decimal(n).len() >= 1,
    decreases n,
{
    if n >= 10 {
        lemma_decimal_nonempty(n / 10);
    }
}

/// Different numbers have different decimal representations.
pub proof fn lemma_decimal_injective(n: nat, m: nat)
    requires
        decimal(n) == decimal(m),
    ensures
        n == m,
    decreases n,
{
    if n < 10 && m < 10 {
        assert(decimal(n)[0] == digit_char(n));
        assert(decimal(m)[0] == digit_char(m));
    } else if n < 10 {
        lemma_decimal_nonempty(m / 10);
        assert(decimal(m).len() >= 2);
    } else if m < 10 {
        lemma_decimal_nonempty(n / 10);
        assert(decimal(n).len() >= 2);
    } else {
        assert(decimal(n).last() == digit_char(n % 10));
        assert(decimal(m).last() == digit_char(m % 10));
        assert(decimal(n).drop_last() =~= decimal(n / 10));
        assert(decimal(m).drop_last() =~= decimal(m / 10));
        lemma_decimal_injective(n / 10, m / 10);
    }
}

/// Stages with different numbers have different names.
pub proof fn lemma_stage_names_distinct(a: nat, b: nat)
    requires
        a != b,
    ensures
        stage_name_of(a) != stage_name_of(b),
{
    if stage_name_of(a) == stage_name_of(b) {
        let p = "slopt-mutational:"@;
        assert(stage_name_of(a).skip(p.len() as int) =~= decimal(a));
        assert(stage_name_of(b).skip(p.len() as int) =~= decimal(b));
        lemma_decimal_injective(a, b);
    }
}

/// The one-character string of digit `d`.
fn digit_str(d: usize) -> (s: &'static str)
    requires
        d < 10,
    ensures
        s@ == seq![digit_char(d as nat)],
{
    match d {
        0 => {
            proof {
                reveal_strlit("0");
            }
            "0"
        },
        1 => {
            proof {
                reveal_strlit("1");
            }
            "1"
        },
        2 => {
            proof {
                reveal_strlit("2");
            }
            "2"
        },
        3 => {
            proof {
                reveal_strlit("3");
            }
            "3"
        },
        4 => {
            proof {
                reveal_strlit("4");
            }
            "4"
        },
        5 => {
            proof {
                reveal_strlit("5");
            }
            "5"
        },
        6 => {
            proof {
                reveal_strlit("6");
            }
            "6"
        },
        7 => {
            proof {
                reveal_strlit("7");
            }
            "7"
        },
        8 => {
            proof {
                reveal_strlit("8");
            }
            "8"
        },
        _ => {
            proof {
                reveal_strlit("9");
            }
            "9"
        },
    }
}

/// Appends the decimal representation of `n`.
fn push_decimal(s: &mut String, n: usize)
    ensures
        final(s)@ == old(s)@ + decimal(n as nat),
    decreases n,
{
    if n >= 10 {
        push_decimal(s, n / 10);
    }
    s.append(digit_str(n % 10));
    proof {
        if n >= 10 {
            assert(final(s)@ =~= old(s)@ + decimal(n as nat));
        }
    }
}

/// The name of the stage with number `stage_id`: `slopt-mutational:<stage_id>`.
pub fn stage_name(stage_id: usize) -> (name: String)
    ensures
        name@ == stage_name_of(stage_id as nat),
{
    let mut name = String::from_str(MUTATIONAL_STAGE_NAME);
    name.append(":");
    push_decimal(&mut name, stage_id);
    proof {
        reveal_strlit("slopt-mutational");
        reveal_strlit(":");
        reveal_strlit("slopt-mutational:");
        assert(name@ =~= stage_name_of(stage_id as nat));
    }
    name
}

/// A stage that mutates the current testcase once with its mutator and
/// hands the result to the fuzzer.
pub struct SloptMutationalStage<E, EM, I1, I2, M, S, Z> {
    name: String,
    mutator: M,
    phantom: PhantomData<(E, EM, I1, I2, S, Z)>,
}

impl<E, EM, I1, I2, M, S, Z> SloptMutationalStage<E, EM, I1, I2, M, S, Z> {
    /// The stage's name.
    pub closed spec fn name_view(&self) -> Seq<char> {
        self.name@
    }

    /// The stage's mutator.
    pub closed spec fn mutator_value(&self) -> M {
        self.mutator
    }

    /// The stage numbered `stage_id`, applying `mutator`.
    pub fn transforming(mutator: M, stage_id: usize) -> (s: Self)
        ensures
            s.name_view() == stage_name_of(stage_id as nat),
            s.mutator_value() == mutator,
    {
        SloptMutationalStage { name: stage_name(stage_id), mutator, phantom: PhantomData }
    }

    /// The stage's name.
    pub fn name(&self) -> (r: &String)
        ensures
            r@ == self.name_view(),
    {
        &self.name
    }

    /// The stage's mutator.
    pub fn mutator(&self) -> (r: &M)
        ensures
            *r == self.mutator_value(),
    {
        &self.mutator
    }

    /// The stage's mutator, to update.
    pub fn mutator_mut(&mut self) -> (r: &mut M)
        ensures
            *r == old(self).mutator_value(),
            final(self).mutator_value() == *final(r),
            final(self).name_view() == old(self).name_view(),
    {
        &mut self.mutator
    }

    /// The number of iterations, as a random number: one more than `draw`,
    /// a number drawn uniformly below `MUTATIONAL_MAX_ITERATIONS` from the
    /// state's random source.
    pub fn iterations(&self, draw: usize) -> (n: usize)
        requires
            draw < MUTATIONAL_MAX_ITERATIONS,
        ensures
            n == draw + 1,
            1 <= n <= MUTATIONAL_MAX_ITERATIONS,
    {
        draw + 1
    }
}

impl<E, EM, I, M, S, Z> SloptMutationalStage<E, EM, I, I, M, S, Z> {
    /// The stage numbered `stage_id`, applying `mutator` to inputs of one type.
    pub fn new(mutator: M, stage_id: usize) -> (s: Self)
        ensures
            s.name_view() == stage_name_of(stage_id as nat),
            s.mutator_value() == mutator,
    {
        Self::transforming(mutator, stage_id)
    }
}

} // verus!
