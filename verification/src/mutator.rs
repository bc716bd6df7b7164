//! The scheduled mutator: its name, its stacking rule, and how the outcomes
//! of the stacked mutations combine.
use std::marker::PhantomData;
use vstd::arithmetic::power2::{lemma2_to64, pow2};
use vstd::bits::lemma_usize_shl_is_mul;
use vstd::prelude::*;

verus! {

/// The names joined with `sep` between consecutive names.
pub open spec fn join_names(names: Seq<Seq<char>>, sep: Seq<char>) -> Seq<char>
    decreases names.len(),
{
    if names.len() == 0 {
        Seq::empty()
    } else if names.len() == 1 {
        names[0]
    } else {
        join_names(names.drop_last(), sep) + sep + names.last()
    }
}

/// The mutator's name for mutations with the given names.
pub open spec fn mutator_name(names: Seq<Seq<char>>) -> Seq<char> {
    "HavocSloptScheduledMutator["@ + join_names(names, ", "@) + "]"@
}

/// What one mutation, or a stack of them, did to the input.
#[derive(Clone, Copy, Debug, PartialEq, Eq, Structural)]
pub enum MutationOutcome {
    Mutated,
    Skipped,
}

/// The spec of `MutationOutcome::combine`.
pub open spec fn combined(acc: MutationOutcome, next: MutationOutcome) -> MutationOutcome {
    if next == MutationOutcome::Mutated {
        MutationOutcome::Mutated
    } else {
        acc
    }
}

/// The outcome of a stack of mutations, combined from `Skipped` in order.
pub open spec fn stack_outcome(outcomes: Seq<MutationOutcome>) -> MutationOutcome
    decreases outcomes.len(),
{
    if outcomes.len() == 0 {
        MutationOutcome::Skipped
    } else {
        combined(stack_outcome(outcomes.drop_last()), outcomes.last())
    }
}

/// A stack mutated the input exactly when one of its mutations did.
pub proof fn lemma_stack_outcome(outcomes: Seq<MutationOutcome>)
    ensures
        (stack_outcome(outcomes) == MutationOutcome::Mutated) <==> outcomes.contains(MutationOutcome::Mutated),
    decreases outcomes.len(),
{
    if outcomes.len() > 0 {
        lemma_stack_outcome(outcomes.drop_last());
        if outcomes.drop_last().contains(MutationOutcome::Mutated) {
            let i = choose|i: int| 0 <= i < outcomes.drop_last().len() && outcomes.drop_last()[i] == MutationOutcome::Mutated;
            assert(outcomes[i] == MutationOutcome::Mutated);
        }
        if outcomes.contains(MutationOutcome::Mutated) {
            let i = choose|i: int| 0 <= i < outcomes.len() && outcomes[i] == MutationOutcome::Mutated;
            if i < outcomes.len() - 1 {
                assert(outcomes.drop_last()[i] == MutationOutcome::Mutated);
            }
        }
    }
}

impl MutationOutcome {
    /// The outcome of a stack after one more mutation: mutated as soon as
    /// one mutation of the stack mutated.
    pub fn combine(self, next: MutationOutcome) -> (r: MutationOutcome)
        ensures
            r == combined(self, next),
    {
        if next == MutationOutcome::Mutated {
            MutationOutcome::Mutated
        } else {
            self
        }
    }
}

/// How many times the chosen operator is applied for stack choice `bs_idx`:
/// `2^(1 + bs_idx)`.
pub fn stacked_mutations(bs_idx: usize) -> (n: usize)
    requires
        bs_idx < 30,
    ensures
        n == pow2((bs_idx + 1) as nat),
{
    proof {
        lemma2_to64();
        vstd::arithmetic::power2::lemma_pow2_strictly_increases((bs_idx + 1) as nat, 31);
        lemma_usize_shl_is_mul(1, (bs_idx + 1) as usize);
    }
    1usize << (1 + bs_idx)
}

/// A mutator that lets the scheduling bandits pick which mutation to apply
/// and how many times to stack it.
pub struct HavocSloptScheduledMutator<MT, SL> {
    name: String,
    mutations: MT,
    phantom: PhantomData<SL>,
}

impl<MT, SL> HavocSloptScheduledMutator<MT, SL> {
    /// The mutator's name.
    pub closed spec fn name_view(&self) -> Seq<char> {
        self.name@
    }

    /// The mutations it applies.
    pub closed spec fn mutations_value(&self) -> MT {
        self.mutations
    }

    /// A mutator over `mutations`, whose names are `names`.
    pub fn new(mutations: MT, names: &[&str]) -> (m: Self)
        ensures
            m.name_view() == mutator_name(names@.map_values(|s: &str| s@)),
            m.mutations_value() == mutations,
    {
        let ghost views = names@.map_values(|s: &str| s@);
        let mut name = String::from_str("HavocSloptScheduledMutator[");
        let mut i: usize = 0;
        while i < names.len()
            invariant
                i <= names@.len(),
                views == names@.map_values(|s: &str| s@),
                name@ == "HavocSloptScheduledMutator["@ + join_names(views.take(i as int), ", "@),
            decreases names@.len() - i,
        {
            let ghost before = name@;
            if i != 0 {
                name.append(", ");
            }
            name.append(names[i]);
            i += 1;
            proof {
                let t = views.take(i as int);
                assert(t.drop_last() =~= views.take(i - 1));
                assert(t.last() == names@[i - 1]@);
                if i == 1 {
                    assert(views.take(0) =~= Seq::<Seq<char>>::empty());
                    assert(name@ =~= "HavocSloptScheduledMutator["@ + join_names(t, ", "@));
                } else {
                    assert(name@ =~= "HavocSloptScheduledMutator["@ + join_names(t, ", "@));
                }
            }
        }
        name.append("]");
        proof {
            assert(views.take(names@.len() as int) =~= views);
        }
        HavocSloptScheduledMutator { name, mutations, phantom: PhantomData }
    }

    /// The mutator's name.
    pub fn name(&self) -> (r: &String)
        ensures
            r@ == self.name_view(),
    {
        &self.name
    }

    /// The mutations it applies.
    pub fn mutations(&self) -> (r: &MT)
        ensures
            *r == self.mutations_value(),
    {
        &self.mutations
    }

    /// The mutations it applies, to update.
    pub fn mutations_mut(&mut self) -> (r: &mut MT)
        ensures
            *r == old(self).mutations_value(),
            final(self).mutations_value() == *final(r),
            final(self).name_view() == old(self).name_view(),
    {
        &mut self.mutations
    }
}

} // verus!
