use forkserver_slopt::feedback::SloptFeedback;
use forkserver_slopt::mutator::{stacked_mutations, HavocSloptScheduledMutator, MutationOutcome};
use forkserver_slopt::mutator::MutationOutcome::{Mutated, Skipped};
use forkserver_slopt::slopt::{Ts, BUCKET, MAX_STACK_POW};
use forkserver_slopt::stage::{stage_name, SloptMutationalStage, MUTATIONAL_MAX_ITERATIONS, MUTATIONAL_STAGE_NAME};

#[test]
fn mutator_name_lists_the_mutations() {
    let m: HavocSloptScheduledMutator<u32, Ts> = HavocSloptScheduledMutator::new(7, &["BitFlip", "ByteAdd", "Splice"]);
    assert_eq!(m.name(), "HavocSloptScheduledMutator[BitFlip, ByteAdd, Splice]");
    assert_eq!(*m.mutations(), 7);
    let one: HavocSloptScheduledMutator<(), Ts> = HavocSloptScheduledMutator::new((), &["Only"]);
    assert_eq!(one.name(), "HavocSloptScheduledMutator[Only]");
    let none: HavocSloptScheduledMutator<(), Ts> = HavocSloptScheduledMutator::new((), &[]);
    assert_eq!(none.name(), "HavocSloptScheduledMutator[]");
}

#[test]
fn mutations_can_be_updated() {
    let mut m: HavocSloptScheduledMutator<u32, Ts> = HavocSloptScheduledMutator::new(1, &["A"]);
    *m.mutations_mut() = 5;
    assert_eq!(*m.mutations(), 5);
}

#[test]
fn stack_sizes_are_powers_of_two() {
    assert_eq!(stacked_mutations(0), 2);
    assert_eq!(stacked_mutations(1), 4);
    assert_eq!(stacked_mutations(MAX_STACK_POW - 1), 128);
    assert_eq!(stacked_mutations(29), 1 << 30);
}

#[test]
fn a_stack_mutated_when_one_mutation_did() {
    assert_eq!(Skipped.combine(Skipped), Skipped);
    assert_eq!(Skipped.combine(Mutated), Mutated);
    assert_eq!(Mutated.combine(Skipped), Mutated);
    assert_eq!(Mutated.combine(Mutated), Mutated);
    let outcomes = [Skipped, Skipped, Mutated, Skipped];
    let r = outcomes.iter().fold(Skipped, |acc, o| acc.combine(*o));
    assert_eq!(r, Mutated);
    let r = [Skipped, Skipped].iter().fold(Skipped, |acc, o| acc.combine(*o));
    assert_eq!(r, Skipped);
}

#[test]
fn stage_names_are_numbered() {
    assert_eq!(MUTATIONAL_STAGE_NAME, "slopt-mutational");
    assert_eq!(stage_name(0), "slopt-mutational:0");
    assert_eq!(stage_name(9), "slopt-mutational:9");
    assert_eq!(stage_name(10), "slopt-mutational:10");
    assert_eq!(stage_name(42), "slopt-mutational:42");
    assert_eq!(stage_name(1_000_007), "slopt-mutational:1000007");
    assert_eq!(stage_name(usize::MAX), format!("slopt-mutational:{}", usize::MAX));
}

#[test]
fn stage_keeps_its_mutator_and_name() {
    let mut s: SloptMutationalStage<(), (), u8, u8, u32, (), ()> = SloptMutationalStage::new(3, 5);
    assert_eq!(s.name(), "slopt-mutational:5");
    assert_eq!(*s.mutator(), 3);
    *s.mutator_mut() = 4;
    assert_eq!(*s.mutator(), 4);
    assert_eq!(s.iterations(0), 1);
    assert_eq!(s.iterations(MUTATIONAL_MAX_ITERATIONS - 1), 128);
    let t: SloptMutationalStage<(), (), u8, u16, u32, (), ()> = SloptMutationalStage::transforming(9, 12);
    assert_eq!(t.name(), "slopt-mutational:12");
}

#[test]
fn feedback_wraps_its_inner_feedback() {
    let mut f: SloptFeedback<String, Ts> = SloptFeedback::new("inner".to_string());
    assert_eq!(f.inner(), "inner");
    f.inner_mut().push('!');
    assert_eq!(f.inner(), "inner!");
}

#[test]
fn bucket_bounds() {
    assert_eq!(BUCKET, [100, 1_000, 10_000, 100_000]);
    assert_eq!(MAX_STACK_POW, 7);
}
