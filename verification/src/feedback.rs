//! The feedback that credits each round's outcome to the bandits that chose it.
use std::marker::PhantomData;
use vstd::prelude::*;

verus! {

/// Wraps the fuzzer's own feedback `F`; once `F` has judged an input, the
/// verdict is credited to the choices recorded in the metadata `SL`.
pub struct SloptFeedback<F, SL> {
    inner: F,
    phantom: PhantomData<SL>,
}

impl<F, SL> SloptFeedback<F, SL> {
    /// The wrapped feedback.
    pub closed spec fn inner_value(&self) -> F {
        self.inner
    }

    /// Wraps `inner`.
    pub fn new(inner: F) -> (f: Self)
        ensures
            f.inner_value() == inner,
    {
        SloptFeedback { inner, phantom: PhantomData }
    }

    /// The wrapped feedback.
    pub fn inner(&self) -> (r: &F)
        ensures
            *r == self.inner_value(),
    {
        &self.inner
    }

    /// The wrapped feedback, to update.
    pub fn inner_mut(&mut self) -> (r: &mut F)
        ensures
            *r == old(self).inner_value(),
            final(self).inner_value() == *final(r),
    {
        &mut self.inner
    }
}

} // verus!
