//! Memory that several handles own together.
use vstd::prelude::*;

use crate::counter::{Counter, Tally};

verus! {

/// What handles share, and with it the counter of the handles.
pub trait Counted {
    /// The counter of the handles.
    spec fn counter(&self) -> Counter;
}

/// `std::sync::Arc::clone`: another owner of the allocation that `owner` owns. The value is the
/// same one and is not copied. The owner is for a handle that `tally` counts and that has none yet,
/// and the tally keeps that it has one now.
#[verifier::external_body]
pub(crate) fn share<T: Counted>(owner: &std::sync::Arc<T>, tally: &mut Tally) -> (r: std::sync::Arc<
    T,
>)
    requires
        old(tally).counter() == owner.counter(),
        old(tally).owners() < old(tally).standing(),
    ensures
        r == *owner,
        final(tally).is_true() == old(tally).is_true(),
        final(tally).counter() == old(tally).counter(),
        final(tally).name() == old(tally).name(),
        final(tally).lent() == old(tally).lent(),
        final(tally).log() == old(tally).log(),
        final(tally).owners() == old(tally).owners() + 1,
    opens_invariants none
{
    std::sync::Arc::clone(owner)
}

} // verus!
