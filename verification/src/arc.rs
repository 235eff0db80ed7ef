//! A shared value that lives as long as one of its handles.
use std::ops::Deref;
use vstd::prelude::*;

use crate::counter;
use crate::counter::{is_last, CountOp, Counter, Roll, Tally};
use crate::shared::{share, Counted};

verus! {

/// A handle to a shared value, until it is released or dropped.
pub struct Arc<T> {
    inner: std::sync::Arc<Inner<T>>,
    tally: Tally,
    held: bool,
}

struct Inner<T> {
    data: T,
    count: Roll,
}

impl<T> Counted for Inner<T> {
    closed spec fn counter(&self) -> Counter {
        self.count.counter()
    }
}

impl<T> View for Arc<T> {
    type V = T;

    closed spec fn view(&self) -> T {
        self.inner.data
    }
}

impl<T> Arc<T> {
    /// The counter of the handles to the value.
    pub closed spec fn counter(&self) -> Counter {
        self.inner.count.counter()
    }

    /// What has been done to the count for this handle.
    pub closed spec fn tally(&self) -> Tally {
        self.tally
    }

    /// The handle has not been given up.
    pub closed spec fn is_held(&self) -> bool {
        self.held
    }

    /// The events of the tally.
    pub open spec fn log(&self) -> Seq<counter::CountEvent> {
        self.tally().log()
    }

    /// The handle is there and is counted once, where the others are, and owns what they share
    /// once.
    pub open spec fn is_counted(&self) -> bool {
        &&& self.is_held()
        &&& !self.counter().is_loose()
        &&& self.tally().is_true()
        &&& self.tally().counter() == self.counter()
        &&& counter::is_counted(self.log())
        &&& self.tally().standing() == 1
        &&& self.tally().owners() == 1
    }

    #[verifier::type_invariant]
    spec fn is_tallied(self) -> bool {
        self.held ==> {
            &&& self.tally.counter() == self.inner.count.counter()
            &&& counter::is_counted(self.tally.log())
            &&& self.tally.standing() == 1
            &&& self.tally.owners() == 1
        }
    }

    /// The first handle to `value`. The count begins with it.
    pub fn new(value: T) -> (r: Self)
        ensures
            r@ == value,
            r.is_counted(),
            r.counter().first() == 1,
            r.log() == Seq::<counter::CountEvent>::empty(),
    {
        let (count, tally) = Roll::new();
        let inner = std::sync::Arc::new(Inner { data: value, count });
        Arc { inner, tally, held: true }
    }

    fn inner(&self) -> (r: &Inner<T>)
        ensures
            r.data == self@,
            r.count.counter() == self.counter(),
        opens_invariants none
    {
        &self.inner
    }

    fn count(&self) -> (r: &Roll)
        ensures
            r.counter() == self.counter(),
        opens_invariants none
    {
        &self.inner().count
    }

    /// Gives the handle up, and says whether it was the last one. The allocation that the handles
    /// own together goes when none of them owns it any more.
    pub fn release(self) -> (r: (bool, Tally))
        requires
            self.is_held(),
        ensures
            r.1.is_true(),
            r.1.counter() == self.counter(),
            exists|found: usize|
                r.1.log() == self.log().push(
                    #[trigger] counter::event(counter::CountOp::Down, found),
                ) && r.0 == (found == 1),
        opens_invariants none
    {
        let mut handle = self;
        proof {
            use_type_invariant(&handle);
        }
        let mut tally = handle.count().tally();
        handle.held = false;
        core::mem::swap(&mut tally, &mut handle.tally);
        let found: usize = handle.count().leave(CountOp::Down, &mut tally);
        (is_last(found), tally)
    }
}

impl<T> Drop for Arc<T> {
    /// Gives the handle up, if that has not been done before.
    fn drop(&mut self)
        ensures
            !final(self).is_held(),
            final(self).counter() == old(self).counter(),
            !old(self).is_held() ==> final(self).tally() == old(self).tally(),
            old(self).is_held() ==> {
                &&& final(self).tally().is_true()
                &&& final(self).tally().counter() == old(self).counter()
                &&& exists|found: usize|
                    final(self).log() == old(self).log().push(
                        #[trigger] counter::event(counter::CountOp::Down, found),
                    )
            },
        opens_invariants none
        no_unwind
    {
        proof {
            use_type_invariant(&*self);
        }
        if self.held {
            self.held = false;
            self.inner.count.leave(CountOp::Down, &mut self.tally);
        }
    }
}

impl<T> Deref for Arc<T> {
    type Target = T;

    fn deref(&self) -> (r: &T)
        ensures
            *r == self@,
    {
        &self.inner().data
    }
}

impl<T> Clone for Arc<T> {
    fn clone(&self) -> (r: Self)
        ensures
            r@ == self@,
            r.is_counted(),
            r.counter() == self.counter(),
            exists|found: usize|
                r.log() == seq![#[trigger] counter::event(counter::CountOp::Up, found)],
    {
        let mut tally = self.count().join();
        let inner = share(&self.inner, &mut tally);
        Arc { inner, tally, held: true }
    }
}

} // verus!
