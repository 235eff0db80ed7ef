//! Waiting until a number of others are done.
use vstd::prelude::*;

use crate::cells;
use crate::counter;
use crate::counter::{is_last, CountOp, Counter, Roll, Tally};
use crate::shared::{share, Counted};

verus! {

/// A handle of a group, until it is done or dropped. Whoever waits does so for all handles but its
/// own.
pub struct WaitGroup {
    inner: std::sync::Arc<Inner>,
    tally: Tally,
    held: bool,
}

struct Inner(Roll);

impl Counted for Inner {
    closed spec fn counter(&self) -> Counter {
        self.0.counter()
    }
}

impl WaitGroup {
    /// The counter of the handles of the group.
    pub closed spec fn counter(&self) -> Counter {
        self.inner.0.counter()
    }

    /// What has been done to the count for this handle.
    pub closed spec fn tally(&self) -> Tally {
        self.tally
    }

    /// The handle has not been given up.
    pub closed spec fn is_held(&self) -> bool {
        self.held
    }

    /// The events of the tally.
    pub open spec fn log(&self) -> Seq<counter::CountEvent> {
        self.tally().log()
    }

    /// The handle is there and is counted once, where the others are, and owns what they share
    /// once.
    pub open spec fn is_counted(&self) -> bool {
        &&& self.is_held()
        &&& !self.counter().is_loose()
        &&& self.tally().is_true()
        &&& self.tally().counter() == self.counter()
        &&& counter::is_counted(self.log())
        &&& self.tally().standing() == 1
        &&& self.tally().owners() == 1
    }

    #[verifier::type_invariant]
    spec fn is_tallied(self) -> bool {
        self.held ==> {
            &&& self.tally.counter() == self.inner.0.counter()
            &&& counter::is_counted(self.tally.log())
            &&& self.tally.standing() == 1
            &&& self.tally.owners() == 1
        }
    }

    /// The first handle of a new group. The count begins with it.
    pub fn new() -> (r: Self)
        ensures
            r.is_counted(),
            r.counter().first() == 1,
            r.log() == Seq::<counter::CountEvent>::empty(),
    {
        let (count, tally) = Roll::new();
        let inner = std::sync::Arc::new(Inner(count));
        WaitGroup { inner, tally, held: true }
    }

    /// How many other handles the group has, by one look at the count, and the tally of that look.
    pub fn waiting_on(&self) -> (r: (usize, Tally))
        ensures
            r.1.is_true(),
            r.1.counter() == self.counter(),
            exists|found: usize|
                r.1.log() == seq![#[trigger] counter::event(counter::CountOp::Look, found)] && r.0
                    == counter::others_of(found),
        opens_invariants none
    {
        self.count().waiting_on()
    }

    /// Looks at most `turns` times whether all other handles are done, and says whether they are.
    /// The tally has what the looks found.
    pub fn wait(&self, turns: u32) -> (r: (bool, Tally))
        ensures
            r.1.is_true(),
            r.1.counter() == self.counter(),
            counter::watches(turns as nat, r.1.log(), r.0),
        opens_invariants none
    {
        self.count().wait(turns)
    }

    /// Says that the work that the handle stands for is done.
    pub fn done(self) -> (tally: Tally)
        requires
            self.is_held(),
        ensures
            tally.is_true(),
            tally.counter() == self.counter(),
            exists|found: usize|
                tally.log() == self.log().push(
                    #[trigger] counter::event(counter::CountOp::Leave, found),
                ),
        opens_invariants none
    {
        let (_, tally) = self.release();
        tally
    }

    /// Gives the handle up, and says whether it was the last one. The allocation that the handles
    /// own together goes when none of them owns it any more.
    pub fn release(self) -> (r: (bool, Tally))
        requires
            self.is_held(),
        ensures
            r.1.is_true(),
            r.1.counter() == self.counter(),
            exists|found: usize|
                r.1.log() == self.log().push(
                    #[trigger] counter::event(counter::CountOp::Leave, found),
                ) && r.0 == (found == 1),
        opens_invariants none
    {
        let mut handle = self;
        proof {
            use_type_invariant(&handle);
        }
        let mut tally = handle.count().tally();
        handle.held = false;
        core::mem::swap(&mut tally, &mut handle.tally);
        let found: usize = handle.count().leave(CountOp::Leave, &mut tally);
        (is_last(found), tally)
    }

    fn increment_count(&self) -> (tally: Tally)
        ensures
            tally.is_true(),
            tally.counter() == self.counter(),
            !self.counter().is_loose(),
            tally.standing() == 1,
            tally.owners() == 0,
            exists|found: usize|
                tally.log() == seq![#[trigger] counter::event(counter::CountOp::Up, found)],
        opens_invariants cells::all_joining()
    {
        self.count().join()
    }

    fn inner(&self) -> (r: &Inner)
        ensures
            r.0.counter() == self.counter(),
        opens_invariants none
    {
        &self.inner
    }

    fn count(&self) -> (r: &Roll)
        ensures
            r.counter() == self.counter(),
        opens_invariants none
    {
        &self.inner().0
    }
}

impl Drop for WaitGroup {
    /// Gives the handle up, if that has not been done before.
    fn drop(&mut self)
        ensures
            !final(self).is_held(),
            final(self).counter() == old(self).counter(),
            !old(self).is_held() ==> final(self).tally() == old(self).tally(),
            old(self).is_held() ==> {
                &&& final(self).tally().is_true()
                &&& final(self).tally().counter() == old(self).counter()
                &&& exists|found: usize|
                    final(self).log() == old(self).log().push(
                        #[trigger] counter::event(counter::CountOp::Leave, found),
                    )
            },
        opens_invariants none
        no_unwind
    {
        proof {
            use_type_invariant(&*self);
        }
        if self.held {
            self.held = false;
            self.inner.0.leave(CountOp::Leave, &mut self.tally);
        }
    }
}

impl Clone for WaitGroup {
    fn clone(&self) -> (r: Self)
        ensures
            r.is_counted(),
            r.counter() == self.counter(),
            exists|found: usize|
                r.log() == seq![#[trigger] counter::event(counter::CountOp::Up, found)],
    {
        let mut tally = self.increment_count();
        let inner = share(&self.inner, &mut tally);
        WaitGroup { inner, tally, held: true }
    }
}

} // verus!
