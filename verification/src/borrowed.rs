//! A lock around a value that lives somewhere else.
use vstd::prelude::*;

use crate::cells::{arriving, claiming, name_of, Errand};
use crate::phase;
use crate::phase::Phase;
use crate::raw::Agent;
use crate::rwlock;
use crate::rwlock::{ReadGuard, WriteClaim, WriteGuard};

verus! {

/// A value, owned by somebody else, that many may read at a time or one may write.
///
/// The value outlives the lock, so a guard always finds it.
pub struct RWLock<'d, T> {
    inner: rwlock::RWLock<&'d T>,
}

impl<'d, T> RWLock<'d, T> {
    /// The lock, as one that owns the reference to the value.
    pub closed spec fn inner(&self) -> &rwlock::RWLock<&'d T> {
        &self.inner
    }

    /// A lock around `*data` that nobody holds.
    pub fn new(data: &'d T) -> (r: Self)
        ensures
            r.inner()@ == data,
            r.inner().raw().first() == 0,
        opens_invariants none
    {
        RWLock { inner: rwlock::RWLock::new(data) }
    }

    /// Waits for read access and arrives at the lock at most `turns` times. If every arrival found
    /// a writer, the agent that comes back shows what they found.
    pub fn read_lock(&self, turns: u32) -> (r: Result<ReadGuard<'_, &'d T>, Agent>)
        ensures
            match r {
                Ok(guard) => {
                    &&& guard.is_of(self.inner())
                    &&& phase::runs(
                        Phase::ReadArriving,
                        2 * turns as nat,
                        guard.log(),
                        Phase::Reading,
                    )
                },
                Err(agent) => {
                    &&& agent.is_true()
                    &&& agent.lock() == self.inner().raw()
                    &&& agent.phase() == Phase::Idle
                    &&& phase::runs(
                        Phase::ReadArriving,
                        2 * turns as nat,
                        agent.log(),
                        Phase::ReadArriving,
                    )
                },
            },
        opens_invariants [arriving(name_of(Errand::Read))]
    {
        self.inner.read(turns)
    }

    /// Begins to wait for write access and spends at most `turns` operations on the lock word. The
    /// claim that comes back when these are used up keeps the writer's place.
    pub fn write_lock(&self, turns: u32) -> (r: Result<
        WriteGuard<'_, &'d T>,
        WriteClaim<'_, &'d T>,
    >)
        ensures
            match r {
                Ok(guard) => {
                    &&& guard.is_of(self.inner())
                    &&& phase::runs(
                        Phase::WriteClaiming,
                        turns as nat,
                        guard.log(),
                        Phase::Writing,
                    )
                },
                Err(claim) => {
                    &&& claim.is_of(self.inner())
                    &&& phase::runs(
                        Phase::WriteClaiming,
                        turns as nat,
                        claim.log(),
                        claim.phase(),
                    )
                },
            },
        opens_invariants [claiming(name_of(Errand::Write))]
    {
        self.inner.write(turns)
    }
}

} // verus!
