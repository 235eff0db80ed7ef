//! A lock that owns the value it protects.
//!
//! Other threads decide how long a call on a lock has to wait. A call that may have to wait
//! therefore takes the number of turns that it may spend on that, and says whether they were
//! enough.
use std::ops::Deref;
use vstd::prelude::*;

use crate::cells::{arriving, claiming, name_of, Errand};
use crate::phase;
use crate::phase::Phase;
use crate::raw::{Agent, RawLock};

pub use crate::phase::{TryReadError, TryWriteError};

verus! {

/// A value that many may read at a time or one may write.
///
/// The guards give shared references to the value. A value that a writer is to change brings its
/// own means of doing so behind a shared reference.
pub struct RWLock<T> {
    lock: RawLock,
    data: T,
}

/// Read access to the value of a lock, until it is released or dropped.
///
/// The guard keeps the agent that got the access, and the agent's log shows how.
#[must_use]
pub struct ReadGuard<'a, T> {
    lock: &'a RWLock<T>,
    agent: Agent,
    held: bool,
}

/// Write access to the value of a lock, until it is released or dropped.
///
/// The guard keeps the agent that got the access, and the agent's log shows how.
#[must_use]
pub struct WriteGuard<'a, T> {
    lock: &'a RWLock<T>,
    agent: Agent,
    held: bool,
}

/// A write that has begun and still waits for access. It is there to be resumed: a claim that is
/// dropped keeps its place in the lock word for good.
#[must_use]
pub struct WriteClaim<'a, T> {
    lock: &'a RWLock<T>,
    agent: Agent,
    phase: Phase,
}

impl<T> View for RWLock<T> {
    type V = T;

    closed spec fn view(&self) -> T {
        self.data
    }
}

impl<'a, T> ReadGuard<'a, T> {
    /// The lock that the guard gives access to.
    pub closed spec fn lock(&self) -> &'a RWLock<T> {
        self.lock
    }

    /// Who has the access.
    pub closed spec fn agent(&self) -> Agent {
        self.agent
    }

    /// The access has not been given up.
    pub closed spec fn is_held(&self) -> bool {
        self.held
    }

    /// What was done to the lock word to get the access.
    pub open spec fn log(&self) -> Seq<phase::Event> {
        self.agent().log()
    }

    /// The guard stands for read access to `lock`, and so does the agent that got it.
    pub open spec fn is_of(&self, lock: &RWLock<T>) -> bool {
        &&& self.is_held()
        &&& self.lock() == lock
        &&& self.agent().is_true()
        &&& self.agent().lock() == lock.raw()
        &&& self.agent().phase() == Phase::Reading
    }

    /// Nobody has a guard but by a call that was granted read access.
    #[verifier::type_invariant]
    spec fn is_granted(self) -> bool {
        self.held ==> {
            &&& self.agent.lock() == self.lock.lock
            &&& self.agent.phase() == Phase::Reading
            &&& phase::leads(Phase::ReadArriving, self.agent.log(), Phase::Reading) || phase::leads(
                Phase::TryReadArriving,
                self.agent.log(),
                Phase::Reading,
            )
        }
    }

    /// Gives the access up, and returns the agent that had it.
    pub fn release(self) -> (agent: Agent)
        requires
            self.is_held(),
        ensures
            agent.is_true(),
            agent.lock() == self.lock().raw(),
            agent.phase() == Phase::Idle,
            self.agent().moves().is_prefix_of(agent.moves()),
            phase::logs(Phase::ReadLeaving, 1, self.log(), agent.log(), Phase::Idle),
        opens_invariants none
    {
        let mut guard = self;
        proof {
            use_type_invariant(&guard);
        }
        let lock = guard.lock;
        let mut agent = lock.lock.agent();
        guard.held = false;
        core::mem::swap(&mut agent, &mut guard.agent);
        lock.release_read_lock(&mut agent);
        agent
    }
}

impl<'a, T> Drop for ReadGuard<'a, T> {
    /// Gives the access up, if that has not been done before.
    fn drop(&mut self)
        ensures
            !final(self).is_held(),
            final(self).lock() == old(self).lock(),
            !old(self).is_held() ==> final(self).agent() == old(self).agent(),
            old(self).is_held() ==> {
                &&& final(self).agent().is_true()
                &&& final(self).agent().lock() == old(self).lock().raw()
                &&& final(self).agent().phase() == Phase::Idle
                &&& old(self).agent().moves().is_prefix_of(final(self).agent().moves())
                &&& phase::logs(
                    Phase::ReadLeaving,
                    1,
                    old(self).log(),
                    final(self).log(),
                    Phase::Idle,
                )
            },
        opens_invariants none
        no_unwind
    {
        proof {
            use_type_invariant(&*self);
        }
        if self.held {
            self.held = false;
            self.lock.release_read_lock(&mut self.agent);
        }
    }
}

impl<'a, T> Deref for ReadGuard<'a, T> {
    type Target = T;

    fn deref(&self) -> (r: &T)
        ensures
            *r == self.lock()@,
    {
        &self.lock.data
    }
}

impl<'a, T> WriteGuard<'a, T> {
    /// The lock that the guard gives access to.
    pub closed spec fn lock(&self) -> &'a RWLock<T> {
        self.lock
    }

    /// Who has the access.
    pub closed spec fn agent(&self) -> Agent {
        self.agent
    }

    /// The access has not been given up.
    pub closed spec fn is_held(&self) -> bool {
        self.held
    }

    /// What was done to the lock word to get the access.
    pub open spec fn log(&self) -> Seq<phase::Event> {
        self.agent().log()
    }

    /// The guard stands for write access to `lock`, and so does the agent that got it.
    pub open spec fn is_of(&self, lock: &RWLock<T>) -> bool {
        &&& self.is_held()
        &&& self.lock() == lock
        &&& self.agent().is_true()
        &&& self.agent().lock() == lock.raw()
        &&& self.agent().phase() == Phase::Writing
    }

    /// Nobody has a guard but by a call that was granted write access.
    #[verifier::type_invariant]
    spec fn is_granted(self) -> bool {
        self.held ==> {
            &&& self.agent.lock() == self.lock.lock
            &&& self.agent.phase() == Phase::Writing
            &&& phase::leads(Phase::WriteClaiming, self.agent.log(), Phase::Writing) || phase::leads(
                Phase::TryWriteClaiming,
                self.agent.log(),
                Phase::Writing,
            )
        }
    }

    /// Gives the access up, and returns the agent that had it.
    pub fn release(self) -> (agent: Agent)
        requires
            self.is_held(),
        ensures
            agent.is_true(),
            agent.lock() == self.lock().raw(),
            agent.phase() == Phase::Idle,
            self.agent().moves().is_prefix_of(agent.moves()),
            phase::logs(Phase::WriteLeaving, 1, self.log(), agent.log(), Phase::Idle),
        opens_invariants none
    {
        let mut guard = self;
        proof {
            use_type_invariant(&guard);
        }
        let lock = guard.lock;
        let mut agent = lock.lock.agent();
        guard.held = false;
        core::mem::swap(&mut agent, &mut guard.agent);
        lock.release_write_lock(&mut agent);
        agent
    }
}

impl<'a, T> Drop for WriteGuard<'a, T> {
    /// Gives the access up, if that has not been done before.
    fn drop(&mut self)
        ensures
            !final(self).is_held(),
            final(self).lock() == old(self).lock(),
            !old(self).is_held() ==> final(self).agent() == old(self).agent(),
            old(self).is_held() ==> {
                &&& final(self).agent().is_true()
                &&& final(self).agent().lock() == old(self).lock().raw()
                &&& final(self).agent().phase() == Phase::Idle
                &&& old(self).agent().moves().is_prefix_of(final(self).agent().moves())
                &&& phase::logs(
                    Phase::WriteLeaving,
                    1,
                    old(self).log(),
                    final(self).log(),
                    Phase::Idle,
                )
            },
        opens_invariants none
        no_unwind
    {
        proof {
            use_type_invariant(&*self);
        }
        if self.held {
            self.held = false;
            self.lock.release_write_lock(&mut self.agent);
        }
    }
}

impl<'a, T> Deref for WriteGuard<'a, T> {
    type Target = T;

    fn deref(&self) -> (r: &T)
        ensures
            *r == self.lock()@,
    {
        &self.lock.data
    }
}

impl<'a, T> WriteClaim<'a, T> {
    /// The lock that the claim is made on.
    pub closed spec fn lock(&self) -> &'a RWLock<T> {
        self.lock
    }

    /// Who makes the claim.
    pub closed spec fn agent(&self) -> Agent {
        self.agent
    }

    /// What was done to the lock word so far.
    pub open spec fn log(&self) -> Seq<phase::Event> {
        self.agent().log()
    }

    /// How far the write has come.
    pub closed spec fn phase(&self) -> Phase {
        self.phase
    }

    /// The claim is one on `lock`, and its agent stands where it does, short of access.
    pub open spec fn is_of(&self, lock: &RWLock<T>) -> bool {
        &&& self.lock() == lock
        &&& self.agent().is_true()
        &&& self.agent().lock() == lock.raw()
        &&& self.agent().phase() == self.phase()
        &&& phase::is_claim(self.phase())
    }

    /// A claim stands where its log leads, and that is short of access.
    #[verifier::type_invariant]
    spec fn is_waiting(self) -> bool {
        &&& self.agent.lock() == self.lock.lock
        &&& self.agent.phase() == self.phase
        &&& phase::is_claim(self.phase)
        &&& phase::leads(Phase::WriteClaiming, self.agent.log(), self.phase)
    }

    /// Goes on with the write for at most `turns` more operations on the lock word.
    pub fn resume(self, turns: u32) -> (r: Result<WriteGuard<'a, T>, WriteClaim<'a, T>>)
        ensures
            match r {
                Ok(guard) => {
                    &&& guard.is_of(self.lock())
                    &&& guard.agent().name() == self.agent().name()
                    &&& self.agent().moves().is_prefix_of(guard.agent().moves())
                    &&& phase::logs(
                        self.phase(),
                        turns as nat,
                        self.log(),
                        guard.log(),
                        Phase::Writing,
                    )
                },
                Err(claim) => {
                    &&& claim.is_of(self.lock())
                    &&& claim.agent().name() == self.agent().name()
                    &&& self.agent().moves().is_prefix_of(claim.agent().moves())
                    &&& phase::logs(
                        self.phase(),
                        turns as nat,
                        self.log(),
                        claim.log(),
                        claim.phase(),
                    )
                },
            },
        opens_invariants [claiming(self.agent().name())]
    {
        proof {
            use_type_invariant(&self);
        }
        let ghost before = self.agent.log();
        let lock = self.lock;
        let start = self.phase;
        let mut agent = self.agent;
        let r = lock.lock.write(start, turns, &mut agent);
        proof {
            let end = phase::end_of_write(r);
            let events = phase::lemma_logged(start, turns as nat, before, agent.log(), end);
            phase::calls_can_be_resumed(Phase::WriteClaiming, before, start, events, end);
        }
        match r {
            Ok(()) => Ok(WriteGuard { lock, agent, held: true }),
            Err(end) => Err(WriteClaim { lock, agent, phase: end }),
        }
    }
}

impl<T> RWLock<T> {
    /// The lock itself, without the value.
    pub closed spec fn raw(&self) -> RawLock {
        self.lock
    }

    /// A lock around `value` that nobody holds.
    pub fn new(value: T) -> (r: Self)
        ensures
            r@ == value,
            r.raw().first() == 0,
        opens_invariants none
    {
        RWLock { lock: RawLock::new(), data: value }
    }

    /// Waits for read access and arrives at the lock at most `turns` times. If every arrival found
    /// a writer, the agent that comes back shows what they found.
    pub fn read(&self, turns: u32) -> (r: Result<ReadGuard<'_, T>, Agent>)
        ensures
            match r {
                Ok(guard) => {
                    &&& guard.is_of(self)
                    &&& phase::runs(
                        Phase::ReadArriving,
                        2 * turns as nat,
                        guard.log(),
                        Phase::Reading,
                    )
                },
                Err(agent) => {
                    &&& agent.is_true()
                    &&& agent.lock() == self.raw()
                    &&& agent.phase() == Phase::Idle
                    &&& phase::runs(
                        Phase::ReadArriving,
                        2 * turns as nat,
                        agent.log(),
                        Phase::ReadArriving,
                    )
                },
            },
        opens_invariants [arriving(name_of(Errand::Read))]
    {
        let mut agent = self.lock.visitor(Errand::Read);
        let granted: bool = self.lock.read(turns, &mut agent);
        proof {
            phase::lemma_log_from_nothing(
                Phase::ReadArriving,
                2 * turns as nat,
                agent.log(),
                phase::end_of_read(granted),
            );
        }
        if granted {
            Ok(ReadGuard { lock: self, agent, held: true })
        } else {
            Err(agent)
        }
    }

    /// Tries to get read access without waiting. The word that the attempt finds decides, and the
    /// agent of a refused attempt shows what that was.
    pub fn try_read(&self) -> (r: Result<ReadGuard<'_, T>, (TryReadError, Agent)>)
        ensures
            match r {
                Ok(guard) => {
                    &&& guard.is_of(self)
                    &&& phase::runs(Phase::TryReadArriving, 2, guard.log(), Phase::Reading)
                },
                Err((why, agent)) => {
                    &&& agent.is_true()
                    &&& agent.lock() == self.raw()
                    &&& agent.phase() == Phase::ReadRefused(why)
                    &&& phase::runs(
                        Phase::TryReadArriving,
                        2,
                        agent.log(),
                        Phase::ReadRefused(why),
                    )
                },
            },
        opens_invariants [arriving(name_of(Errand::TryRead))]
    {
        let mut agent = self.lock.visitor(Errand::TryRead);
        let refusal = self.lock.try_read(&mut agent);
        proof {
            phase::lemma_log_from_nothing(
                Phase::TryReadArriving,
                2,
                agent.log(),
                phase::end_of_read_attempt(refusal),
            );
        }
        match refusal {
            None => Ok(ReadGuard { lock: self, agent, held: true }),
            Some(why) => Err((why, agent)),
        }
    }

    fn release_read_lock(&self, agent: &mut Agent)
        requires
            old(agent).lock() == self.raw(),
            old(agent).phase() == Phase::Reading,
        ensures
            final(agent).is_true(),
            final(agent).lock() == self.raw(),
            final(agent).phase() == Phase::Idle,
            old(agent).moves().is_prefix_of(final(agent).moves()),
            phase::logs(
                Phase::ReadLeaving,
                1,
                old(agent).log(),
                final(agent).log(),
                Phase::Idle,
            ),
        opens_invariants none
        no_unwind
    {
        self.lock.release_read(agent);
    }

    /// Begins to wait for write access and spends at most `turns` operations on the lock word. The
    /// claim that comes back when these are used up keeps the writer's place.
    pub fn write(&self, turns: u32) -> (r: Result<WriteGuard<'_, T>, WriteClaim<'_, T>>)
        ensures
            match r {
                Ok(guard) => {
                    &&& guard.is_of(self)
                    &&& phase::runs(
                        Phase::WriteClaiming,
                        turns as nat,
                        guard.log(),
                        Phase::Writing,
                    )
                },
                Err(claim) => {
                    &&& claim.is_of(self)
                    &&& phase::runs(
                        Phase::WriteClaiming,
                        turns as nat,
                        claim.log(),
                        claim.phase(),
                    )
                },
            },
        opens_invariants [claiming(name_of(Errand::Write))]
    {
        let mut agent = self.lock.visitor(Errand::Write);
        let start = self.lock.claim(&mut agent);
        let claim = WriteClaim { lock: self, agent, phase: start };
        match claim.resume(turns) {
            Ok(guard) => {
                proof {
                    phase::lemma_log_from_nothing(
                        Phase::WriteClaiming,
                        turns as nat,
                        guard.log(),
                        Phase::Writing,
                    );
                }
                Ok(guard)
            },
            Err(claim) => {
                proof {
                    phase::lemma_log_from_nothing(
                        Phase::WriteClaiming,
                        turns as nat,
                        claim.log(),
                        claim.phase(),
                    );
                }
                Err(claim)
            },
        }
    }

    /// Tries to get write access without waiting. The words that the attempt finds decide, and the
    /// agent of a refused attempt shows what they were.
    pub fn try_write(&self) -> (r: Result<WriteGuard<'_, T>, (TryWriteError, Agent)>)
        ensures
            match r {
                Ok(guard) => {
                    &&& guard.is_of(self)
                    &&& phase::runs(Phase::TryWriteClaiming, 3, guard.log(), Phase::Writing)
                },
                Err((why, agent)) => {
                    &&& agent.is_true()
                    &&& agent.lock() == self.raw()
                    &&& agent.phase() == Phase::WriteRefused(why)
                    &&& phase::runs(
                        Phase::TryWriteClaiming,
                        3,
                        agent.log(),
                        Phase::WriteRefused(why),
                    )
                },
            },
        opens_invariants [claiming(name_of(Errand::TryWrite))]
    {
        let mut agent = self.lock.visitor(Errand::TryWrite);
        let refusal = self.lock.try_write(&mut agent);
        proof {
            phase::lemma_log_from_nothing(
                Phase::TryWriteClaiming,
                3,
                agent.log(),
                phase::end_of_write_attempt(refusal),
            );
        }
        match refusal {
            None => Ok(WriteGuard { lock: self, agent, held: true }),
            Some(why) => Err((why, agent)),
        }
    }

    fn release_write_lock(&self, agent: &mut Agent)
        requires
            old(agent).lock() == self.raw(),
            old(agent).phase() == Phase::Writing,
        ensures
            final(agent).is_true(),
            final(agent).lock() == self.raw(),
            final(agent).phase() == Phase::Idle,
            old(agent).moves().is_prefix_of(final(agent).moves()),
            phase::logs(
                Phase::WriteLeaving,
                1,
                old(agent).log(),
                final(agent).log(),
                Phase::Idle,
            ),
        opens_invariants none
        no_unwind
    {
        self.lock.release_write(agent);
    }
}

} // verus!
