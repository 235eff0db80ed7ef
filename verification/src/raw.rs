//! A lock without a value to protect: the word that the threads share, and the calls on it.
use std::sync::atomic::Ordering;
use vstd::prelude::*;

use crate::cells;
use crate::cells::{arriving, claiming, Errand, SharedWord, WordTrace};
use crate::phase;
use crate::phase::{Phase, TryReadError, TryWriteError};
use crate::system::{has_lock_flag, has_queue_flag, is_counted};
use crate::word;
use crate::word::{Op, WRITE_LOCK_FLAG, WRITE_QUEUE_FLAG};

verus! {

/// `core::hint::spin_loop`: tells the processor that the thread is spinning. The call takes and
/// returns no value, so nothing is claimed of it.
pub assume_specification [ core::hint::spin_loop ]()
    opens_invariants none
;

/// The word that the readers and writers of one lock share.
pub struct RawLock {
    word: SharedWord,
}

/// The calls on the shared word `shared` that perform the events of a log.
pub open spec fn calls_of(shared: SharedWord, log: Seq<phase::Event>) -> Seq<cells::WordDone> {
    log.map_values(
        |event: phase::Event|
            cells::WordDone {
                word: shared,
                call: word::call_of(event.op),
                order: cells::Order::SeqCst,
                found: event.found,
            },
    )
}

/// Somebody who deals with a lock, what it has done, and the calls on the shared word that it has
/// made in doing so. There is nothing in it when the program runs.
///
/// What an operation finds in the word is up to all the threads that share the lock. The agent
/// remembers it, and the contracts say what is done for each word that may be found.
///
/// An agent acts in its own name, and a call on a lock lists the name of the agent that it is
/// handed and no other. So what the agent has done is all that the call has done to the word.
pub struct Agent {
    lock: Ghost<RawLock>,
    moves: Ghost<Seq<phase::Move>>,
    trace: WordTrace,
}

impl Agent {
    /// In whose name the agent acts.
    pub closed spec fn name(&self) -> int {
        self.trace.name()
    }

    /// The lock that the agent deals with.
    pub closed spec fn lock(&self) -> RawLock {
        self.lock@
    }

    /// What the agent has done.
    pub closed spec fn moves(&self) -> Seq<phase::Move> {
        self.moves@
    }

    /// The calls that the agent has made.
    pub closed spec fn calls(&self) -> Seq<cells::WordDone> {
        self.trace.done()
    }

    /// Where the agent stands.
    pub open spec fn phase(&self) -> Phase {
        phase::standing(self.moves())
    }

    /// What the agent has done to the word.
    pub open spec fn log(&self) -> Seq<phase::Event> {
        phase::events_in(self.moves())
    }

    /// The agent has done only what it might do, and its trace has, for each event in its log, the
    /// call on the word of its lock that performs it, and no other call.
    pub open spec fn is_true(&self) -> bool {
        &&& phase::is_proper(self.moves())
        &&& self.calls() == calls_of(self.lock().word(), self.log())
    }

    #[verifier::type_invariant]
    spec fn is_always_true(self) -> bool {
        self.is_true()
    }
}

/// What a function lists that performs `op` in this name.
pub open spec fn listed_for(op: Op, name: int) -> Set<int> {
    match op {
        Op::Arrive => Set::empty().insert(arriving(name)),
        Op::Claim | Op::Queue => Set::empty().insert(claiming(name)),
        _ => Set::empty(),
    }
}

/// What a function lists that goes on with a call in `phase` in this name. Those who come to read
/// set no flags, and those who come to write are not counted.
pub open spec fn listed_from(phase: Phase, name: int) -> Set<int> {
    if phase::is_readers(phase) {
        Set::empty().insert(arriving(name))
    } else {
        Set::empty().insert(claiming(name))
    }
}

/// An agent has what its phase says, by the calls that it has made: it is counted once or not at
/// all, and the flags are those that it has found clear and set.
pub proof fn agents_have_what_they_took(shared: SharedWord, moves: Seq<phase::Move>)
    requires
        phase::is_proper(moves),
    ensures
        ({
            let done = calls_of(shared, phase::events_in(moves));
            let standing = phase::standing(moves);
            let flags = cells::flags(done, shared);
            &&& cells::arrivals(done, shared) == if is_counted(standing) {
                1int
            } else {
                0
            }
            &&& flags.contains(WRITE_LOCK_FLAG) == has_lock_flag(standing)
            &&& flags.contains(WRITE_QUEUE_FLAG) == has_queue_flag(standing)
        }),
    decreases moves.len(),
{
    if moves.len() > 0 {
        let before = moves.drop_last();
        agents_have_what_they_took(shared, before);
        let log = phase::events_in(before);
        if let phase::Move::Act(event) = moves.last() {
            let done = calls_of(shared, log.push(event));
            assert(done.drop_last() =~= calls_of(shared, log));
            assert(done.last().call == word::call_of(event.op));
        }
    }
}

impl RawLock {
    /// The shared word.
    pub closed spec fn word(&self) -> SharedWord {
        self.word
    }

    /// The word that the lock was made with.
    pub open spec fn first(&self) -> u64 {
        self.word().first()
    }

    /// A lock that nobody holds: its word begins with no flag set and counts nobody.
    pub fn new() -> (r: RawLock)
        ensures
            r.first() == 0,
        opens_invariants none
        no_unwind
    {
        RawLock { word: SharedWord::new(0) }
    }

    /// An agent that has done nothing yet.
    pub fn agent(&self) -> (r: Agent)
        ensures
            r.is_true(),
            r.lock() == *self,
            r.phase() == Phase::Idle,
            r.moves() == Seq::<phase::Move>::empty(),
            r.log() == Seq::<phase::Event>::empty(),
        opens_invariants none
        no_unwind
    {
        let trace = WordTrace::new();
        assert(trace.done() =~= calls_of(self.word(), Seq::<phase::Event>::empty()));
        Agent { lock: Ghost(*self), moves: Ghost(Seq::empty()), trace }
    }

    /// An agent that comes on an errand and has done nothing yet. How many come on one is not
    /// stated.
    pub(crate) fn visitor(&self, errand: Errand) -> (r: Agent)
        ensures
            r.is_true(),
            r.name() == cells::name_of(errand),
            r.lock() == *self,
            r.phase() == Phase::Idle,
            r.moves() == Seq::<phase::Move>::empty(),
            r.log() == Seq::<phase::Event>::empty(),
        opens_invariants none
        no_unwind
    {
        let trace = WordTrace::on(errand);
        assert(trace.done() =~= calls_of(self.word(), Seq::<phase::Event>::empty()));
        Agent { lock: Ghost(*self), moves: Ghost(Seq::empty()), trace }
    }

    /// Performs one operation on the word and returns the word that it found.
    fn perform(&self, op: Op, agent: &mut Agent) -> (found: u64)
        requires
            old(agent).lock() == *self,
            phase::op_of(old(agent).phase()) == Some(op),
        ensures
            final(agent).name() == old(agent).name(),
            final(agent).lock() == *self,
            final(agent).moves() == old(agent).moves().push(
                phase::Move::Act(phase::Event { op, found }),
            ),
            final(agent).phase() == phase::next_of(old(agent).phase(), found),
            final(agent).log() == old(agent).log().push(phase::Event { op, found }),
        opens_invariants listed_for(op, old(agent).name())
        no_unwind
    {
        let mut taken = self.agent();
        core::mem::swap(&mut taken, agent);
        proof {
            use_type_invariant(&taken);
            agents_have_what_they_took(self.word(), taken.moves@);
        }
        let Agent { lock, moves, trace } = taken;
        let mut trace = trace;
        let found: u64 = match op {
            Op::Arrive => self.word.fetch_add(1, Ordering::SeqCst, &mut trace),
            Op::Leave => self.word.fetch_sub(1, Ordering::SeqCst, &mut trace),
            Op::Claim => self.word.fetch_or(WRITE_LOCK_FLAG, Ordering::SeqCst, &mut trace),
            Op::Unclaim => self.word.fetch_xor(WRITE_LOCK_FLAG, Ordering::SeqCst, &mut trace),
            Op::Queue => self.word.fetch_or(WRITE_QUEUE_FLAG, Ordering::SeqCst, &mut trace),
            Op::Unqueue => self.word.fetch_xor(WRITE_QUEUE_FLAG, Ordering::SeqCst, &mut trace),
            Op::Look => self.word.load(Ordering::SeqCst, &mut trace),
        };
        proof {
            let what = phase::Move::Act(phase::Event { op, found });
            phase::lemma_move(moves@, what);
            assert(trace.done() =~= calls_of(
                self.word(),
                phase::events_in(moves@).push(phase::Event { op, found }),
            ));
        }
        *agent = Agent {
            lock,
            moves: Ghost(moves@.push(phase::Move::Act(phase::Event { op, found }))),
            trace,
        };
        found
    }

    /// Takes the call that the agent is in through at most `turns` operations, until it comes to
    /// rest. `start` is the phase that the call is in, and the phase that comes back is the one
    /// that it is in then.
    fn advance(&self, start: Phase, turns: u64, agent: &mut Agent) -> (end: Phase)
        requires
            old(agent).lock() == *self,
            old(agent).phase() == start,
        ensures
            final(agent).name() == old(agent).name(),
            final(agent).lock() == *self,
            final(agent).phase() == end,
            old(agent).moves().is_prefix_of(final(agent).moves()),
            phase::logs(start, turns as nat, old(agent).log(), final(agent).log(), end),
        opens_invariants listed_from(start, old(agent).name())
    {
        let mut current = start;
        let mut left: u64 = turns;
        let ghost mut events: Seq<phase::Event> = Seq::empty();
        assert(agent.log() =~= old(agent).log() + events);
        while left > 0
            invariant
                left <= turns,
                agent.name() == old(agent).name(),
                agent.lock() == *self,
                agent.phase() == current,
                old(agent).moves().is_prefix_of(agent.moves()),
                agent.log() == old(agent).log() + events,
                events.len() == turns - left,
                phase::leads(start, events, current),
                phase::op_of(current) is Some ==> phase::is_readers(current) == phase::is_readers(
                    start,
                ),
            decreases left,
        {
            match current.op() {
                None => {
                    assert(phase::runs(start, turns as nat, events, current));
                    return current;
                },
                Some(op) => {
                    let found: u64 = self.perform(op, agent);
                    let next = current.next(found);
                    if next == current {
                        core::hint::spin_loop();
                    }
                    proof {
                        phase::lemma_one_more(start, events, current, found);
                        events = events.push(phase::Event { op, found });
                        assert(agent.log() =~= old(agent).log() + events);
                    }
                    current = next;
                    left = left - 1;
                },
            }
        }
        assert(phase::runs(start, turns as nat, events, current));
        current
    }

    /// Arrives as a reader at most `turns` times, until an arrival finds no flag of a writer, and
    /// says whether one did. Every other arrival is taken back.
    pub fn read(&self, turns: u32, agent: &mut Agent) -> (granted: bool)
        requires
            old(agent).lock() == *self,
            phase::is_at_leisure(old(agent).phase()),
        ensures
            final(agent).is_true(),
            final(agent).name() == old(agent).name(),
            final(agent).lock() == *self,
            old(agent).moves().is_prefix_of(final(agent).moves()),
            final(agent).phase() == if granted {
                Phase::Reading
            } else {
                Phase::Idle
            },
            phase::logs(
                Phase::ReadArriving,
                2 * turns as nat,
                old(agent).log(),
                final(agent).log(),
                phase::end_of_read(granted),
            ),
        opens_invariants [arriving(old(agent).name())]
    {
        proof {
            use_type_invariant(&*agent);
            phase::lemma_move(agent.moves@, phase::Move::Begin(Phase::ReadArriving));
            agent.moves@ = agent.moves@.push(phase::Move::Begin(Phase::ReadArriving));
        }
        let end = self.advance(Phase::ReadArriving, 2 * (turns as u64), agent);
        proof {
            let events = phase::lemma_logged(
                Phase::ReadArriving,
                2 * turns as nat,
                old(agent).log(),
                agent.log(),
                end,
            );
            phase::reads_wait_for_writers(events, end);
            use_type_invariant(&*agent);
            if end == Phase::ReadArriving {
                let before = agent.moves@;
                let n = old(agent).moves().len() as int;
                phase::lemma_move(before, phase::Move::GiveUp);
                agent.moves@ = before.push(phase::Move::GiveUp);
                assert(agent.moves@.subrange(0, n) =~= before.subrange(0, n));
            }
        }
        end == Phase::Reading
    }

    /// Arrives as a reader once. If that finds a flag of a writer, it is taken back, and the
    /// attempt is refused.
    pub fn try_read(&self, agent: &mut Agent) -> (refusal: Option<TryReadError>)
        requires
            old(agent).lock() == *self,
            phase::is_at_leisure(old(agent).phase()),
        ensures
            final(agent).is_true(),
            final(agent).name() == old(agent).name(),
            final(agent).lock() == *self,
            old(agent).moves().is_prefix_of(final(agent).moves()),
            final(agent).phase() == phase::end_of_read_attempt(refusal),
            phase::logs(
                Phase::TryReadArriving,
                2,
                old(agent).log(),
                final(agent).log(),
                phase::end_of_read_attempt(refusal),
            ),
        opens_invariants [arriving(old(agent).name())]
    {
        proof {
            use_type_invariant(&*agent);
            phase::lemma_move(agent.moves@, phase::Move::Begin(Phase::TryReadArriving));
            agent.moves@ = agent.moves@.push(phase::Move::Begin(Phase::TryReadArriving));
        }
        let end = self.advance(Phase::TryReadArriving, 2, agent);
        proof {
            let events = phase::lemma_logged(
                Phase::TryReadArriving,
                2,
                old(agent).log(),
                agent.log(),
                end,
            );
            phase::read_attempts_never_block(2, events, end);
            use_type_invariant(&*agent);
        }
        match end {
            Phase::ReadRefused(why) => Some(why),
            _ => None,
        }
    }

    /// Gives read access up.
    pub fn release_read(&self, agent: &mut Agent)
        requires
            old(agent).lock() == *self,
            old(agent).phase() == Phase::Reading,
        ensures
            final(agent).is_true(),
            final(agent).name() == old(agent).name(),
            final(agent).lock() == *self,
            old(agent).moves().is_prefix_of(final(agent).moves()),
            final(agent).phase() == Phase::Idle,
            phase::logs(
                Phase::ReadLeaving,
                1,
                old(agent).log(),
                final(agent).log(),
                Phase::Idle,
            ),
        opens_invariants none
        no_unwind
    {
        proof {
            use_type_invariant(&*agent);
            phase::lemma_move(agent.moves@, phase::Move::Release);
            agent.moves@ = agent.moves@.push(phase::Move::Release);
        }
        let found: u64 = self.perform(Op::Leave, agent);
        proof {
            let done = phase::Event { op: Op::Leave, found };
            phase::lemma_one_operation(Phase::ReadLeaving, done, old(agent).log());
            use_type_invariant(&*agent);
        }
    }

    /// Begins a blocking write.
    pub fn claim(&self, agent: &mut Agent) -> (start: Phase)
        requires
            old(agent).lock() == *self,
            phase::is_at_leisure(old(agent).phase()),
        ensures
            start == Phase::WriteClaiming,
            final(agent).is_true(),
            final(agent).name() == old(agent).name(),
            final(agent).lock() == *self,
            old(agent).moves().is_prefix_of(final(agent).moves()),
            final(agent).phase() == start,
            final(agent).log() == old(agent).log(),
        opens_invariants none
    {
        proof {
            use_type_invariant(&*agent);
            phase::lemma_move(agent.moves@, phase::Move::Begin(Phase::WriteClaiming));
            agent.moves@ = agent.moves@.push(phase::Move::Begin(Phase::WriteClaiming));
        }
        Phase::WriteClaiming
    }

    /// Goes on with a blocking write in the phase `start` for at most `turns` operations. The
    /// phase that comes back when these are used up is where to go on from.
    pub fn write(&self, start: Phase, turns: u32, agent: &mut Agent) -> (r: Result<(), Phase>)
        requires
            old(agent).lock() == *self,
            old(agent).phase() == start,
            phase::is_claim(start),
        ensures
            r matches Err(end) ==> phase::is_claim(end),
            final(agent).is_true(),
            final(agent).name() == old(agent).name(),
            final(agent).lock() == *self,
            old(agent).moves().is_prefix_of(final(agent).moves()),
            final(agent).phase() == phase::end_of_write(r),
            phase::logs(
                start,
                turns as nat,
                old(agent).log(),
                final(agent).log(),
                phase::end_of_write(r),
            ),
        opens_invariants [claiming(old(agent).name())]
    {
        let end = self.advance(start, turns as u64, agent);
        proof {
            let events = phase::lemma_logged(
                start,
                turns as nat,
                old(agent).log(),
                agent.log(),
                end,
            );
            phase::writes_wait_for_readers(start, events, end);
            use_type_invariant(&*agent);
        }
        if end == Phase::Writing {
            Ok(())
        } else {
            Err(end)
        }
    }

    /// Sets the lock flag and looks for readers. If another writer has set a flag before, or
    /// there are readers, that is taken back, and the attempt is refused.
    pub fn try_write(&self, agent: &mut Agent) -> (refusal: Option<TryWriteError>)
        requires
            old(agent).lock() == *self,
            phase::is_at_leisure(old(agent).phase()),
        ensures
            final(agent).is_true(),
            final(agent).name() == old(agent).name(),
            final(agent).lock() == *self,
            old(agent).moves().is_prefix_of(final(agent).moves()),
            final(agent).phase() == phase::end_of_write_attempt(refusal),
            phase::logs(
                Phase::TryWriteClaiming,
                3,
                old(agent).log(),
                final(agent).log(),
                phase::end_of_write_attempt(refusal),
            ),
        opens_invariants [claiming(old(agent).name())]
    {
        proof {
            use_type_invariant(&*agent);
            phase::lemma_move(agent.moves@, phase::Move::Begin(Phase::TryWriteClaiming));
            agent.moves@ = agent.moves@.push(phase::Move::Begin(Phase::TryWriteClaiming));
        }
        let end = self.advance(Phase::TryWriteClaiming, 3, agent);
        proof {
            let events = phase::lemma_logged(
                Phase::TryWriteClaiming,
                3,
                old(agent).log(),
                agent.log(),
                end,
            );
            phase::write_attempts_never_block(3, events, end);
            use_type_invariant(&*agent);
        }
        match end {
            Phase::WriteRefused(why) => Some(why),
            _ => None,
        }
    }

    /// Gives write access up.
    pub fn release_write(&self, agent: &mut Agent)
        requires
            old(agent).lock() == *self,
            old(agent).phase() == Phase::Writing,
        ensures
            final(agent).is_true(),
            final(agent).name() == old(agent).name(),
            final(agent).lock() == *self,
            old(agent).moves().is_prefix_of(final(agent).moves()),
            final(agent).phase() == Phase::Idle,
            phase::logs(
                Phase::WriteLeaving,
                1,
                old(agent).log(),
                final(agent).log(),
                Phase::Idle,
            ),
        opens_invariants none
        no_unwind
    {
        proof {
            use_type_invariant(&*agent);
            phase::lemma_move(agent.moves@, phase::Move::Release);
            agent.moves@ = agent.moves@.push(phase::Move::Release);
        }
        let found: u64 = self.perform(Op::Unclaim, agent);
        proof {
            let done = phase::Event { op: Op::Unclaim, found };
            phase::lemma_one_operation(Phase::WriteLeaving, done, old(agent).log());
            use_type_invariant(&*agent);
        }
    }
}

} // verus!
