//! How a reader or a writer goes about a lock, one atomic operation at a time.
//!
//! A [`Phase`] says how far one call has come. It names the operation to perform on the lock word
//! next, and the word that the operation found decides what comes after it. All that a call does
//! to a lock is in this table, so the table is also what the laws in [`crate::system`] speak of.
use vstd::prelude::*;

use crate::word::{is_flagged, is_locked, is_queued, parts, reader_count, Op};

verus! {

/// Why a lock could not be acquired for reading at once.
#[derive(Clone, Copy, PartialEq, Eq, Structural, Debug)]
pub enum TryReadError {
    /// A writer holds the lock or waits for the readers to leave.
    HasWriter,
    /// No writer holds the lock, but one is queued for it.
    QueuedWriter,
}

/// Why a lock could not be acquired for writing at once.
#[derive(Clone, Copy, PartialEq, Eq, Structural, Debug)]
pub enum TryWriteError {
    /// A writer holds the lock or waits for the readers to leave.
    HasWriter,
    /// No writer holds the lock, but one is queued for it.
    QueuedWriter,
    /// No writer is about, but this many readers are.
    HasReaders(u64),
}

/// How far one call on a lock has come.
#[derive(Clone, Copy, PartialEq, Eq, Structural, Debug)]
pub enum Phase {
    /// At rest: holds nothing and wants nothing.
    Idle,
    /// Blocking read: about to be counted among the readers.
    ReadArriving,
    /// Blocking read: counted, but a writer was there first, so about to take that back.
    ReadRetreating,
    /// Read attempt: about to be counted among the readers.
    TryReadArriving,
    /// Read attempt: counted, but refused, so about to take that back.
    TryReadRetreating(TryReadError),
    /// At rest: a read attempt was refused.
    ReadRefused(TryReadError),
    /// At rest: has read access.
    Reading,
    /// About to give up read access.
    ReadLeaving,
    /// Blocking write: about to set the lock flag for the first time.
    WriteClaiming,
    /// Blocking write: another writer has the lock flag, so about to set the queue flag.
    WriteQueueing,
    /// Blocking write: has the queue flag and is about to set the lock flag.
    WriteQueued,
    /// Blocking write: has both flags and is about to clear the queue flag.
    WriteUnqueueing,
    /// Blocking write: has the lock flag and waits for the readers to leave. A writer that was
    /// queued comes here too, because readers may have arrived before it set the queue flag.
    WriteDraining,
    /// Write attempt: about to set the lock flag.
    TryWriteClaiming,
    /// Write attempt: has the lock flag and is about to look for readers.
    TryWriteChecking,
    /// Write attempt: has the lock flag, but is refused, so about to clear it. A queued writer
    /// waits for that.
    TryWriteYielding(TryWriteError),
    /// At rest: a write attempt was refused.
    WriteRefused(TryWriteError),
    /// At rest: has write access.
    Writing,
    /// About to give up write access.
    WriteLeaving,
}

/// Why a reader that found the word `seen` may not read, if it may not.
pub open spec fn refuses_reader(seen: u64) -> Option<TryReadError> {
    if parts(seen).locked {
        Some(TryReadError::HasWriter)
    } else if parts(seen).queued {
        Some(TryReadError::QueuedWriter)
    } else {
        None
    }
}

/// Why a writer that found the word `seen` may not have the lock flag, if it may not.
pub open spec fn refuses_claim(seen: u64) -> Option<TryWriteError> {
    if parts(seen).locked {
        Some(TryWriteError::HasWriter)
    } else if parts(seen).queued {
        Some(TryWriteError::QueuedWriter)
    } else {
        None
    }
}

/// Why a writer that has the lock flag and found the word `seen` may not write, if it may not.
pub open spec fn refuses_writer(seen: u64) -> Option<TryWriteError> {
    if parts(seen).readers > 0 {
        Some(TryWriteError::HasReaders(parts(seen).readers as u64))
    } else {
        None
    }
}

/// The operation that a call in `phase` performs next. A call at rest performs none.
pub open spec fn op_of(phase: Phase) -> Option<Op> {
    match phase {
        Phase::Idle => None,
        Phase::ReadArriving => Some(Op::Arrive),
        Phase::ReadRetreating => Some(Op::Leave),
        Phase::TryReadArriving => Some(Op::Arrive),
        Phase::TryReadRetreating(_) => Some(Op::Leave),
        Phase::ReadRefused(_) => None,
        Phase::Reading => None,
        Phase::ReadLeaving => Some(Op::Leave),
        Phase::WriteClaiming => Some(Op::Claim),
        Phase::WriteQueueing => Some(Op::Queue),
        Phase::WriteQueued => Some(Op::Claim),
        Phase::WriteUnqueueing => Some(Op::Unqueue),
        Phase::WriteDraining => Some(Op::Look),
        Phase::TryWriteClaiming => Some(Op::Claim),
        Phase::TryWriteChecking => Some(Op::Look),
        Phase::TryWriteYielding(_) => Some(Op::Unclaim),
        Phase::WriteRefused(_) => None,
        Phase::Writing => None,
        Phase::WriteLeaving => Some(Op::Unclaim),
    }
}

/// The phase that follows `phase` when its operation found the word `seen`.
pub open spec fn next_of(phase: Phase, seen: u64) -> Phase {
    match phase {
        Phase::ReadArriving => if refuses_reader(seen) is Some {
            Phase::ReadRetreating
        } else {
            Phase::Reading
        },
        Phase::ReadRetreating => Phase::ReadArriving,
        Phase::TryReadArriving => match refuses_reader(seen) {
            Some(why) => Phase::TryReadRetreating(why),
            None => Phase::Reading,
        },
        Phase::TryReadRetreating(why) => Phase::ReadRefused(why),
        Phase::ReadLeaving => Phase::Idle,
        Phase::WriteClaiming => if parts(seen).locked {
            Phase::WriteQueueing
        } else {
            Phase::WriteDraining
        },
        Phase::WriteQueueing => if parts(seen).queued {
            Phase::WriteQueueing
        } else {
            Phase::WriteQueued
        },
        Phase::WriteQueued => if parts(seen).locked {
            Phase::WriteQueued
        } else {
            Phase::WriteUnqueueing
        },
        Phase::WriteUnqueueing => Phase::WriteDraining,
        Phase::WriteDraining => if refuses_writer(seen) is Some {
            Phase::WriteDraining
        } else {
            Phase::Writing
        },
        Phase::TryWriteClaiming => match refuses_claim(seen) {
            Some(TryWriteError::HasWriter) => Phase::WriteRefused(TryWriteError::HasWriter),
            Some(why) => Phase::TryWriteYielding(why),
            None => Phase::TryWriteChecking,
        },
        Phase::TryWriteChecking => match refuses_writer(seen) {
            Some(why) => Phase::TryWriteYielding(why),
            None => Phase::Writing,
        },
        Phase::TryWriteYielding(why) => Phase::WriteRefused(why),
        Phase::WriteLeaving => Phase::Idle,
        _ => phase,
    }
}

/// One operation that was performed on a lock word, and the word that it found.
pub ghost struct Event {
    pub op: Op,
    pub found: u64,
}

/// Where a call that began in `start` stands when its operations found what `events` say.
pub open spec fn after(start: Phase, events: Seq<Event>) -> Phase
    decreases events.len(),
{
    if events.len() == 0 {
        start
    } else {
        next_of(after(start, events.drop_last()), events.last().found)
    }
}

/// `events` take a call from `start` to `end`: each operation is the one that the phase before it
/// calls for.
pub open spec fn leads(start: Phase, events: Seq<Event>, end: Phase) -> bool {
    &&& end == after(start, events)
    &&& forall|k: int|
        #![trigger events.take(k)]
        0 <= k < events.len() ==> op_of(after(start, events.take(k))) == Some(events[k].op)
}

/// `events` is what a call does that begins in `start` and is allowed `turns` operations, and
/// `end` is where it stands then: it stops when it comes to rest or has no turn left.
pub open spec fn runs(start: Phase, turns: nat, events: Seq<Event>, end: Phase) -> bool {
    &&& leads(start, events, end)
    &&& events.len() <= turns
    &&& op_of(end) is None || events.len() == turns
}

/// A call that began in `start` and was allowed `turns` operations has made the log `before` into
/// `later`, and stands at `end`.
pub open spec fn logs(
    start: Phase,
    turns: nat,
    before: Seq<Event>,
    later: Seq<Event>,
    end: Phase,
) -> bool {
    exists|events: Seq<Event>| #[trigger]
        runs(start, turns, events, end) && later == before + events
}

/// Why a write attempt is refused, if it is, when it found the word `first` on setting the lock
/// flag and the word `second` on looking for readers.
pub open spec fn refuses_attempt(first: u64, second: u64) -> Option<TryWriteError> {
    match refuses_claim(first) {
        Some(why) => Some(why),
        None => refuses_writer(second),
    }
}

/// Where a blocking read with no turn left stands.
pub open spec fn end_of_read(granted: bool) -> Phase {
    if granted {
        Phase::Reading
    } else {
        Phase::ReadArriving
    }
}

/// Where a read attempt that refuses for the reason `refusal`, if there is one, stands.
pub open spec fn end_of_read_attempt(refusal: Option<TryReadError>) -> Phase {
    match refusal {
        None => Phase::Reading,
        Some(why) => Phase::ReadRefused(why),
    }
}

/// Where a blocking write that came to `r` stands.
pub open spec fn end_of_write(r: Result<(), Phase>) -> Phase {
    match r {
        Ok(_) => Phase::Writing,
        Err(end) => end,
    }
}

/// Where a write attempt that refuses for the reason `refusal`, if there is one, stands.
pub open spec fn end_of_write_attempt(refusal: Option<TryWriteError>) -> Phase {
    match refusal {
        None => Phase::Writing,
        Some(why) => Phase::WriteRefused(why),
    }
}

/// The phases in which the calls that acquire a lock begin.
pub open spec fn begins(call: Phase) -> bool {
    ||| call == Phase::ReadArriving
    ||| call == Phase::TryReadArriving
    ||| call == Phase::WriteClaiming
    ||| call == Phase::TryWriteClaiming
}

/// An agent in this phase has no access and no call under way.
pub open spec fn is_at_leisure(phase: Phase) -> bool {
    phase is Idle || phase is ReadRefused || phase is WriteRefused
}

/// The phases of a blocking write that does not have access yet.
pub open spec fn is_claim(phase: Phase) -> bool {
    phase is WriteClaiming || phase is WriteQueueing || phase is WriteQueued
        || phase is WriteUnqueueing || phase is WriteDraining
}

/// The phases of those who come to read.
pub open spec fn is_readers(phase: Phase) -> bool {
    phase is ReadArriving || phase is ReadRetreating || phase is TryReadArriving
        || phase is TryReadRetreating || phase is ReadRefused || phase is Reading
        || phase is ReadLeaving
}

/// What somebody who deals with a lock does.
pub ghost enum Move {
    /// Begins the call whose first phase this is.
    Begin(Phase),
    /// Performs the next operation of the call.
    Act(Event),
    /// Begins to give access up.
    Release,
    /// Stops waiting for read access, while not counted among the readers.
    GiveUp,
}

/// The move can be made in `phase`.
pub open spec fn may_move(phase: Phase, what: Move) -> bool {
    match what {
        Move::Begin(call) => is_at_leisure(phase) && begins(call),
        Move::Act(event) => op_of(phase) == Some(event.op),
        Move::Release => phase is Reading || phase is Writing,
        Move::GiveUp => phase is ReadArriving,
    }
}

/// The phase after a move that is made in `phase`.
pub open spec fn moved(phase: Phase, what: Move) -> Phase {
    match what {
        Move::Begin(call) => call,
        Move::Act(event) => next_of(phase, event.found),
        Move::Release => if phase is Reading {
            Phase::ReadLeaving
        } else {
            Phase::WriteLeaving
        },
        Move::GiveUp => Phase::Idle,
    }
}

/// Where somebody stands who has made these moves and no others.
pub open spec fn standing(moves: Seq<Move>) -> Phase
    decreases moves.len(),
{
    if moves.len() == 0 {
        Phase::Idle
    } else {
        moved(standing(moves.drop_last()), moves.last())
    }
}

/// Each of the moves could be made when it was made.
pub open spec fn is_proper(moves: Seq<Move>) -> bool
    decreases moves.len(),
{
    moves.len() > 0 ==> is_proper(moves.drop_last()) && may_move(
        standing(moves.drop_last()),
        moves.last(),
    )
}

/// The operations that were performed in these moves.
pub open spec fn events_in(moves: Seq<Move>) -> Seq<Event>
    decreases moves.len(),
{
    if moves.len() == 0 {
        Seq::empty()
    } else {
        let before = events_in(moves.drop_last());
        match moves.last() {
            Move::Act(event) => before.push(event),
            _ => before,
        }
    }
}

/// One move more.
pub proof fn lemma_move(moves: Seq<Move>, what: Move)
    ensures
        standing(moves.push(what)) == moved(standing(moves), what),
        is_proper(moves.push(what)) == (is_proper(moves) && may_move(standing(moves), what)),
        events_in(moves.push(what)) == match what {
            Move::Act(event) => events_in(moves).push(event),
            _ => events_in(moves),
        },
{
    assert(moves.push(what).drop_last() =~= moves);
}

/// A read attempt never blocks: it is over after two operations, and the word that its first
/// operation finds decides it.
pub proof fn read_attempts_never_block(turns: nat, events: Seq<Event>, end: Phase)
    requires
        turns >= 2,
        runs(Phase::TryReadArriving, turns, events, end),
    ensures
        events.len() >= 1,
        events[0].op == Op::Arrive,
        match refuses_reader(events[0].found) {
            Some(why) => {
                &&& end == Phase::ReadRefused(why)
                &&& events.len() == 2
                &&& events[1].op == Op::Leave
            },
            None => end == Phase::Reading && events.len() == 1,
        },
{
    lemma_first_steps(Phase::TryReadArriving, events);
}

/// A write attempt never blocks: it is over after three operations, and the words that its first
/// two operations find decide it.
pub proof fn write_attempts_never_block(turns: nat, events: Seq<Event>, end: Phase)
    requires
        turns >= 3,
        runs(Phase::TryWriteClaiming, turns, events, end),
    ensures
        events.len() >= 1,
        events[0].op == Op::Claim,
        match refuses_claim(events[0].found) {
            Some(why) => {
                &&& end == Phase::WriteRefused(why)
                &&& if why == TryWriteError::HasWriter {
                    events.len() == 1
                } else {
                    events.len() == 2 && events[1].op == Op::Unclaim
                }
            },
            None => {
                &&& events.len() >= 2
                &&& events[1].op == Op::Look
                &&& match refuses_writer(events[1].found) {
                    Some(why) => {
                        &&& end == Phase::WriteRefused(why)
                        &&& events.len() == 3
                        &&& events[2].op == Op::Unclaim
                    },
                    None => end == Phase::Writing && events.len() == 2,
                }
            },
        },
{
    let start = Phase::TryWriteClaiming;
    lemma_first_steps(start, events);
    assert(events.len() >= 1 && events[0].op == Op::Claim);
    let first = after(start, events.take(1));
    assert(first == next_of(start, events[0].found));
    if events.len() >= 2 {
        assert(op_of(first) == Some(events[1].op));
        let second = after(start, events.take(2));
        if events.len() >= 3 {
            assert(op_of(second) == Some(events[2].op));
            let third = after(start, events.take(3));
            assert(op_of(third) is None);
        }
    }
}

/// Giving access up takes one operation, whatever that finds.
pub proof fn releases_never_block(turns: nat, start: Phase, events: Seq<Event>, end: Phase)
    requires
        turns >= 1,
        start == Phase::ReadLeaving || start == Phase::WriteLeaving,
        runs(start, turns, events, end),
    ensures
        end == Phase::Idle,
        events.len() == 1,
        events[0].op == if start == Phase::ReadLeaving {
            Op::Leave
        } else {
            Op::Unclaim
        },
{
    lemma_first_steps(start, events);
}

/// What a call has added to a log.
pub proof fn lemma_logged(
    start: Phase,
    turns: nat,
    before: Seq<Event>,
    later: Seq<Event>,
    end: Phase,
) -> (events: Seq<Event>)
    requires
        logs(start, turns, before, later, end),
    ensures
        runs(start, turns, events, end),
        later == before + events,
{
    choose|events: Seq<Event>| #[trigger]
        runs(start, turns, events, end) && later == before + events
}

/// A call that comes to rest after one operation.
pub proof fn lemma_one_operation(start: Phase, event: Event, before: Seq<Event>)
    requires
        op_of(start) == Some(event.op),
        op_of(next_of(start, event.found)) is None,
    ensures
        logs(start, 1, before, before.push(event), next_of(start, event.found)),
{
    let events = Seq::<Event>::empty().push(event);
    assert(leads(start, Seq::empty(), start));
    lemma_one_more(start, Seq::empty(), start, event.found);
    assert(before.push(event) =~= before + events);
    assert(runs(start, 1, events, next_of(start, event.found)));
}

/// A log that began empty is the run that was logged.
pub proof fn lemma_log_from_nothing(start: Phase, turns: nat, log: Seq<Event>, end: Phase)
    requires
        logs(start, turns, Seq::empty(), log, end),
    ensures
        runs(start, turns, log, end),
{
    let events = lemma_logged(start, turns, Seq::empty(), log, end);
    assert(log =~= events);
}

/// Where a call stands after its first, its second and its third operation.
proof fn lemma_first_steps(start: Phase, events: Seq<Event>)
    ensures
        after(start, events.take(0)) == start,
        events.len() >= 1 ==> after(start, events.take(1)) == next_of(start, events[0].found),
        events.len() >= 2 ==> after(start, events.take(2)) == next_of(
            after(start, events.take(1)),
            events[1].found,
        ),
        events.len() >= 3 ==> after(start, events.take(3)) == next_of(
            after(start, events.take(2)),
            events[2].found,
        ),
        events.take(events.len() as int) == events,
{
    assert(events.take(events.len() as int) =~= events);
    if events.len() >= 1 {
        assert(events.take(1).drop_last() =~= events.take(0));
    }
    if events.len() >= 2 {
        assert(events.take(2).drop_last() =~= events.take(1));
    }
    if events.len() >= 3 {
        assert(events.take(3).drop_last() =~= events.take(2));
    }
}

/// A call can be interrupted between any two operations and taken up again where it stood.
pub proof fn calls_can_be_resumed(
    start: Phase,
    first: Seq<Event>,
    middle: Phase,
    second: Seq<Event>,
    end: Phase,
)
    requires
        leads(start, first, middle),
        leads(middle, second, end),
    ensures
        leads(start, first + second, end),
    decreases second.len(),
{
    let whole = first + second;
    if second.len() == 0 {
        assert(whole =~= first);
    } else {
        let before = second.drop_last();
        lemma_shorter(middle, second, end);
        calls_can_be_resumed(start, first, middle, before, after(middle, before));
        let most = first + before;
        assert(whole.drop_last() =~= most);
        assert forall|k: int|
            #![trigger whole.take(k)]
            0 <= k < whole.len() implies op_of(after(start, whole.take(k))) == Some(whole[k].op) by {
            if k < most.len() {
                assert(whole.take(k) =~= most.take(k));
                assert(whole[k] == most[k]);
            } else {
                assert(whole.take(k) =~= most);
                assert(whole[k] == second.last());
            }
        }
    }
}

/// One operation more leads to the next phase.
pub proof fn lemma_one_more(start: Phase, events: Seq<Event>, current: Phase, found: u64)
    requires
        leads(start, events, current),
        op_of(current) is Some,
    ensures
        leads(
            start,
            events.push(Event { op: op_of(current)->0, found }),
            next_of(current, found),
        ),
{
    let more = events.push(Event { op: op_of(current)->0, found });
    assert(more.drop_last() =~= events);
    assert forall|k: int|
        #![trigger more.take(k)]
        0 <= k < more.len() implies op_of(after(start, more.take(k))) == Some(more[k].op) by {
        if k < events.len() {
            assert(more.take(k) =~= events.take(k));
            assert(more[k] == events[k]);
        } else {
            assert(more.take(k) =~= events);
        }
    }
}

/// The events but the last lead to where the last operation was performed.
pub proof fn lemma_shorter(start: Phase, events: Seq<Event>, end: Phase)
    requires
        leads(start, events, end),
        events.len() > 0,
    ensures
        leads(start, events.drop_last(), after(start, events.drop_last())),
        op_of(after(start, events.drop_last())) == Some(events.last().op),
{
    let before = events.drop_last();
    assert(events.take(before.len() as int) =~= before);
    assert forall|k: int|
        #![trigger before.take(k)]
        0 <= k < before.len() implies op_of(after(start, before.take(k))) == Some(before[k].op) by {
        assert(before.take(k) =~= events.take(k));
        assert(before[k] == events[k]);
    }
}

/// A blocking read gets access on the first arrival that finds no flag of a writer, and after
/// every other arrival it takes back that it was counted.
pub proof fn reads_wait_for_writers(events: Seq<Event>, end: Phase)
    requires
        leads(Phase::ReadArriving, events, end),
    ensures
        forall|k: int|
            #![trigger events[k]]
            0 <= k < events.len() ==> events[k].op == if k % 2 == 0 {
                Op::Arrive
            } else {
                Op::Leave
            },
        forall|k: int|
            #![trigger events[k]]
            0 <= k < events.len() - 1 && k % 2 == 0 ==> refuses_reader(events[k].found) is Some,
        end == if events.len() % 2 == 0 {
            Phase::ReadArriving
        } else if refuses_reader(events.last().found) is Some {
            Phase::ReadRetreating
        } else {
            Phase::Reading
        },
    decreases events.len(),
{
    let start = Phase::ReadArriving;
    if events.len() > 0 {
        let before = events.drop_last();
        lemma_shorter(start, events, end);
        let held = after(start, before);
        reads_wait_for_writers(before, held);
        assert(end == next_of(held, events.last().found));
        assert(held is ReadArriving || held is ReadRetreating);
        assert forall|k: int|
            #![trigger events[k]]
            0 <= k < events.len() implies events[k].op == (if k % 2 == 0 {
            Op::Arrive
        } else {
            Op::Leave
        }) by {
            if k < before.len() {
                assert(events[k] == before[k]);
            } else {
                assert(events[k] == events.last());
            }
        }
        assert forall|k: int| #![trigger events[k]] 0 <= k < events.len() - 1 && k % 2
            == 0 implies refuses_reader(events[k].found) is Some by {
            assert(events[k] == before[k]);
            if k == before.len() - 1 {
                assert(before[k] == before.last());
            }
        }
    }
}

/// A blocking write stays a claim until it gets access, and it gets access only when it has the
/// lock flag and finds no reader.
pub proof fn writes_wait_for_readers(start: Phase, events: Seq<Event>, end: Phase)
    requires
        is_claim(start),
        leads(start, events, end),
    ensures
        is_claim(end) || end is Writing,
        end is Writing ==> events.len() > 0 && after(start, events.drop_last()) is WriteDraining
            && parts(events.last().found).readers == 0,
    decreases events.len(),
{
    if events.len() > 0 {
        let before = events.drop_last();
        lemma_shorter(start, events, end);
        writes_wait_for_readers(start, before, after(start, before));
    }
}

/// Why a reader that found the word `seen` may not read, if it may not.
pub fn reader_refusal(seen: u64) -> (r: Option<TryReadError>)
    ensures
        r == refuses_reader(seen),
    opens_invariants none
    no_unwind
{
    if !is_flagged(seen) {
        None
    } else if is_locked(seen) {
        Some(TryReadError::HasWriter)
    } else {
        Some(TryReadError::QueuedWriter)
    }
}

/// Why a writer that found the word `seen` may not have the lock flag, if it may not.
pub fn claim_refusal(seen: u64) -> (r: Option<TryWriteError>)
    ensures
        r == refuses_claim(seen),
    opens_invariants none
    no_unwind
{
    if !is_flagged(seen) {
        None
    } else if is_locked(seen) {
        Some(TryWriteError::HasWriter)
    } else {
        Some(TryWriteError::QueuedWriter)
    }
}

/// Why a writer that has the lock flag and found the word `seen` may not write, if it may not.
pub fn writer_refusal(seen: u64) -> (r: Option<TryWriteError>)
    ensures
        r == refuses_writer(seen),
    opens_invariants none
    no_unwind
{
    let readers: u64 = reader_count(seen);
    if readers > 0 {
        Some(TryWriteError::HasReaders(readers))
    } else {
        None
    }
}

impl Phase {
    /// The operation that a call in this phase performs next, or `None` if it is at rest.
    pub fn op(self) -> (r: Option<Op>)
        ensures
            r == op_of(self),
        opens_invariants none
        no_unwind
    {
        match self {
            Phase::ReadArriving | Phase::TryReadArriving => Some(Op::Arrive),
            Phase::ReadRetreating | Phase::TryReadRetreating(_) | Phase::ReadLeaving => Some(
                Op::Leave,
            ),
            Phase::WriteClaiming | Phase::WriteQueued | Phase::TryWriteClaiming => Some(Op::Claim),
            Phase::WriteQueueing => Some(Op::Queue),
            Phase::WriteUnqueueing => Some(Op::Unqueue),
            Phase::WriteDraining | Phase::TryWriteChecking => Some(Op::Look),
            Phase::TryWriteYielding(_) | Phase::WriteLeaving => Some(Op::Unclaim),
            Phase::Idle
            | Phase::ReadRefused(_)
            | Phase::Reading
            | Phase::WriteRefused(_)
            | Phase::Writing => None,
        }
    }

    /// The phase that follows this one when its operation found the word `seen`.
    pub fn next(self, seen: u64) -> (r: Phase)
        ensures
            r == next_of(self, seen),
        opens_invariants none
        no_unwind
    {
        match self {
            Phase::ReadArriving => if is_flagged(seen) {
                Phase::ReadRetreating
            } else {
                Phase::Reading
            },
            Phase::ReadRetreating => Phase::ReadArriving,
            Phase::TryReadArriving => match reader_refusal(seen) {
                Some(why) => Phase::TryReadRetreating(why),
                None => Phase::Reading,
            },
            Phase::TryReadRetreating(why) => Phase::ReadRefused(why),
            Phase::ReadLeaving => Phase::Idle,
            Phase::WriteClaiming => if is_locked(seen) {
                Phase::WriteQueueing
            } else {
                Phase::WriteDraining
            },
            Phase::WriteQueueing => if is_queued(seen) {
                Phase::WriteQueueing
            } else {
                Phase::WriteQueued
            },
            Phase::WriteQueued => if is_locked(seen) {
                Phase::WriteQueued
            } else {
                Phase::WriteUnqueueing
            },
            Phase::WriteUnqueueing => Phase::WriteDraining,
            Phase::WriteDraining => if reader_count(seen) > 0 {
                Phase::WriteDraining
            } else {
                Phase::Writing
            },
            Phase::TryWriteClaiming => match claim_refusal(seen) {
                Some(TryWriteError::HasWriter) => Phase::WriteRefused(TryWriteError::HasWriter),
                Some(why) => Phase::TryWriteYielding(why),
                None => Phase::TryWriteChecking,
            },
            Phase::TryWriteChecking => match writer_refusal(seen) {
                Some(why) => Phase::TryWriteYielding(why),
                None => Phase::Writing,
            },
            Phase::TryWriteYielding(why) => Phase::WriteRefused(why),
            Phase::WriteLeaving => Phase::Idle,
            _ => self,
        }
    }
}

} // verus!
