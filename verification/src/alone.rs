//! What a call on a lock comes to while no other thread touches the lock.
use vstd::prelude::*;

use crate::phase;
use crate::phase::Phase;
use crate::word;

verus! {

/// Where a call in phase `start` stands, and what has become of the lock word `bits`, after at
/// most `turns` operations of its own and none of anybody else.
pub open spec fn alone(start: Phase, bits: u64, turns: nat) -> (Phase, u64)
    decreases turns,
{
    if turns == 0 {
        (start, bits)
    } else {
        let (at, found) = alone(start, bits, (turns - 1) as nat);
        match phase::op_of(at) {
            None => (at, found),
            Some(op) => (phase::next_of(at, found), word::apply(op, found)),
        }
    }
}

/// A read attempt is refused for the reason that the word gives and leaves the word as it found
/// it, or it gets access and is counted as one reader more.
pub proof fn read_attempts_alone(bits: u64)
    requires
        word::parts(bits).readers < word::READER_MASK,
    ensures
        alone(Phase::TryReadArriving, bits, 2) == match phase::refuses_reader(bits) {
            Some(why) => (Phase::ReadRefused(why), bits),
            None => (Phase::Reading, word::apply(word::Op::Arrive, bits)),
        },
        word::parts(word::apply(word::Op::Arrive, bits)).readers == word::parts(bits).readers + 1,
{
    reveal_with_fuel(alone, 4);
    lemma_leave_undoes_arrive(bits);
}

/// A blocking read gets access at once unless a writer has set a flag, and giving access up
/// restores the word.
pub proof fn leaving_undoes_reading(bits: u64)
    requires
        word::parts(bits).readers < word::READER_MASK,
        phase::refuses_reader(bits) is None,
    ensures
        alone(Phase::ReadArriving, bits, 1) == (
            Phase::Reading,
            word::apply(word::Op::Arrive, bits),
        ),
        alone(Phase::ReadLeaving, word::apply(word::Op::Arrive, bits), 1) == (Phase::Idle, bits),
{
    reveal_with_fuel(alone, 3);
    lemma_leave_undoes_arrive(bits);
}

/// A write attempt is refused for the reason that the word gives and leaves the word as it found
/// it, or it gets access and sets the lock flag.
pub proof fn write_attempts_alone(bits: u64)
    ensures
        alone(Phase::TryWriteClaiming, bits, 3) == match phase::refuses_attempt(bits, bits) {
            Some(why) => (Phase::WriteRefused(why), bits),
            None => (Phase::Writing, word::apply(word::Op::Claim, bits)),
        },
{
    reveal_with_fuel(alone, 5);
    lemma_unclaim_undoes_claim(bits);
    word::operations_change_one_part(word::Op::Claim, bits);
}

/// A blocking write gets access at once if no writer has the lock flag and there are no readers,
/// and giving access up restores the word.
pub proof fn leaving_undoes_writing(bits: u64)
    requires
        !word::parts(bits).locked,
        word::parts(bits).readers == 0,
    ensures
        alone(Phase::WriteClaiming, bits, 2) == (
            Phase::Writing,
            word::apply(word::Op::Claim, bits),
        ),
        alone(Phase::WriteLeaving, word::apply(word::Op::Claim, bits), 1) == (Phase::Idle, bits),
{
    reveal_with_fuel(alone, 4);
    lemma_unclaim_undoes_claim(bits);
    word::operations_change_one_part(word::Op::Claim, bits);
}

/// A queued writer gets access as soon as the lock flag is clear and there are no readers, and
/// then nobody is queued any more.
pub proof fn queued_writers_alone(bits: u64)
    requires
        !word::parts(bits).locked,
        word::parts(bits).queued,
        word::parts(bits).readers == 0,
    ensures
        alone(Phase::WriteQueued, bits, 3) == (Phase::Writing, word::WRITE_LOCK_FLAG),
{
    reveal_with_fuel(alone, 5);
    let claimed = word::apply(word::Op::Claim, bits);
    word::operations_change_one_part(word::Op::Claim, bits);
    word::operations_change_one_part(word::Op::Unqueue, claimed);
    word::a_locked_word_has_one_flag();
    word::parts_determine_the_word(
        word::apply(word::Op::Unqueue, claimed),
        word::WRITE_LOCK_FLAG,
    );
}

/// A blocking write does not get access while another writer has the lock flag or there are
/// readers, and does not change the number of readers.
pub proof fn writes_wait_alone(bits: u64, turns: nat)
    requires
        word::parts(bits).locked || word::parts(bits).readers > 0,
    ensures
        alone(Phase::WriteClaiming, bits, turns).0 != Phase::Writing,
        word::parts(alone(Phase::WriteClaiming, bits, turns).1).readers == word::parts(
            bits,
        ).readers,
{
    lemma_waits(bits, turns);
}

/// Where a blocking write waits.
proof fn lemma_waits(bits: u64, turns: nat)
    requires
        word::parts(bits).locked || word::parts(bits).readers > 0,
    ensures
        ({
            let (phase, left) = alone(Phase::WriteClaiming, bits, turns);
            &&& word::parts(left).readers == word::parts(bits).readers
            &&& if word::parts(bits).locked {
                &&& word::parts(left).locked
                &&& phase is WriteClaiming || phase is WriteQueueing || phase is WriteQueued
            } else if turns == 0 {
                phase is WriteClaiming && left == bits
            } else {
                phase is WriteDraining
            }
        }),
    decreases turns,
{
    if turns > 0 {
        let (phase, left) = alone(Phase::WriteClaiming, bits, (turns - 1) as nat);
        lemma_waits(bits, (turns - 1) as nat);
        word::operations_change_one_part(word::Op::Claim, left);
        word::operations_change_one_part(word::Op::Queue, left);
    }
}

/// Arriving and leaving is doing nothing.
proof fn lemma_leave_undoes_arrive(bits: u64)
    requires
        word::parts(bits).readers < word::READER_MASK,
    ensures
        word::apply(word::Op::Leave, word::apply(word::Op::Arrive, bits)) == bits,
        word::parts(word::apply(word::Op::Arrive, bits)).readers == word::parts(bits).readers + 1,
{
    word::operations_change_one_part(word::Op::Arrive, bits);
}

/// Setting a clear lock flag and flipping it back is doing nothing.
proof fn lemma_unclaim_undoes_claim(bits: u64)
    ensures
        !word::parts(bits).locked ==> word::apply(
            word::Op::Unclaim,
            word::apply(word::Op::Claim, bits),
        ) == bits,
        word::parts(bits).locked ==> word::apply(word::Op::Claim, bits) == bits,
{
    assert(bits & 0x8000_0000_0000_0000 == 0 ==> (bits | 0x8000_0000_0000_0000)
        ^ 0x8000_0000_0000_0000 == bits) by (bit_vector);
    assert(bits & 0x8000_0000_0000_0000 != 0 ==> bits | 0x8000_0000_0000_0000 == bits)
        by (bit_vector);
}

/// The word that the events leave where the first of them finds `bits` and nobody interferes.
pub open spec fn left_by(bits: u64, events: Seq<phase::Event>) -> u64
    decreases events.len(),
{
    if events.len() == 0 {
        bits
    } else {
        word::apply(events.last().op, left_by(bits, events.drop_last()))
    }
}

/// The first of the events finds `bits`, and each of the others what the one before it has left:
/// nobody interferes.
pub open spec fn is_undisturbed(bits: u64, events: Seq<phase::Event>) -> bool
    decreases events.len(),
{
    events.len() > 0 ==> is_undisturbed(bits, events.drop_last()) && events.last().found
        == left_by(bits, events.drop_last())
}

/// A call that nobody interferes with ends where it ends alone, and leaves the word that it leaves
/// alone.
pub proof fn undisturbed_calls_are_alone(
    start: Phase,
    turns: nat,
    bits: u64,
    events: Seq<phase::Event>,
    end: Phase,
)
    requires
        phase::runs(start, turns, events, end),
        is_undisturbed(bits, events),
    ensures
        alone(start, bits, turns) == (end, left_by(bits, events)),
{
    lemma_undisturbed(start, bits, events, end);
    if events.len() < turns {
        lemma_rest(start, bits, events.len(), turns);
    }
}

/// After as many turns as there are events, the call stands where the events lead.
proof fn lemma_undisturbed(start: Phase, bits: u64, events: Seq<phase::Event>, end: Phase)
    requires
        phase::leads(start, events, end),
        is_undisturbed(bits, events),
    ensures
        alone(start, bits, events.len()) == (end, left_by(bits, events)),
    decreases events.len(),
{
    if events.len() > 0 {
        let before = events.drop_last();
        phase::lemma_shorter(start, events, end);
        lemma_undisturbed(start, bits, before, phase::after(start, before));
    }
}

/// A call at rest stays at rest.
pub proof fn lemma_rest(start: Phase, bits: u64, from: nat, to: nat)
    requires
        from <= to,
        phase::op_of(alone(start, bits, from).0) is None,
    ensures
        alone(start, bits, to) == alone(start, bits, from),
    decreases to - from,
{
    if from < to {
        lemma_rest(start, bits, from, (to - 1) as nat);
    }
}

} // verus!
